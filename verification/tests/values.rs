//! Exact-value checks of the floating-point core: construction,
//! arithmetic on small dyadics, comparison, rounding directions, and the
//! constants cache.

use apfloat::consts::Consts;
use apfloat::defs::Error;
use apfloat::defs::RoundingMode;
use apfloat::defs::Sign;
use apfloat::num::BigFloatNumber;

fn word(v: u64, p: usize) -> BigFloatNumber {
    BigFloatNumber::from_word(v, p).unwrap()
}

#[test]
fn small_integer_arithmetic_is_exact() {
    let p = 128;
    let a = word(7, p);
    let b = word(5, p);
    let s = a.add(&b, p, RoundingMode::NoRound).unwrap();
    assert!(s.cmp(&word(12, p)) == 0);
    let d = a.sub(&b, p, RoundingMode::NoRound).unwrap();
    assert!(d.cmp(&word(2, p)) == 0);
    let m = a.mul(&b, p, RoundingMode::NoRound).unwrap();
    assert!(m.cmp(&word(35, p)) == 0);
    let q = word(35, p).div(&b, p, RoundingMode::NoRound).unwrap();
    assert!(q.cmp(&a) == 0);
    assert!(!s.inexact() && !d.inexact() && !m.inexact() && !q.inexact());
}

#[test]
fn subtraction_cancels_to_zero() {
    let p = 192;
    let a = word(123456789, p);
    let d = a.sub(&a, p, RoundingMode::NoRound).unwrap();
    assert!(d.is_zero());
}

#[test]
fn division_rounding_directions() {
    let p = 64;
    // 1/3 = 0.0101... binary: check directed modes straddle the value
    let one = word(1, p);
    let three = word(3, p);
    let down = one.div(&three, p, RoundingMode::Down).unwrap();
    let up = one.div(&three, p, RoundingMode::Up).unwrap();
    assert!(down.cmp(&up) == -1);
    assert!(down.inexact() && up.inexact());
    // the two candidates differ by exactly one unit in the last place
    let diff = up.sub(&down, p, RoundingMode::NoRound).unwrap();
    assert!(!diff.is_zero());
    assert_eq!(diff.exponent(), down.exponent() - 63);
}

#[test]
fn comparison_orders_values() {
    let p = 128;
    let a = word(9, p);
    let b = word(10, p);
    assert!(a.cmp(&b) == -1);
    assert!(b.cmp(&a) == 1);
    assert!(a.cmp(&a) == 0);
    let mut neg = a.clone().unwrap();
    neg.set_sign(Sign::Neg);
    assert!(neg.cmp(&a) == -1);
    let zero = BigFloatNumber::new(64).unwrap();
    assert!(neg.cmp(&zero) == -1);
    assert!(a.cmp(&zero) == 1);
}

#[test]
fn precision_change_round_trips() {
    let p = 128;
    let mut a = word(0xDEADBEEF, p);
    a.set_precision(512, RoundingMode::NoRound).unwrap();
    assert_eq!(a.mantissa_max_bit_len(), 512);
    assert!(a.cmp(&word(0xDEADBEEF, p)) == 0);
    a.set_precision(64, RoundingMode::ToEven).unwrap();
    assert!(a.cmp(&word(0xDEADBEEF, 64)) == 0);
}

#[test]
fn try_set_precision_rejects_ambiguous_tail() {
    // all-zero guard bits: the rounding cannot be certified
    let mut a = word(1, 512);
    let ok = a.try_set_precision(128, RoundingMode::ToEven, 256).unwrap();
    assert!(!ok);
    assert_eq!(a.mantissa_max_bit_len(), 512);
    // a busy tail: rounding is certified
    let one = word(1, 512);
    let three = word(3, 512);
    let mut q = one.div(&three, 512, RoundingMode::NoRound).unwrap();
    let ok = q.try_set_precision(128, RoundingMode::ToEven, 256).unwrap();
    assert!(ok);
    assert_eq!(q.mantissa_max_bit_len(), 128);
}

#[test]
fn constants_have_expected_leading_words() {
    let mut cc = Consts::new().unwrap();
    let pi = cc.pi(64, RoundingMode::NoRound).unwrap();
    // pi = 0.1100100100001111... * 2^2
    assert_eq!(pi.exponent(), 2);
    let e = cc.euler(64, RoundingMode::NoRound).unwrap();
    assert_eq!(e.exponent(), 2);
    let ln2 = cc.ln2(64, RoundingMode::NoRound).unwrap();
    assert_eq!(ln2.exponent(), 0);
    let ln10 = cc.ln10(64, RoundingMode::NoRound).unwrap();
    assert_eq!(ln10.exponent(), 2);
    // cross-check: ln10 - 3*ln2 = ln(1.25) is about 0.223, exponent -2
    let p = 256;
    let ln2w = cc.ln2(p, RoundingMode::NoRound).unwrap();
    let ln10w = cc.ln10(p, RoundingMode::NoRound).unwrap();
    let three = word(3, p);
    let t = ln2w.mul(&three, p, RoundingMode::NoRound).unwrap();
    let r = ln10w.sub(&t, p, RoundingMode::NoRound).unwrap();
    assert_eq!(r.exponent(), -2);
    assert!(r.sign() == Sign::Pos);
}

#[test]
fn error_variants_are_produced() {
    let mut cc = Consts::new().unwrap();
    let a = word(1, 64);
    // invalid precision at the driver's entry
    assert!(matches!(a.cos(0, RoundingMode::ToEven, &mut cc), Err(Error::InvalidPrecision)));
    assert!(matches!(a.tan(0, RoundingMode::ToEven, &mut cc), Err(Error::InvalidPrecision)));
    assert!(matches!(
        a.cos(1000000, RoundingMode::ToEven, &mut cc),
        Err(Error::InvalidPrecision)
    ));
    // division by zero
    let zero = BigFloatNumber::new(64).unwrap();
    assert!(matches!(
        a.div(&zero, 64, RoundingMode::NoRound),
        Err(Error::DivisionByZero)
    ));
    // exponent overflow
    let mut big = word(1, 64);
    big.set_exponent(2147483647);
    assert!(matches!(
        big.mul(&big, 64, RoundingMode::NoRound),
        Err(Error::ExponentOverflow(_))
    ));
    // the memory cap: a constant beyond what can be served
    assert!(matches!(
        cc.pi(262000, RoundingMode::NoRound),
        Err(Error::AllocationError)
    ));
}

#[test]
fn rounding_ties_go_to_even() {
    // 1 + 2^-64 at 128 bits: the discarded half-unit is an exact tie, so
    // rounding to 64 bits keeps the even mantissa: exactly one
    let one = word(1, 128);
    let mut tie = BigFloatNumber::unit_at(64).unwrap();
    tie.set_exponent(-63);
    let mut v = one.add(&tie, 128, RoundingMode::NoRound).unwrap();
    v.set_precision(64, RoundingMode::ToEven).unwrap();
    assert!(v.cmp(&word(1, 64)) == 0);
    // 1 + 2^-63 + 2^-64: the tie now sits above an odd mantissa and
    // rounds up to 1 + 2^-62
    let mut low = BigFloatNumber::unit_at(64).unwrap();
    low.set_exponent(-62);
    let v2 = one.add(&low, 128, RoundingMode::NoRound).unwrap();
    let mut v2 = v2.add(&tie, 128, RoundingMode::NoRound).unwrap();
    v2.set_precision(64, RoundingMode::ToEven).unwrap();
    let mut up = BigFloatNumber::unit_at(64).unwrap();
    up.set_exponent(-61);
    let expect = word(1, 64).add(&up, 64, RoundingMode::NoRound).unwrap();
    assert!(v2.cmp(&expect) == 0);
}

#[test]
fn far_operand_leaves_a_sticky_trace() {
    // subtracting a value far below the kept window must still nudge a
    // directed rounding: 1 - tiny rounds down to the predecessor of one
    let one = word(1, 64);
    let tiny = BigFloatNumber::min_positive(64).unwrap();
    let down = one.sub(&tiny, 64, RoundingMode::Down).unwrap();
    let pred = BigFloatNumber::from_raw_parts(vec![u64::MAX], Sign::Pos, 0).unwrap();
    assert!(down.cmp(&pred) == 0);
    // while rounding to nearest keeps one itself
    let even = one.sub(&tiny, 64, RoundingMode::ToEven).unwrap();
    assert!(even.cmp(&one) == 0);
    assert!(even.inexact());
}

#[test]
fn reciprocal_of_powers_is_exact() {
    let p = 128;
    let four = word(4, p);
    let r = four.reciprocal(p, RoundingMode::NoRound).unwrap();
    // 1/4 = 0.25: exponent -1, normalized mantissa
    assert_eq!(r.exponent(), -1);
    let q = word(1, p).div(&four, p, RoundingMode::NoRound).unwrap();
    assert!(r.cmp(&q) == 0);
}

#[test]
fn computed_constants_match_the_tables() {
    // both paths truncate the true constants, so they agree bit for bit
    let mut cc = Consts::new().unwrap();
    for &p in &[320usize, 512, 1024] {
        let t = cc.pi(p, RoundingMode::NoRound).unwrap();
        let c = apfloat::consts::pi_computed(p).unwrap();
        assert!(t.cmp(&c) == 0);
        let t = cc.euler(p, RoundingMode::NoRound).unwrap();
        let c = apfloat::consts::euler_computed(p).unwrap();
        assert!(t.cmp(&c) == 0);
        let t = cc.ln2(p, RoundingMode::NoRound).unwrap();
        let c = apfloat::consts::ln2_computed(p).unwrap();
        assert!(t.cmp(&c) == 0);
        let t = cc.ln10(p, RoundingMode::NoRound).unwrap();
        let c = apfloat::consts::ln10_computed(p).unwrap();
        assert!(t.cmp(&c) == 0);
    }
}

#[test]
fn min_positive_is_smallest() {
    let p = 128;
    let tiny = BigFloatNumber::min_positive(p).unwrap();
    assert!(!tiny.is_zero());
    let half = tiny.div(&word(2, p), p, RoundingMode::ToZero).unwrap();
    assert!(half.is_zero());
}
