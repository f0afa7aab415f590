//! Reduction round trips: computing through `n` argument reductions and
//! `n` restorations agrees with the direct computation, up to the
//! rounding error of the working precision.

use apfloat::consts::Consts;
use apfloat::defs::RoundingMode;
use apfloat::defs::Sign;
use apfloat::num::BigFloatNumber;

/// Asserts that `a` and `b` agree to within `good_bits` bits.
fn assert_close(a: &BigFloatNumber, b: &BigFloatNumber, good_bits: i64) {
    let p = a.mantissa_max_bit_len().max(b.mantissa_max_bit_len());
    let d = a.sub(b, p, RoundingMode::NoRound).unwrap();
    if d.is_zero() {
        return;
    }
    let scale = a.exponent() as i64;
    assert!(
        (d.exponent() as i64) <= scale - good_bits,
        "difference too large: diff exponent {} vs value exponent {}",
        d.exponent(),
        scale
    );
}

#[test]
fn cosine_reduction_round_trip() {
    let mut cc = Consts::new().unwrap();
    let p = 320;
    let wide = 512;
    // x = 0.75
    let mut x = BigFloatNumber::from_word(3, p).unwrap();
    x.set_exponent(0);
    let direct = x.cos(p, RoundingMode::ToEven, &mut cc).unwrap();
    for &n in &[0usize, 1, 2, 5] {
        let mut xw = x.clone().unwrap();
        xw.set_precision(wide, RoundingMode::NoRound).unwrap();
        let reduced = xw.cos_arg_reduce(n, RoundingMode::NoRound).unwrap();
        let c_red = reduced.cos(wide, RoundingMode::ToEven, &mut cc).unwrap();
        let mut restored = c_red.cos_arg_restore(n, RoundingMode::NoRound).unwrap();
        restored.set_precision(p, RoundingMode::ToEven).unwrap();
        assert_close(&direct, &restored, (p as i64) - 16);
    }
}

#[test]
fn tangent_reduction_round_trip() {
    let mut cc = Consts::new().unwrap();
    let p = 320;
    let wide = 512;
    // x = 0.625
    let mut x = BigFloatNumber::from_word(5, p).unwrap();
    x.set_exponent(0);
    let direct = x.tan(p, RoundingMode::ToEven, &mut cc).unwrap();
    for &n in &[0usize, 1, 2, 5] {
        let mut xw = x.clone().unwrap();
        xw.set_precision(wide, RoundingMode::NoRound).unwrap();
        let reduced = xw.tan_arg_reduce(n).unwrap();
        let t_red = reduced.tan(wide, RoundingMode::ToEven, &mut cc).unwrap();
        let mut restored = t_red.tan_arg_restore(n, RoundingMode::NoRound).unwrap();
        restored.set_precision(p, RoundingMode::ToEven).unwrap();
        assert_close(&direct, &restored, (p as i64) - 16);
    }
}

#[test]
fn tangent_is_odd() {
    let mut cc = Consts::new().unwrap();
    let p = 256;
    let mut x = BigFloatNumber::from_word(7, p).unwrap();
    x.set_exponent(0);
    let t_pos = x.tan(p, RoundingMode::ToEven, &mut cc).unwrap();
    let mut xn = x.clone().unwrap();
    xn.set_sign(Sign::Neg);
    let mut t_neg = xn.tan(p, RoundingMode::ToEven, &mut cc).unwrap();
    t_neg.inv_sign();
    assert!(t_pos.cmp(&t_neg) == 0);
}

#[test]
fn cosine_is_even() {
    let mut cc = Consts::new().unwrap();
    let p = 256;
    let mut x = BigFloatNumber::from_word(7, p).unwrap();
    x.set_exponent(0);
    let c_pos = x.cos(p, RoundingMode::ToEven, &mut cc).unwrap();
    let mut xn = x.clone().unwrap();
    xn.set_sign(Sign::Neg);
    let c_neg = xn.cos(p, RoundingMode::ToEven, &mut cc).unwrap();
    assert!(c_pos.cmp(&c_neg) == 0);
}
