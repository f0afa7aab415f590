//! Cross-checks of the summation strategies: rectangular and Horner
//! evaluation against the brute-force linear evaluation, over a range of
//! iteration counts spanning the cache threshold.

use apfloat::cos::CosPolycoeffGen;
use apfloat::defs::RoundingMode;
use apfloat::num::BigFloatNumber;
use apfloat::series::series_horner;
use apfloat::series::series_linear;
use apfloat::series::series_rectangular;
use apfloat::series::series_run;

/// The cosine series inputs for an argument of one half at precision `p`.
fn cos_inputs(p: usize) -> (BigFloatNumber, BigFloatNumber, BigFloatNumber) {
    let mut x = BigFloatNumber::from_word(1, p).unwrap();
    x.set_exponent(0);
    // x = 1/2; step = first = x^2
    let step = x.mul(&x, p, RoundingMode::NoRound).unwrap();
    let first = step.clone().unwrap();
    let acc = BigFloatNumber::from_word(1, p).unwrap();
    (acc, first, step)
}

/// The strategies sum the same terms in different orders, so their
/// truncation errors may differ in the last few working bits; everything
/// above must agree.
fn assert_same(a: &BigFloatNumber, b: &BigFloatNumber) {
    let p = a.mantissa_max_bit_len();
    assert_eq!(p, b.mantissa_max_bit_len());
    let d = a.sub(b, p, RoundingMode::NoRound).unwrap();
    if d.is_zero() {
        return;
    }
    assert!(
        (d.exponent() as i64) <= (a.exponent() as i64) - (p as i64) + 8,
        "strategy results differ beyond the rounding tail: {} vs {}",
        d.exponent(),
        a.exponent()
    );
}

#[test]
fn rectangular_equals_linear_across_threshold() {
    let p = 1024;
    for &niter in &[50usize, 100, 130, 500] {
        let (acc, first, step) = cos_inputs(p);
        let mut g1 = CosPolycoeffGen::new(p).unwrap();
        let r_rect = series_rectangular(niter, acc, first, step, &mut g1).unwrap();

        let (acc, first, step) = cos_inputs(p);
        let mut g2 = CosPolycoeffGen::new(p).unwrap();
        let r_lin = series_linear(acc, first, step, &mut g2).0.unwrap();

        assert_same(&r_rect, &r_lin);
    }
}

#[test]
fn horner_equals_linear_small_cases() {
    for &p in &[128usize, 256, 320] {
        let (acc, first, step) = cos_inputs(p);
        let mut g1 = CosPolycoeffGen::new(p).unwrap();
        let r_h = series_horner(acc, first, step, &mut g1).unwrap();

        let (acc, first, step) = cos_inputs(p);
        let mut g2 = CosPolycoeffGen::new(p).unwrap();
        let r_lin = series_linear(acc, first, step, &mut g2).0.unwrap();

        assert_same(&r_h, &r_lin);
    }
}

#[test]
fn dispatcher_marks_results_inexact() {
    let p = 256;
    let (acc, first, step) = cos_inputs(p);
    let mut g = CosPolycoeffGen::new(p).unwrap();
    let r = series_run(acc, first, step, 20, &mut g).0.unwrap();
    assert!(r.inexact());
}

#[test]
fn dispatcher_handles_zero_argument() {
    let p = 256;
    let acc = BigFloatNumber::from_word(1, p).unwrap();
    let zero = BigFloatNumber::new(p).unwrap();
    let zero2 = BigFloatNumber::new(p).unwrap();
    let mut g = CosPolycoeffGen::new(p).unwrap();
    let r = series_run(acc, zero, zero2, 20, &mut g).0.unwrap();
    // no terms: the accumulator comes back (marked inexact)
    let one = BigFloatNumber::from_word(1, p).unwrap();
    assert!(r.cmp(&one) == 0);
}
