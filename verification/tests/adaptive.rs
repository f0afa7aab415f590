//! The verify-and-retry loop terminates across a battery of inputs,
//! including arguments engineered to sit close to rounding boundaries.

use apfloat::consts::Consts;
use apfloat::defs::RoundingMode;
use apfloat::num::BigFloatNumber;

#[test]
fn adaptive_rounding_terminates_on_battery() {
    let mut cc = Consts::new().unwrap();
    let p = 192;
    for w in 1u64..40 {
        let mut x = BigFloatNumber::from_word(2 * w + 1, p).unwrap();
        x.set_exponent((w % 5) as i32 - 2);
        let c = x.cos(p, RoundingMode::ToEven, &mut cc).unwrap();
        assert!(c.mantissa_max_bit_len() == p);
        let t = x.tan(p, RoundingMode::ToEven, &mut cc).unwrap();
        assert!(t.mantissa_max_bit_len() == p);
    }
}

#[test]
fn adaptive_rounding_terminates_near_boundary() {
    let mut cc = Consts::new().unwrap();
    // an argument agreeing with pi/2 to 128 bits forces several retries
    let p = 128;
    let mut near_pole = cc.pi(p, RoundingMode::NoRound).unwrap();
    near_pole.set_exponent(1);
    for &req in &[64usize, 128, 192] {
        let t = near_pole.tan(req, RoundingMode::ToEven, &mut cc).unwrap();
        assert!(t.mantissa_max_bit_len() == ((req + 63) / 64) * 64);
        let c = near_pole.cos(req, RoundingMode::ToEven, &mut cc).unwrap();
        assert!(c.mantissa_max_bit_len() == ((req + 63) / 64) * 64);
    }
}

#[test]
fn adaptive_rounding_all_modes() {
    let mut cc = Consts::new().unwrap();
    let p = 128;
    let mut x = BigFloatNumber::from_word(3, p).unwrap();
    x.set_exponent(0);
    let modes = [
        RoundingMode::NoRound,
        RoundingMode::ToEven,
        RoundingMode::ToOdd,
        RoundingMode::ToZero,
        RoundingMode::FromZero,
        RoundingMode::Up,
        RoundingMode::Down,
    ];
    for rm in modes {
        let c = x.cos(p, rm, &mut cc).unwrap();
        assert!(!c.is_zero());
        let t = x.tan(p, rm, &mut cc).unwrap();
        assert!(!t.is_zero());
    }
}
