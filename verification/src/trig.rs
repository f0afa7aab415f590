//! Trigonometric range reduction: folding an argument into one period
//! using the constants cache, and probing how close a reduced argument
//! lies to the tangent's poles.

use vstd::prelude::*;

use crate::consts::Consts;
use crate::defs::Error;
use crate::defs::RoundingMode;
use crate::defs::Sign;
use crate::defs::MAX_P;
use crate::num::BigFloatNumber;

verus! {

impl BigFloatNumber {
    /// Folds the argument into `(-2*pi, 2*pi)`: values of exponent at
    /// most two are already there; larger ones are reduced modulo
    /// `2*pi`, with the constant fetched at a precision wide enough to
    /// absorb the argument's exponent.
    pub fn reduce_trig_arg(&self, cc: &mut Consts, rm: RoundingMode) -> (r: Result<
        BigFloatNumber,
        Error,
    >)
        requires
            self.wf(),
        ensures
            r matches Ok(f) ==> {
                &&& f.wf()
                &&& f.sp_prec() == self.sp_prec()
            },
            self.sp_is_zero() || self.sp_e() <= 2 ==> (r matches Ok(f) && f.sp_m()
                == self.sp_m() && f.sp_e() == self.sp_e() && f.sp_sign() == self.sp_sign()
                && f.sp_inexact() == self.sp_inexact()),
            r matches Err(e) ==> e != Error::InvalidPrecision,
    {
        if self.is_zero() || self.exponent() <= 2 {
            return self.clone();
        }
        let p = self.mantissa_max_bit_len();
        proof {
            crate::defs::lemma_whole_words(p as nat);
        }
        let need64: u64 = p as u64 + self.exponent() as u64 + 64;
        if need64 > (MAX_P - 192) as u64 {
            // the constant cannot be served this wide
            return Err(Error::AllocationError);
        }
        let need: usize = need64 as usize;
        let mut two_pi = cc.pi(need, RoundingMode::NoRound)?;
        let tp_e = two_pi.exponent();
        two_pi.set_exponent(tp_e + 1);
        // whole periods contained in the argument
        let q = self.div(&two_pi, need, RoundingMode::NoRound)?;
        let k = q.trunc_int()?;
        let prod = k.mul(&two_pi, need, RoundingMode::NoRound)?;
        let mut rem = self.sub(&prod, p + 64, RoundingMode::NoRound)?;
        // the truncated quotient can leave one extra period behind
        let mut rem_abs = rem.clone()?;
        rem_abs.set_sign(Sign::Pos);
        let mut tp_abs = two_pi.clone()?;
        tp_abs.set_sign(Sign::Pos);
        if rem_abs.cmp(&tp_abs) >= 0 {
            let mut tp_signed = two_pi.clone()?;
            tp_signed.set_sign(rem.sign());
            rem = rem.sub(&tp_signed, p + 64, RoundingMode::NoRound)?;
        }
        match rem.set_precision(p, rm) {
            Ok(()) => Ok(rem),
            Err(e) => Err(e),
        }
    }

    /// How many extra working bits the closeness of the reduced argument
    /// to a pole of the tangent demands: the cancellation depth against
    /// `pi/2` and `3*pi/2`, clamped to the argument's precision.
    pub fn trig_arg_pi_proximity(&self, cc: &mut Consts, rm: RoundingMode) -> (r: Result<
        usize,
        Error,
    >)
        requires
            self.wf(),
        ensures
            r matches Ok(t) ==> t <= self.sp_prec() + 64,
            r matches Err(e) ==> e != Error::InvalidPrecision,
    {
        let p = self.mantissa_max_bit_len();
        proof {
            crate::defs::lemma_whole_words(p as nat);
        }
        if p + 64 > MAX_P - 192 {
            return Err(Error::AllocationError);
        }
        let mut half_pi = cc.pi(p + 64, rm)?;
        let hp_e = half_pi.exponent();
        half_pi.set_exponent(hp_e - 1);
        let three = BigFloatNumber::from_word(3, 64)?;
        let three_half_pi = half_pi.mul(&three, p + 64, rm)?;
        let mut abs_arg = self.clone()?;
        abs_arg.set_sign(Sign::Pos);
        let t1 = Self::cancellation_depth(&abs_arg, &half_pi, p, rm)?;
        let t2 = Self::cancellation_depth(&abs_arg, &three_half_pi, p, rm)?;
        if t1 > t2 {
            Ok(t1)
        } else {
            Ok(t2)
        }
    }

    /// The number of leading bits lost when subtracting `q` from `x`,
    /// clamped to `p + 64`.
    fn cancellation_depth(x: &Self, q: &Self, p: usize, rm: RoundingMode) -> (r: Result<
        usize,
        Error,
    >)
        requires
            x.wf(),
            q.wf(),
            64 <= p <= MAX_P,
        ensures
            r matches Ok(t) ==> t <= p + 64,
            r matches Err(e) ==> e != Error::InvalidPrecision,
    {
        let d = x.sub(q, p + 64, rm)?;
        if d.is_zero() {
            return Ok(p + 64);
        }
        let de: i64 = d.exponent() as i64;
        if de >= 0 {
            return Ok(0);
        }
        let depth: i64 = -de;
        if depth > (p + 64) as i64 {
            Ok(p + 64)
        } else {
            Ok(depth as usize)
        }
    }
}

} // verus!
