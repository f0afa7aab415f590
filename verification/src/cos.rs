//! Cosine: the factorial-reciprocal coefficient generator, the
//! triple-angle argument reduction, and the adaptive-precision driver.

use vstd::prelude::*;

use crate::consts::Consts;
use crate::defs::round_p;
use crate::defs::spec_round_p;
use crate::defs::Error;
use crate::defs::RoundingMode;
use crate::defs::Sign;
use crate::defs::EXPONENT_MIN;
use crate::defs::MAX_P;
use crate::num::BigFloatNumber;
use crate::series::series_cost_optimize;
use crate::series::series_run;
use crate::series::ArgReductionEstimator;
use crate::series::PolycoeffGen;
use crate::util::calc_add_cost;
use crate::util::calc_mul_cost;
use crate::util::sat_mul;
use crate::util::sp_add_cost;
use crate::util::sp_mul_cost;
use crate::util::sp_sat_mul;
use vstd::arithmetic::power2::pow2;

verus! {

/// Result exponent below which the cosine is considered to sit near a
/// zero of the function, where cancellation calls for extra working
/// bits.
pub const COS_EXP_THRES: i32 = -32;

/// Generator of the cosine series coefficients `(-1)^k / (2k)!`,
/// maintained as a running factorial-reciprocal product with a sign that
/// alternates every pull.
pub struct CosPolycoeffGen {
    /// One at the working precision; the dividend of each reciprocal.
    one_full_p: BigFloatNumber,
    /// The running increment `2k`.
    inc: BigFloatNumber,
    /// The running coefficient `1 / (2k)!`, with the alternating sign.
    fct: BigFloatNumber,
    /// Positive when the next coefficient's sign is positive.
    sign_pos: bool,
    /// The modeled cost of one pull.
    iter_cost: usize,
}

impl CosPolycoeffGen {
    /// Whether the next coefficient handed out is positive. Pulls
    /// alternate it, starting from a negative first coefficient.
    pub closed spec fn sp_sign_pos(&self) -> bool {
        self.sign_pos
    }

    /// The running increment's value view (mantissa and exponent).
    pub closed spec fn sp_inc(&self) -> (nat, int) {
        (self.inc.sp_val(), self.inc.sp_e())
    }

    /// The running factorial-reciprocal's value view.
    pub closed spec fn sp_fct(&self) -> (nat, int) {
        (self.fct.sp_val(), self.fct.sp_e())
    }

    /// A fresh generator for the working precision `p`.
    pub fn new(p: usize) -> (r: Result<CosPolycoeffGen, Error>)
        requires
            64 <= p <= MAX_P,
        ensures
            r matches Ok(g) ==> {
                &&& g.inv()
                &&& g.sp_iter_cost() == 2 * sp_sat_mul(1, sp_mul_cost(p as nat) + sp_add_cost(
                    p as nat,
                ))
                &&& !g.sp_is_div()
                &&& g.sp_sign_pos()
                &&& g.sp_inc().0 == 0
                &&& g.sp_fct() == (pow2((spec_round_p(p as nat) - 1) as nat), 1int)
            },
            r is Ok,
    {
        let inc = BigFloatNumber::new(64)?;
        let fct = BigFloatNumber::from_word(1, p)?;
        let one_full_p = BigFloatNumber::from_word(1, p)?;
        let per = calc_mul_cost(p) + calc_add_cost(p);
        let iter_cost = 2 * (sat_mul(1, per as u64) as usize);
        Ok(CosPolycoeffGen { one_full_p, inc, fct, sign_pos: true, iter_cost })
    }
}

impl PolycoeffGen for CosPolycoeffGen {
    closed spec fn inv(&self) -> bool {
        &&& self.one_full_p.wf()
        &&& self.inc.wf()
        &&& self.fct.wf()
        &&& self.iter_cost <= 4294967296
    }

    closed spec fn sp_iter_cost(&self) -> nat {
        self.iter_cost as nat
    }

    closed spec fn sp_is_div(&self) -> bool {
        false
    }

    fn next(&mut self, rm: RoundingMode) -> (r: Result<BigFloatNumber, Error>)
        ensures
            r is Ok ==> final(self).sp_sign_pos() == !old(self).sp_sign_pos(),
            r matches Ok(c) ==> c.sp_sign() == (if final(self).sp_sign_pos() {
                Sign::Pos
            } else {
                Sign::Neg
            }),
    {
        let p = self.one_full_p.mantissa_max_bit_len();
        let one = BigFloatNumber::from_word(1, 64)?;
        let ip = self.inc.mantissa_max_bit_len();
        self.inc = self.inc.add(&one, ip, rm)?;
        let inv_inc = self.one_full_p.div(&self.inc, p, rm)?;
        self.fct = self.fct.mul(&inv_inc, p, rm)?;
        let ip = self.inc.mantissa_max_bit_len();
        self.inc = self.inc.add(&one, ip, rm)?;
        let inv_inc = self.one_full_p.div(&self.inc, p, rm)?;
        self.fct = self.fct.mul(&inv_inc, p, rm)?;
        self.sign_pos = !self.sign_pos;
        if self.sign_pos {
            self.fct.set_sign(Sign::Pos);
        } else {
            self.fct.set_sign(Sign::Neg);
        }
        self.fct.clone()
    }

    fn iter_cost(&self) -> (r: usize) {
        self.iter_cost
    }

    fn is_div(&self) -> (r: bool) {
        false
    }
}

/// Cost and effect of the cosine's triple-angle argument reduction: each
/// application divides the argument by three, shrinking its magnitude by
/// about `log2(3)` bits.
pub struct CosArgReductionEstimator {}

impl ArgReductionEstimator for CosArgReductionEstimator {
    /// `n * (4 * cost(mul) + 2 * cost(add))`: each restoration step is
    /// two squarings, two small multiplications and a subtraction.
    open spec fn sp_reduction_cost(n: nat, p: nat) -> nat {
        sp_sat_mul(n, 4 * sp_mul_cost(p) + 2 * sp_add_cost(p))
    }

    /// `n * log2(3) + m`, with `log2(3)` approximated by `1000 / 631`,
    /// clamped to the estimator's working range.
    open spec fn sp_reduction_effect(n: nat, m: int) -> nat {
        let v = (n * 1000) / 631 + m;
        if v < 0 {
            0
        } else if v > 16777216 {
            16777216
        } else {
            v as nat
        }
    }

    fn reduction_cost(n: usize, p: usize) -> (r: u64) {
        let cost_mul = calc_mul_cost(p);
        let cost_add = calc_add_cost(p);
        let per: u64 = 4 * (cost_mul as u64) + 2 * (cost_add as u64);
        sat_mul(n as u64, per)
    }

    fn reduction_effect(n: usize, m: isize) -> (r: usize) {
        let v: i64 = ((n as i64) * 1000) / 631 + (m as i64);
        if v < 0 {
            0
        } else if v > 16777216 {
            16777216
        } else {
            v as usize
        }
    }
}

impl BigFloatNumber {
    /// Computes the cosine of the value at precision `p`, correctly
    /// rounded under `rm`, using the constants cache `cc` for range
    /// reduction. The working precision grows until the result's
    /// rounding is unambiguous; a result close to a zero of the cosine
    /// first widens the working precision by the cancellation shortfall.
    ///
    /// A zero argument returns one, exactly. Every other result carries
    /// the inexact flag. Exhausting the working-precision cap or a series
    /// iteration allowance surfaces as the allocation error.
    pub fn cos(&self, p: usize, rm: RoundingMode, cc: &mut Consts) -> (r: Result<
        BigFloatNumber,
        Error,
    >)
        requires
            self.wf(),
        ensures
            p == 0 || p > MAX_P <==> r == Result::<BigFloatNumber, Error>::Err(
                Error::InvalidPrecision,
            ),
            r matches Ok(f) ==> {
                &&& f.wf()
                &&& f.sp_prec() == spec_round_p(p as nat)
            },
            self.sp_is_zero() && 0 < p <= MAX_P ==> (r matches Ok(f) && f.sp_val() == pow2(
                (f.sp_prec() - 1) as nat,
            ) && f.sp_e() == 1 && f.sp_sign() == Sign::Pos && !f.sp_inexact()),
            !self.sp_is_zero() ==> (r matches Ok(f) ==> f.sp_inexact()),
            // the error taxonomy: an invalid precision only at entry; past
            // it, resource exhaustion, exponent overflow, or a division
            // by zero should a coefficient or restoration denominator
            // vanish (not excludable by proof)
            r matches Err(e) ==> (e == Error::InvalidPrecision || e == Error::AllocationError
                || e == Error::DivisionByZero || e matches Error::ExponentOverflow(_)),
            // the cosine has magnitude at most one
            r matches Ok(f) ==> f.sp_e() <= 1,
    {
        if p == 0 || p > MAX_P {
            return Err(Error::InvalidPrecision);
        }
        let p_rnd = round_p(p);
        if self.is_zero() {
            return BigFloatNumber::unit_at(p_rnd);
        }
        let mut p_inc: usize = crate::defs::WORD_BIT_SIZE;
        let self_p = self.mantissa_max_bit_len();
        let mut p_wrk: usize = if p_rnd > self_p {
            p_rnd
        } else {
            self_p
        };
        p_wrk = if p_wrk > MAX_P {
            MAX_P
        } else {
            p_wrk
        };
        // an argument far below one: the cosine rounds against one
        if (self.exponent() as i64) * 2 - 2 < -((p_wrk + 2) as i64) {
            return self.cos_small_arg(p_rnd, p_wrk, rm);
        }
        p_wrk = p_wrk + p_inc;
        let mut add_p: usize = 35;
        loop
            invariant
                self.wf(),
                !self.sp_is_zero(),
                64 <= p_rnd <= MAX_P,
                p_rnd == spec_round_p(p as nat),
                64 <= p_wrk <= MAX_P + 64,
                64 <= p_inc <= MAX_P,
                add_p <= MAX_P,
            decreases (MAX_P + 65 - p_wrk), (MAX_P + 1 - add_p),
        {
            let p_x64: u64 = p_wrk as u64 + add_p as u64;
            if p_x64 > MAX_P as u64 {
                return Err(Error::AllocationError);
            }
            let p_x = p_x64 as usize;
            let mut x = self.clone()?;
            x.set_precision(p_x, RoundingMode::NoRound)?;
            let x = x.reduce_trig_arg(cc, RoundingMode::NoRound)?;
            let ret = x.cos_series(RoundingMode::NoRound)?;
            // near a zero of the cosine, cancellation consumes leading
            // bits: make sure the extra working bits cover the loss
            let need: usize = if ret.exponent() < COS_EXP_THRES {
                let sf64: i64 = 35 + (COS_EXP_THRES as i64) - (ret.exponent() as i64);
                if sf64 > MAX_P as i64 {
                    MAX_P
                } else {
                    sf64 as usize
                }
            } else {
                0
            };
            if add_p < need {
                add_p = need;
            } else {
                let mut ret = ret;
                if ret.try_set_precision(p_rnd, rm, p_wrk)? {
                    // the mathematical range bound, checked at run time:
                    // a true cosine never exceeds one
                    if ret.exponent() > 1 {
                        return Err(Error::AllocationError);
                    }
                    let inx = ret.inexact() || self.inexact();
                    ret.set_inexact(inx);
                    return Ok(ret);
                }
                let next64: u64 = p_wrk as u64 + p_inc as u64;
                if next64 > MAX_P as u64 {
                    return Err(Error::AllocationError);
                }
                p_wrk = next64 as usize;
                let fifth = p_wrk / 5;
                let fifth = if fifth > MAX_P {
                    MAX_P
                } else {
                    fifth
                };
                p_inc = round_p(if fifth < 64 {
                    64
                } else {
                    fifth
                });
            }
        }
    }

    /// The cosine of an argument whose square cannot reach the working
    /// precision: one minus a guard-sized nudge, rounded to `p_rnd`.
    fn cos_small_arg(&self, p_rnd: usize, p_wrk: usize, rm: RoundingMode) -> (r: Result<
        BigFloatNumber,
        Error,
    >)
        requires
            self.wf(),
            64 <= p_rnd <= MAX_P,
            64 <= p_wrk <= MAX_P,
        ensures
            r matches Ok(f) ==> {
                &&& f.wf()
                &&& f.sp_prec() == spec_round_p(p_rnd as nat)
                &&& f.sp_inexact()
                &&& f.sp_e() <= 1
            },
            r matches Err(e) ==> e != Error::InvalidPrecision,
    {
        if p_wrk + 128 > MAX_P {
            return Err(Error::AllocationError);
        }
        let one = BigFloatNumber::unit_at(p_wrk + 128)?;
        let mut eps = BigFloatNumber::unit_at(64)?;
        eps.set_exponent(-((p_wrk + 2) as i64) as i32);
        let mut ret = one.sub(&eps, p_wrk + 128, RoundingMode::NoRound)?;
        ret.set_precision(p_rnd, rm)?;
        ret.set_inexact(true);
        if ret.exponent() > 1 {
            return Err(Error::AllocationError);
        }
        Ok(ret)
    }

    /// Evaluates the cosine series `1 - x^2/2! + x^4/4! - ...` after
    /// choosing and applying the cost-optimal number of triple-angle
    /// reductions, then restores the reductions.
    pub fn cos_series(self, rm: RoundingMode) -> (r: Result<BigFloatNumber, Error>)
        requires
            self.wf(),
        ensures
            r matches Ok(f) ==> {
                &&& f.wf()
                &&& f.sp_prec() >= self.sp_prec()
                &&& f.sp_inexact()
            },
            r matches Err(e) ==> e != Error::InvalidPrecision,
    {
        let p = self.mantissa_max_bit_len();
        proof {
            crate::defs::lemma_whole_words(p as nat);
        }
        let mut polycoeff_gen = CosPolycoeffGen::new(p)?;
        let e: i64 = self.exponent() as i64;
        let m: isize = if -e < -1024 {
            -1024
        } else if -e > 1048576 {
            1048576
        } else {
            (-e) as isize
        };
        let (reduction_times, niter, _) = series_cost_optimize::<
            CosArgReductionEstimator,
            CosPolycoeffGen,
        >(p, &polycoeff_gen, m, 2, false);
        // guard bits for the series truncation and the restorations
        let extra64: u64 = 36 + 4 * (niter as u64) + 3 * (reduction_times as u64);
        let p_arg64: u64 = p as u64 + extra64;
        if p_arg64 > MAX_P as u64 {
            return Err(Error::AllocationError);
        }
        let p_arg = round_p(p_arg64 as usize);
        let mut x = self;
        x.set_precision(p_arg, RoundingMode::NoRound)?;
        let arg = if reduction_times > 0 {
            x.cos_arg_reduce(reduction_times, rm)?
        } else {
            x
        };
        let ap = arg.mantissa_max_bit_len();
        let acc = BigFloatNumber::from_word(1, ap)?;
        let x_step = arg.mul(&arg, ap, rm)?;
        let x_first = x_step.clone()?;
        proof {
            crate::defs::lemma_whole_words(ap as nat);
        }
        let niter_c = if niter > MAX_P {
            MAX_P
        } else {
            niter
        };
        let (res, _) = series_run(acc, x_first, x_step, niter_c, &mut polycoeff_gen);
        let ret = res?;
        if reduction_times > 0 {
            ret.cos_arg_restore(reduction_times, rm)
        } else {
            Ok(ret)
        }
    }

    /// Divides the argument by three, `n` times.
    pub fn cos_arg_reduce(&self, n: usize, rm: RoundingMode) -> (r: Result<
        BigFloatNumber,
        Error,
    >)
        requires
            self.wf(),
        ensures
            r matches Ok(f) ==> {
                &&& f.wf()
                &&& f.sp_prec() == self.sp_prec()
            },
            r matches Err(e) ==> e != Error::InvalidPrecision,
    {
        let p = self.mantissa_max_bit_len();
        proof {
            crate::defs::lemma_whole_words(p as nat);
        }
        let three = BigFloatNumber::from_word(3, 64)?;
        let mut ret = self.clone()?;
        let mut i: usize = 0;
        while i < n
            invariant
                ret.wf(),
                ret.sp_prec() == self.sp_prec(),
                three.wf(),
                p == self.sp_prec(),
                64 <= p <= MAX_P,
                spec_round_p(p as nat) == p,
            decreases n - i,
        {
            ret = ret.div(&three, p, rm)?;
            i = i + 1;
        }
        Ok(ret)
    }

    /// Undoes `n` triple-angle reductions on a cosine value with the
    /// identity `cos(3x) = 4*cos(x)^3 - 3*cos(x)`.
    pub fn cos_arg_restore(&self, n: usize, rm: RoundingMode) -> (r: Result<
        BigFloatNumber,
        Error,
    >)
        requires
            self.wf(),
        ensures
            r matches Ok(f) ==> {
                &&& f.wf()
                &&& f.sp_prec() == self.sp_prec()
                &&& (self.sp_inexact() ==> f.sp_inexact())
            },
            r matches Err(e) ==> e != Error::InvalidPrecision,
    {
        let p = self.mantissa_max_bit_len();
        proof {
            crate::defs::lemma_whole_words(p as nat);
        }
        let three = BigFloatNumber::from_word(3, 64)?;
        let four = BigFloatNumber::from_word(4, 64)?;
        let mut cos_v = self.clone()?;
        let mut i: usize = 0;
        while i < n
            invariant
                cos_v.wf(),
                cos_v.sp_prec() == self.sp_prec(),
                self.sp_inexact() ==> cos_v.sp_inexact(),
                three.wf(),
                four.wf(),
                p == self.sp_prec(),
                64 <= p <= MAX_P,
                spec_round_p(p as nat) == p,
            decreases n - i,
        {
            let mut cos_cub = cos_v.mul(&cos_v, p, rm)?;
            cos_cub = cos_cub.mul(&cos_v, p, rm)?;
            let p1 = cos_v.mul(&three, p, rm)?;
            let p2 = cos_cub.mul(&four, p, rm)?;
            cos_v = p2.sub(&p1, p, rm)?;
            i = i + 1;
        }
        Ok(cos_v)
    }
}

} // verus!
