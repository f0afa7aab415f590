//! Tangent: a cost-only coefficient generator, the halving argument
//! reduction with its double-angle restoration, a fused sine/cosine
//! recurrence for the numeric work, and the adaptive-precision driver.

use vstd::prelude::*;

use crate::consts::Consts;
use crate::defs::round_p;
use crate::defs::spec_round_p;
use crate::defs::Error;
use crate::defs::RoundingMode;
use crate::defs::EXPONENT_MIN;
use crate::defs::MAX_P;
use crate::num::BigFloatNumber;
use crate::series::series_cost_optimize;
use crate::series::ArgReductionEstimator;
use crate::series::PolycoeffGen;
use crate::util::calc_add_cost;
use crate::util::calc_mul_cost;
use crate::util::sat_mul;
use crate::util::sp_add_cost;
use crate::util::sp_mul_cost;
use crate::util::sp_sat_mul;

verus! {

/// Coefficient generator for the tangent. It serves cost estimation
/// only: the numeric work runs through the fused recurrence, so each
/// pull yields the unit value, while the pull cost reflects the
/// recurrence's nine multiplications and two additions per step.
pub struct TanPolycoeffGen {
    /// The modeled cost of one notional pull.
    iter_cost: usize,
}

impl TanPolycoeffGen {
    /// A fresh generator for the working precision `p`.
    pub fn new(p: usize) -> (r: Result<TanPolycoeffGen, Error>)
        requires
            64 <= p <= MAX_P,
        ensures
            r matches Ok(g) ==> {
                &&& g.inv()
                &&& !g.sp_is_div()
                &&& g.sp_iter_cost() == 9 * sp_mul_cost(p as nat) + 2 * (sp_add_cost(p as nat)
                    + sp_add_cost(64))
            },
            r is Ok,
    {
        let iter_cost = 9 * calc_mul_cost(p) + 2 * (calc_add_cost(p) + calc_add_cost(64));
        Ok(TanPolycoeffGen { iter_cost })
    }
}

impl PolycoeffGen for TanPolycoeffGen {
    closed spec fn inv(&self) -> bool {
        self.iter_cost <= 4294967296
    }

    closed spec fn sp_iter_cost(&self) -> nat {
        self.iter_cost as nat
    }

    closed spec fn sp_is_div(&self) -> bool {
        false
    }

    fn next(&mut self, _rm: RoundingMode) -> (r: Result<BigFloatNumber, Error>)
        ensures
            r is Ok,
            r matches Ok(c) ==> (c.sp_val() == vstd::arithmetic::power2::pow2(63) && c.sp_e()
                == 1 && !c.sp_is_zero()),
    {
        BigFloatNumber::from_word(1, 64)
    }

    fn iter_cost(&self) -> (r: usize) {
        self.iter_cost
    }

    fn is_div(&self) -> (r: bool) {
        false
    }
}

/// Cost and effect of the tangent's halving argument reduction: each
/// application halves the argument, shrinking its magnitude by exactly
/// one bit.
pub struct TanArgReductionEstimator {}

impl ArgReductionEstimator for TanArgReductionEstimator {
    /// `n * (2 * cost(mul) + cost(add))`: each double-angle restoration
    /// is a squaring, a division and a subtraction.
    open spec fn sp_reduction_cost(n: nat, p: nat) -> nat {
        sp_sat_mul(n, 2 * sp_mul_cost(p) + sp_add_cost(p))
    }

    /// `n + m`, clamped to the estimator's working range.
    open spec fn sp_reduction_effect(n: nat, m: int) -> nat {
        let v = n + m;
        if v < 0 {
            0
        } else if v > 16777216 {
            16777216
        } else {
            v as nat
        }
    }

    fn reduction_cost(n: usize, p: usize) -> (r: u64) {
        let cost_mul = calc_mul_cost(p);
        let cost_add = calc_add_cost(p);
        let per: u64 = 2 * (cost_mul as u64) + cost_add as u64;
        sat_mul(n as u64, per)
    }

    fn reduction_effect(n: usize, m: isize) -> (r: usize) {
        let v: i64 = n as i64 + m as i64;
        if v < 0 {
            0
        } else if v > 16777216 {
            16777216
        } else {
            v as usize
        }
    }
}

impl BigFloatNumber {
    /// Computes the tangent of the value at precision `p`, correctly
    /// rounded under `rm`, using the constants cache `cc` for range
    /// reduction. The working precision grows until the result's
    /// rounding is unambiguous; an argument close to a pole of the
    /// tangent first widens the working precision by the cancellation
    /// depth.
    ///
    /// A zero argument returns a zero of the same sign. An argument so
    /// small that its cube cannot reach the working precision comes back
    /// unchanged apart from rounding to `p`, by the small-angle
    /// identity. Exhausting the working-precision cap or a series
    /// iteration allowance surfaces as the allocation error.
    pub fn tan(&self, p: usize, rm: RoundingMode, cc: &mut Consts) -> (r: Result<
        BigFloatNumber,
        Error,
    >)
        requires
            self.wf(),
        ensures
            p == 0 || p > MAX_P <==> r == Result::<BigFloatNumber, Error>::Err(
                Error::InvalidPrecision,
            ),
            r matches Ok(f) ==> {
                &&& f.wf()
                &&& f.sp_prec() == spec_round_p(p as nat)
            },
            self.sp_is_zero() && 0 < p <= MAX_P ==> (r matches Ok(f) && f.sp_is_zero()
                && f.sp_sign() == self.sp_sign() && f.sp_inexact() == self.sp_inexact()),
            !self.sp_is_zero() ==> (r matches Ok(f) ==> f.sp_inexact()),
            // the error taxonomy: an invalid precision only at entry; past
            // it, resource exhaustion, exponent overflow, or a division
            // by zero should the double-angle denominator vanish (not
            // excludable by proof)
            r matches Err(e) ==> (e == Error::InvalidPrecision || e == Error::AllocationError
                || e == Error::DivisionByZero || e matches Error::ExponentOverflow(_)),
            (self.sp_e() == EXPONENT_MIN && spec_round_p(p as nat) >= self.sp_prec() && 0 < p
                <= MAX_P && spec_round_p(p as nat) + 128 <= MAX_P && self.sp_prec() + 128
                <= MAX_P) ==> (r matches Ok(f) && f.sp_e() == EXPONENT_MIN && f.sp_sign()
                == self.sp_sign() && f.sp_val() == self.sp_val() * vstd::arithmetic::power2::pow2(
                (spec_round_p(p as nat) - self.sp_prec()) as nat,
            )),
    {
        if p == 0 || p > MAX_P {
            return Err(Error::InvalidPrecision);
        }
        let p_rnd = round_p(p);
        if self.is_zero() {
            return Self::new2(p_rnd, self.sign(), self.inexact());
        }
        let mut p_inc: usize = crate::defs::WORD_BIT_SIZE;
        let self_p = self.mantissa_max_bit_len();
        let mut p_wrk: usize = if p_rnd > self_p {
            p_rnd
        } else {
            self_p
        };
        p_wrk = if p_wrk > MAX_P {
            MAX_P
        } else {
            p_wrk
        };
        // the cube of a small argument cannot reach the working
        // precision: the tangent rounds against the argument itself
        if (self.exponent() as i64) * 2 - 1 < -((p_wrk + 2) as i64) {
            return self.tan_small_arg(p_rnd, p_wrk, rm);
        }
        p_wrk = p_wrk + p_inc;
        let mut add_p: usize = 35;
        loop
            invariant
                self.wf(),
                !self.sp_is_zero(),
                self.sp_e() > EXPONENT_MIN,
                64 <= p_rnd <= MAX_P,
                p_rnd == spec_round_p(p as nat),
                64 <= p_wrk <= MAX_P + 64,
                64 <= p_inc <= MAX_P,
                add_p <= MAX_P + 64,
            decreases (MAX_P + 65 - p_wrk), (MAX_P + 65 - add_p),
        {
            let p_x64: u64 = p_wrk as u64 + add_p as u64;
            if p_x64 > MAX_P as u64 {
                return Err(Error::AllocationError);
            }
            let p_x = p_x64 as usize;
            let mut x = self.clone()?;
            x.set_precision(p_x, RoundingMode::NoRound)?;
            let x = x.reduce_trig_arg(cc, RoundingMode::NoRound)?;
            let t = x.trig_arg_pi_proximity(cc, RoundingMode::NoRound)?;
            if add_p < t {
                // near a pole: widen by the cancellation depth
                if t > MAX_P + 64 {
                    return Err(Error::AllocationError);
                }
                add_p = t;
            } else {
                let ret = x.tan_series(RoundingMode::NoRound)?;
                let mut ret = ret;
                if ret.try_set_precision(p_rnd, rm, p_wrk)? {
                    let inx = ret.inexact() || self.inexact();
                    ret.set_inexact(inx);
                    return Ok(ret);
                }
                let next64: u64 = p_wrk as u64 + p_inc as u64;
                if next64 > MAX_P as u64 {
                    return Err(Error::AllocationError);
                }
                p_wrk = next64 as usize;
                let fifth = p_wrk / 5;
                let fifth = if fifth > MAX_P {
                    MAX_P
                } else {
                    fifth
                };
                p_inc = round_p(if fifth < 64 {
                    64
                } else {
                    fifth
                });
            }
        }
    }

    /// The tangent of an argument whose cube cannot reach the working
    /// precision: the argument itself, nudged by a guard-sized step in
    /// the direction of the true value, rounded to `p_rnd`.
    fn tan_small_arg(&self, p_rnd: usize, p_wrk: usize, rm: RoundingMode) -> (r: Result<
        BigFloatNumber,
        Error,
    >)
        requires
            self.wf(),
            !self.sp_is_zero(),
            64 <= p_rnd <= MAX_P,
            64 <= p_wrk <= MAX_P,
        ensures
            r matches Ok(f) ==> {
                &&& f.wf()
                &&& f.sp_prec() == spec_round_p(p_rnd as nat)
                &&& f.sp_inexact()
            },
            r matches Err(e) ==> e != Error::InvalidPrecision,
            (self.sp_e() == EXPONENT_MIN && spec_round_p(p_rnd as nat) >= self.sp_prec()
                && p_wrk + 128 <= MAX_P) ==> (r matches Ok(f) && f.sp_e() == EXPONENT_MIN
                && f.sp_sign() == self.sp_sign() && f.sp_val() == self.sp_val()
                * vstd::arithmetic::power2::pow2(
                (spec_round_p(p_rnd as nat) - self.sp_prec()) as nat,
            )),
    {
        if p_wrk + 128 > MAX_P {
            return Err(Error::AllocationError);
        }
        let e: i64 = self.exponent() as i64;
        let eps_e: i64 = e - (p_wrk as i64) - 2;
        if eps_e <= (EXPONENT_MIN as i64) + 64 {
            // no nudge is representable this deep: return the argument
            let mut ret = self.clone()?;
            ret.set_precision(p_rnd, rm)?;
            ret.set_inexact(true);
            return Ok(ret);
        }
        let mut eps = BigFloatNumber::unit_at(64)?;
        eps.set_exponent(eps_e as i32);
        eps.set_sign(self.sign());
        let mut ret = self.add(&eps, p_wrk + 128, RoundingMode::NoRound)?;
        ret.set_precision(p_rnd, rm)?;
        ret.set_inexact(true);
        Ok(ret)
    }

    /// Evaluates the tangent after choosing the cost-optimal number of
    /// halvings, running the fused recurrence on the reduced argument,
    /// and restoring with the double-angle identity.
    pub fn tan_series(self, rm: RoundingMode) -> (r: Result<BigFloatNumber, Error>)
        requires
            self.wf(),
        ensures
            r matches Ok(f) ==> {
                &&& f.wf()
                &&& f.sp_prec() >= self.sp_prec()
                &&& f.sp_inexact()
            },
            r matches Err(e) ==> e != Error::InvalidPrecision,
    {
        let p = self.mantissa_max_bit_len();
        proof {
            crate::defs::lemma_whole_words(p as nat);
        }
        let polycoeff_gen = TanPolycoeffGen::new(p)?;
        let e: i64 = self.exponent() as i64;
        let m: isize = if -e < -1024 {
            -1024
        } else if -e > 1048576 {
            1048576
        } else {
            (-e) as isize
        };
        let (reduction_times, _, e_eff) = series_cost_optimize::<
            TanArgReductionEstimator,
            TanPolycoeffGen,
        >(p, &polycoeff_gen, m, 1, true);
        // guard bits for the restorations and the recurrence
        let add_prec: i64 = (reduction_times as i64) * 4 + 9 - (e_eff as i64);
        let p_arg64: u64 = p as u64 + (if add_prec > 0 {
            add_prec as u64
        } else {
            0
        });
        if p_arg64 > MAX_P as u64 {
            return Err(Error::AllocationError);
        }
        let p_arg = round_p(p_arg64 as usize);
        let mut x = self;
        x.set_precision(p_arg, rm)?;
        let arg = if reduction_times > 0 {
            x.tan_arg_reduce(reduction_times)?
        } else {
            x
        };
        let ret = arg.tan_series_run(rm)?;
        if reduction_times > 0 {
            ret.tan_arg_restore(reduction_times, rm)
        } else {
            Ok(ret)
        }
    }

    /// The fused sine/cosine recurrence: numerator and denominator
    /// polynomials accumulate interleaved factorial-weighted sums with
    /// alternating signs, until the factorial term outruns the working
    /// precision; the tangent is their one quotient.
    pub fn tan_series_run(&self, rm: RoundingMode) -> (r: Result<BigFloatNumber, Error>)
        requires
            self.wf(),
        ensures
            r matches Ok(f) ==> {
                &&& f.wf()
                &&& f.sp_prec() == self.sp_prec()
                &&& f.sp_inexact()
            },
            r matches Err(e) ==> e != Error::InvalidPrecision,
    {
        let p = self.mantissa_max_bit_len();
        proof {
            crate::defs::lemma_whole_words(p as nat);
        }
        let one = BigFloatNumber::from_word(1, 64)?;
        let mut xx = self.mul(self, p, rm)?;
        xx.inv_sign();
        let mut xxacc = BigFloatNumber::from_word(1, 64)?;
        let mut fct = BigFloatNumber::from_word(2, 64)?;
        let mut inc = BigFloatNumber::from_word(2, 64)?;
        let mut q1 = BigFloatNumber::from_word(1, 64)?;
        let mut p1 = BigFloatNumber::from_word(1, 64)?;
        let mut q2 = BigFloatNumber::from_word(1, 64)?;
        let mut p2 = BigFloatNumber::from_word(1, 64)?;
        let mut budget: usize = crate::series::ITER_BUDGET;
        loop
            invariant
                xx.wf(),
                xxacc.wf(),
                fct.wf(),
                inc.wf(),
                q1.wf(),
                p1.wf(),
                q2.wf(),
                p2.wf(),
                one.wf(),
                64 <= p <= MAX_P,
                spec_round_p(p as nat) == p,
            decreases budget,
        {
            if !((fct.exponent() as i64) - (xxacc.exponent() as i64) <= p as i64) {
                break ;
            }
            // alternating powers of the squared argument
            xxacc = xxacc.mul(&xx, p, rm)?;
            // the cosine polynomial
            p1 = p1.mul(&fct, p, rm)?;
            let n1 = xxacc.mul(&q1, p, rm)?;
            p1 = p1.add(&n1, p, rm)?;
            q1 = q1.mul(&fct, p, rm)?;
            let ip = inc.mantissa_max_bit_len();
            inc = inc.add(&one, ip, rm)?;
            if fct.mantissa_max_bit_len() < p {
                fct = fct.mul_full_prec(&inc)?;
            } else {
                fct = fct.mul(&inc, p, rm)?;
            }
            // the sine polynomial
            p2 = p2.mul(&fct, p, rm)?;
            let n1 = xxacc.mul(&q2, p, rm)?;
            p2 = p2.add(&n1, p, rm)?;
            q2 = q2.mul(&fct, p, rm)?;
            let ip = inc.mantissa_max_bit_len();
            inc = inc.add(&one, ip, rm)?;
            if fct.mantissa_max_bit_len() < p {
                fct = fct.mul_full_prec(&inc)?;
            } else {
                fct = fct.mul(&inc, p, rm)?;
            }
            if budget == 0 {
                return Err(Error::AllocationError);
            }
            budget = budget - 1;
        }
        let n0 = p2.mul(&q1, p, rm)?;
        let n1 = n0.mul(self, p, rm)?;
        let n2 = p1.mul(&q2, p, rm)?;
        let mut ret = n1.div(&n2, p, rm)?;
        ret.set_inexact(true);
        Ok(ret)
    }

    /// Halves the argument `n` times: an exponent shift while the
    /// exponent range allows it, an explicit division once it would
    /// underflow.
    pub fn tan_arg_reduce(&self, n: usize) -> (r: Result<BigFloatNumber, Error>)
        requires
            self.wf(),
        ensures
            r matches Ok(f) ==> {
                &&& f.wf()
                &&& f.sp_prec() == self.sp_prec()
            },
            r matches Err(e) ==> e != Error::InvalidPrecision,
            // while the exponent stays in range, halving is an exact
            // exponent shift: the mantissa comes through untouched
            (!self.sp_is_zero() && self.sp_normalized() && self.sp_e() - n > EXPONENT_MIN)
                ==> (r matches Ok(f) && f.sp_m() == self.sp_m() && f.sp_e() == self.sp_e()
                - n && f.sp_sign() == self.sp_sign() && f.sp_inexact() == self.sp_inexact()),
    {
        let p = self.mantissa_max_bit_len();
        proof {
            crate::defs::lemma_whole_words(p as nat);
        }
        let mut ret = self.clone()?;
        if ret.is_zero() {
            return Ok(ret);
        }
        let two = BigFloatNumber::from_word(2, 64)?;
        let mut i: usize = 0;
        while i < n
            invariant
                ret.wf(),
                ret.sp_prec() == self.sp_prec(),
                two.wf(),
                p == self.sp_prec(),
                64 <= p <= MAX_P,
                spec_round_p(p as nat) == p,
                i <= n,
                (!self.sp_is_zero() && self.sp_normalized() && self.sp_e() - n
                    > EXPONENT_MIN) ==> (ret.sp_m() == self.sp_m() && ret.sp_e() == self.sp_e()
                    - i && ret.sp_sign() == self.sp_sign() && ret.sp_inexact()
                    == self.sp_inexact()),
            decreases n - i,
        {
            if !ret.is_zero() && ret.exponent() > EXPONENT_MIN {
                let re = ret.exponent();
                ret.set_exponent(re - 1);
            } else {
                ret = ret.div(&two, p, RoundingMode::FromZero)?;
            }
            i = i + 1;
        }
        Ok(ret)
    }

    /// Undoes `n` halvings on a tangent value with the identity
    /// `tan(2x) = 2*tan(x) / (1 - tan(x)^2)`.
    pub fn tan_arg_restore(&self, n: usize, rm: RoundingMode) -> (r: Result<
        BigFloatNumber,
        Error,
    >)
        requires
            self.wf(),
        ensures
            r matches Ok(f) ==> {
                &&& f.wf()
                &&& f.sp_prec() == self.sp_prec()
                &&& (self.sp_inexact() ==> f.sp_inexact())
            },
            r matches Err(e) ==> e != Error::InvalidPrecision,
    {
        let p = self.mantissa_max_bit_len();
        proof {
            crate::defs::lemma_whole_words(p as nat);
        }
        let one = BigFloatNumber::from_word(1, 64)?;
        let mut val = self.clone()?;
        let mut i: usize = 0;
        while i < n
            invariant
                val.wf(),
                val.sp_prec() == self.sp_prec(),
                self.sp_inexact() ==> val.sp_inexact(),
                one.wf(),
                p == self.sp_prec(),
                64 <= p <= MAX_P,
                spec_round_p(p as nat) == p,
            decreases n - i,
        {
            let val_sq = val.mul(&val, p, rm)?;
            let q = one.sub(&val_sq, p, rm)?;
            let dbl = val.add(&val, p, rm)?;
            val = dbl.div(&q, p, rm)?;
            i = i + 1;
        }
        Ok(val)
    }
}

} // verus!
