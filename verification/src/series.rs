//! Power-series evaluation: the coefficient-generator and
//! argument-reduction abstractions, the cost-optimized choice of a
//! reduction count, and four summation strategies chosen by a dispatch
//! rule.

use vstd::prelude::*;

use crate::defs::Error;
use crate::defs::RoundingMode;
use crate::defs::MAX_P;
use crate::num::BigFloatNumber;
use crate::util::calc_add_cost;
use crate::util::calc_mul_cost;
use crate::util::log2_floor;
use crate::util::sat_add;
use crate::util::sat_mul;
use crate::util::sp_add_cost;
use crate::util::sp_isqrt;
use crate::util::sp_log2;
use crate::util::sp_mul_cost;
use crate::util::sp_sat_add;
use crate::util::sp_sat_mul;
use crate::util::sqrt_int;

verus! {

/// Capacity of the power cache used by rectangular evaluation.
pub const MAX_CACHE: usize = 128;

/// Iteration estimate at and beyond which the dispatcher prefers
/// rectangular evaluation: ninety percent of the cache capacity.
pub const RECT_ITER_THRESHOLD: usize = 115;

/// Iteration allowance for the convergence-tested loops. The numeric
/// break conditions stop a series long before this; the allowance only
/// bounds the loops for a degenerate coefficient source, and running it
/// out is reported as resource exhaustion.
pub const ITER_BUDGET: usize = 1000000000;

/// Widest reduction count the optimizer searches up to.
pub const RT_SEARCH_CAP: usize = 2097152;

/// Generator of polynomial coefficients: a pull-based, stateful source of
/// the successive coefficients of one series.
pub trait PolycoeffGen: Sized {
    /// The generator's own invariant, kept across pulls.
    spec fn inv(&self) -> bool;

    /// The modeled cost of one pull, fixed over the generator's life.
    spec fn sp_iter_cost(&self) -> nat;

    /// Whether coefficients divide the running power rather than multiply
    /// it, fixed over the generator's life.
    spec fn sp_is_div(&self) -> bool;

    /// Returns the next polynomial coefficient.
    fn next(&mut self, rm: RoundingMode) -> (r: Result<BigFloatNumber, Error>)
        requires
            old(self).inv(),
        ensures
            final(self).inv(),
            final(self).sp_iter_cost() == old(self).sp_iter_cost(),
            final(self).sp_is_div() == old(self).sp_is_div(),
            r matches Ok(c) ==> c.wf(),
            r matches Err(e) ==> e != Error::InvalidPrecision,
    ;

    /// Returns the modeled cost of one pull.
    fn iter_cost(&self) -> (r: usize)
        requires
            self.inv(),
        ensures
            r == self.sp_iter_cost(),
            r <= 4294967296,
    ;

    /// Returns whether the coefficients are divisors.
    fn is_div(&self) -> (r: bool)
        ensures
            r == self.sp_is_div(),
    ;
}

/// Estimates how argument reduction influences cost, per function family.
pub trait ArgReductionEstimator {
    /// The modeled cost of `n` reductions at precision `p`.
    spec fn sp_reduction_cost(n: nat, p: nat) -> nat;

    /// The effective negative power of two after `n` reductions of a
    /// value whose negative power of two is `m`.
    spec fn sp_reduction_effect(n: nat, m: int) -> nat;

    /// Estimates the cost of reducing `n` times at precision `p`. The
    /// bound on `n` covers every count the optimizer's capped search can
    /// request.
    fn reduction_cost(n: usize, p: usize) -> (r: u64)
        requires
            n <= 4194400,
            p <= MAX_P,
        ensures
            r == Self::sp_reduction_cost(n as nat, p as nat),
    ;

    /// Given `m`, the negative power of two of a value, returns the
    /// negative power of two after `n` reductions.
    fn reduction_effect(n: usize, m: isize) -> (r: usize)
        requires
            n <= 4194400,
            -1048576 <= m <= 1048576,
        ensures
            r == Self::sp_reduction_effect(n as nat, m as int),
            r <= 16777216,
    ;
}

/// Estimated number of series terms needed for precision `p` when the
/// argument's magnitude is `2^-m`: roughly
/// `p / (log2(p) - log2(log2(p)) + m - 2)`, with the denominator clamped
/// to stay positive. A heuristic, never a termination bound.
pub open spec fn sp_series_niter(p: nat, m: nat) -> nat {
    let ln = sp_log2(p);
    let lln = sp_log2(ln);
    let d = ln + m;
    let sub = lln + 2;
    let denom = if d > sub {
        (d - sub) as nat
    } else {
        1
    };
    p / denom
}

/// Estimate of the number of series iterations for precision `p` and
/// argument magnitude `2^-m`.
pub fn series_niter(p: usize, m: usize) -> (r: usize)
    requires
        p <= MAX_P,
    ensures
        r == sp_series_niter(p as nat, m as nat),
        r <= p,
{
    let ln = log2_floor(p);
    let lln = log2_floor(ln);
    let d = if m > 16777216 {
        // the argument is already far below the precision; one term rules
        16777216 + ln
    } else {
        ln + m
    };
    let sub = lln + 2;
    let denom = if d > sub {
        d - sub
    } else {
        1
    };
    proof {
        if m > 16777216 {
            assert(sp_log2(p as nat) + m > sp_log2(sp_log2(p as nat)) + 2);
            assert(p as nat / ((sp_log2(p as nat) + m - sp_log2(sp_log2(p as nat)) - 2) as nat)
                == 0) by {
                vstd::arithmetic::div_mod::lemma_basic_div(
                    p as int,
                    sp_log2(p as nat) + m - sp_log2(sp_log2(p as nat)) - 2,
                );
            }
            assert(p as nat / ((16777216 + sp_log2(p as nat) - sp_log2(sp_log2(p as nat))
                - 2) as nat) == 0) by {
                vstd::arithmetic::div_mod::lemma_basic_div(
                    p as int,
                    16777216 + sp_log2(p as nat) - sp_log2(sp_log2(p as nat)) - 2,
                );
            }
        }
        assert(p as nat / (denom as nat) <= p) by (nonlinear_arith)
            requires
                denom >= 1,
        ;
    }
    p / denom
}

/// Modeled cost of running a series of `niter` terms at precision `p`
/// with the given coefficient source, including the rectangular
/// strategy's extra passes past the dispatch threshold.
pub open spec fn sp_series_cost<T: PolycoeffGen>(niter: nat, p: nat, gen: &T) -> nat {
    let per_term = sp_sat_add(sp_sat_add(sp_mul_cost(p), sp_add_cost(p)), gen.sp_iter_cost());
    let base = sp_sat_mul(niter, per_term);
    if niter >= RECT_ITER_THRESHOLD {
        let extra1 = sp_sat_mul(sp_isqrt(niter), sp_mul_cost(p));
        let extra2 = sp_sat_mul(
            niter / 10,
            sp_sat_add(sp_sat_add(2 * sp_mul_cost(p), sp_add_cost(p)), gen.sp_iter_cost()),
        );
        sp_sat_add(sp_sat_add(base, extra1), extra2)
    } else {
        base
    }
}

/// Estimated cost of evaluating a series of `niter` terms at precision
/// `p`.
pub fn series_cost<T: PolycoeffGen>(niter: usize, p: usize, polycoeff_gen: &T) -> (r: u64)
    requires
        niter <= MAX_P,
        p <= MAX_P,
        polycoeff_gen.inv(),
    ensures
        r == sp_series_cost(niter as nat, p as nat, polycoeff_gen),
{
    let cost_mul = calc_mul_cost(p);
    let cost_add = calc_add_cost(p);
    let iter = polycoeff_gen.iter_cost();
    let per_term = sat_add(sat_add(cost_mul as u64, cost_add as u64), iter as u64);
    let base = sat_mul(niter as u64, per_term);
    if niter >= RECT_ITER_THRESHOLD {
        let extra1 = sat_mul(sqrt_int(niter) as u64, cost_mul as u64);
        let extra2 = sat_mul(
            (niter / 10) as u64,
            sat_add(sat_add(2 * cost_mul as u64, cost_add as u64), iter as u64),
        );
        sat_add(sat_add(base, extra1), extra2)
    } else {
        base
    }
}

/// The total modeled cost of one configuration of the reduction
/// optimizer: the series cost at the effective magnitude plus the cost of
/// the reductions themselves. With `ext`, the series part is the
/// generator's raw per-pull cost times the iteration estimate.
pub open spec fn sp_total_cost<S: ArgReductionEstimator, T: PolycoeffGen>(
    gen: &T,
    rt: nat,
    p: nat,
    m: int,
    pwr_step: nat,
    ext: bool,
) -> nat {
    let m_eff = S::sp_reduction_effect(rt, m);
    let niter = sp_series_niter(p, m_eff) / pwr_step;
    let ser = if ext {
        sp_sat_mul(gen.sp_iter_cost(), niter)
    } else {
        sp_series_cost(niter, p, gen)
    };
    sp_sat_add(ser, S::sp_reduction_cost(rt, p))
}

/// The starting reduction count of the optimizer's search.
pub open spec fn sp_start_rt(p: nat, m: int) -> nat {
    let step = sp_log2(p) / 2;
    if step > m {
        (step - m) as nat
    } else {
        0
    }
}

/// The total modeled cost at the `j`-th point of the optimizer's search
/// grid.
pub open spec fn sp_grid_cost<S: ArgReductionEstimator, T: PolycoeffGen>(
    gen: &T,
    r0: nat,
    j: nat,
    step: nat,
    p: nat,
    m: int,
    pwr_step: nat,
    ext: bool,
) -> nat {
    sp_total_cost::<S, T>(gen, r0 + j * step, p, m, pwr_step, ext)
}

/// Evaluates the total modeled cost of one configuration.
fn total_cost<S: ArgReductionEstimator, T: PolycoeffGen>(
    polycoeff_gen: &T,
    rt: usize,
    p: usize,
    m: isize,
    pwr_step: usize,
    ext: bool,
) -> (r: u64)
    requires
        64 <= p <= MAX_P,
        -1048576 <= m <= 1048576,
        1 <= pwr_step <= 2,
        rt <= 4194400,
        polycoeff_gen.inv(),
    ensures
        r == sp_total_cost::<S, T>(polycoeff_gen, rt as nat, p as nat, m as int,
            pwr_step as nat, ext),
{
    let m_eff = S::reduction_effect(rt, m);
    let niter_full = series_niter(p, m_eff);
    let niter = niter_full / pwr_step;
    proof {
        assert(niter_full as nat / (pwr_step as nat) <= niter_full) by (nonlinear_arith)
            requires
                pwr_step >= 1,
        ;
    }
    let ser: u64 = if ext {
        sat_mul(polycoeff_gen.iter_cost() as u64, niter as u64)
    } else {
        series_cost(niter, p, polycoeff_gen)
    };
    sat_add(ser, S::reduction_cost(rt, p))
}

/// Computes the number of argument reductions with the least total
/// modeled cost, walking up from the starting count in steps of half the
/// precision's bit length.
///
/// The returned count is the smallest one on that grid at which one more
/// step no longer strictly lowers the modeled cost: every step taken
/// strictly lowered it, and the next step would not. The search stops
/// unconditionally at `RT_SEARCH_CAP`, which no realistic cost model
/// reaches, since reduction cost grows without bound while the series
/// cost saturates. Returns the count, the iteration estimate and the
/// effective magnitude of the chosen configuration.
pub fn series_cost_optimize<S: ArgReductionEstimator, T: PolycoeffGen>(
    p: usize,
    polycoeff_gen: &T,
    m: isize,
    pwr_step: usize,
    ext: bool,
) -> (r: (usize, usize, usize))
    requires
        // the windows cover everything the drivers can produce: the
        // magnitude of a range-reduced argument on one side, the widest
        // clamped estimator effect on the other
        64 <= p <= MAX_P,
        -1024 <= m <= 1048576,
        1 <= pwr_step <= 2,
        polycoeff_gen.inv(),
    ensures
        ({
            let (rt, niter, m_eff) = r;
            let step = sp_log2(p as nat) / 2;
            let r0 = sp_start_rt(p as nat, m as int);
            &&& m_eff == S::sp_reduction_effect(rt as nat, m as int)
            &&& niter == sp_series_niter(p as nat, m_eff as nat) / (pwr_step as nat)
            &&& rt >= r0
            &&& rt <= RT_SEARCH_CAP
            &&& (exists|j: nat| rt == r0 + #[trigger] (j * step))
            &&& (forall|j: nat|
                r0 + (j + 1) * step <= rt ==> sp_grid_cost::<S, T>(
                    polycoeff_gen,
                    r0,
                    j + 1,
                    step,
                    p as nat,
                    m as int,
                    pwr_step as nat,
                    ext,
                ) < #[trigger] sp_grid_cost::<S, T>(
                    polycoeff_gen,
                    r0,
                    j,
                    step,
                    p as nat,
                    m as int,
                    pwr_step as nat,
                    ext,
                ))
            &&& (rt + step <= RT_SEARCH_CAP ==> sp_total_cost::<S, T>(
                polycoeff_gen,
                (rt + step) as nat,
                p as nat,
                m as int,
                pwr_step as nat,
                ext,
            ) >= sp_total_cost::<S, T>(
                polycoeff_gen,
                rt as nat,
                p as nat,
                m as int,
                pwr_step as nat,
                ext,
            ))
        }),
{
    let ln = log2_floor(p);
    let step = ln / 2;
    let r0: usize = if m < 0 || step > (m as usize) {
        proof {
            assert(step <= 9);
        }
        (step as isize - m) as usize
    } else {
        0
    };
    let mut best: usize = r0;
    let mut cost_best: u64 = total_cost::<S, T>(polycoeff_gen, best, p, m, pwr_step, ext);
    let ghost gstep = sp_log2(p as nat) / 2;
    proof {
        assert(r0 == sp_start_rt(p as nat, m as int));
        assert(best == r0 + 0 * gstep);
        // the precision is at least a word, so the grid step is positive
        crate::util::lemma_log2_bounds(p as nat);
        vstd::arithmetic::power2::lemma2_to64();
        if sp_log2(p as nat) <= 5 {
            if sp_log2(p as nat) + 1 < 6 {
                vstd::arithmetic::power2::lemma_pow2_strictly_increases(
                    sp_log2(p as nat) + 1,
                    6,
                );
            }
            assert(false);
        }
        assert(gstep >= 3);
        assert forall|j: nat| r0 + #[trigger] ((j + 1) * gstep) > r0 by {
            assert((j + 1) * gstep >= 1) by (nonlinear_arith)
                requires
                    gstep >= 1,
            ;
        }
    }
    loop
        invariant
            64 <= p <= MAX_P,
            -1024 <= m <= 1048576,
            1 <= pwr_step <= 2,
            1 <= step <= 9,
            step == gstep,
            polycoeff_gen.inv(),
            r0 == sp_start_rt(p as nat, m as int),
            r0 <= 1033,
            r0 <= best <= RT_SEARCH_CAP,
            cost_best == sp_total_cost::<S, T>(polycoeff_gen, best as nat, p as nat, m as int,
                pwr_step as nat, ext),
            exists|j: nat| best == r0 + #[trigger] (j * gstep),
            forall|j: nat|
                r0 + (j + 1) * gstep <= best ==> sp_grid_cost::<S, T>(
                    polycoeff_gen,
                    r0 as nat,
                    j + 1,
                    gstep,
                    p as nat,
                    m as int,
                    pwr_step as nat,
                    ext,
                ) < #[trigger] sp_grid_cost::<S, T>(
                    polycoeff_gen,
                    r0 as nat,
                    j,
                    gstep,
                    p as nat,
                    m as int,
                    pwr_step as nat,
                    ext,
                ),
        ensures
            r0 <= best <= RT_SEARCH_CAP,
            cost_best == sp_total_cost::<S, T>(polycoeff_gen, best as nat, p as nat, m as int,
                pwr_step as nat, ext),
            exists|j: nat| best == r0 + #[trigger] (j * gstep),
            forall|j: nat|
                r0 + (j + 1) * gstep <= best ==> sp_grid_cost::<S, T>(
                    polycoeff_gen,
                    r0 as nat,
                    j + 1,
                    gstep,
                    p as nat,
                    m as int,
                    pwr_step as nat,
                    ext,
                ) < #[trigger] sp_grid_cost::<S, T>(
                    polycoeff_gen,
                    r0 as nat,
                    j,
                    gstep,
                    p as nat,
                    m as int,
                    pwr_step as nat,
                    ext,
                ),
            best + gstep <= RT_SEARCH_CAP ==> sp_total_cost::<S, T>(
                polycoeff_gen,
                (best + gstep) as nat,
                p as nat,
                m as int,
                pwr_step as nat,
                ext,
            ) >= cost_best,
        decreases cost_best,
    {
        if best + step > RT_SEARCH_CAP {
            break ;
        }
        let cand = best + step;
        let c2 = total_cost::<S, T>(polycoeff_gen, cand, p, m, pwr_step, ext);
        if c2 < cost_best {
            proof {
                let j0 = choose|j: nat| best == r0 + #[trigger] (j * gstep);
                assert(cand == r0 + (j0 + 1) * gstep) by (nonlinear_arith)
                    requires
                        best == r0 + j0 * gstep,
                        cand == best + gstep,
                ;
                assert forall|j: nat| r0 + (j + 1) * gstep <= cand implies sp_grid_cost::<
                    S,
                    T,
                >(polycoeff_gen, r0 as nat, j + 1, gstep, p as nat, m as int, pwr_step as nat,
                ext) < #[trigger] sp_grid_cost::<S, T>(
                    polycoeff_gen,
                    r0 as nat,
                    j,
                    gstep,
                    p as nat,
                    m as int,
                    pwr_step as nat,
                    ext,
                ) by {
                    if r0 + (j + 1) * gstep <= best {
                    } else {
                        assert(j == j0) by (nonlinear_arith)
                            requires
                                best == r0 + j0 * gstep,
                                r0 + (j + 1) * gstep > best,
                                r0 + (j + 1) * gstep <= best + gstep,
                                gstep >= 1,
                        ;
                    }
                }
            }
            best = cand;
            cost_best = c2;
        } else {
            break ;
        }
    }
    let m_eff = S::reduction_effect(best, m);
    let niter = series_niter(p, m_eff) / pwr_step;
    (best, niter, m_eff)
}


/// The convergence criterion of linear evaluation: the last added term's
/// exponent has fallen to or below the accumulator's exponent minus the
/// accumulator's precision, so every further term is negligible at the
/// working precision.
pub open spec fn sp_term_negligible(part_e: int, acc_e: int, acc_prec: nat) -> bool {
    part_e <= acc_e - acc_prec
}

/// Decides the convergence criterion of linear evaluation.
pub fn term_negligible(part: &BigFloatNumber, acc: &BigFloatNumber) -> (r: bool)
    requires
        part.wf(),
        acc.wf(),
    ensures
        r == sp_term_negligible(part.sp_e(), acc.sp_e(), acc.sp_prec()),
{
    let pe: i64 = part.exponent() as i64;
    let ae: i64 = acc.exponent() as i64;
    let ap: i64 = acc.mantissa_max_bit_len() as i64;
    pe <= ae - ap
}

/// The common working precision of the series inputs: each evaluation
/// attempt runs at one working precision, and the drivers build the
/// accumulator, first power and step factor at it.
pub open spec fn sp_series_pre(
    acc: &BigFloatNumber,
    x_first: &BigFloatNumber,
    x_step: &BigFloatNumber,
) -> bool {
    &&& acc.wf()
    &&& x_first.wf()
    &&& x_step.wf()
    &&& x_first.sp_prec() == acc.sp_prec()
    &&& x_step.sp_prec() == acc.sp_prec()
}

/// Degenerate series: the first power or the step factor is zero, so at
/// most one term is computed directly.
fn series_compute_fast<T: PolycoeffGen>(
    acc: BigFloatNumber,
    x_first: BigFloatNumber,
    polycoeff_gen: &mut T,
) -> (r: Result<BigFloatNumber, Error>)
    requires
        acc.wf(),
        x_first.wf(),
        x_first.sp_prec() == acc.sp_prec(),
        old(polycoeff_gen).inv(),
    ensures
        final(polycoeff_gen).inv(),
        r matches Ok(f) ==> {
            &&& f.wf()
            &&& f.sp_prec() == acc.sp_prec()
        },
        x_first.sp_is_zero() ==> (r matches Ok(f) && f == acc),
        r matches Err(e) ==> e != Error::InvalidPrecision,
{
    if x_first.is_zero() {
        Ok(acc)
    } else {
        let p = acc.mantissa_max_bit_len();
        proof {
            crate::defs::lemma_whole_words(p as nat);
        }
        let is_div = polycoeff_gen.is_div();
        let coeff = polycoeff_gen.next(RoundingMode::NoRound)?;
        let part = if is_div {
            x_first.div(&coeff, p, RoundingMode::NoRound)
        } else {
            x_first.mul(&coeff, p, RoundingMode::NoRound)
        }?;
        acc.add(&part, p, RoundingMode::NoRound)
    }
}

/// Linear evaluation: a straightforward running sum, terminating when the
/// current term is negligible relative to the accumulator at the working
/// precision. This is the convergence test used whenever an a-priori
/// iteration count is not trusted. Beside the sum, the exponent of the
/// terminating term is returned as a ghost witness: on success it always
/// satisfies the negligibility criterion against the returned
/// accumulator.
pub fn series_linear<T: PolycoeffGen>(
    acc: BigFloatNumber,
    x_first: BigFloatNumber,
    x_step: BigFloatNumber,
    polycoeff_gen: &mut T,
) -> (r: (Result<BigFloatNumber, Error>, Ghost<int>))
    requires
        sp_series_pre(&acc, &x_first, &x_step),
        old(polycoeff_gen).inv(),
    ensures
        final(polycoeff_gen).inv(),
        r.0 matches Ok(f) ==> {
            &&& f.wf()
            &&& f.sp_prec() == acc.sp_prec()
            &&& sp_term_negligible(r.1@, f.sp_e(), f.sp_prec())
        },
        r.0 matches Err(e) ==> e != Error::InvalidPrecision,
{
    let p = acc.mantissa_max_bit_len();
    proof {
        crate::defs::lemma_whole_words(p as nat);
    }
    let is_div = polycoeff_gen.is_div();
    let mut x_pow = x_first;
    let mut acc = acc;
    let mut budget: usize = ITER_BUDGET;
    let ghost mut last_e: int = 0;
    loop
        invariant
            acc.wf(),
            x_pow.wf(),
            x_step.wf(),
            p == acc.sp_prec(),
            64 <= p <= MAX_P,
            p % 64 == 0,
            crate::defs::spec_round_p(p as nat) == p,
            x_pow.sp_prec() == p,
            x_step.sp_prec() == p,
            polycoeff_gen.inv(),
        ensures
            acc.wf(),
            acc.sp_prec() == p,
            sp_term_negligible(last_e, acc.sp_e(), acc.sp_prec()),
        decreases budget,
    {
        let coeff = match polycoeff_gen.next(RoundingMode::NoRound) {
            Ok(c) => c,
            Err(e) => {
                return (Err(e), Ghost(last_e));
            },
        };
        let part = match (if is_div {
            x_pow.div(&coeff, p, RoundingMode::NoRound)
        } else {
            x_pow.mul(&coeff, p, RoundingMode::NoRound)
        }) {
            Ok(v) => v,
            Err(e) => {
                return (Err(e), Ghost(last_e));
            },
        };
        acc = match acc.add(&part, p, RoundingMode::NoRound) {
            Ok(v) => v,
            Err(e) => {
                return (Err(e), Ghost(last_e));
            },
        };
        if term_negligible(&part, &acc) {
            proof {
                last_e = part.sp_e();
            }
            break ;
        }
        x_pow = match x_pow.mul(&x_step, p, RoundingMode::NoRound) {
            Ok(v) => v,
            Err(e) => {
                return (Err(e), Ghost(last_e));
            },
        };
        if budget == 0 {
            return (Err(Error::AllocationError), Ghost(last_e));
        }
        budget = budget - 1;
    }
    (Ok(acc), Ghost(last_e))
}

/// One row of rectangular evaluation: a coefficient for each cached
/// power, folded into one accumulator.
fn compute_row<T: PolycoeffGen>(
    p: usize,
    cache: &Vec<BigFloatNumber>,
    polycoeff_gen: &mut T,
) -> (r: Result<BigFloatNumber, Error>)
    requires
        64 <= p <= MAX_P,
        p % 64 == 0,
        forall|i: int| 0 <= i < cache@.len() ==> (#[trigger] cache@[i]).wf(),
        old(polycoeff_gen).inv(),
    ensures
        final(polycoeff_gen).inv(),
        r matches Ok(f) ==> {
            &&& f.wf()
            &&& f.sp_prec() == p
        },
        r matches Err(e) ==> e != Error::InvalidPrecision,
{
    proof {
        crate::defs::lemma_whole_words(p as nat);
    }
    let is_div = polycoeff_gen.is_div();
    let mut acc = BigFloatNumber::new(p)?;
    let coeff = polycoeff_gen.next(RoundingMode::NoRound)?;
    if is_div {
        let rcp = coeff.reciprocal(p, RoundingMode::NoRound)?;
        acc = acc.add(&rcp, p, RoundingMode::NoRound)?;
    } else {
        acc = acc.add(&coeff, p, RoundingMode::NoRound)?;
    }
    let n = cache.len();
    let mut i: usize = 0;
    while i < n
        invariant
            n == cache@.len(),
            i <= n,
            64 <= p <= MAX_P,
            crate::defs::spec_round_p(p as nat) == p,
            forall|j: int| 0 <= j < n ==> (#[trigger] cache@[j]).wf(),
            acc.wf(),
            acc.sp_prec() == p,
            polycoeff_gen.inv(),
        decreases n - i,
    {
        let coeff = polycoeff_gen.next(RoundingMode::NoRound)?;
        let part = if is_div {
            cache[i].div(&coeff, p, RoundingMode::NoRound)
        } else {
            cache[i].mul(&coeff, p, RoundingMode::NoRound)
        }?;
        acc = acc.add(&part, p, RoundingMode::NoRound)?;
        i = i + 1;
    }
    Ok(acc)
}

/// Horner evaluation. A first pass pulls and caches coefficients until
/// the accumulated precision contribution of argument powers and
/// coefficient magnitudes exceeds the working precision, so the cache is
/// the minimum needed; a second pass folds them back to front.
pub fn series_horner<T: PolycoeffGen>(
    add_v: BigFloatNumber,
    x_first: BigFloatNumber,
    x_step: BigFloatNumber,
    polycoeff_gen: &mut T,
) -> (r: Result<BigFloatNumber, Error>)
    requires
        sp_series_pre(&add_v, &x_first, &x_step),
        !old(polycoeff_gen).sp_is_div(),
        old(polycoeff_gen).inv(),
    ensures
        final(polycoeff_gen).inv(),
        r matches Ok(f) ==> {
            &&& f.wf()
            &&& f.sp_prec() == add_v.sp_prec()
        },
        r matches Err(e) ==> e != Error::InvalidPrecision,
{
    let p = add_v.mantissa_max_bit_len();
    proof {
        crate::defs::lemma_whole_words(p as nat);
    }
    // first pass: cache coefficients until further terms cannot matter
    let mut cache: Vec<BigFloatNumber> = Vec::new();
    let mut x_p: i64 = -(x_first.exponent() as i64) - (x_step.exponent() as i64);
    let mut coef_p: i64 = 0;
    let limit: i64 = p as i64 - (add_v.exponent() as i64);
    let mut budget: usize = ITER_BUDGET;
    while x_p < 4611686018427387904 && coef_p < 4611686018427387904 && x_p + coef_p < limit
        invariant
            forall|i: int| 0 <= i < cache@.len() ==> (#[trigger] cache@[i]).wf(),
            polycoeff_gen.inv(),
            !polycoeff_gen.sp_is_div(),
            x_step.wf(),
            -4611686018427387904 <= x_p <= 4611686018427387904,
            -4611686018427387904 <= coef_p <= 4611686018427387904,
        decreases budget,
    {
        let coeff = polycoeff_gen.next(RoundingMode::NoRound)?;
        coef_p = -(coeff.exponent() as i64);
        let d: i64 = -(x_step.exponent() as i64);
        x_p = if x_p + d > 4611686018427387904 {
            4611686018427387904
        } else if x_p + d < -4611686018427387904 {
            -4611686018427387904
        } else {
            x_p + d
        };
        cache.push(coeff);
        if budget == 0 {
            return Err(Error::AllocationError);
        }
        budget = budget - 1;
    }
    let last_coeff = polycoeff_gen.next(RoundingMode::NoRound)?;
    let mut acc = last_coeff;
    // second pass: fold the cached coefficients back to front
    let mut i = cache.len();
    while i > 0
        invariant
            i <= cache@.len(),
            forall|j: int| 0 <= j < cache@.len() ==> (#[trigger] cache@[j]).wf(),
            acc.wf(),
            x_step.wf(),
            64 <= p <= MAX_P,
            crate::defs::spec_round_p(p as nat) == p,
            polycoeff_gen.inv(),
        decreases i,
    {
        i = i - 1;
        acc = acc.mul(&x_step, p, RoundingMode::NoRound)?;
        acc = acc.add(&cache[i], p, RoundingMode::NoRound)?;
    }
    acc = acc.mul(&x_first, p, RoundingMode::NoRound)?;
    add_v.add(&acc, p, RoundingMode::NoRound)
}

/// Rectangular (baby-step giant-step) evaluation: a cache of successive
/// powers of the step factor turns most term multiplications into cheap
/// row work, bounding the large multiplications to the square root of
/// the iteration count. The remainder past the cached rows is finished
/// by Horner or linear evaluation.
///
/// The strategies associate the same rounded terms differently, so their
/// results agree with linear evaluation only down to the last few
/// working bits, not bit for bit; the cross-check tests bound the
/// divergence to the rounding tail.
pub fn series_rectangular<T: PolycoeffGen>(
    niter: usize,
    add_v: BigFloatNumber,
    x_first: BigFloatNumber,
    x_step: BigFloatNumber,
    polycoeff_gen: &mut T,
) -> (r: Result<BigFloatNumber, Error>)
    requires
        4 <= niter <= MAX_P,
        sp_series_pre(&add_v, &x_first, &x_step),
        old(polycoeff_gen).inv(),
    ensures
        final(polycoeff_gen).inv(),
        r matches Ok(f) ==> {
            &&& f.wf()
            &&& f.sp_prec() == add_v.sp_prec()
        },
        r matches Err(e) ==> e != Error::InvalidPrecision,
{
    let p = add_v.mantissa_max_bit_len();
    proof {
        crate::defs::lemma_whole_words(p as nat);
    }
    let mut acc = BigFloatNumber::new(p)?;
    // build the cache of powers of the step factor
    let mut cache: Vec<BigFloatNumber> = Vec::new();
    let sqrt_iter = sqrt_int(niter);
    let cache_sz = if MAX_CACHE < sqrt_iter {
        MAX_CACHE
    } else {
        sqrt_iter
    };
    proof {
        assert(sqrt_iter >= 2 && sqrt_iter * sqrt_iter <= niter) by (nonlinear_arith)
            requires
                crate::util::is_isqrt(niter as nat, sqrt_iter as nat),
                niter >= 4,
        ;
        assert(cache_sz * 2 <= cache_sz * sqrt_iter) by (nonlinear_arith)
            requires
                sqrt_iter >= 2,
                cache_sz >= 0,
        ;
        assert(cache_sz * sqrt_iter <= sqrt_iter * sqrt_iter) by (nonlinear_arith)
            requires
                cache_sz <= sqrt_iter,
                sqrt_iter >= 0,
        ;
    }
    let mut x_pow = x_step.clone()?;
    let mut ci: usize = 0;
    while ci < cache_sz
        invariant
            ci <= cache_sz,
            cache@.len() == ci,
            x_pow.wf(),
            x_pow.sp_prec() == p,
            x_step.wf(),
            x_step.sp_prec() == p,
            64 <= p <= MAX_P,
            crate::defs::spec_round_p(p as nat) == p,
            forall|i: int| 0 <= i < cache@.len() ==> (#[trigger] cache@[i]).wf(),
            polycoeff_gen.inv(),
        decreases cache_sz - ci,
    {
        let cp = x_pow.clone()?;
        cache.push(cp);
        x_pow = x_pow.mul(&x_step, p, RoundingMode::NoRound)?;
        ci = ci + 1;
    }
    // run the rows
    let poly_val = compute_row(p, &cache, polycoeff_gen)?;
    acc = acc.add(&poly_val, p, RoundingMode::NoRound)?;
    let mut terminal_pow = x_pow.clone()?;
    let mut left = niter - cache_sz;
    while left >= cache_sz
        invariant
            acc.wf(),
            acc.sp_prec() == p,
            terminal_pow.wf(),
            terminal_pow.sp_prec() == p,
            x_pow.wf(),
            x_pow.sp_prec() == p,
            64 <= p <= MAX_P,
            crate::defs::spec_round_p(p as nat) == p,
            cache_sz >= 2,
            forall|i: int| 0 <= i < cache@.len() ==> (#[trigger] cache@[i]).wf(),
            polycoeff_gen.inv(),
        decreases left,
    {
        let poly_val = compute_row(p, &cache, polycoeff_gen)?;
        let part = poly_val.mul(&terminal_pow, p, RoundingMode::NoRound)?;
        acc = acc.add(&part, p, RoundingMode::NoRound)?;
        terminal_pow = terminal_pow.mul(&x_pow, p, RoundingMode::NoRound)?;
        left = left - cache_sz;
    }
    acc = acc.mul(&x_first, p, RoundingMode::NoRound)?;
    terminal_pow = terminal_pow.mul(&x_first, p, RoundingMode::NoRound)?;
    acc = acc.add(&add_v, p, RoundingMode::NoRound)?;
    // finish the remainder with Horner or linear evaluation
    if left < MAX_CACHE * 10 && !polycoeff_gen.is_div() {
        series_horner(acc, terminal_pow, x_step, polycoeff_gen)
    } else {
        let (res, _) = series_linear(acc, terminal_pow, x_step, polycoeff_gen);
        res
    }
}

/// Evaluates `acc + sum of terms`, dispatching to one of four summation
/// strategies: a degenerate argument computes at most one term;
/// iteration estimates at or past the cache threshold use rectangular
/// evaluation; divisor-based generators use linear evaluation; the rest
/// use Horner evaluation. The result is always marked inexact: term
/// truncation always loses information past the requested precision.
pub fn series_run<T: PolycoeffGen>(
    acc: BigFloatNumber,
    x_first: BigFloatNumber,
    x_step: BigFloatNumber,
    niter: usize,
    polycoeff_gen: &mut T,
) -> (r: (Result<BigFloatNumber, Error>, Ghost<int>))
    requires
        niter <= MAX_P,
        sp_series_pre(&acc, &x_first, &x_step),
        old(polycoeff_gen).inv(),
    ensures
        final(polycoeff_gen).inv(),
        r.0 matches Ok(f) ==> {
            &&& f.wf()
            &&& f.sp_prec() == acc.sp_prec()
            &&& f.sp_inexact()
        },
        x_first.sp_is_zero() ==> (r.0 matches Ok(f) ==> (f.sp_val() == acc.sp_val()
            && f.sp_e() == acc.sp_e() && f.sp_sign() == acc.sp_sign())),
        r.0 matches Err(e) ==> e != Error::InvalidPrecision,
        // the ghost tag records which strategy the dispatch rule chose:
        // the degenerate path, rectangular, linear or Horner, in order
        r.1@ == (if x_first.sp_is_zero() || x_step.sp_is_zero() {
            0int
        } else if niter >= RECT_ITER_THRESHOLD {
            1int
        } else if old(polycoeff_gen).sp_is_div() {
            2int
        } else {
            3int
        }),
{
    let ghost mut tag: int = 0;
    let res = if x_first.is_zero() || x_step.is_zero() {
        proof {
            tag = 0;
        }
        series_compute_fast(acc, x_first, polycoeff_gen)
    } else if niter >= RECT_ITER_THRESHOLD {
        proof {
            tag = 1;
        }
        series_rectangular(niter, acc, x_first, x_step, polycoeff_gen)
    } else if polycoeff_gen.is_div() {
        proof {
            tag = 2;
        }
        let (res, _) = series_linear(acc, x_first, x_step, polycoeff_gen);
        res
    } else {
        proof {
            tag = 3;
        }
        series_horner(acc, x_first, x_step, polycoeff_gen)
    };
    match res {
        Ok(mut ret) => {
            ret.set_inexact(true);
            (Ok(ret), Ghost(tag))
        },
        Err(e) => (Err(e), Ghost(tag)),
    }
}

} // verus!
