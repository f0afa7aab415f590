//! The arbitrary-precision binary floating-point value.
//!
//! A value is `sign * mantissa * 2^(e - prec)`, where the mantissa is a
//! multi-word natural number of exactly `prec` bits, normalized so that its
//! top bit is set unless the value is zero or pinned at the minimum
//! exponent (subnormal). Every arithmetic operation takes a target
//! precision and a rounding mode and returns a value of exactly that
//! mantissa bit length.

use vstd::arithmetic::power2::pow2;
use vstd::prelude::*;

use crate::defs::Error;
use crate::defs::Exponent;
use crate::defs::RoundingMode;
use crate::defs::Sign;
use crate::defs::round_p;
use crate::defs::spec_round_p;
use crate::defs::EXPONENT_MAX;
use crate::defs::EXPONENT_MIN;
use crate::defs::MAX_P;
use crate::defs::MAX_WORDS;
use crate::words::lemma_mval_bound;
use crate::words::lemma_mval_low;
use crate::words::lemma_mval_split;
use crate::words::lemma_mval_zero_iff;
use crate::words::mval;
use crate::words::shl_exact;
use crate::words::shr_sticky;
use crate::words::top_bit;
use crate::words::words_copy;
use crate::words::words_inc;
use crate::words::words_pad;
use crate::words::words_trim;
use crate::words::words_zero;

verus! {

/// An arbitrary-precision binary floating-point number.
pub struct BigFloatNumber {
    m: Vec<u64>,
    e: Exponent,
    s: Sign,
    inexact: bool,
}

impl BigFloatNumber {
    /// The mantissa words, least significant first.
    pub closed spec fn sp_m(&self) -> Seq<u64> {
        self.m@
    }

    /// The mantissa's value as a natural number.
    pub open spec fn sp_val(&self) -> nat {
        mval(self.sp_m())
    }

    /// The exponent.
    pub closed spec fn sp_e(&self) -> int {
        self.e as int
    }

    /// The sign.
    pub closed spec fn sp_sign(&self) -> Sign {
        self.s
    }

    /// The inexact flag.
    pub closed spec fn sp_inexact(&self) -> bool {
        self.inexact
    }

    /// The precision: the mantissa length in bits.
    pub open spec fn sp_prec(&self) -> nat {
        64 * self.sp_m().len()
    }

    /// Whether the value is zero.
    pub open spec fn sp_is_zero(&self) -> bool {
        self.sp_val() == 0
    }

    /// Whether the mantissa's top bit is set.
    pub open spec fn sp_normalized(&self) -> bool {
        self.sp_val() >= pow2((self.sp_prec() - 1) as nat)
    }

    /// The representation invariant: a bounded word count, an exponent in
    /// range, a canonical zero, and a normalized mantissa unless the
    /// exponent is pinned at the minimum.
    pub open spec fn wf(&self) -> bool {
        &&& 1 <= self.sp_m().len() <= MAX_WORDS
        &&& EXPONENT_MIN <= self.sp_e() <= EXPONENT_MAX
        &&& (self.sp_is_zero() ==> self.sp_e() == 0)
        &&& (!self.sp_is_zero() ==> (self.sp_normalized() || self.sp_e() == EXPONENT_MIN))
    }
}

/// Whether an increment is owed by the rounding policy, given the sign,
/// the first discarded bit, the rest of the discarded bits, and the lowest
/// kept bit. Round-to-odd is handled separately.
pub open spec fn sp_round_up(
    rm: RoundingMode,
    sgn: Sign,
    rb: bool,
    sticky: bool,
    lsb: bool,
) -> bool {
    match rm {
        RoundingMode::NoRound => false,
        RoundingMode::ToZero => false,
        RoundingMode::ToOdd => false,
        RoundingMode::ToEven => rb && (sticky || lsb),
        RoundingMode::FromZero => rb || sticky,
        RoundingMode::Up => (rb || sticky) && sgn == Sign::Pos,
        RoundingMode::Down => (rb || sticky) && sgn == Sign::Neg,
    }
}

/// Decides whether the kept mantissa is incremented.
fn round_up(rm: RoundingMode, sgn: Sign, rb: bool, sticky: bool, lsb: bool) -> (r: bool)
    ensures
        r == sp_round_up(rm, sgn, rb, sticky, lsb),
{
    match rm {
        RoundingMode::NoRound => false,
        RoundingMode::ToZero => false,
        RoundingMode::ToOdd => false,
        RoundingMode::ToEven => rb && (sticky || lsb),
        RoundingMode::FromZero => rb || sticky,
        RoundingMode::Up => (rb || sticky) && matches!(sgn, Sign::Pos),
        RoundingMode::Down => (rb || sticky) && matches!(sgn, Sign::Neg),
    }
}

/// Quotient window: dividing a value whose top bit is `t` by `2^s` puts
/// the top bit at `t - s`.
proof fn lemma_pow2_div_window(v: nat, t: nat, s: nat)
    requires
        pow2(t) <= v < pow2(t + 1),
        s <= t,
    ensures
        pow2((t - s) as nat) <= v / pow2(s) < pow2((t - s) as nat + 1),
{
    let p = pow2(s);
    let lo = pow2((t - s) as nat);
    let hi = pow2((t - s) as nat + 1);
    vstd::arithmetic::power2::lemma_pow2_pos(s);
    vstd::arithmetic::power2::lemma_pow2_adds((t - s) as nat, s);
    vstd::arithmetic::power2::lemma_pow2_adds((t - s) as nat + 1, s);
    // lower bound
    vstd::arithmetic::div_mod::lemma_div_is_ordered(pow2(t) as int, v as int, p as int);
    vstd::arithmetic::div_mod::lemma_fundamental_div_mod_converse(
        pow2(t) as int,
        p as int,
        lo as int,
        0,
    );
    // upper bound, by contradiction
    if v / p >= hi {
        vstd::arithmetic::div_mod::lemma_fundamental_div_mod(v as int, p as int);
        assert(v as int >= p * (v / p)) by (nonlinear_arith)
            requires
                v as int == p * (v / p) + (v as int % p as int),
                v as int % p as int >= 0,
        ;
        assert(p * (v / p) >= p * hi) by (nonlinear_arith)
            requires
                v / p >= hi,
                p > 0,
        ;
        assert(p * hi == pow2(t + 1)) by (nonlinear_arith)
            requires
                hi * p == pow2((t - s) as nat + 1 + s),
                (t - s) as nat + 1 + s == t + 1,
        ;
        assert(false);
    }
}

/// Product window: multiplying a value whose top bit is `t` by `2^s` puts
/// the top bit at `t + s`.
proof fn lemma_pow2_mul_window(v: nat, t: nat, s: nat)
    requires
        pow2(t) <= v < pow2(t + 1),
    ensures
        pow2(t + s) <= v * pow2(s) < pow2(t + s + 1),
{
    let p = pow2(s);
    vstd::arithmetic::power2::lemma_pow2_pos(s);
    vstd::arithmetic::power2::lemma_pow2_adds(t, s);
    vstd::arithmetic::power2::lemma_pow2_adds(t + 1, s);
    assert(pow2(t) * p <= v * p) by (nonlinear_arith)
        requires
            pow2(t) <= v,
            p >= 0,
    ;
    assert(v * p < pow2(t + 1) * p) by (nonlinear_arith)
        requires
            v < pow2(t + 1),
            p > 0,
    ;
}

/// The mantissa that holds a single set top bit has the value
/// `2^(64k - 1)`.
proof fn lemma_single_top_word(q: Seq<u64>)
    requires
        q.len() >= 1,
        q.last() == 0x8000_0000_0000_0000,
        forall|i: int| 0 <= i < q.len() - 1 ==> q[i] == 0,
    ensures
        mval(q) == pow2((64 * q.len() - 1) as nat),
{
    let k = q.len();
    let d = q.drop_last();
    assert(forall|i: int| 0 <= i < d.len() ==> d[i] == 0);
    lemma_mval_zero_iff(d);
    vstd::arithmetic::power2::lemma2_to64_rest();
    vstd::arithmetic::power2::lemma_pow2_adds(63, 64 * (k - 1) as nat);
    assert(mval(q) == 0 + (q.last() as nat) * pow2(64 * (k - 1) as nat));
    assert(pow2(63) * pow2(64 * (k - 1) as nat) == pow2((64 * k - 1) as nat));
}

impl BigFloatNumber {
    /// Builds a canonical zero of `k` words.
    fn zero_of_words(k: usize, sgn: Sign, inexact: bool) -> (r: BigFloatNumber)
        requires
            1 <= k <= MAX_WORDS,
        ensures
            r.wf(),
            r.sp_is_zero(),
            r.sp_prec() == 64 * k,
            r.sp_sign() == sgn,
            r.sp_inexact() == inexact,
            r.sp_e() == 0,
    {
        let m = words_zero(k);
        BigFloatNumber { m, e: 0, s: sgn, inexact }
    }

    /// Builds a value from an unnormalized magnitude `mval(w) * 2^lsb_exp`,
    /// normalizing, rounding to `k` words under `rm`, and pinning
    /// subnormal results at the minimum exponent. `sticky` tells that
    /// nonzero bits below the given words were already discarded.
    #[verifier::rlimit(100)]
    fn normalize_round(
        w: Vec<u64>,
        lsb_exp: i64,
        sgn: Sign,
        sticky: bool,
        inexact_in: bool,
        k: usize,
        rm: RoundingMode,
    ) -> (r: Result<BigFloatNumber, Error>)
        requires
            1 <= k <= MAX_WORDS,
            1 <= w@.len() <= 1048576,
            -1099511627776 <= lsb_exp <= 1099511627776,
        ensures
            r matches Ok(f) ==> {
                &&& f.wf()
                &&& f.sp_prec() == 64 * k
                &&& f.sp_sign() == sgn
                &&& ((inexact_in || sticky) ==> f.sp_inexact())
                &&& (f.sp_is_zero() ==> f.sp_inexact() || mval(w@) == 0)
            },
            r matches Err(e) ==> e == Error::ExponentOverflow(sgn),
            mval(w@) == 0 ==> (r matches Ok(f) && f.sp_is_zero() && f.sp_inexact() == (
            inexact_in || sticky)),
            mval(w@) != 0 && lsb_exp + 64 * w@.len() + 1 <= EXPONENT_MAX ==> r is Ok,
            r is Err ==> lsb_exp + 64 * w@.len() + 1 > EXPONENT_MAX,
            ({
                let tb = crate::util::sp_log2(mval(w@)) as int;
                &&& ((mval(w@) != 0 && lsb_exp + tb + 1 > EXPONENT_MIN - 64 * k) ==> (r
                matches Ok(f) ==> !f.sp_is_zero()))
                &&& ((mval(w@) != 0 && !sticky && !inexact_in && EXPONENT_MIN <= lsb_exp + tb
                    + 1 <= EXPONENT_MAX && tb + 1 <= 64 * k) ==> (r matches Ok(f) ==> (
                !f.sp_inexact() && !f.sp_is_zero() && f.sp_e() == lsb_exp + tb + 1
                    && f.sp_val() == mval(w@) * pow2((64 * k - 1 - tb) as nat))))
                &&& ((mval(w@) != 0 && !sticky && EXPONENT_MIN <= lsb_exp + tb + 1
                    <= EXPONENT_MAX && tb + 1 <= 64 * k) ==> (r matches Ok(f) ==> (
                !f.sp_is_zero() && f.sp_e() == lsb_exp + tb + 1 && f.sp_val() == mval(w@)
                    * pow2((64 * k - 1 - tb) as nat))))
                &&& ((mval(w@) != 0 && !sticky && lsb_exp + tb + 1 < EXPONENT_MIN && lsb_exp
                    >= EXPONENT_MIN - 64 * k) ==> (r matches Ok(f) ==> (!f.sp_is_zero()
                    && f.sp_e() == EXPONENT_MIN && f.sp_val() == mval(w@) * pow2((lsb_exp - (
                EXPONENT_MIN - 64 * k)) as nat) && (!inexact_in ==> !f.sp_inexact()))))
                &&& ((mval(w@) != 0 && rm == RoundingMode::NoRound && EXPONENT_MIN <= lsb_exp
                    + tb + 1 <= EXPONENT_MAX && tb + 1 > 64 * k) ==> (r matches Ok(f) ==> (
                !f.sp_is_zero() && f.sp_e() == lsb_exp + tb + 1 && f.sp_val() == mval(w@)
                    / pow2((tb + 1 - 64 * k) as nat))))
                &&& ((mval(w@) != 0 && EXPONENT_MIN <= lsb_exp + tb + 1 <= EXPONENT_MAX) ==> (
                r matches Ok(f) ==> (!f.sp_is_zero() && f.sp_normalized() && (f.sp_e() == lsb_exp
                    + tb + 1 || f.sp_e() == lsb_exp + tb + 2))))
            }),
    {
        let ghost worig = w@;
        let lw = w.len();
        let t_opt = top_bit(&w);
        match t_opt {
            Option::None => Ok(Self::zero_of_words(k, sgn, inexact_in || sticky)),
            Option::Some(t) => {
                proof {
                    vstd::arithmetic::power2::lemma_pow2_pos(t as nat);
                }
                let n_bits: i64 = 64 * (k as i64);
                let ef: i64 = lsb_exp + (t as i64) + 1;
                if ef > EXPONENT_MAX as i64 {
                    return Err(Error::ExponentOverflow(sgn));
                }
                let deficit: i64 = if ef < EXPONENT_MIN as i64 {
                    EXPONENT_MIN as i64 - ef
                } else {
                    0
                };
                if deficit >= n_bits {
                    // the whole value lies below the smallest subnormal step
                    return Ok(Self::zero_of_words(k, sgn, true));
                }
                let target_top: i64 = n_bits - 1 - deficit;
                let ghost tt = target_top as nat;
                let (q, rb, sticky_all): (Vec<u64>, bool, bool) = if (t as i64) > target_top {
                    let s = ((t as i64) - target_top) as usize;
                    let (q1, st_low) = shr_sticky(&w, s - 1);
                    let (q2, rb1) = shr_sticky(&q1, 1);
                    proof {
                        let sn = (s - 1) as nat;
                        vstd::arithmetic::power2::lemma_pow2_adds(sn, 1);
                        vstd::arithmetic::power2::lemma2_to64();
                        vstd::arithmetic::power2::lemma_pow2_pos(sn);
                        vstd::arithmetic::div_mod::lemma_div_denominator(
                            mval(w@) as int,
                            pow2(sn) as int,
                            2,
                        );
                        assert(mval(q2@) == mval(w@) / pow2(s as nat));
                        lemma_pow2_div_window(mval(w@), t as nat, s as nat);
                    }
                    (q2, rb1, sticky || st_low)
                } else if (t as i64) == target_top {
                    (w, false, sticky)
                } else {
                    let s2 = (target_top - (t as i64)) as usize;
                    let q1 = shl_exact(&w, s2);
                    proof {
                        lemma_pow2_mul_window(mval(w@), t as nat, s2 as nat);
                    }
                    (q1, false, sticky)
                };
                proof {
                    assert(pow2(tt) <= mval(q@) < pow2(tt + 1));
                    vstd::arithmetic::power2::lemma_pow2_pos(tt);
                    if tt + 1 < 64 * k as nat {
                        vstd::arithmetic::power2::lemma_pow2_strictly_increases(
                            tt + 1,
                            64 * k as nat,
                        );
                    }
                    assert(pow2(tt + 1) <= pow2(64 * k as nat));
                }
                let mut q = q;
                // bring the vector to exactly k words
                if q.len() < k {
                    words_pad(&mut q, k);
                } else {
                    proof {
                        lemma_mval_bound(q@);
                    }
                    words_trim(&mut q, k);
                }
                let lsb = q[0] % 2 == 1;
                let do_inc = round_up(rm, sgn, rb, sticky_all, lsb);
                let lost = rb || sticky_all;
                let mut ef = ef;
                if do_inc {
                    let (q3, carry) = words_inc(&q);
                    if carry {
                        proof {
                            lemma_mval_bound(q3@);
                            vstd::arithmetic::power2::lemma_pow2_pos(64 * k as nat);
                            // a full carry means the mantissa was all ones,
                            // which only a normalized window can reach
                            assert(mval(q@) + 1 == pow2(64 * k as nat));
                            if deficit > 0 {
                                assert(tt + 1 < 64 * k as nat);
                                vstd::arithmetic::power2::lemma_pow2_strictly_increases(
                                    tt + 1,
                                    64 * k as nat,
                                );
                                assert(false);
                            }
                        }
                        // the result is the next power of two
                        let mut q4 = words_zero(k);
                        q4[k - 1] = 0x8000_0000_0000_0000;
                        if ef >= EXPONENT_MAX as i64 {
                            return Err(Error::ExponentOverflow(sgn));
                        }
                        ef = ef + 1;
                        proof {
                            lemma_single_top_word(q4@);
                            vstd::arithmetic::power2::lemma_pow2_pos((64 * k - 1) as nat);
                        }
                        q = q4;
                    } else {
                        proof {
                            lemma_mval_bound(q3@);
                        }
                        q = q3;
                    }
                } else if matches!(rm, RoundingMode::ToOdd) && lost && !lsb {
                    // round-to-odd sets the lowest bit; the word is even,
                    // so no carry can occur
                    let ghost qpre = q@;
                    let q0 = q[0];
                    q[0] = q0 + 1;
                    proof {
                        lemma_mval_low(qpre);
                        lemma_mval_low(q@);
                        assert(q@.skip(1) =~= qpre.skip(1));
                        assert(mval(q@) == mval(qpre) + 1);
                        lemma_mval_bound(q@);
                        vstd::arithmetic::power2::lemma_pow2_pos(tt);
                    }
                }
                let e_final: Exponent = if deficit > 0 {
                    EXPONENT_MIN
                } else {
                    ef as Exponent
                };
                proof {
                    // the mantissa is nonzero and, when the exponent is not
                    // pinned, normalized
                    assert(mval(q@) >= 1);
                    if deficit == 0 {
                        assert(tt == (64 * k - 1) as nat);
                        assert(mval(q@) >= pow2((64 * k - 1) as nat));
                    }
                    // on the lossless path the kept mantissa is the input
                    // magnitude, exactly scaled up to the window
                    let tbg = crate::util::sp_log2(mval(worig)) as int;
                    if !sticky && EXPONENT_MIN <= lsb_exp + tbg + 1 <= EXPONENT_MAX && tbg + 1
                        <= 64 * k {
                        vstd::arithmetic::power2::lemma2_to64();
                        assert(t == tbg);
                        assert(deficit == 0);
                        if t as i64 == target_top {
                            assert(mval(q@) == mval(worig) * pow2(((64 * k - 1) - tbg) as nat))
                                by (nonlinear_arith)
                                requires
                                    mval(q@) == mval(worig),
                                    pow2(((64 * k - 1) - tbg) as nat) == 1,
                            ;
                        }
                    }
                    if matches!(rm, RoundingMode::NoRound) && EXPONENT_MIN <= lsb_exp + tbg
                        + 1 <= EXPONENT_MAX && tbg + 1 > 64 * k {
                        // truncation drops the bits below the window whole
                        assert(t == tbg);
                        assert(deficit == 0);
                        assert((t as i64) > target_top);
                        assert(((tbg + 1) - 64 * k) as nat == ((t as i64) - target_top) as nat);
                    }
                    if !sticky && lsb_exp + tbg + 1 < EXPONENT_MIN && lsb_exp >= EXPONENT_MIN
                        as i64 - 64 * (k as i64) {
                        vstd::arithmetic::power2::lemma2_to64();
                        assert(t == tbg);
                        assert(deficit > 0);
                        if t as i64 == target_top {
                            assert(mval(q@) == mval(worig) * pow2(
                                (lsb_exp - (EXPONENT_MIN - 64 * k)) as nat,
                            )) by (nonlinear_arith)
                                requires
                                    mval(q@) == mval(worig),
                                    pow2((lsb_exp - (EXPONENT_MIN - 64 * k)) as nat) == 1,
                                    (lsb_exp - (EXPONENT_MIN as i64 - 64 * (k as i64))) == 0,
                            ;
                        }
                    }
                }
                let f = BigFloatNumber { m: q, e: e_final, s: sgn, inexact: inexact_in || lost };
                Ok(f)
            },
        }
    }

    /// A zero value at precision `p` (rounded up to whole words).
    pub fn new(p: usize) -> (r: Result<BigFloatNumber, Error>)
        ensures
            p == 0 <==> r == Result::<BigFloatNumber, Error>::Err(Error::InvalidPrecision),
            p > MAX_P ==> r == Result::<BigFloatNumber, Error>::Err(Error::AllocationError),
            0 < p <= MAX_P <==> r is Ok,
            r matches Ok(f) ==> {
                &&& f.wf()
                &&& f.sp_is_zero()
                &&& f.sp_prec() == spec_round_p(p as nat)
                &&& f.sp_sign() == Sign::Pos
                &&& !f.sp_inexact()
            },
    {
        Self::new2(p, Sign::Pos, false)
    }

    /// A zero value at precision `p` with the given sign and inexact flag.
    pub fn new2(p: usize, sgn: Sign, inexact: bool) -> (r: Result<BigFloatNumber, Error>)
        ensures
            p == 0 <==> r == Result::<BigFloatNumber, Error>::Err(Error::InvalidPrecision),
            p > MAX_P ==> r == Result::<BigFloatNumber, Error>::Err(Error::AllocationError),
            0 < p <= MAX_P <==> r is Ok,
            r matches Ok(f) ==> {
                &&& f.wf()
                &&& f.sp_is_zero()
                &&& f.sp_prec() == spec_round_p(p as nat)
                &&& f.sp_sign() == sgn
                &&& f.sp_inexact() == inexact
            },
    {
        if p == 0 {
            return Err(Error::InvalidPrecision);
        }
        if p > MAX_P {
            return Err(Error::AllocationError);
        }
        let k = round_p(p) / 64;
        proof {
            assert(spec_round_p(p as nat) / 64 >= 1 && spec_round_p(p as nat) / 64 <= 4096) by (
            nonlinear_arith)
                requires
                    64 <= spec_round_p(p as nat) <= MAX_P,
                    spec_round_p(p as nat) % 64 == 0,
            ;
            assert(64 * (spec_round_p(p as nat) / 64) == spec_round_p(p as nat)) by (
            nonlinear_arith)
                requires
                    spec_round_p(p as nat) % 64 == 0,
            ;
        }
        Ok(Self::zero_of_words(k, sgn, inexact))
    }

    /// A value holding the given machine word, at precision `p`.
    pub fn from_word(v: u64, p: usize) -> (r: Result<BigFloatNumber, Error>)
        ensures
            p == 0 <==> r == Result::<BigFloatNumber, Error>::Err(Error::InvalidPrecision),
            p > MAX_P ==> r == Result::<BigFloatNumber, Error>::Err(Error::AllocationError),
            0 < p <= MAX_P <==> r is Ok,
            r matches Ok(f) ==> {
                &&& f.wf()
                &&& f.sp_prec() == spec_round_p(p as nat)
                &&& f.sp_sign() == Sign::Pos
                &&& (f.sp_is_zero() <==> v == 0)
                &&& !f.sp_inexact()
                &&& (v != 0 ==> (f.sp_e() == crate::util::sp_log2(v as nat) + 1 && f.sp_val()
                    == (v as nat) * pow2((spec_round_p(p as nat) - 1 - crate::util::sp_log2(
                    v as nat)) as nat)))
            },
    {
        if p == 0 {
            return Err(Error::InvalidPrecision);
        }
        if p > MAX_P {
            return Err(Error::AllocationError);
        }
        let k = round_p(p) / 64;
        proof {
            assert(spec_round_p(p as nat) / 64 >= 1 && spec_round_p(p as nat) / 64 <= 4096) by (
            nonlinear_arith)
                requires
                    64 <= spec_round_p(p as nat) <= MAX_P,
                    spec_round_p(p as nat) % 64 == 0,
            ;
            assert(64 * (spec_round_p(p as nat) / 64) == spec_round_p(p as nat)) by (
            nonlinear_arith)
                requires
                    spec_round_p(p as nat) % 64 == 0,
            ;
        }
        if v == 0 {
            return Ok(Self::zero_of_words(k, Sign::Pos, false));
        }
        let mut w: Vec<u64> = Vec::new();
        w.push(v);
        proof {
            reveal_with_fuel(mval, 2);
            assert(w@.drop_last() =~= Seq::<u64>::empty());
            assert(mval(w@.drop_last()) == 0);
            vstd::arithmetic::power2::lemma2_to64();
            assert(w@.last() == v);
            assert(w@.len() == 1);
            assert(mval(w@) == mval(w@.drop_last()) + (w@.last() as nat) * pow2(
                64 * (w@.len() - 1) as nat,
            ));
            assert(64 * (w@.len() - 1) as nat == 0);
            assert(pow2(64 * (w@.len() - 1) as nat) == 1);
            assert((w@.last() as nat) * pow2(64 * (w@.len() - 1) as nat) == v) by (
            nonlinear_arith)
                requires
                    pow2(64 * (w@.len() - 1) as nat) == 1,
                    w@.last() == v,
            ;
            assert(mval(w@) == v);
        }
        proof {
            crate::util::lemma_log2_bounds(v as nat);
            let tb = crate::util::sp_log2(v as nat);
            vstd::arithmetic::power2::lemma2_to64_rest();
            if tb + 1 > 64 {
                if tb >= 65 {
                    vstd::arithmetic::power2::lemma_pow2_strictly_increases(64, tb);
                }
                assert(false);
            }
        }
        match Self::normalize_round(w, 0, Sign::Pos, false, false, k, RoundingMode::NoRound) {
            Ok(f) => Ok(f),
            Err(e) => Err(e),
        }
    }

    /// The value one, exactly, at precision `p`.
    pub fn unit_at(p: usize) -> (r: Result<BigFloatNumber, Error>)
        ensures
            p == 0 <==> r == Result::<BigFloatNumber, Error>::Err(Error::InvalidPrecision),
            p > MAX_P ==> r == Result::<BigFloatNumber, Error>::Err(Error::AllocationError),
            0 < p <= MAX_P <==> r is Ok,
            r matches Ok(f) ==> {
                &&& f.wf()
                &&& f.sp_prec() == spec_round_p(p as nat)
                &&& f.sp_val() == pow2((f.sp_prec() - 1) as nat)
                &&& f.sp_e() == 1
                &&& f.sp_sign() == Sign::Pos
                &&& !f.sp_inexact()
                &&& !f.sp_is_zero()
            },
    {
        match Self::new(p) {
            Ok(z) => {
                let mut m = z.m;
                let k = m.len();
                proof {
                    lemma_mval_zero_iff(m@);
                }
                m[k - 1] = 0x8000_0000_0000_0000;
                proof {
                    lemma_single_top_word(m@);
                    vstd::arithmetic::power2::lemma_pow2_pos((64 * m@.len() - 1) as nat);
                }
                Ok(BigFloatNumber { m, e: 1, s: Sign::Pos, inexact: false })
            },
            Err(e) => Err(e),
        }
    }

    /// The smallest representable positive value at precision `p`: the
    /// lowest mantissa bit at the minimum exponent.
    pub fn min_positive(p: usize) -> (r: Result<BigFloatNumber, Error>)
        ensures
            p == 0 <==> r == Result::<BigFloatNumber, Error>::Err(Error::InvalidPrecision),
            p > MAX_P ==> r == Result::<BigFloatNumber, Error>::Err(Error::AllocationError),
            0 < p <= MAX_P <==> r is Ok,
            r matches Ok(f) ==> {
                &&& f.wf()
                &&& f.sp_prec() == spec_round_p(p as nat)
                &&& f.sp_sign() == Sign::Pos
                &&& !f.sp_is_zero()
                &&& f.sp_e() == EXPONENT_MIN
            },
    {
        match Self::new(p) {
            Ok(z) => {
                let mut m = z.m;
                m[0] = 1;
                proof {
                    lemma_mval_low(m@);
                    assert(m@.skip(1) =~= z.m@.skip(1));
                    lemma_mval_zero_iff(z.m@.skip(1));
                    lemma_mval_split(z.m@, 1);
                }
                Ok(BigFloatNumber { m, e: EXPONENT_MIN, s: Sign::Pos, inexact: false })
            },
            Err(e) => Err(e),
        }
    }

    /// Builds a value from raw parts; rejects representations that break
    /// the invariant.
    pub fn from_raw_parts(m: Vec<u64>, sgn: Sign, e: Exponent) -> (r: Option<BigFloatNumber>)
        ensures
            r matches Some(f) ==> {
                &&& f.wf()
                &&& f.sp_m() == m@
                &&& f.sp_sign() == sgn
                &&& f.sp_e() == e
                &&& !f.sp_inexact()
            },
    {
        let lm = m.len();
        if lm < 1 || lm > MAX_WORDS {
            return None;
        }
        if e < EXPONENT_MIN {
            return None;
        }
        let zero = crate::words::words_is_zero(&m);
        if zero {
            if e != 0 {
                return None;
            }
            return Some(BigFloatNumber { m, e: 0, s: sgn, inexact: false });
        }
        let top_ok = m[lm - 1] >= 0x8000_0000_0000_0000;
        if !top_ok && e != EXPONENT_MIN {
            return None;
        }
        proof {
            if m@[lm - 1] >= 0x8000_0000_0000_0000 {
                lemma_mval_split(m@, lm - 1);
                let hi = m@.skip(lm - 1);
                assert(hi[0] == m@[lm - 1]);
                assert(hi.skip(1) =~= Seq::<u64>::empty());
                assert(mval(hi.skip(1)) == 0);
                lemma_mval_low(hi);
                assert(mval(hi) == m@[lm - 1] + 0 * pow2(64));
                vstd::arithmetic::power2::lemma2_to64_rest();
                vstd::arithmetic::power2::lemma_pow2_adds(63, 64 * (lm - 1) as nat);
                vstd::arithmetic::power2::lemma_pow2_pos(64 * (lm - 1) as nat);
                assert((mval(hi)) * pow2(64 * (lm - 1) as nat) >= pow2(63) * pow2(
                    64 * (lm - 1) as nat,
                )) by (nonlinear_arith)
                    requires
                        mval(hi) >= pow2(63),
                        pow2(64 * (lm - 1) as nat) > 0,
                ;
                vstd::arithmetic::power2::lemma_pow2_pos(64 * (lm - 1) as nat);
            }
        }
        Some(BigFloatNumber { m, e, s: sgn, inexact: false })
    }

    /// A copy of the value. Kept fallible to mirror the engine's promise
    /// that every allocation can fail; the copy itself never does.
    pub fn clone(&self) -> (r: Result<BigFloatNumber, Error>)
        ensures
            r matches Ok(f) ==> {
                &&& f.sp_m() == self.sp_m()
                &&& f.sp_e() == self.sp_e()
                &&& f.sp_sign() == self.sp_sign()
                &&& f.sp_inexact() == self.sp_inexact()
            },
            r is Ok,
    {
        let m = words_copy(&self.m);
        proof {
            assert(m@ =~= self.m@);
        }
        Ok(BigFloatNumber { m, e: self.e, s: self.s, inexact: self.inexact })
    }

    /// The exponent.
    pub fn exponent(&self) -> (r: Exponent)
        ensures
            r == self.sp_e(),
    {
        self.e
    }

    /// Sets the exponent. The value must stay representable: a subnormal
    /// mantissa can only sit at the minimum exponent. A zero keeps its
    /// canonical exponent and ignores the request.
    pub fn set_exponent(&mut self, e: Exponent)
        requires
            old(self).wf(),
            EXPONENT_MIN <= e <= EXPONENT_MAX,
            old(self).sp_normalized() || old(self).sp_is_zero() || e == EXPONENT_MIN,
        ensures
            final(self).wf(),
            !old(self).sp_is_zero() ==> final(self).sp_e() == e,
            old(self).sp_is_zero() ==> *final(self) == *old(self),
            final(self).sp_m() == old(self).sp_m(),
            final(self).sp_sign() == old(self).sp_sign(),
            final(self).sp_inexact() == old(self).sp_inexact(),
    {
        if !self.is_zero() {
            self.e = e;
        }
    }

    /// The sign.
    pub fn sign(&self) -> (r: Sign)
        ensures
            r == self.sp_sign(),
    {
        self.s
    }

    /// Sets the sign.
    pub fn set_sign(&mut self, sgn: Sign)
        ensures
            final(self).sp_sign() == sgn,
            final(self).sp_m() == old(self).sp_m(),
            final(self).sp_e() == old(self).sp_e(),
            final(self).sp_inexact() == old(self).sp_inexact(),
            old(self).wf() ==> final(self).wf(),
    {
        self.s = sgn;
    }

    /// Flips the sign.
    pub fn inv_sign(&mut self)
        ensures
            final(self).sp_sign() == old(self).sp_sign().spec_invert(),
            final(self).sp_m() == old(self).sp_m(),
            final(self).sp_e() == old(self).sp_e(),
            final(self).sp_inexact() == old(self).sp_inexact(),
            old(self).wf() ==> final(self).wf(),
    {
        self.s = self.s.invert();
    }

    /// Whether the value is zero.
    pub fn is_zero(&self) -> (r: bool)
        ensures
            r == self.sp_is_zero(),
    {
        crate::words::words_is_zero(&self.m)
    }

    /// The inexact flag.
    pub fn inexact(&self) -> (r: bool)
        ensures
            r == self.sp_inexact(),
    {
        self.inexact
    }

    /// Sets the inexact flag.
    pub fn set_inexact(&mut self, v: bool)
        ensures
            final(self).sp_inexact() == v,
            final(self).sp_m() == old(self).sp_m(),
            final(self).sp_e() == old(self).sp_e(),
            final(self).sp_sign() == old(self).sp_sign(),
            old(self).wf() ==> final(self).wf(),
    {
        self.inexact = v;
    }

    /// The precision: the mantissa bit length.
    pub fn mantissa_max_bit_len(&self) -> (r: usize)
        requires
            self.wf(),
        ensures
            r == self.sp_prec(),
    {
        self.m.len() * 64
    }
}

/// The sign of a product or quotient.
fn sign_mul(a: Sign, b: Sign) -> (r: Sign)
    ensures
        r == (if a == b {
            Sign::Pos
        } else {
            Sign::Neg
        }),
{
    if matches!(a, Sign::Pos) == matches!(b, Sign::Pos) {
        Sign::Pos
    } else {
        Sign::Neg
    }
}

/// Bit `i` of the mantissa, counted from the most significant end.
pub open spec fn sp_mant_bit(x: &BigFloatNumber, i: int) -> nat {
    (x.sp_val() / pow2((x.sp_prec() - 1 - i) as nat)) % 2
}

/// This value's mantissa brought to the scale shared with `b`: the
/// scale of the lower of the two lowest mantissa bits.
pub open spec fn sp_scaled_a(a: &BigFloatNumber, b: &BigFloatNumber) -> nat {
    let sa = a.sp_e() - a.sp_prec();
    let sb = b.sp_e() - b.sp_prec();
    if sa <= sb {
        a.sp_val()
    } else {
        a.sp_val() * pow2((sa - sb) as nat)
    }
}

/// The other value's mantissa brought to the same shared scale.
pub open spec fn sp_scaled_b(a: &BigFloatNumber, b: &BigFloatNumber) -> nat {
    let sa = a.sp_e() - a.sp_prec();
    let sb = b.sp_e() - b.sp_prec();
    if sa <= sb {
        b.sp_val() * pow2((sb - sa) as nat)
    } else {
        b.sp_val()
    }
}

/// The shared scale itself: the lower of the two lowest mantissa bits.
pub open spec fn sp_min_scale(a: &BigFloatNumber, b: &BigFloatNumber) -> int {
    let sa = a.sp_e() - a.sp_prec();
    let sb = b.sp_e() - b.sp_prec();
    if sa <= sb {
        sa
    } else {
        sb
    }
}

/// The exact sum of the two magnitudes over the shared scale.
pub open spec fn sp_scaled_sum(a: &BigFloatNumber, b: &BigFloatNumber) -> nat {
    sp_scaled_a(a, b) + sp_scaled_b(a, b)
}

/// The exact difference of the two magnitudes over the shared scale.
pub open spec fn sp_scaled_absdiff(a: &BigFloatNumber, b: &BigFloatNumber) -> nat {
    if sp_scaled_a(a, b) >= sp_scaled_b(a, b) {
        (sp_scaled_a(a, b) - sp_scaled_b(a, b)) as nat
    } else {
        (sp_scaled_b(a, b) - sp_scaled_a(a, b)) as nat
    }
}

/// Neither operand of a sum lies entirely below the other's kept window,
/// so the sum is formed over the shared frame rather than as a sticky
/// trace.
pub open spec fn sp_addsub_near(a: &BigFloatNumber, b: &BigFloatNumber, rp: int) -> bool {
    &&& b.sp_e() + rp + 130 >= a.sp_e() - a.sp_prec()
    &&& a.sp_e() + rp + 130 >= b.sp_e() - b.sp_prec()
}

/// The magnitude of `a` lies strictly below the magnitude of `b`.
pub open spec fn sp_abs_lt(a: &BigFloatNumber, b: &BigFloatNumber) -> bool {
    sp_scaled_a(a, b) < sp_scaled_b(a, b)
}

/// The magnitudes of `a` and `b` are the same.
pub open spec fn sp_abs_eq(a: &BigFloatNumber, b: &BigFloatNumber) -> bool {
    sp_scaled_a(a, b) == sp_scaled_b(a, b)
}

/// `a` lies strictly below `b` as a represented value; zeros of either
/// sign are the same point.
pub open spec fn sp_lt(a: &BigFloatNumber, b: &BigFloatNumber) -> bool {
    if a.sp_is_zero() {
        !b.sp_is_zero() && b.sp_sign() == Sign::Pos
    } else if b.sp_is_zero() {
        a.sp_sign() == Sign::Neg
    } else if a.sp_sign() != b.sp_sign() {
        a.sp_sign() == Sign::Neg
    } else if a.sp_sign() == Sign::Pos {
        sp_abs_lt(a, b)
    } else {
        sp_abs_lt(b, a)
    }
}

/// `a` and `b` represent the same point.
pub open spec fn sp_val_eq(a: &BigFloatNumber, b: &BigFloatNumber) -> bool {
    if a.sp_is_zero() || b.sp_is_zero() {
        a.sp_is_zero() && b.sp_is_zero()
    } else {
        a.sp_sign() == b.sp_sign() && sp_abs_eq(a, b)
    }
}

/// Swapping the operands swaps the scaled mantissas.
proof fn lemma_scaled_swap(a: &BigFloatNumber, b: &BigFloatNumber)
    ensures
        sp_scaled_a(b, a) == sp_scaled_b(a, b),
        sp_scaled_b(b, a) == sp_scaled_a(a, b),
{
    vstd::arithmetic::power2::lemma2_to64();
    let sa = a.sp_e() - a.sp_prec();
    let sb = b.sp_e() - b.sp_prec();
    if sa == sb {
        assert(a.sp_val() * pow2(0) == a.sp_val()) by (nonlinear_arith)
            requires
                pow2(0) == 1,
        ;
        assert(b.sp_val() * pow2(0) == b.sp_val()) by (nonlinear_arith)
            requires
                pow2(0) == 1,
        ;
    }
}

/// Exponents are not lied to by subnormals: with well-formed nonzero
/// values, a strictly larger exponent means a strictly larger magnitude.
proof fn lemma_bigger_exponent_bigger_magnitude(a: &BigFloatNumber, b: &BigFloatNumber)
    requires
        a.wf(),
        b.wf(),
        !a.sp_is_zero(),
        !b.sp_is_zero(),
        a.sp_e() < b.sp_e(),
    ensures
        sp_abs_lt(a, b),
{
    let sa = a.sp_e() - a.sp_prec();
    let sb = b.sp_e() - b.sp_prec();
    let va = a.sp_val();
    let vb = b.sp_val();
    // b is normalized: its exponent exceeds the minimum
    assert(b.sp_normalized());
    crate::words::lemma_mval_bound(a.sp_m());
    assert(va < pow2(a.sp_prec()));
    assert(vb >= pow2((b.sp_prec() - 1) as nat));
    if sa <= sb {
        // a at its own scale, b scaled up by sb - sa
        let d = (sb - sa) as nat;
        vstd::arithmetic::power2::lemma_pow2_adds((b.sp_prec() - 1) as nat, d);
        assert(vb * pow2(d) >= pow2((b.sp_prec() - 1) as nat) * pow2(d)) by (nonlinear_arith)
            requires
                vb >= pow2((b.sp_prec() - 1) as nat),
                pow2(d) >= 0,
        ;
        assert(pow2((b.sp_prec() - 1) as nat + d) == pow2((b.sp_e() - 1 - sa) as nat));
        lemma_pow2_le((a.sp_prec()) as nat, (b.sp_e() - 1 - sa) as nat);
        assert(va < pow2((b.sp_e() - 1 - sa) as nat));
    } else {
        let d = (sa - sb) as nat;
        vstd::arithmetic::power2::lemma_pow2_adds(a.sp_prec() as nat, d);
        vstd::arithmetic::power2::lemma_pow2_pos(d);
        vstd::arithmetic::power2::lemma_pow2_pos(a.sp_prec() as nat);
        assert(va * pow2(d) < pow2(a.sp_prec()) * pow2(d)) by (nonlinear_arith)
            requires
                va < pow2(a.sp_prec()),
                pow2(d) > 0,
                pow2(a.sp_prec()) > 0,
        ;
        assert(pow2(a.sp_prec() + d) == pow2((a.sp_e() - sb) as nat));
        lemma_pow2_le((a.sp_e() - sb) as nat, (b.sp_prec() - 1) as nat);
        assert(va * pow2(d) < pow2((b.sp_prec() - 1) as nat));
    }
}

/// Powers of two never decrease.
proof fn lemma_pow2_le(e1: nat, e2: nat)
    requires
        e1 <= e2,
    ensures
        pow2(e1) <= pow2(e2),
{
    if e1 < e2 {
        vstd::arithmetic::power2::lemma_pow2_strictly_increases(e1, e2);
    }
}


/// A dividend shifted far enough above the divisor gives a quotient of at
/// least the guard window: `floor(va * 2^s / vb) >= 2^g` whenever
/// `b1 + s >= g + b2 + 1`.
proof fn lemma_quotient_window(
    va: nat,
    vb: nat,
    nval: nat,
    qval: nat,
    b1: nat,
    b2: nat,
    s: nat,
    g: nat,
)
    requires
        pow2(b1) <= va,
        pow2(b2) <= vb < pow2(b2 + 1),
        nval == va * pow2(s),
        qval == nval / vb,
        b1 + s >= g + b2 + 1,
    ensures
        qval >= pow2(g),
{
    vstd::arithmetic::power2::lemma_pow2_adds(b1, s);
    vstd::arithmetic::power2::lemma_pow2_adds(g, b2 + 1);
    vstd::arithmetic::power2::lemma_pow2_pos(b2 + 1);
    vstd::arithmetic::power2::lemma_pow2_pos(b2);
    vstd::arithmetic::power2::lemma_pow2_pos(g);
    vstd::arithmetic::power2::lemma_pow2_pos(s);
    vstd::arithmetic::power2::lemma_pow2_pos(b1 + s);
    assert(nval >= pow2(b1 + s)) by (nonlinear_arith)
        requires
            nval == va * pow2(s),
            va >= pow2(b1),
            pow2(s) >= 1,
            pow2(b1 + s) == pow2(b1) * pow2(s),
    ;
    crate::util::lemma_pow2_increases(g + b2 + 1, b1 + s);
    // dividing by a smaller divisor cannot shrink the quotient
    vstd::arithmetic::div_mod::lemma_div_is_ordered(
        pow2(g + b2 + 1) as int,
        nval as int,
        vb as int,
    );
    vstd::arithmetic::div_mod::lemma_div_is_ordered_by_denominator(
        pow2(g + b2 + 1) as int,
        vb as int,
        pow2(b2 + 1) as int,
    );
    vstd::arithmetic::div_mod::lemma_fundamental_div_mod_converse(
        pow2(g + b2 + 1) as int,
        pow2(b2 + 1) as int,
        pow2(g) as int,
        0,
    );
}

impl BigFloatNumber {
    /// The weight of the mantissa's lowest bit: `e - prec`.
    fn lsb_weight(&self) -> (r: i64)
        requires
            self.wf(),
        ensures
            r == self.sp_e() - self.sp_prec(),
            -2147745791 <= r <= 2147483647,
    {
        self.e as i64 - 64 * (self.m.len() as i64)
    }

    /// Rounds a copy of the mantissa into a fresh value at `k` words.
    fn requantize(&self, k: usize, rm: RoundingMode) -> (r: Result<BigFloatNumber, Error>)
        requires
            self.wf(),
            1 <= k <= MAX_WORDS,
        ensures
            r matches Ok(f) ==> {
                &&& f.wf()
                &&& f.sp_prec() == 64 * k
                &&& f.sp_sign() == self.sp_sign()
                &&& (self.sp_inexact() ==> f.sp_inexact())
                &&& (self.sp_is_zero() ==> f.sp_is_zero() && f.sp_inexact()
                    == self.sp_inexact())
                &&& (f.sp_is_zero() ==> f.sp_inexact() || self.sp_is_zero())
                &&& ((!self.sp_is_zero() && 64 * k >= self.sp_prec()) ==> (f.sp_e()
                    == self.sp_e() && f.sp_val() == self.sp_val() * pow2(
                    (64 * k - self.sp_prec()) as nat,
                ) && (!self.sp_inexact() ==> !f.sp_inexact())))
                &&& ((!self.sp_is_zero() && self.sp_normalized() && rm == RoundingMode::NoRound
                    && 64 * k < self.sp_prec()) ==> (f.sp_e() == self.sp_e() && f.sp_val()
                    == self.sp_val() / pow2((self.sp_prec() - 64 * k) as nat)))
            },
            r matches Err(e) ==> e == Error::ExponentOverflow(self.sp_sign()),
            self.sp_e() < EXPONENT_MAX ==> r is Ok,
    {
        let w = words_copy(&self.m);
        proof {
            assert(w@ =~= self.m@);
            if mval(w@) != 0 {
                lemma_mval_bound(w@);
                crate::util::lemma_log2_bounds(mval(w@));
                let tb = crate::util::sp_log2(mval(w@));
                if tb + 1 > 64 * w@.len() {
                    if tb > 64 * w@.len() {
                        vstd::arithmetic::power2::lemma_pow2_strictly_increases(
                            64 * w@.len(),
                            tb,
                        );
                    }
                    assert(pow2(64 * w@.len()) <= pow2(tb));
                    assert(false);
                }
                if self.sp_normalized() {
                    // a normalized mantissa pins its own top bit
                    crate::util::lemma_log2_window(mval(w@), (self.sp_prec() - 1) as nat);
                } else {
                    // otherwise the exponent is pinned at the minimum and
                    // the mantissa rides strictly below its window
                    assert(self.sp_e() == EXPONENT_MIN);
                    if tb + 1 > self.sp_prec() - 1 {
                        crate::util::lemma_pow2_increases(
                            (self.sp_prec() - 1) as nat,
                            tb,
                        );
                        assert(false);
                    }
                }
            }
        }
        Self::normalize_round(w, self.lsb_weight(), self.s, false, self.inexact, k, rm)
    }

    /// Builds a rounded value from a raw magnitude `mval(w) * 2^lsb_exp`.
    /// Backs the constants cache, whose tables carry more bits than any
    /// requested precision; `sticky` stands for the tail beyond the table.
    pub(crate) fn from_magnitude(
        w: Vec<u64>,
        lsb_exp: i64,
        sgn: Sign,
        sticky: bool,
        k: usize,
        rm: RoundingMode,
    ) -> (r: Result<BigFloatNumber, Error>)
        requires
            1 <= k <= MAX_WORDS,
            1 <= w@.len() <= 1048576,
            -1099511627776 <= lsb_exp <= 1099511627776,
        ensures
            r matches Ok(f) ==> {
                &&& f.wf()
                &&& f.sp_prec() == 64 * k
                &&& f.sp_sign() == sgn
                &&& (sticky ==> f.sp_inexact())
            },
            ({
                let tb = crate::util::sp_log2(mval(w@)) as int;
                (mval(w@) != 0 && EXPONENT_MIN <= lsb_exp + tb + 1 <= EXPONENT_MAX) ==> (r
                matches Ok(f) ==> (!f.sp_is_zero() && f.sp_normalized() && (f.sp_e() == lsb_exp
                    + tb + 1 || f.sp_e() == lsb_exp + tb + 2)))
            }),
            mval(w@) != 0 && lsb_exp + 64 * w@.len() + 1 <= EXPONENT_MAX ==> r is Ok,
    {
        Self::normalize_round(w, lsb_exp, sgn, sticky, false, k, rm)
    }

    /// The dominant operand of a sum whose other operand lies entirely
    /// below the kept window: the result is the dominant magnitude with a
    /// sticky trace, nudged down by one guard unit when the signs differ.
    fn far_tail(big: &Self, sgn: Sign, same_sign: bool, inx: bool, k: usize, rm: RoundingMode)
        -> (r: Result<BigFloatNumber, Error>)
        requires
            big.wf(),
            !big.sp_is_zero(),
            1 <= k <= MAX_WORDS,
        ensures
            r matches Ok(f) ==> {
                &&& f.wf()
                &&& f.sp_prec() == 64 * k
                &&& (inx ==> f.sp_inexact())
            },
            r matches Err(e) ==> e matches Error::ExponentOverflow(_),
            big.sp_e() + 66 <= EXPONENT_MAX ==> r is Ok,
    {
        let ext = shl_exact(&big.m, 128);
        let lsb = big.lsb_weight() - 128;
        proof {
            vstd::arithmetic::power2::lemma_pow2_pos(128);
            assert(mval(ext@) >= 1) by (nonlinear_arith)
                requires
                    mval(ext@) == mval(big.sp_m()) * pow2(128),
                    mval(big.sp_m()) >= 1,
                    pow2(128) >= 1,
            ;
            // the extended frame tops out just above the operand's exponent
            assert(lsb + 64 * ext@.len() + 1 == big.sp_e() + 65);
        }
        if same_sign {
            return Self::normalize_round(ext, lsb, sgn, true, inx, k, rm);
        }
        let one = crate::words::words_one(ext.len());
        let dec = crate::words::words_sub(&ext, &one);
        Self::normalize_round(dec, lsb, sgn, true, inx, k, rm)
    }

    /// The sum of two magnitudes in a shared frame, as a rounded value.
    /// `sgn_b` stands for the second operand's possibly flipped sign.
    #[verifier::rlimit(100)]
    fn add_sub(&self, d2: &Self, sgn_b: Sign, p: usize, rm: RoundingMode) -> (r: Result<
        BigFloatNumber,
        Error,
    >)
        requires
            self.wf(),
            d2.wf(),
        ensures
            p == 0 <==> r == Result::<BigFloatNumber, Error>::Err(Error::InvalidPrecision),
            p > MAX_P ==> r == Result::<BigFloatNumber, Error>::Err(Error::AllocationError),
            r matches Ok(f) ==> {
                &&& f.wf()
                &&& f.sp_prec() == spec_round_p(p as nat)
                &&& ((self.sp_inexact() || d2.sp_inexact()) ==> f.sp_inexact())
            },
            r is Err ==> (r == Result::<BigFloatNumber, Error>::Err(Error::InvalidPrecision)
                || r == Result::<BigFloatNumber, Error>::Err(Error::AllocationError) || (
            r matches Err(e) && e matches Error::ExponentOverflow(_))),
            (0 < p <= MAX_P && self.sp_e() + 130 <= EXPONENT_MAX && d2.sp_e() + 130
                <= EXPONENT_MAX) ==> r is Ok,
            ({
                // a sum over the shared frame: exact when it fits, the
                // floor of the exact sum under truncation
                let rp = spec_round_p(p as nat) as int;
                let m0 = sp_min_scale(self, d2);
                let ssum = sp_scaled_sum(self, d2);
                let tbs = crate::util::sp_log2(ssum) as int;
                &&& ((0 < p <= MAX_P && !self.sp_is_zero() && !d2.sp_is_zero() && self.sp_sign()
                    == sgn_b && sp_addsub_near(self, d2, rp) && EXPONENT_MIN <= m0 + tbs + 1
                    <= EXPONENT_MAX && tbs + 1 <= rp) ==> (r matches Ok(f) ==> (f.sp_val()
                    == ssum * pow2((rp - 1 - tbs) as nat) && f.sp_e() == m0 + tbs + 1
                    && f.sp_sign() == self.sp_sign() && !f.sp_is_zero())))
                &&& ((0 < p <= MAX_P && !self.sp_is_zero() && !d2.sp_is_zero() && self.sp_sign()
                    == sgn_b && sp_addsub_near(self, d2, rp) && EXPONENT_MIN <= m0 + tbs + 1
                    <= EXPONENT_MAX && tbs + 1 > rp && rm == RoundingMode::NoRound) ==> (r
                matches Ok(f) ==> (f.sp_val() == ssum / pow2((tbs + 1 - rp) as nat) && f.sp_e()
                    == m0 + tbs + 1 && f.sp_sign() == self.sp_sign() && !f.sp_is_zero())))
            }),
            ({
                // a difference over the shared frame: cancellation is
                // exact, and the leftover is exact when it fits
                let rp = spec_round_p(p as nat) as int;
                let m0 = sp_min_scale(self, d2);
                let sda = sp_scaled_a(self, d2);
                let sdb = sp_scaled_b(self, d2);
                let sdiff = sp_scaled_absdiff(self, d2);
                let tbd = crate::util::sp_log2(sdiff) as int;
                &&& ((0 < p <= MAX_P && !self.sp_is_zero() && !d2.sp_is_zero() && self.sp_sign()
                    != sgn_b && sp_addsub_near(self, d2, rp) && sda == sdb) ==> (r matches
                Ok(f) && f.sp_is_zero()))
                &&& ((0 < p <= MAX_P && !self.sp_is_zero() && !d2.sp_is_zero() && self.sp_sign()
                    != sgn_b && sp_addsub_near(self, d2, rp) && sda != sdb && EXPONENT_MIN
                    <= m0 + tbd + 1 <= EXPONENT_MAX && tbd + 1 <= rp) ==> (r matches Ok(f)
                    ==> (f.sp_val() == sdiff * pow2((rp - 1 - tbd) as nat) && f.sp_e() == m0
                    + tbd + 1 && f.sp_sign() == (if sda > sdb {
                    self.sp_sign()
                } else {
                    sgn_b
                }) && !f.sp_is_zero())))
                &&& ((0 < p <= MAX_P && !self.sp_is_zero() && !d2.sp_is_zero() && self.sp_sign()
                    != sgn_b && sp_addsub_near(self, d2, rp) && sda != sdb && EXPONENT_MIN
                    <= m0 + tbd + 1 <= EXPONENT_MAX && tbd + 1 > rp && rm
                    == RoundingMode::NoRound) ==> (r matches Ok(f) ==> (f.sp_val() == sdiff
                    / pow2((tbd + 1 - rp) as nat) && f.sp_e() == m0 + tbd + 1 && f.sp_sign()
                    == (if sda > sdb {
                    self.sp_sign()
                } else {
                    sgn_b
                }) && !f.sp_is_zero())))
            }),
    {
        if p == 0 {
            return Err(Error::InvalidPrecision);
        }
        if p > MAX_P {
            return Err(Error::AllocationError);
        }
        let k = round_p(p) / 64;
        proof {
            lemma_round_words(p as nat);
        }
        let inx = self.inexact || d2.inexact;
        let a_zero = self.is_zero();
        let b_zero = d2.is_zero();
        if a_zero && b_zero {
            return Ok(Self::zero_of_words(k, Sign::Pos, inx));
        }
        if b_zero {
            let mut f = match self.requantize(k, rm) {
                Ok(f) => f,
                Err(e) => {
                    return Err(e);
                },
            };
            f.set_inexact(f.inexact() || inx);
            return Ok(f);
        }
        if a_zero {
            let mut f = match d2.requantize(k, rm) {
                Ok(f) => f,
                Err(e) => {
                    return Err(e);
                },
            };
            f.set_sign(sgn_b);
            f.set_inexact(f.inexact() || inx);
            return Ok(f);
        }
        let wa: i64 = self.lsb_weight();
        let wb: i64 = d2.lsb_weight();
        let ea: i64 = self.e as i64;
        let eb: i64 = d2.e as i64;
        let n64: i64 = 64 * (k as i64);
        let same_sign = matches!(self.s, Sign::Pos) == matches!(sgn_b, Sign::Pos);
        // an operand far below the kept window only leaves a sticky trace
        if eb + n64 + 130 < wa {
            return Self::far_tail(self, self.s, same_sign, inx, k, rm);
        }
        if ea + n64 + 130 < wb {
            return Self::far_tail(d2, sgn_b, same_sign, inx, k, rm);
        }
        // near case: materialize both magnitudes over a common frame
        let lsb_common: i64 = if wa < wb {
            wa
        } else {
            wb
        };
        let sa: usize = (wa - lsb_common) as usize;
        let sb: usize = (wb - lsb_common) as usize;
        proof {
            assert(sa <= 67108864 && sb <= 67108864);
        }
        let mut aw = if sa > 0 {
            shl_exact(&self.m, sa)
        } else {
            words_copy(&self.m)
        };
        let mut bw = if sb > 0 {
            shl_exact(&d2.m, sb)
        } else {
            words_copy(&d2.m)
        };
        let la = aw.len();
        let lb = bw.len();
        let lc = if la < lb {
            lb
        } else {
            la
        };
        proof {
            // the shared frame tops out just above the larger exponent
            assert((sa / 64) * 64 <= sa && (sb / 64) * 64 <= sb) by (nonlinear_arith);
            assert(lsb_common + 64 * la <= ea + 64);
            assert(lsb_common + 64 * lb <= eb + 64);
        }
        words_pad(&mut aw, lc);
        words_pad(&mut bw, lc);
        proof {
            // the aligned vectors hold the two magnitudes at the shared
            // scale, and that scale is the lower of the two
            vstd::arithmetic::power2::lemma2_to64();
            assert(mval(aw@) == sp_scaled_a(self, d2)) by (nonlinear_arith)
                requires
                    mval(aw@) == (if sa > 0 {
                        mval(self.sp_m()) * pow2(sa as nat)
                    } else {
                        mval(self.sp_m()) as nat
                    }),
                    sa as int == (if (self.sp_e() - self.sp_prec()) <= (d2.sp_e()
                        - d2.sp_prec()) {
                        0
                    } else {
                        (self.sp_e() - self.sp_prec()) - (d2.sp_e() - d2.sp_prec())
                    }),
                    pow2(0) == 1,
            ;
            assert(mval(bw@) == sp_scaled_b(self, d2)) by (nonlinear_arith)
                requires
                    mval(bw@) == (if sb > 0 {
                        mval(d2.sp_m()) * pow2(sb as nat)
                    } else {
                        mval(d2.sp_m()) as nat
                    }),
                    sb as int == (if (self.sp_e() - self.sp_prec()) <= (d2.sp_e()
                        - d2.sp_prec()) {
                        (d2.sp_e() - d2.sp_prec()) - (self.sp_e() - self.sp_prec())
                    } else {
                        0
                    }),
                    pow2(0) == 1,
            ;
            assert(lsb_common as int == sp_min_scale(self, d2));
        }
        Self::add_sub_frames(self, d2, sgn_b, aw, bw, lsb_common, inx, k, p, rm)
    }

    /// Combines two magnitudes already aligned over their shared frame:
    /// the exact sum for like signs, the exact difference (with the
    /// larger magnitude's sign) for unlike signs, rounded to the target
    /// word count.
    fn add_sub_frames(
        a: &Self,
        b: &Self,
        sgn_b: Sign,
        aw: Vec<u64>,
        bw: Vec<u64>,
        lsb_common: i64,
        inx: bool,
        k: usize,
        p: usize,
        rm: RoundingMode,
    ) -> (r: Result<BigFloatNumber, Error>)
        requires
            a.wf(),
            b.wf(),
            !a.sp_is_zero(),
            !b.sp_is_zero(),
            inx == (a.sp_inexact() || b.sp_inexact()),
            aw@.len() == bw@.len(),
            1 <= aw@.len() <= 524288,
            mval(aw@) == sp_scaled_a(a, b),
            mval(bw@) == sp_scaled_b(a, b),
            lsb_common as int == sp_min_scale(a, b),
            -1099511627776 <= lsb_common <= 1099511627776,
            lsb_common + 64 * aw@.len() <= (if a.sp_e() >= b.sp_e() {
                a.sp_e()
            } else {
                b.sp_e()
            }) + 64,
            1 <= k <= MAX_WORDS,
            0 < p <= MAX_P,
            64 * k == spec_round_p(p as nat),
        ensures
            r matches Ok(f) ==> {
                &&& f.wf()
                &&& f.sp_prec() == spec_round_p(p as nat)
                &&& (inx ==> f.sp_inexact())
            },
            r matches Err(e) ==> e matches Error::ExponentOverflow(_),
            (a.sp_e() + 130 <= EXPONENT_MAX && b.sp_e() + 130 <= EXPONENT_MAX) ==> r is Ok,
            ({
                let rp = spec_round_p(p as nat) as int;
                let m0 = sp_min_scale(a, b);
                let ssum = sp_scaled_sum(a, b);
                let tbs = crate::util::sp_log2(ssum) as int;
                &&& ((a.sp_sign() == sgn_b && EXPONENT_MIN <= m0 + tbs + 1 <= EXPONENT_MAX
                    && tbs + 1 <= rp) ==> (r matches Ok(f) ==> (f.sp_val() == ssum * pow2(
                    (rp - 1 - tbs) as nat,
                ) && f.sp_e() == m0 + tbs + 1 && f.sp_sign() == a.sp_sign()
                    && !f.sp_is_zero())))
                &&& ((a.sp_sign() == sgn_b && EXPONENT_MIN <= m0 + tbs + 1 <= EXPONENT_MAX
                    && tbs + 1 > rp && rm == RoundingMode::NoRound) ==> (r matches Ok(f)
                    ==> (f.sp_val() == ssum / pow2((tbs + 1 - rp) as nat) && f.sp_e() == m0
                    + tbs + 1 && f.sp_sign() == a.sp_sign() && !f.sp_is_zero())))
            }),
            ({
                let rp = spec_round_p(p as nat) as int;
                let m0 = sp_min_scale(a, b);
                let sda = sp_scaled_a(a, b);
                let sdb = sp_scaled_b(a, b);
                let sdiff = sp_scaled_absdiff(a, b);
                let tbd = crate::util::sp_log2(sdiff) as int;
                &&& ((a.sp_sign() != sgn_b && sda == sdb) ==> (r matches Ok(f)
                    && f.sp_is_zero()))
                &&& ((a.sp_sign() != sgn_b && sda != sdb && EXPONENT_MIN <= m0 + tbd + 1
                    <= EXPONENT_MAX && tbd + 1 <= rp) ==> (r matches Ok(f) ==> (f.sp_val()
                    == sdiff * pow2((rp - 1 - tbd) as nat) && f.sp_e() == m0 + tbd + 1
                    && f.sp_sign() == (if sda > sdb {
                    a.sp_sign()
                } else {
                    sgn_b
                }) && !f.sp_is_zero())))
                &&& ((a.sp_sign() != sgn_b && sda != sdb && EXPONENT_MIN <= m0 + tbd + 1
                    <= EXPONENT_MAX && tbd + 1 > rp && rm == RoundingMode::NoRound) ==> (r
                matches Ok(f) ==> (f.sp_val() == sdiff / pow2((tbd + 1 - rp) as nat)
                    && f.sp_e() == m0 + tbd + 1 && f.sp_sign() == (if sda > sdb {
                    a.sp_sign()
                } else {
                    sgn_b
                }) && !f.sp_is_zero())))
            }),
    {
        let same_sign = matches!(a.s, Sign::Pos) == matches!(sgn_b, Sign::Pos);
        proof {
            assert(same_sign == (a.sp_sign() == sgn_b));
        }
        if same_sign {
            let (mut sum, carry) = crate::words::words_add(&aw, &bw);
            let cw: u64 = if carry {
                1
            } else {
                0
            };
            let ghost spre = sum@;
            let ghost lc = sum@.len();
            sum.push(cw);
            proof {
                assert(sum@.drop_last() =~= spre);
                assert(sum@.last() == cw);
                assert(mval(sum@) == mval(spre) + (cw as nat) * pow2(64 * lc));
                assert((cw as nat) * pow2(64 * lc) == (if carry {
                    pow2(64 * lc)
                } else {
                    0nat
                })) by (nonlinear_arith)
                    requires
                        cw == (if carry {
                            1u64
                        } else {
                            0u64
                        }),
                ;
                assert(mval(sum@) == sp_scaled_sum(a, b));
            }
            return Self::normalize_round(sum, lsb_common, a.s, false, inx, k, rm);
        }
        let c = crate::words::words_cmp(&aw, &bw);
        if c == 0 {
            return Ok(Self::zero_of_words(k, Sign::Pos, inx));
        }
        if c > 0 {
            let diff = crate::words::words_sub(&aw, &bw);
            proof {
                assert(mval(diff@) == sp_scaled_absdiff(a, b));
            }
            return Self::normalize_round(diff, lsb_common, a.s, false, inx, k, rm);
        }
        let diff = crate::words::words_sub(&bw, &aw);
        proof {
            assert(mval(diff@) == sp_scaled_absdiff(a, b));
        }
        Self::normalize_round(diff, lsb_common, sgn_b, false, inx, k, rm)
    }

    /// The sum of two values, rounded to precision `p` under `rm`.
    pub fn add(&self, d2: &Self, p: usize, rm: RoundingMode) -> (r: Result<
        BigFloatNumber,
        Error,
    >)
        requires
            self.wf(),
            d2.wf(),
        ensures
            p == 0 <==> r == Result::<BigFloatNumber, Error>::Err(Error::InvalidPrecision),
            p > MAX_P ==> r == Result::<BigFloatNumber, Error>::Err(Error::AllocationError),
            r matches Ok(f) ==> {
                &&& f.wf()
                &&& f.sp_prec() == spec_round_p(p as nat)
                &&& ((self.sp_inexact() || d2.sp_inexact()) ==> f.sp_inexact())
            },
            r is Err ==> (r == Result::<BigFloatNumber, Error>::Err(Error::InvalidPrecision)
                || r == Result::<BigFloatNumber, Error>::Err(Error::AllocationError) || (
            r matches Err(e) && e matches Error::ExponentOverflow(_))),
            (0 < p <= MAX_P && self.sp_e() + 130 <= EXPONENT_MAX && d2.sp_e() + 130
                <= EXPONENT_MAX) ==> r is Ok,
            ({
                let rp = spec_round_p(p as nat) as int;
                let m0 = sp_min_scale(self, d2);
                let ssum = sp_scaled_sum(self, d2);
                let tbs = crate::util::sp_log2(ssum) as int;
                &&& ((0 < p <= MAX_P && !self.sp_is_zero() && !d2.sp_is_zero() && self.sp_sign()
                    == d2.sp_sign() && sp_addsub_near(self, d2, rp) && EXPONENT_MIN <= m0 + tbs + 1
                    <= EXPONENT_MAX && tbs + 1 <= rp) ==> (r matches Ok(f) ==> (f.sp_val()
                    == ssum * pow2((rp - 1 - tbs) as nat) && f.sp_e() == m0 + tbs + 1
                    && f.sp_sign() == self.sp_sign() && !f.sp_is_zero())))
                &&& ((0 < p <= MAX_P && !self.sp_is_zero() && !d2.sp_is_zero() && self.sp_sign()
                    == d2.sp_sign() && sp_addsub_near(self, d2, rp) && EXPONENT_MIN <= m0 + tbs + 1
                    <= EXPONENT_MAX && tbs + 1 > rp && rm == RoundingMode::NoRound) ==> (r
                matches Ok(f) ==> (f.sp_val() == ssum / pow2((tbs + 1 - rp) as nat) && f.sp_e()
                    == m0 + tbs + 1 && f.sp_sign() == self.sp_sign() && !f.sp_is_zero())))
            }),
            ({
                let rp = spec_round_p(p as nat) as int;
                let m0 = sp_min_scale(self, d2);
                let sda = sp_scaled_a(self, d2);
                let sdb = sp_scaled_b(self, d2);
                let sdiff = sp_scaled_absdiff(self, d2);
                let tbd = crate::util::sp_log2(sdiff) as int;
                &&& ((0 < p <= MAX_P && !self.sp_is_zero() && !d2.sp_is_zero() && self.sp_sign()
                    != d2.sp_sign() && sp_addsub_near(self, d2, rp) && sda == sdb) ==> (r matches
                Ok(f) && f.sp_is_zero()))
                &&& ((0 < p <= MAX_P && !self.sp_is_zero() && !d2.sp_is_zero() && self.sp_sign()
                    != d2.sp_sign() && sp_addsub_near(self, d2, rp) && sda != sdb && EXPONENT_MIN
                    <= m0 + tbd + 1 <= EXPONENT_MAX && tbd + 1 <= rp) ==> (r matches Ok(f)
                    ==> (f.sp_val() == sdiff * pow2((rp - 1 - tbd) as nat) && f.sp_e() == m0
                    + tbd + 1 && f.sp_sign() == (if sda > sdb {
                    self.sp_sign()
                } else {
                    d2.sp_sign()
                }) && !f.sp_is_zero())))
                &&& ((0 < p <= MAX_P && !self.sp_is_zero() && !d2.sp_is_zero() && self.sp_sign()
                    != d2.sp_sign() && sp_addsub_near(self, d2, rp) && sda != sdb && EXPONENT_MIN
                    <= m0 + tbd + 1 <= EXPONENT_MAX && tbd + 1 > rp && rm
                    == RoundingMode::NoRound) ==> (r matches Ok(f) ==> (f.sp_val() == sdiff
                    / pow2((tbd + 1 - rp) as nat) && f.sp_e() == m0 + tbd + 1 && f.sp_sign()
                    == (if sda > sdb {
                    self.sp_sign()
                } else {
                    d2.sp_sign()
                }) && !f.sp_is_zero())))
            }),
    {
        self.add_sub(d2, d2.sign(), p, rm)
    }

    /// The difference of two values, rounded to precision `p` under `rm`.
    pub fn sub(&self, d2: &Self, p: usize, rm: RoundingMode) -> (r: Result<
        BigFloatNumber,
        Error,
    >)
        requires
            self.wf(),
            d2.wf(),
        ensures
            p == 0 <==> r == Result::<BigFloatNumber, Error>::Err(Error::InvalidPrecision),
            p > MAX_P ==> r == Result::<BigFloatNumber, Error>::Err(Error::AllocationError),
            r matches Ok(f) ==> {
                &&& f.wf()
                &&& f.sp_prec() == spec_round_p(p as nat)
                &&& ((self.sp_inexact() || d2.sp_inexact()) ==> f.sp_inexact())
            },
            r is Err ==> (r == Result::<BigFloatNumber, Error>::Err(Error::InvalidPrecision)
                || r == Result::<BigFloatNumber, Error>::Err(Error::AllocationError) || (
            r matches Err(e) && e matches Error::ExponentOverflow(_))),
            (0 < p <= MAX_P && self.sp_e() + 130 <= EXPONENT_MAX && d2.sp_e() + 130
                <= EXPONENT_MAX) ==> r is Ok,
            ({
                let rp = spec_round_p(p as nat) as int;
                let m0 = sp_min_scale(self, d2);
                let ssum = sp_scaled_sum(self, d2);
                let tbs = crate::util::sp_log2(ssum) as int;
                &&& ((0 < p <= MAX_P && !self.sp_is_zero() && !d2.sp_is_zero() && self.sp_sign()
                    == d2.sp_sign().spec_invert() && sp_addsub_near(self, d2, rp) && EXPONENT_MIN <= m0 + tbs + 1
                    <= EXPONENT_MAX && tbs + 1 <= rp) ==> (r matches Ok(f) ==> (f.sp_val()
                    == ssum * pow2((rp - 1 - tbs) as nat) && f.sp_e() == m0 + tbs + 1
                    && f.sp_sign() == self.sp_sign() && !f.sp_is_zero())))
                &&& ((0 < p <= MAX_P && !self.sp_is_zero() && !d2.sp_is_zero() && self.sp_sign()
                    == d2.sp_sign().spec_invert() && sp_addsub_near(self, d2, rp) && EXPONENT_MIN <= m0 + tbs + 1
                    <= EXPONENT_MAX && tbs + 1 > rp && rm == RoundingMode::NoRound) ==> (r
                matches Ok(f) ==> (f.sp_val() == ssum / pow2((tbs + 1 - rp) as nat) && f.sp_e()
                    == m0 + tbs + 1 && f.sp_sign() == self.sp_sign() && !f.sp_is_zero())))
            }),
            ({
                let rp = spec_round_p(p as nat) as int;
                let m0 = sp_min_scale(self, d2);
                let sda = sp_scaled_a(self, d2);
                let sdb = sp_scaled_b(self, d2);
                let sdiff = sp_scaled_absdiff(self, d2);
                let tbd = crate::util::sp_log2(sdiff) as int;
                &&& ((0 < p <= MAX_P && !self.sp_is_zero() && !d2.sp_is_zero() && self.sp_sign()
                    != d2.sp_sign().spec_invert() && sp_addsub_near(self, d2, rp) && sda == sdb) ==> (r matches
                Ok(f) && f.sp_is_zero()))
                &&& ((0 < p <= MAX_P && !self.sp_is_zero() && !d2.sp_is_zero() && self.sp_sign()
                    != d2.sp_sign().spec_invert() && sp_addsub_near(self, d2, rp) && sda != sdb && EXPONENT_MIN
                    <= m0 + tbd + 1 <= EXPONENT_MAX && tbd + 1 <= rp) ==> (r matches Ok(f)
                    ==> (f.sp_val() == sdiff * pow2((rp - 1 - tbd) as nat) && f.sp_e() == m0
                    + tbd + 1 && f.sp_sign() == (if sda > sdb {
                    self.sp_sign()
                } else {
                    d2.sp_sign().spec_invert()
                }) && !f.sp_is_zero())))
                &&& ((0 < p <= MAX_P && !self.sp_is_zero() && !d2.sp_is_zero() && self.sp_sign()
                    != d2.sp_sign().spec_invert() && sp_addsub_near(self, d2, rp) && sda != sdb && EXPONENT_MIN
                    <= m0 + tbd + 1 <= EXPONENT_MAX && tbd + 1 > rp && rm
                    == RoundingMode::NoRound) ==> (r matches Ok(f) ==> (f.sp_val() == sdiff
                    / pow2((tbd + 1 - rp) as nat) && f.sp_e() == m0 + tbd + 1 && f.sp_sign()
                    == (if sda > sdb {
                    self.sp_sign()
                } else {
                    d2.sp_sign().spec_invert()
                }) && !f.sp_is_zero())))
            }),
    {
        self.add_sub(d2, d2.sign().invert(), p, rm)
    }

    /// The product of two values, rounded to precision `p` under `rm`.
    pub fn mul(&self, d2: &Self, p: usize, rm: RoundingMode) -> (r: Result<
        BigFloatNumber,
        Error,
    >)
        requires
            self.wf(),
            d2.wf(),
        ensures
            p == 0 <==> r == Result::<BigFloatNumber, Error>::Err(Error::InvalidPrecision),
            p > MAX_P ==> r == Result::<BigFloatNumber, Error>::Err(Error::AllocationError),
            r matches Ok(f) ==> {
                &&& f.wf()
                &&& f.sp_prec() == spec_round_p(p as nat)
                &&& ((self.sp_is_zero() || d2.sp_is_zero()) ==> f.sp_is_zero())
                &&& ((self.sp_inexact() || d2.sp_inexact()) ==> f.sp_inexact())
            },
            0 < p <= MAX_P && (self.sp_is_zero() || d2.sp_is_zero()) ==> r is Ok,
            r is Err ==> (r == Result::<BigFloatNumber, Error>::Err(Error::InvalidPrecision)
                || r == Result::<BigFloatNumber, Error>::Err(Error::AllocationError) || (
            r matches Err(e) && e matches Error::ExponentOverflow(_))),
            ({
                // the exact product, whenever it fits the target precision
                let prod = self.sp_val() * d2.sp_val();
                let tb = crate::util::sp_log2(prod) as int;
                let lsb = (self.sp_e() - self.sp_prec()) + (d2.sp_e() - d2.sp_prec());
                &&& ((!self.sp_is_zero() && !d2.sp_is_zero() && EXPONENT_MIN <= lsb + tb + 1
                    <= EXPONENT_MAX && tb + 1 <= spec_round_p(p as nat)) ==> (r matches Ok(f)
                    ==> (!f.sp_is_zero() && f.sp_e() == lsb + tb + 1 && f.sp_val() == prod
                    * pow2((spec_round_p(p as nat) - 1 - tb) as nat))))
                &&& ((!self.sp_is_zero() && !d2.sp_is_zero() && !self.sp_inexact()
                    && !d2.sp_inexact() && EXPONENT_MIN <= lsb + tb + 1 <= EXPONENT_MAX && tb
                    + 1 <= spec_round_p(p as nat)) ==> (r matches Ok(f) ==> !f.sp_inexact()))
            }),
    {
        if p == 0 {
            return Err(Error::InvalidPrecision);
        }
        if p > MAX_P {
            return Err(Error::AllocationError);
        }
        let k = round_p(p) / 64;
        proof {
            lemma_round_words(p as nat);
        }
        let sgn = sign_mul(self.s, d2.s);
        let inx = self.inexact || d2.inexact;
        if self.is_zero() || d2.is_zero() {
            return Ok(Self::zero_of_words(k, sgn, inx));
        }
        let prod = crate::words::mul_words(&self.m, &d2.m);
        let lsb: i64 = self.lsb_weight() + d2.lsb_weight();
        let r = Self::normalize_round(prod, lsb, sgn, false, inx, k, rm);
        proof {
            assert(mval(prod@) == self.sp_val() * d2.sp_val());
            assert(self.sp_val() * d2.sp_val() >= 1) by (nonlinear_arith)
                requires
                    self.sp_val() >= 1,
                    d2.sp_val() >= 1,
            ;
            assert(crate::util::sp_log2(mval(prod@)) == crate::util::sp_log2(
                self.sp_val() * d2.sp_val(),
            ));
            assert(64 * k == spec_round_p(p as nat));
        }
        r
    }
}

/// Word count of a rounded precision, as used by every operation.
proof fn lemma_round_words(p: nat)
    requires
        1 <= p <= MAX_P,
    ensures
        1 <= spec_round_p(p) / 64 <= 4096,
        64 * (spec_round_p(p) / 64) == spec_round_p(p),
{
    assert(spec_round_p(p) >= p) by (nonlinear_arith);
    assert(spec_round_p(p) < p + 64) by (nonlinear_arith);
    assert(spec_round_p(p) % 64 == 0) by (nonlinear_arith);
    assert(spec_round_p(p) <= MAX_P) by (nonlinear_arith)
        requires
            p <= MAX_P,
    ;
    assert(spec_round_p(p) / 64 >= 1 && spec_round_p(p) / 64 <= 4096) by (nonlinear_arith)
        requires
            64 <= spec_round_p(p) <= MAX_P,
            spec_round_p(p) % 64 == 0,
    ;
    assert(64 * (spec_round_p(p) / 64) == spec_round_p(p)) by (nonlinear_arith)
        requires
            spec_round_p(p) % 64 == 0,
    ;
}


impl BigFloatNumber {
    /// The quotient of two values, rounded to precision `p` under `rm`.
    pub fn div(&self, d2: &Self, p: usize, rm: RoundingMode) -> (r: Result<
        BigFloatNumber,
        Error,
    >)
        requires
            self.wf(),
            d2.wf(),
        ensures
            p == 0 <==> r == Result::<BigFloatNumber, Error>::Err(Error::InvalidPrecision),
            p != 0 && d2.sp_is_zero() <==> r == Result::<BigFloatNumber, Error>::Err(
                Error::DivisionByZero,
            ),
            p > MAX_P && !d2.sp_is_zero() ==> r == Result::<BigFloatNumber, Error>::Err(
                Error::AllocationError,
            ),
            r matches Ok(f) ==> {
                &&& f.wf()
                &&& f.sp_prec() == spec_round_p(p as nat)
                &&& (self.sp_is_zero() ==> f.sp_is_zero())
                &&& ((self.sp_inexact() || d2.sp_inexact()) ==> f.sp_inexact())
            },
            0 < p <= MAX_P && self.sp_is_zero() && !d2.sp_is_zero() ==> r is Ok,
            r is Err ==> (r == Result::<BigFloatNumber, Error>::Err(Error::InvalidPrecision)
                || r == Result::<BigFloatNumber, Error>::Err(Error::DivisionByZero) || r
                == Result::<BigFloatNumber, Error>::Err(Error::AllocationError) || (
            r matches Err(e) && e matches Error::ExponentOverflow(_))),
            (0 < p <= MAX_P && !d2.sp_is_zero() && -1048576 <= self.sp_e() <= 1048576
                && -1048576 <= d2.sp_e() <= 1048576) ==> (r is Ok && (r matches Ok(f) ==> (
            !self.sp_is_zero() ==> !f.sp_is_zero()))),
            ({
                // under truncation the result is the floor of the shifted
                // quotient, with the shift pinned by the operands alone
                let va = self.sp_val();
                let vb = d2.sp_val();
                let b1 = crate::util::sp_log2(va) as int;
                let b2 = crate::util::sp_log2(vb) as int;
                let rp = spec_round_p(p as nat) as int;
                let sgq = if rp + 66 + b2 - b1 > 0 {
                    rp + 66 + b2 - b1
                } else {
                    0
                };
                let q = (va * pow2(sgq as nat)) / vb;
                let tbq = crate::util::sp_log2(q) as int;
                (rm == RoundingMode::NoRound && 0 < p <= MAX_P && !self.sp_is_zero()
                    && !d2.sp_is_zero() && -1048576 <= self.sp_e() <= 1048576 && -1048576
                    <= d2.sp_e() <= 1048576) ==> (r matches Ok(f) ==> (f.sp_val() == q / pow2(
                    (tbq + 1 - rp) as nat,
                ) && f.sp_e() == (self.sp_e() - self.sp_prec()) - (d2.sp_e() - d2.sp_prec())
                    - sgq + tbq + 1))
            }),
    {
        if p == 0 {
            return Err(Error::InvalidPrecision);
        }
        if d2.is_zero() {
            return Err(Error::DivisionByZero);
        }
        if p > MAX_P {
            return Err(Error::AllocationError);
        }
        let k = round_p(p) / 64;
        proof {
            lemma_round_words(p as nat);
        }
        let sgn = sign_mul(self.s, d2.s);
        let inx = self.inexact || d2.inexact;
        if self.is_zero() {
            return Ok(Self::zero_of_words(k, sgn, inx));
        }
        let b1 = match top_bit(&self.m) {
            Option::Some(t) => t,
            Option::None => {
                return Ok(Self::zero_of_words(k, sgn, inx));
            },
        };
        let b2 = match top_bit(&d2.m) {
            Option::Some(t) => t,
            Option::None => {
                return Err(Error::DivisionByZero);
            },
        };
        // enough quotient bits for the target precision plus guard bits
        let nb: i64 = 64 * (k as i64) + 66;
        let sh: i64 = nb + (b2 as i64) - (b1 as i64);
        let s: usize = if sh > 0 {
            sh as usize
        } else {
            0
        };
        let nv = shl_exact(&self.m, s);
        let (q, sticky) = crate::words::div_words(&nv, &d2.m);
        let lsb: i64 = self.lsb_weight() - d2.lsb_weight() - (s as i64);
        proof {
            lemma_quotient_window(
                mval(self.sp_m()),
                mval(d2.sp_m()),
                mval(nv@),
                mval(q@),
                b1 as nat,
                b2 as nat,
                s as nat,
                (nb - 1) as nat,
            );
            // the quotient is long enough to survive normalization and
            // short enough to stay in the exponent range
            vstd::arithmetic::power2::lemma_pow2_pos((nb - 1) as nat);
            assert(mval(nv@) == mval(self.sp_m()) * pow2(s as nat));
            assert(mval(q@) == mval(nv@) / mval(d2.sp_m()));
            crate::util::lemma_log2_bounds(mval(q@));
            let tb = crate::util::sp_log2(mval(q@));
            if tb + 1 < nb {
                vstd::arithmetic::power2::lemma_pow2_strictly_increases(tb + 1, (nb - 1) as nat);
                if tb + 1 < (nb - 1) as nat {
                } else {
                    assert(pow2(tb + 1) == pow2((nb - 1) as nat));
                }
                assert(false);
            }
            assert((s / 64) * 64 <= s) by (nonlinear_arith);
            // link the runtime shift and quotient to their spec forms
            assert(64 * k == spec_round_p(p as nat));
            assert(s as int == ({
                let sg = spec_round_p(p as nat) as int + 66 + b2 - b1;
                if sg > 0 {
                    sg
                } else {
                    0
                }
            }));
            lemma_mval_bound(q@);
            if tb + 1 > 64 * q@.len() {
                crate::util::lemma_pow2_increases(64 * q@.len(), tb);
                assert(false);
            }
        }
        Self::normalize_round(q, lsb, sgn, sticky, inx, k, rm)
    }

    /// The reciprocal of the value, rounded to precision `p` under `rm`.
    pub fn reciprocal(&self, p: usize, rm: RoundingMode) -> (r: Result<BigFloatNumber, Error>)
        requires
            self.wf(),
        ensures
            p == 0 <==> r == Result::<BigFloatNumber, Error>::Err(Error::InvalidPrecision),
            p != 0 && self.sp_is_zero() <==> r == Result::<BigFloatNumber, Error>::Err(
                Error::DivisionByZero,
            ),
            r matches Ok(f) ==> {
                &&& f.wf()
                &&& f.sp_prec() == spec_round_p(p as nat)
            },
            r is Err ==> (r == Result::<BigFloatNumber, Error>::Err(Error::InvalidPrecision)
                || r == Result::<BigFloatNumber, Error>::Err(Error::DivisionByZero) || r
                == Result::<BigFloatNumber, Error>::Err(Error::AllocationError) || (
            r matches Err(e) && e matches Error::ExponentOverflow(_))),
            (0 < p <= MAX_P && !self.sp_is_zero() && -1048576 <= self.sp_e() <= 1048576) ==> (
            r is Ok && (r matches Ok(f) ==> !f.sp_is_zero())),
    {
        if p == 0 {
            return Err(Error::InvalidPrecision);
        }
        if self.is_zero() {
            return Err(Error::DivisionByZero);
        }
        let one = match Self::from_word(1, 64) {
            Ok(f) => f,
            Err(e) => {
                return Err(e);
            },
        };
        one.div(self, p, rm)
    }

    /// The exact product of two values, at the sum of their precisions.
    pub fn mul_full_prec(&self, d2: &Self) -> (r: Result<BigFloatNumber, Error>)
        requires
            self.wf(),
            d2.wf(),
        ensures
            r matches Ok(f) ==> {
                &&& f.wf()
                &&& f.sp_prec() == self.sp_prec() + d2.sp_prec()
                &&& ((self.sp_inexact() || d2.sp_inexact()) ==> f.sp_inexact())
            },
            self.sp_prec() + d2.sp_prec() > 64 * MAX_WORDS ==> r == Result::<
                BigFloatNumber,
                Error,
            >::Err(Error::AllocationError),
            r is Err ==> (r == Result::<BigFloatNumber, Error>::Err(Error::AllocationError)
                || (r matches Err(e) && e matches Error::ExponentOverflow(_))),
            ({
                // the product is exact whenever the exponent range allows
                let prod = self.sp_val() * d2.sp_val();
                let tb = crate::util::sp_log2(prod) as int;
                let lsb = (self.sp_e() - self.sp_prec()) + (d2.sp_e() - d2.sp_prec());
                (!self.sp_is_zero() && !d2.sp_is_zero() && !self.sp_inexact()
                    && !d2.sp_inexact() && EXPONENT_MIN <= lsb + tb + 1 <= EXPONENT_MAX) ==> (
                r matches Ok(f) ==> (!f.sp_inexact() && f.sp_e() == lsb + tb + 1 && f.sp_val()
                    == prod * pow2((self.sp_prec() + d2.sp_prec() - 1 - tb) as nat)))
            }),
    {
        let la = self.m.len();
        let lb = d2.m.len();
        if la + lb > MAX_WORDS {
            return Err(Error::AllocationError);
        }
        let k = la + lb;
        let sgn = sign_mul(self.s, d2.s);
        let inx = self.inexact || d2.inexact;
        if self.is_zero() || d2.is_zero() {
            return Ok(Self::zero_of_words(k, sgn, inx));
        }
        let prod = crate::words::mul_words(&self.m, &d2.m);
        let lsb: i64 = self.lsb_weight() + d2.lsb_weight();
        let r = Self::normalize_round(prod, lsb, sgn, false, inx, k, RoundingMode::NoRound);
        proof {
            assert(mval(prod@) == self.sp_val() * d2.sp_val());
            assert(self.sp_val() * d2.sp_val() >= 1) by (nonlinear_arith)
                requires
                    self.sp_val() >= 1,
                    d2.sp_val() >= 1,
            ;
            lemma_mval_bound(prod@);
            crate::util::lemma_log2_bounds(mval(prod@));
            let tb = crate::util::sp_log2(mval(prod@));
            if tb + 1 > 64 * (la + lb) {
                if tb > 64 * (la + lb) {
                    vstd::arithmetic::power2::lemma_pow2_strictly_increases(
                        64 * (la + lb) as nat,
                        tb,
                    );
                }
                assert(pow2(64 * (la + lb) as nat) <= pow2(tb));
                assert(false);
            }
        }
        r
    }

    /// Rounds or pads the value in place to precision `p` under `rm`.
    pub fn set_precision(&mut self, p: usize, rm: RoundingMode) -> (r: Result<(), Error>)
        requires
            old(self).wf(),
        ensures
            p == 0 <==> r == Result::<(), Error>::Err(Error::InvalidPrecision),
            p > MAX_P ==> r == Result::<(), Error>::Err(Error::AllocationError),
            r is Err ==> *final(self) == *old(self),
            r is Ok ==> {
                &&& final(self).wf()
                &&& final(self).sp_prec() == spec_round_p(p as nat)
                &&& final(self).sp_sign() == old(self).sp_sign()
                &&& (old(self).sp_inexact() ==> final(self).sp_inexact())
                &&& (old(self).sp_is_zero() ==> final(self).sp_is_zero())
                &&& (final(self).sp_is_zero() ==> final(self).sp_inexact() || old(
                self).sp_is_zero())
                &&& ((!old(self).sp_is_zero() && spec_round_p(p as nat) >= old(
                self).sp_prec()) ==> (final(self).sp_e() == old(self).sp_e() && final(
                self).sp_val() == old(self).sp_val() * pow2(
                    (spec_round_p(p as nat) - old(self).sp_prec()) as nat,
                ) && (!old(self).sp_inexact() ==> !final(self).sp_inexact())))
                &&& ((!old(self).sp_is_zero() && old(self).sp_normalized() && rm
                    == RoundingMode::NoRound && spec_round_p(p as nat) < old(self).sp_prec())
                    ==> (final(self).sp_e() == old(self).sp_e() && final(self).sp_val() == old(
                self).sp_val() / pow2((old(self).sp_prec() - spec_round_p(p as nat)) as nat)))
            },
            0 < p <= MAX_P && old(self).sp_e() < EXPONENT_MAX ==> r is Ok,
            r is Err ==> (r == Result::<(), Error>::Err(Error::InvalidPrecision) || r
                == Result::<(), Error>::Err(Error::AllocationError) || (r matches Err(e)
                && e matches Error::ExponentOverflow(_))),
    {
        if p == 0 {
            return Err(Error::InvalidPrecision);
        }
        if p > MAX_P {
            return Err(Error::AllocationError);
        }
        let k = round_p(p) / 64;
        proof {
            lemma_round_words(p as nat);
        }
        match self.requantize(k, rm) {
            Ok(f) => {
                *self = f;
                Ok(())
            },
            Err(e) => Err(e),
        }
    }

    /// Tries to round the value down to precision `p` under `rm`, treating
    /// only the top `p_wrk` bits as reliable. Succeeds only when the
    /// unreliable tail cannot change the rounding decision: the bits
    /// between the requested and the working precision must not all agree.
    pub fn try_set_precision(&mut self, p: usize, rm: RoundingMode, p_wrk: usize) -> (r: Result<
        bool,
        Error,
    >)
        requires
            old(self).wf(),
            64 <= p,
            p_wrk <= old(self).sp_prec(),
        ensures
            (!old(self).sp_is_zero() && 0 < p <= MAX_P) ==> (r == Result::<bool, Error>::Ok(
                false,
            ) <==> (spec_round_p(p as nat) + 4 > p_wrk || (forall|i: int|
                spec_round_p(p as nat) <= i < p_wrk ==> #[trigger] sp_mant_bit(old(self), i)
                    == sp_mant_bit(old(self), spec_round_p(p as nat) as int)))),
            p == 0 <==> r == Result::<bool, Error>::Err(Error::InvalidPrecision),
            p > MAX_P ==> r == Result::<bool, Error>::Err(Error::AllocationError),
            r == Result::<bool, Error>::Ok(false) ==> *final(self) == *old(self),
            r is Err ==> *final(self) == *old(self),
            r == Result::<bool, Error>::Ok(true) ==> {
                &&& final(self).wf()
                &&& final(self).sp_prec() == spec_round_p(p as nat)
                &&& final(self).sp_sign() == old(self).sp_sign()
                &&& (old(self).sp_inexact() ==> final(self).sp_inexact())
            },
            r is Err ==> (r == Result::<bool, Error>::Err(Error::InvalidPrecision) || r
                == Result::<bool, Error>::Err(Error::AllocationError) || (r matches Err(e)
                && e matches Error::ExponentOverflow(_))),
    {
        if p == 0 {
            return Err(Error::InvalidPrecision);
        }
        if p > MAX_P {
            return Err(Error::AllocationError);
        }
        if self.is_zero() {
            let k = round_p(p) / 64;
            proof {
                lemma_round_words(p as nat);
            }
            match self.requantize(k, rm) {
                Ok(f) => {
                    *self = f;
                    return Ok(true);
                },
                Err(e) => {
                    return Err(e);
                },
            }
        }
        let rp = round_p(p);
        if rp + 4 > p_wrk {
            return Ok(false);
        }
        // scan the bits between positions rp and p_wrk, counted from the top
        let ln = self.m.len();
        let mut i: usize = rp;
        let mut all0 = true;
        let mut all1 = true;
        while i < p_wrk
            invariant
                rp <= i <= p_wrk,
                p_wrk <= 64 * ln,
                ln == self.sp_m().len(),
                ln <= 4096,
                all0 <==> (forall|j: int| rp <= j < i ==> #[trigger] sp_mant_bit(self, j)
                    == 0),
                all1 <==> (forall|j: int| rp <= j < i ==> #[trigger] sp_mant_bit(self, j)
                    == 1),
            decreases p_wrk - i,
        {
            proof {
                assert(i / 64 < ln) by (nonlinear_arith)
                    requires
                        i < 64 * ln,
                ;
            }
            let word = self.m[ln - 1 - i / 64];
            let sh: usize = 63 - i % 64;
            let ps = crate::words::pow2_u64(sh);
            proof {
                vstd::arithmetic::power2::lemma_pow2_pos(sh as nat);
                vstd::arithmetic::div_mod::lemma_fundamental_div_mod(i as int, 64);
                assert(64 * ln - 1 - i == 64 * (ln - 1 - i / 64) + (63 - i % 64));
                crate::words::lemma_word_bit(self.sp_m(), 64 * ln as int - 1 - i as int);
                assert(((word as nat) / (ps as nat)) % 2 == sp_mant_bit(self, i as int));
            }
            let bit = (word / ps) % 2;
            if bit == 1 {
                all0 = false;
            } else {
                all1 = false;
            }
            i = i + 1;
        }
        proof {
            vstd::arithmetic::div_mod::lemma_mod_bound(
                (self.sp_val() / pow2((self.sp_prec() - 1 - rp) as nat)) as int,
                2,
            );
            if all0 || all1 {
                assert(forall|i: int|
                    rp <= i < p_wrk ==> #[trigger] sp_mant_bit(self, i) == sp_mant_bit(
                        self,
                        rp as int,
                    ));
            } else {
                // two bits in the window differ, so they cannot all equal
                // the first one
                assert(!(forall|i: int|
                    rp <= i < p_wrk ==> #[trigger] sp_mant_bit(self, i) == sp_mant_bit(
                        self,
                        rp as int,
                    ))) by {
                    if forall|i: int|
                        rp <= i < p_wrk ==> #[trigger] sp_mant_bit(self, i) == sp_mant_bit(
                            self,
                            rp as int,
                        ) {
                        if sp_mant_bit(self, rp as int) == 0 {
                            assert(forall|j: int|
                                rp <= j < p_wrk ==> #[trigger] sp_mant_bit(self, j) == 0);
                        } else {
                            assert(forall|j: int|
                                rp <= j < p_wrk ==> #[trigger] sp_mant_bit(self, j) == 1);
                        }
                    }
                }
            }
        }
        if all0 || all1 {
            return Ok(false);
        }
        let k = rp / 64;
        proof {
            lemma_round_words(p as nat);
        }
        match self.requantize(k, rm) {
            Ok(f) => {
                *self = f;
                Ok(true)
            },
            Err(e) => Err(e),
        }
    }

    /// Three-way comparison: negative, zero or positive as this value is
    /// below, equal to or above the other. Signed zeros compare equal.
    pub fn cmp(&self, d2: &Self) -> (r: i32)
        requires
            self.wf(),
            d2.wf(),
        ensures
            r == -1 || r == 0 || r == 1,
            r == -1 <==> sp_lt(self, d2),
            r == 1 <==> sp_lt(d2, self),
            r == 0 <==> sp_val_eq(self, d2),
    {
        let az = self.is_zero();
        let bz = d2.is_zero();
        if az && bz {
            return 0;
        }
        if az {
            return if matches!(d2.s, Sign::Pos) {
                -1
            } else {
                1
            };
        }
        if bz {
            return if matches!(self.s, Sign::Pos) {
                1
            } else {
                -1
            };
        }
        let sa_pos = matches!(self.s, Sign::Pos);
        let sb_pos = matches!(d2.s, Sign::Pos);
        if sa_pos && !sb_pos {
            return 1;
        }
        if !sa_pos && sb_pos {
            return -1;
        }
        let mag = self.abs_cmp(d2);
        proof {
            lemma_scaled_swap(self, d2);
        }
        if sa_pos {
            mag
        } else {
            -mag
        }
    }

    /// Three-way comparison of magnitudes of two nonzero values.
    fn abs_cmp(&self, d2: &Self) -> (r: i32)
        requires
            self.wf(),
            d2.wf(),
            !self.sp_is_zero(),
            !d2.sp_is_zero(),
        ensures
            r == -1 || r == 0 || r == 1,
            r == -1 <==> sp_abs_lt(self, d2),
            r == 0 <==> sp_abs_eq(self, d2),
            r == 1 <==> sp_abs_lt(d2, self),
    {
        proof {
            lemma_scaled_swap(self, d2);
        }
        if self.e > d2.e {
            proof {
                lemma_bigger_exponent_bigger_magnitude(d2, self);
            }
            return 1;
        }
        if self.e < d2.e {
            proof {
                lemma_bigger_exponent_bigger_magnitude(self, d2);
            }
            return -1;
        }
        // equal exponents: align both mantissas over the shared scale of
        // their lowest bits and compare the aligned words
        let la = self.m.len();
        let lb = d2.m.len();
        let (pa, pb): (Vec<u64>, Vec<u64>) = if la >= lb {
            (words_copy(&self.m), crate::words::words_pad_low(&d2.m, la - lb))
        } else {
            (crate::words::words_pad_low(&self.m, lb - la), words_copy(&d2.m))
        };
        proof {
            assert(mval(pa@) == sp_scaled_a(self, d2) && mval(pb@) == sp_scaled_b(self, d2)) by {
                if la >= lb {
                    assert(pa@ =~= self.sp_m());
                    assert((self.sp_e() - self.sp_prec()) <= (d2.sp_e() - d2.sp_prec()));
                    assert(64 * ((la - lb) as nat) == ((d2.sp_e() - d2.sp_prec()) - (
                    self.sp_e() - self.sp_prec())) as nat);
                } else {
                    assert(pb@ =~= d2.sp_m());
                    assert((self.sp_e() - self.sp_prec()) > (d2.sp_e() - d2.sp_prec()));
                    assert(64 * ((lb - la) as nat) == ((self.sp_e() - self.sp_prec()) - (
                    d2.sp_e() - d2.sp_prec())) as nat);
                }
            }
        }
        crate::words::words_cmp(&pa, &pb)
    }

    /// The integer part of the value: the fraction is truncated toward
    /// zero.
    pub fn trunc_int(&self) -> (r: Result<BigFloatNumber, Error>)
        requires
            self.wf(),
        ensures
            r matches Ok(f) ==> {
                &&& f.wf()
                &&& f.sp_prec() == self.sp_prec()
                &&& f.sp_sign() == self.sp_sign()
            },
            self.sp_e() < EXPONENT_MAX ==> r is Ok,
            r matches Err(e) ==> e matches Error::ExponentOverflow(_),
            self.sp_is_zero() || self.sp_e() <= 0 ==> (r matches Ok(f) && f.sp_is_zero()),
            self.sp_e() >= self.sp_prec() ==> (r matches Ok(f) && f.sp_m() == self.sp_m()
                && f.sp_e() == self.sp_e() && f.sp_inexact() == self.sp_inexact()),
            (!self.sp_is_zero() && 0 < self.sp_e() < self.sp_prec()) ==> (r matches Ok(f)
                ==> (f.sp_e() == self.sp_e() && !f.sp_is_zero() && f.sp_val() == (self.sp_val()
                / pow2((self.sp_prec() - self.sp_e()) as nat)) * pow2(
                (self.sp_prec() - self.sp_e()) as nat,
            ) && f.sp_inexact() == self.sp_inexact())),
    {
        let k = self.m.len();
        if self.is_zero() || self.e <= 0 {
            return Ok(Self::zero_of_words(k, self.s, self.inexact));
        }
        let n = k * 64;
        if self.e as i64 >= n as i64 {
            return self.clone();
        }
        let s = n - self.e as usize;
        let (q, _) = shr_sticky(&self.m, s);
        proof {
            // the integer part keeps the value's own exponent window
            assert(self.sp_normalized());
            lemma_mval_bound(self.sp_m());
            lemma_pow2_div_window(mval(self.sp_m()), (self.sp_prec() - 1) as nat, s as nat);
            assert((self.sp_prec() - 1 - s) as nat == (self.sp_e() - 1) as nat);
            crate::util::lemma_log2_window(mval(q@), (self.sp_e() - 1) as nat);
            vstd::arithmetic::power2::lemma_pow2_pos((self.sp_e() - 1) as nat);
        }
        let r = Self::normalize_round(q, 0, self.s, false, false, k, RoundingMode::NoRound);
        proof {
            let tbq = crate::util::sp_log2(mval(q@));
            assert(tbq == self.sp_e() - 1);
            assert(mval(q@) == self.sp_val() / pow2((self.sp_prec() - self.sp_e()) as nat));
            assert((64 * k - 1 - tbq) as nat == (self.sp_prec() - self.sp_e()) as nat);
        }
        match r {
            Ok(mut f) => {
                f.set_inexact(self.inexact);
                Ok(f)
            },
            Err(e) => Err(e),
        }
    }
}

} // verus!
