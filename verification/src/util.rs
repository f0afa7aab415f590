//! Integer helpers: base-2 logarithm, integer square root, the cost model
//! for word-level arithmetic, and saturating cost arithmetic.

use vstd::arithmetic::power2::pow2;
use vstd::prelude::*;

use crate::defs::MAX_P;

verus! {

/// Floor of the base-2 logarithm; zero for inputs below two.
pub open spec fn sp_log2(n: nat) -> nat
    decreases n,
{
    if n <= 1 {
        0
    } else {
        1 + sp_log2(n / 2)
    }
}

/// Floor of the base-2 logarithm of `n`.
pub fn log2_floor(n: usize) -> (r: usize)
    requires
        n <= MAX_P,
    ensures
        r == sp_log2(n as nat),
        r <= 18,
{
    let mut v: usize = n;
    let mut r: usize = 0;
    proof {
        vstd::arithmetic::power2::lemma2_to64();
    }
    while v > 1
        invariant
            n <= MAX_P,
            r <= 18,
            sp_log2(n as nat) == r + sp_log2(v as nat),
            v > 1 ==> pow2(r as nat) * v <= n,
        decreases v,
    {
        proof {
            vstd::arithmetic::power2::lemma2_to64();
            let rn = r as nat;
            assert(pow2(rn + 1) == pow2(rn) * 2) by {
                vstd::arithmetic::power2::lemma_pow2_adds(rn, 1);
            }
            assert(pow2(rn) * 2 <= pow2(rn) * v) by (nonlinear_arith)
                requires
                    v >= 2,
                    pow2(rn) >= 0,
            ;
            if rn + 1 > 18 {
                assert(pow2(19) <= pow2(rn + 1)) by {
                    if rn + 1 > 19 {
                        vstd::arithmetic::power2::lemma_pow2_strictly_increases(19, rn + 1);
                    }
                }
                assert(pow2(19) == 524288);
                assert(false);
            }
            assert(pow2(rn + 1) * (v / 2) <= pow2(rn) * v) by (nonlinear_arith)
                requires
                    v >= 2,
                    pow2(rn + 1) == pow2(rn) * 2,
            ;
        }
        v = v / 2;
        r = r + 1;
    }
    r
}

/// A value between consecutive powers of two pins the floor logarithm.
pub proof fn lemma_log2_window(v: nat, t: nat)
    requires
        pow2(t) <= v < pow2(t + 1),
    ensures
        sp_log2(v) == t,
    decreases t,
{
    vstd::arithmetic::power2::lemma_pow2_pos(t);
    if t == 0 {
        vstd::arithmetic::power2::lemma2_to64();
        assert(v == 1);
    } else {
        vstd::arithmetic::power2::lemma_pow2_adds((t - 1) as nat, 1);
        vstd::arithmetic::power2::lemma_pow2_adds(t, 1);
        vstd::arithmetic::power2::lemma2_to64();
        vstd::arithmetic::power2::lemma_pow2_pos((t - 1) as nat);
        assert(v >= 2);
        // v / 2 lies in the window one step down
        vstd::arithmetic::div_mod::lemma_div_is_ordered(pow2(t) as int, v as int, 2);
        vstd::arithmetic::div_mod::lemma_fundamental_div_mod_converse(
            pow2(t) as int,
            2,
            pow2((t - 1) as nat) as int,
            0,
        );
        if v / 2 >= pow2(t) {
            vstd::arithmetic::div_mod::lemma_fundamental_div_mod(v as int, 2);
            assert(false);
        }
        lemma_log2_window(v / 2, (t - 1) as nat);
    }
}

/// The floor logarithm brackets its argument between powers of two.
pub proof fn lemma_log2_bounds(v: nat)
    requires
        v >= 1,
    ensures
        pow2(sp_log2(v)) <= v < pow2(sp_log2(v) + 1),
    decreases v,
{
    vstd::arithmetic::power2::lemma2_to64();
    if v == 1 {
    } else {
        let h = v / 2;
        lemma_log2_bounds(h);
        let l = sp_log2(h);
        vstd::arithmetic::power2::lemma_pow2_adds(l, 1);
        vstd::arithmetic::power2::lemma_pow2_adds(l + 1, 1);
        vstd::arithmetic::div_mod::lemma_fundamental_div_mod(v as int, 2);
    }
}

/// Powers of two never decrease.
pub proof fn lemma_pow2_increases(e1: nat, e2: nat)
    requires
        e1 <= e2,
    ensures
        pow2(e1) <= pow2(e2),
{
    if e1 < e2 {
        vstd::arithmetic::power2::lemma_pow2_strictly_increases(e1, e2);
    }
}

/// Holds when `r` is the integer square root of `n`.
pub open spec fn is_isqrt(n: nat, r: nat) -> bool {
    r * r <= n < (r + 1) * (r + 1)
}

/// The integer square root, as a specification value.
pub open spec fn sp_isqrt(n: nat) -> nat {
    choose|r: nat| is_isqrt(n, r)
}

/// The integer square root is unique.
pub proof fn lemma_isqrt_unique(n: nat, r1: nat, r2: nat)
    requires
        is_isqrt(n, r1),
        is_isqrt(n, r2),
    ensures
        r1 == r2,
{
    assert(r1 == r2) by (nonlinear_arith)
        requires
            r1 * r1 <= n < (r1 + 1) * (r1 + 1),
            r2 * r2 <= n < (r2 + 1) * (r2 + 1),
    ;
}

/// Integer square root of `n`.
pub fn sqrt_int(n: usize) -> (r: usize)
    requires
        n <= MAX_P,
    ensures
        is_isqrt(n as nat, r as nat),
        r == sp_isqrt(n as nat),
        r <= n,
{
    let n64: u64 = n as u64;
    let mut r: u64 = 0;
    loop
        invariant
            n64 == n,
            n <= MAX_P,
            r * r <= n64,
            r <= n64,
        ensures
            r * r <= n64,
            (r + 1) * (r + 1) > n64,
            r <= n64,
        decreases n64 - r,
    {
        let rp = r + 1;
        proof {
            assert(rp * rp < u64::MAX) by (nonlinear_arith)
                requires
                    rp <= 262145,
            ;
        }
        let sq = rp * rp;
        if sq > n64 {
            break ;
        }
        proof {
            assert(rp * rp <= n64 ==> rp <= n64) by (nonlinear_arith);
        }
        r = rp;
    }
    let r: usize = r as usize;
    proof {
        let rr = sp_isqrt(n as nat);
        assert(is_isqrt(n as nat, r as nat));
        assert(is_isqrt(n as nat, rr)) by {
            assert(exists|x: nat| is_isqrt(n as nat, x));
        }
        lemma_isqrt_unique(n as nat, r as nat, rr);
    }
    r
}

/// Number of words needed for a precision of `p` bits.
pub open spec fn sp_words_of(p: nat) -> nat {
    (p + 63) / 64
}

/// Modeled cost of one multiplication at precision `p`: quadratic in the
/// word count, matching the schoolbook multiplication used by the engine.
pub open spec fn sp_mul_cost(p: nat) -> nat {
    sp_words_of(p) * sp_words_of(p)
}

/// Modeled cost of one addition at precision `p`: linear in the word count.
pub open spec fn sp_add_cost(p: nat) -> nat {
    sp_words_of(p)
}

/// Cost of one multiplication at precision `p`, for comparison only.
pub fn calc_mul_cost(p: usize) -> (r: usize)
    requires
        p <= MAX_P,
    ensures
        r == sp_mul_cost(p as nat),
        r <= 16777216,
{
    let w = (p + 63) / 64;
    proof {
        assert(w <= 4096 ==> w * w <= 16777216) by (nonlinear_arith);
    }
    w * w
}

/// Cost of one addition at precision `p`, for comparison only.
pub fn calc_add_cost(p: usize) -> (r: usize)
    requires
        p <= MAX_P,
    ensures
        r == sp_add_cost(p as nat),
        r <= 4096,
{
    (p + 63) / 64
}

/// The modeled costs never decrease when the precision grows.
pub proof fn lemma_cost_monotone(p1: nat, p2: nat)
    requires
        p1 <= p2,
    ensures
        sp_mul_cost(p1) <= sp_mul_cost(p2),
        sp_add_cost(p1) <= sp_add_cost(p2),
{
    assert((p1 + 63) / 64 <= (p2 + 63) / 64) by (nonlinear_arith)
        requires
            p1 <= p2,
    ;
    assert(sp_words_of(p1) * sp_words_of(p1) <= sp_words_of(p2) * sp_words_of(p2)) by (
    nonlinear_arith)
        requires
            sp_words_of(p1) <= sp_words_of(p2),
    ;
}

/// Saturating sum, as a specification value.
pub open spec fn sp_sat_add(a: nat, b: nat) -> nat {
    if a + b > u64::MAX {
        u64::MAX as nat
    } else {
        a + b
    }
}

/// Saturating product, as a specification value.
pub open spec fn sp_sat_mul(a: nat, b: nat) -> nat {
    if a * b > u64::MAX {
        u64::MAX as nat
    } else {
        a * b
    }
}

/// Cost sum that pins at the largest representable cost.
pub fn sat_add(a: u64, b: u64) -> (r: u64)
    ensures
        r == sp_sat_add(a as nat, b as nat),
{
    if a <= u64::MAX - b {
        a + b
    } else {
        u64::MAX
    }
}

/// Cost product that pins at the largest representable cost.
pub fn sat_mul(a: u64, b: u64) -> (r: u64)
    ensures
        r == sp_sat_mul(a as nat, b as nat),
{
    if a == 0 || b == 0 {
        proof {
            assert(a as nat * b as nat == 0) by (nonlinear_arith)
                requires
                    a == 0 || b == 0,
            ;
        }
        0
    } else if a <= u64::MAX / b {
        proof {
            assert(a as nat * b as nat <= u64::MAX) by (nonlinear_arith)
                requires
                    b > 0,
                    a <= u64::MAX as nat / b as nat,
            ;
        }
        a * b
    } else {
        proof {
            assert(a as nat * b as nat > u64::MAX) by (nonlinear_arith)
                requires
                    b > 0,
                    a > u64::MAX as nat / b as nat,
            ;
        }
        u64::MAX
    }
}

} // verus!
