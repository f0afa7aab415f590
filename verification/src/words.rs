//! Unsigned multi-word integers: the mantissa store of the engine.
//!
//! A `Vec<u64>` holds a natural number in base 2^64, least significant word
//! first; `mval` is its value. Every helper here carries a contract over
//! `mval`, so the floating-point layer above can reason about magnitudes.

use vstd::arithmetic::power2::pow2;
use vstd::prelude::*;

verus! {

/// Value of a word sequence, least significant word first.
pub open spec fn mval(s: Seq<u64>) -> nat
    decreases s.len(),
{
    if s.len() == 0 {
        0
    } else {
        mval(s.drop_last()) + (s.last() as nat) * pow2(64 * (s.len() - 1) as nat)
    }
}

/// Appending words extends the value at the top.
pub proof fn lemma_mval_take_succ(s: Seq<u64>, i: int)
    requires
        0 <= i < s.len(),
    ensures
        mval(s.take(i + 1)) == mval(s.take(i)) + s[i] * pow2(64 * i as nat),
{
    let t = s.take(i + 1);
    assert(t.drop_last() =~= s.take(i));
    assert(t.last() == s[i]);
}

/// A full take is the sequence itself.
pub proof fn lemma_mval_take_all(s: Seq<u64>)
    ensures
        mval(s.take(s.len() as int)) == mval(s),
{
    assert(s.take(s.len() as int) =~= s);
}

/// The value is bounded by the word count.
pub proof fn lemma_mval_bound(s: Seq<u64>)
    ensures
        mval(s) < pow2(64 * s.len()),
    decreases s.len(),
{
    if s.len() == 0 {
        vstd::arithmetic::power2::lemma_pow2_pos(0);
    } else {
        let l1 = (s.len() - 1) as nat;
        lemma_mval_bound(s.drop_last());
        vstd::arithmetic::power2::lemma_pow2_adds(64 * l1, 64);
        vstd::arithmetic::power2::lemma2_to64();
        assert(s.last() * pow2(64 * l1) <= (pow2(64) - 1) * pow2(64 * l1)) by (nonlinear_arith)
            requires
                s.last() <= pow2(64) - 1,
                pow2(64 * l1) >= 0,
        ;
        assert(pow2(64 * l1) + (pow2(64) - 1) * pow2(64 * l1) == pow2(64) * pow2(64 * l1)) by (
        nonlinear_arith);
    }
}

/// Splitting a sequence splits its value.
pub proof fn lemma_mval_split(s: Seq<u64>, k: int)
    requires
        0 <= k <= s.len(),
    ensures
        mval(s) == mval(s.take(k)) + mval(s.skip(k)) * pow2(64 * k as nat),
    decreases s.len(),
{
    if k == s.len() {
        lemma_mval_take_all(s);
        assert(s.skip(k) =~= Seq::<u64>::empty());
        assert(mval(s.skip(k)) == 0);
        assert(mval(s.skip(k)) * pow2(64 * k as nat) == 0) by (nonlinear_arith)
            requires
                mval(s.skip(k)) == 0,
        ;
    } else {
        let d = s.drop_last();
        lemma_mval_split(d, k);
        assert(d.take(k) =~= s.take(k));
        assert(s.skip(k).drop_last() =~= d.skip(k));
        let lk = (s.len() - 1 - k) as nat;
        let kk = 64 * k as nat;
        let p = pow2(kk);
        let w = s.last() as nat;
        assert(s.skip(k).last() == s.last());
        assert(s.skip(k).len() - 1 == lk);
        assert(mval(s.skip(k)) == mval(d.skip(k)) + w * pow2(64 * lk));
        vstd::arithmetic::power2::lemma_pow2_adds(64 * lk, kk);
        assert(64 * lk + kk == 64 * (s.len() - 1) as nat);
        assert(pow2(64 * (s.len() - 1) as nat) == pow2(64 * lk) * p);
        assert(mval(s) == mval(d) + w * (pow2(64 * lk) * p));
        assert(mval(d) == mval(s.take(k)) + mval(d.skip(k)) * p);
        assert((mval(d.skip(k)) + w * pow2(64 * lk)) * p == mval(d.skip(k)) * p + w * (pow2(
            64 * lk,
        ) * p)) by (nonlinear_arith);
        assert(mval(s.skip(k)) * p == mval(d.skip(k)) * p + w * (pow2(64 * lk) * p));
        assert(mval(s) == mval(s.take(k)) + mval(s.skip(k)) * p);
    }
}

/// The low-word decomposition of the value.
pub proof fn lemma_mval_low(s: Seq<u64>)
    requires
        s.len() >= 1,
    ensures
        mval(s) == s[0] + mval(s.skip(1)) * pow2(64),
{
    lemma_mval_split(s, 1);
    let t = s.take(1);
    assert(t.drop_last() =~= Seq::<u64>::empty());
    assert(mval(t.drop_last()) == 0);
    assert(t.last() == s[0]);
    assert(t.len() == 1);
    vstd::arithmetic::power2::lemma2_to64();
    assert(mval(t) == mval(t.drop_last()) + (t.last() as nat) * pow2(64 * (t.len() - 1) as nat));
    assert(mval(t) == s[0]);
}

/// The value is zero exactly when every word is zero.
pub proof fn lemma_mval_zero_iff(s: Seq<u64>)
    ensures
        mval(s) == 0 <==> (forall|i: int| 0 <= i < s.len() ==> s[i] == 0),
    decreases s.len(),
{
    if s.len() > 0 {
        let d = s.drop_last();
        let l1 = (s.len() - 1) as nat;
        lemma_mval_zero_iff(d);
        vstd::arithmetic::power2::lemma_pow2_pos(64 * l1);
        assert((s.last() as nat) * pow2(64 * l1) == 0 ==> s.last() == 0) by (nonlinear_arith)
            requires
                pow2(64 * l1) > 0,
        ;
        if mval(s) == 0 {
            assert(mval(d) == 0);
            assert(s.last() == 0);
            assert forall|i: int| 0 <= i < s.len() implies s[i] == 0 by {
                if i < s.len() - 1 {
                    assert(d[i] == s[i]);
                }
            }
        }
        if forall|i: int| 0 <= i < s.len() ==> s[i] == 0 {
            assert(s.last() == 0);
            assert forall|i: int| 0 <= i < d.len() implies d[i] == 0 by {
                assert(d[i] == s[i]);
            }
            assert(mval(d) == 0);
            assert(mval(s) == 0 + 0 * pow2(64 * l1));
        }
    }
}

/// Updating one word moves the value by the word's weighted difference.
pub proof fn lemma_mval_update(s: Seq<u64>, idx: int, v: u64)
    requires
        0 <= idx < s.len(),
    ensures
        mval(s.update(idx, v)) == mval(s) - (s[idx] as nat) * pow2(64 * idx as nat) + (
        v as nat) * pow2(64 * idx as nat),
{
    let u = s.update(idx, v);
    lemma_mval_split(s, idx);
    lemma_mval_split(u, idx);
    assert(u.take(idx) =~= s.take(idx));
    lemma_mval_low(s.skip(idx));
    lemma_mval_low(u.skip(idx));
    assert(u.skip(idx).skip(1) =~= s.skip(idx).skip(1));
    assert(s.skip(idx)[0] == s[idx]);
    assert(u.skip(idx)[0] == v);
    let rest = mval(s.skip(idx).skip(1));
    let pidx = pow2(64 * idx as nat);
    assert(((s[idx] as nat) + rest * pow2(64)) * pidx == (s[idx] as nat) * pidx + (rest * pow2(
        64,
    )) * pidx) by (nonlinear_arith);
    assert(((v as nat) + rest * pow2(64)) * pidx == (v as nat) * pidx + (rest * pow2(64))
        * pidx) by (nonlinear_arith);
}

/// A vector of `k` zero words.
pub fn words_zero(k: usize) -> (r: Vec<u64>)
    ensures
        r@.len() == k,
        mval(r@) == 0,
        forall|i: int| 0 <= i < k ==> r@[i] == 0,
{
    let r = vec![0u64; k];
    proof {
        lemma_mval_zero_iff(r@);
    }
    r
}

/// Whether the stored number is zero.
pub fn words_is_zero(w: &Vec<u64>) -> (r: bool)
    ensures
        r <==> mval(w@) == 0,
{
    let mut i: usize = 0;
    let n = w.len();
    let mut all0 = true;
    while i < n
        invariant
            n == w@.len(),
            i <= n,
            all0 <==> (forall|j: int| 0 <= j < i ==> w@[j] == 0),
        decreases n - i,
    {
        if w[i] != 0 {
            all0 = false;
        }
        i = i + 1;
    }
    proof {
        lemma_mval_zero_iff(w@);
    }
    all0
}

/// Appends zero words so that the vector holds `k` words; the value is
/// unchanged.
pub fn words_pad(w: &mut Vec<u64>, k: usize)
    requires
        old(w)@.len() <= k,
    ensures
        final(w)@.len() == k,
        mval(final(w)@) == mval(old(w)@),
        final(w)@.take(old(w)@.len() as int) =~= old(w)@,
    decreases k,
{
    let mut i = w.len();
    while i < k
        invariant
            i == w@.len(),
            i <= k,
            mval(w@) == mval(old(w)@),
            w@.take(old(w)@.len() as int) =~= old(w)@,
            old(w)@.len() <= i,
        decreases k - i,
    {
        let ghost prev = w@;
        w.push(0);
        proof {
            assert(w@.drop_last() =~= prev);
            assert(w@.last() == 0);
            assert(w@.take(old(w)@.len() as int) =~= prev.take(old(w)@.len() as int));
        }
        i = i + 1;
    }
}

/// Keeps only the low `k` words. The caller shows that the dropped top
/// words hold no value.
pub fn words_trim(w: &mut Vec<u64>, k: usize)
    requires
        k <= old(w)@.len(),
        mval(old(w)@) < pow2(64 * k as nat),
    ensures
        final(w)@.len() == k,
        final(w)@ =~= old(w)@.take(k as int),
        mval(final(w)@) == mval(old(w)@),
{
    proof {
        lemma_mval_split(old(w)@, k as int);
        let hi = old(w)@.skip(k as int);
        if mval(hi) > 0 {
            vstd::arithmetic::power2::lemma_pow2_pos(64 * k as nat);
            assert(mval(hi) * pow2(64 * k as nat) >= pow2(64 * k as nat)) by (nonlinear_arith)
                requires
                    mval(hi) >= 1,
                    pow2(64 * k as nat) > 0,
            ;
            assert(false);
        }
        assert(mval(hi) * pow2(64 * k as nat) == 0) by (nonlinear_arith)
            requires
                mval(hi) == 0,
        ;
        assert(mval(old(w)@) == mval(old(w)@.take(k as int)));
    }
    w.truncate(k);
    proof {
        assert(w@ =~= old(w)@.take(k as int));
    }
}

/// Word-wise sum of two equally long vectors, with the carry out.
pub fn words_add(a: &Vec<u64>, b: &Vec<u64>) -> (r: (Vec<u64>, bool))
    requires
        a@.len() == b@.len(),
    ensures
        r.0@.len() == a@.len(),
        mval(r.0@) + (if r.1 {
            pow2(64 * a@.len())
        } else {
            0
        }) == mval(a@) + mval(b@),
{
    let n = a.len();
    let mut r: Vec<u64> = Vec::new();
    let mut carry: u64 = 0;
    let mut i: usize = 0;
    proof {
        assert(a@.take(0) =~= Seq::<u64>::empty());
        assert(b@.take(0) =~= Seq::<u64>::empty());
        assert(r@.take(0) =~= Seq::<u64>::empty());
    }
    while i < n
        invariant
            n == a@.len(),
            n == b@.len(),
            i <= n,
            r@.len() == i,
            carry <= 1,
            mval(r@) + carry * pow2(64 * i as nat) == mval(a@.take(i as int)) + mval(
                b@.take(i as int),
            ),
        decreases n - i,
    {
        let s: u128 = a[i] as u128 + b[i] as u128 + carry as u128;
        let lo: u64 = (s % 0x1_0000_0000_0000_0000) as u64;
        let hi: u64 = (s / 0x1_0000_0000_0000_0000) as u64;
        let ghost rpre = r@;
        r.push(lo);
        proof {
            vstd::arithmetic::power2::lemma2_to64();
            vstd::arithmetic::power2::lemma2_to64_rest();
            lemma_mval_take_succ(a@, i as int);
            lemma_mval_take_succ(b@, i as int);
            assert(r@.drop_last() =~= rpre);
            assert(mval(r@) == mval(rpre) + lo * pow2(64 * i as nat));
            vstd::arithmetic::power2::lemma_pow2_adds(64 * i as nat, 64);
            let p = pow2(64 * i as nat);
            assert(s == lo + hi * pow2(64));
            assert(hi <= 1);
            assert((a@[i as int] + b@[i as int] + carry) * p == a@[i as int] * p + b@[i as int] * p
                + carry * p) by (nonlinear_arith);
            assert((lo + hi * pow2(64)) * p == lo * p + hi * (pow2(64) * p)) by (nonlinear_arith);
        }
        carry = hi;
        i = i + 1;
    }
    proof {
        lemma_mval_take_all(a@);
        lemma_mval_take_all(b@);
    }
    (r, carry == 1)
}

/// Word-wise difference of two equally long vectors; the subtrahend must
/// not exceed the minuend.
pub fn words_sub(a: &Vec<u64>, b: &Vec<u64>) -> (r: Vec<u64>)
    requires
        a@.len() == b@.len(),
        mval(b@) <= mval(a@),
    ensures
        r@.len() == a@.len(),
        mval(r@) == mval(a@) - mval(b@),
{
    let n = a.len();
    let mut r: Vec<u64> = Vec::new();
    let mut borrow: u64 = 0;
    let mut i: usize = 0;
    proof {
        assert(a@.take(0) =~= Seq::<u64>::empty());
        assert(b@.take(0) =~= Seq::<u64>::empty());
    }
    while i < n
        invariant
            n == a@.len(),
            n == b@.len(),
            i <= n,
            r@.len() == i,
            borrow <= 1,
            mval(r@) == mval(a@.take(i as int)) - mval(b@.take(i as int)) + borrow * pow2(
                64 * i as nat,
            ),
        decreases n - i,
    {
        let ai: u128 = a[i] as u128;
        let sub: u128 = b[i] as u128 + borrow as u128;
        let (lo, nb): (u64, u64) = if ai >= sub {
            ((ai - sub) as u64, 0u64)
        } else {
            proof {
                vstd::arithmetic::power2::lemma2_to64();
                vstd::arithmetic::power2::lemma2_to64_rest();
            }
            ((ai + 0x1_0000_0000_0000_0000 - sub) as u64, 1u64)
        };
        let ghost rpre = r@;
        r.push(lo);
        proof {
            vstd::arithmetic::power2::lemma2_to64();
            vstd::arithmetic::power2::lemma2_to64_rest();
            lemma_mval_take_succ(a@, i as int);
            lemma_mval_take_succ(b@, i as int);
            assert(r@.drop_last() =~= rpre);
            vstd::arithmetic::power2::lemma_pow2_adds(64 * i as nat, 64);
            let p = pow2(64 * i as nat) as int;
            let av = a@[i as int] as int;
            let bv = b@[i as int] as int;
            let lov = lo as int;
            let nbv = nb as int;
            let bw = borrow as int;
            assert(lov == av - bv - bw + nbv * pow2(64));
            assert(lov * p == av * p - bv * p - bw * p + nbv * (pow2(64) as int * p)) by (
            nonlinear_arith)
                requires
                    lov == av - bv - bw + nbv * pow2(64),
            ;
            assert(pow2(64) as int * p == pow2(64 * (i + 1) as nat) as int);
        }
        borrow = nb;
        i = i + 1;
    }
    proof {
        lemma_mval_take_all(a@);
        lemma_mval_take_all(b@);
        if borrow == 1 {
            lemma_mval_bound(r@);
            vstd::arithmetic::power2::lemma_pow2_pos(64 * n as nat);
        }
    }
    r
}

/// Three-way magnitude comparison of two equally long vectors: negative,
/// zero or positive as the first value is below, equal to or above the
/// second.
pub fn words_cmp(a: &Vec<u64>, b: &Vec<u64>) -> (r: i32)
    requires
        a@.len() == b@.len(),
    ensures
        r == -1 || r == 0 || r == 1,
        r == -1 <==> mval(a@) < mval(b@),
        r == 0 <==> mval(a@) == mval(b@),
        r == 1 <==> mval(a@) > mval(b@),
{
    let n = a.len();
    let mut i: usize = n;
    loop
        invariant
            n == a@.len(),
            n == b@.len(),
            i <= n,
            mval(a@.skip(i as int)) == mval(b@.skip(i as int)),
        ensures
            mval(a@) == mval(b@),
        decreases i,
    {
        if i == 0 {
            proof {
                assert(a@.skip(0) =~= a@);
                assert(b@.skip(0) =~= b@);
            }
            break ;
        }
        let j = i - 1;
        let aw = a[j];
        let bw = b[j];
        proof {
            assert(a@.skip(j as int)[0] == a@[j as int]);
            assert(a@.skip(j as int).skip(1) =~= a@.skip(i as int));
            assert(b@.skip(j as int).skip(1) =~= b@.skip(i as int));
            lemma_mval_low(a@.skip(j as int));
            lemma_mval_low(b@.skip(j as int));
        }
        if aw != bw {
            proof {
                lemma_mval_split(a@, j as int);
                lemma_mval_split(b@, j as int);
                lemma_mval_bound(a@.take(j as int));
                lemma_mval_bound(b@.take(j as int));
                let p = pow2(64 * j as nat);
                let sa = mval(a@.skip(j as int));
                let sb = mval(b@.skip(j as int));
                if aw > bw {
                    assert(sa >= sb + 1);
                    assert(sa * p >= (sb + 1) * p) by (nonlinear_arith)
                        requires
                            sa >= sb + 1,
                            p >= 0,
                    ;
                    assert((sb + 1) * p == sb * p + p) by (nonlinear_arith);
                } else {
                    assert(sb >= sa + 1);
                    assert(sb * p >= (sa + 1) * p) by (nonlinear_arith)
                        requires
                            sb >= sa + 1,
                            p >= 0,
                    ;
                    assert((sa + 1) * p == sa * p + p) by (nonlinear_arith);
                }
            }
            if aw > bw {
                return 1;
            } else {
                return -1;
            }
        }
        i = j;
    }
    0
}

/// The power of two `2^k` as a word, for `k` below the word size.
pub fn pow2_u64(k: usize) -> (r: u64)
    requires
        k <= 63,
    ensures
        r == pow2(k as nat),
{
    let mut r: u64 = 1;
    let mut i: usize = 0;
    proof {
        vstd::arithmetic::power2::lemma2_to64();
    }
    while i < k
        invariant
            i <= k <= 63,
            r == pow2(i as nat),
        decreases k - i,
    {
        proof {
            vstd::arithmetic::power2::lemma_pow2_adds(i as nat, 1);
            vstd::arithmetic::power2::lemma2_to64();
            if i + 1 < 64 {
                vstd::arithmetic::power2::lemma_pow2_strictly_increases((i + 1) as nat, 64);
            }
            vstd::arithmetic::power2::lemma2_to64_rest();
        }
        r = r * 2;
        i = i + 1;
    }
    r
}

/// Position of the highest set bit of a nonzero word.
pub fn word_top_bit(x: u64) -> (t: usize)
    requires
        x >= 1,
    ensures
        t <= 63,
        pow2(t as nat) <= x < pow2(t as nat + 1),
{
    let mut v: u64 = x;
    let mut t: usize = 0;
    proof {
        vstd::arithmetic::power2::lemma2_to64();
        assert(x as int / pow2(0) as int == x) by {
            vstd::arithmetic::div_mod::lemma_fundamental_div_mod_converse(
                x as int,
                1,
                x as int,
                0,
            );
        }
    }
    while v >= 2
        invariant
            x >= 1,
            t <= 63,
            v == x as int / pow2(t as nat) as int,
            v >= 1,
        decreases v,
    {
        proof {
            let p = pow2(t as nat) as int;
            vstd::arithmetic::power2::lemma_pow2_adds(t as nat, 1);
            vstd::arithmetic::power2::lemma_pow2_pos(t as nat);
            vstd::arithmetic::power2::lemma2_to64();
            vstd::arithmetic::div_mod::lemma_div_denominator(x as int, p, 2);
            assert(pow2(t as nat + 1) == p * 2);
            // v >= 2 and x / 2^t >= 2 imply 2^(t+1) <= x, so t + 1 <= 63
            vstd::arithmetic::div_mod::lemma_fundamental_div_mod(x as int, p);
            assert(x >= p * v) by (nonlinear_arith)
                requires
                    x as int == p * v + (x as int % p),
                    x as int % p >= 0,
            ;
            assert(p * v >= p * 2) by (nonlinear_arith)
                requires
                    v >= 2,
                    p > 0,
            ;
            if t + 1 > 63 {
                assert(pow2(64) <= pow2(t as nat + 1)) by {
                    if t as nat + 1 > 64 {
                        vstd::arithmetic::power2::lemma_pow2_strictly_increases(
                            64,
                            t as nat + 1,
                        );
                    }
                }
                assert(false);
            }
        }
        v = v / 2;
        t = t + 1;
    }
    proof {
        let p = pow2(t as nat) as int;
        vstd::arithmetic::power2::lemma_pow2_pos(t as nat);
        vstd::arithmetic::power2::lemma_pow2_adds(t as nat, 1);
        vstd::arithmetic::div_mod::lemma_fundamental_div_mod(x as int, p);
        assert(x as int == p * 1 + (x as int % p));
        assert(x as int % p < p);
        assert(pow2(t as nat + 1) == p * 2);
    }
    t
}

/// Position of the highest set bit of the stored number, or nothing when
/// the number is zero.
pub fn top_bit(w: &Vec<u64>) -> (r: Option<usize>)
    requires
        w@.len() <= 1048576,
    ensures
        r is None <==> mval(w@) == 0,
        r is Some ==> ({
            let t = r->0;
            &&& t < 64 * w@.len()
            &&& pow2(t as nat) <= mval(w@) < pow2(t as nat + 1)
            &&& t == crate::util::sp_log2(mval(w@))
        }),
{
    let n = w.len();
    let mut i: usize = n;
    loop
        invariant
            n == w@.len(),
            n <= 1048576,
            i <= n,
            mval(w@.skip(i as int)) == 0,
            forall|j: int| i <= j < n ==> w@[j] == 0,
        ensures
            mval(w@) == 0,
        decreases i,
    {
        if i == 0 {
            proof {
                assert(w@.skip(0) =~= w@);
            }
            break ;
        }
        let j = i - 1;
        let x = w[j];
        if x != 0 {
            let b = word_top_bit(x);
            let t = j * 64 + b;
            proof {
                lemma_mval_split(w@, j as int);
                let hi = w@.skip(j as int);
                assert(hi[0] == w@[j as int]);
                assert(hi.skip(1) =~= w@.skip(i as int));
                lemma_mval_low(hi);
                assert(mval(hi) == x);
                lemma_mval_bound(w@.take(j as int));
                let pj = pow2(64 * j as nat);
                let xb = pow2(b as nat);
                vstd::arithmetic::power2::lemma_pow2_adds(64 * j as nat, b as nat);
                vstd::arithmetic::power2::lemma_pow2_adds(64 * j as nat, b as nat + 1);
                assert(mval(w@) == mval(w@.take(j as int)) + (x as nat) * pj);
                assert((x as nat) * pj >= xb * pj) by (nonlinear_arith)
                    requires
                        x as nat >= xb,
                        pj >= 0,
                ;
                assert(pow2(t as nat) == xb * pj) by {
                    vstd::arithmetic::power2::lemma_pow2_adds(b as nat, 64 * j as nat);
                    assert(t as nat == b as nat + 64 * j as nat);
                }
                assert(mval(w@) < pj + (x as nat) * pj);
                assert(pj + (x as nat) * pj == ((x as nat) + 1) * pj) by (nonlinear_arith);
                assert(((x as nat) + 1) * pj <= pow2(b as nat + 1) * pj) by (nonlinear_arith)
                    requires
                        (x as nat) + 1 <= pow2(b as nat + 1),
                        pj >= 0,
                ;
                assert(pow2(t as nat + 1) == pow2(b as nat + 1) * pj) by {
                    vstd::arithmetic::power2::lemma_pow2_adds(b as nat + 1, 64 * j as nat);
                    assert(t as nat + 1 == b as nat + 1 + 64 * j as nat);
                }
                vstd::arithmetic::power2::lemma_pow2_pos(t as nat);
            }
            proof {
                crate::util::lemma_log2_window(mval(w@), t as nat);
            }
            return Some(t);
        }
        proof {
            let hi = w@.skip(j as int);
            assert(hi[0] == 0);
            assert(hi.skip(1) =~= w@.skip(i as int));
            lemma_mval_low(hi);
        }
        i = j;
    }
    None
}

/// A vector of `k` words holding the value one.
pub fn words_one(k: usize) -> (r: Vec<u64>)
    requires
        k >= 1,
    ensures
        r@.len() == k,
        mval(r@) == 1,
{
    let mut one: Vec<u64> = Vec::new();
    one.push(1);
    proof {
        assert(one@.drop_last() =~= Seq::<u64>::empty());
        assert(mval(one@.drop_last()) == 0);
        vstd::arithmetic::power2::lemma2_to64();
        assert(one@.last() == 1u64);
        assert(one@.len() == 1);
        assert(mval(one@) == mval(one@.drop_last()) + (one@.last() as nat) * pow2(
            64 * (one@.len() - 1) as nat,
        ));
        assert((one@.last() as nat) * pow2(64 * (one@.len() - 1) as nat) == 1) by (
        nonlinear_arith)
            requires
                pow2(64 * (one@.len() - 1) as nat) == 1,
                one@.last() == 1u64,
        ;
    }
    words_pad(&mut one, k);
    one
}

/// Adds one to the stored number; the carry out reports an overflow past
/// the top word.
pub fn words_inc(w: &Vec<u64>) -> (r: (Vec<u64>, bool))
    requires
        w@.len() >= 1,
    ensures
        r.0@.len() == w@.len(),
        mval(r.0@) + (if r.1 {
            pow2(64 * w@.len())
        } else {
            0
        }) == mval(w@) + 1,
{
    let one = words_one(w.len());
    words_add(w, &one)
}


/// A copy of the word vector.
pub fn words_copy(w: &Vec<u64>) -> (r: Vec<u64>)
    ensures
        r@ =~= w@,
{
    let n = w.len();
    let mut r: Vec<u64> = Vec::new();
    let mut i: usize = 0;
    while i < n
        invariant
            n == w@.len(),
            i <= n,
            r@ =~= w@.take(i as int),
        decreases n - i,
    {
        let ghost prev = r@;
        r.push(w[i]);
        proof {
            assert(r@ =~= w@.take(i + 1));
        }
        i = i + 1;
    }
    proof {
        assert(w@.take(n as int) =~= w@);
    }
    r
}

/// Shift right by whole words, with the dropped value reported as a
/// sticky flag.
fn shr_words(w: &Vec<u64>, ws: usize) -> (r: (Vec<u64>, bool))
    ensures
        r.0@.len() == w@.len(),
        mval(r.0@) == mval(w@) / pow2(64 * ws as nat),
        r.1 <==> mval(w@) % pow2(64 * ws as nat) != 0,
{
    let n = w.len();
    let ghost p = pow2(64 * ws as nat);
    proof {
        vstd::arithmetic::power2::lemma_pow2_pos(64 * ws as nat);
    }
    if ws >= n {
        let r = words_zero(n);
        let any = !words_is_zero(w);
        proof {
            lemma_mval_bound(w@);
            if 64 * ws as nat > 64 * n as nat {
                vstd::arithmetic::power2::lemma_pow2_strictly_increases(
                    64 * n as nat,
                    64 * ws as nat,
                );
            }
            vstd::arithmetic::div_mod::lemma_fundamental_div_mod_converse(
                mval(w@) as int,
                p as int,
                0,
                mval(w@) as int,
            );
        }
        return (r, any);
    }
    let mut r: Vec<u64> = Vec::new();
    let mut i: usize = 0;
    while i < n
        invariant
            n == w@.len(),
            ws < n,
            i <= n,
            r@.len() == i,
            forall|j: int|
                0 <= j < i ==> r@[j] == (if j + ws < n {
                    w@[j + ws]
                } else {
                    0u64
                }),
        decreases n - i,
    {
        if i < n - ws {
            r.push(w[i + ws]);
        } else {
            r.push(0);
        }
        i = i + 1;
    }
    let mut any = false;
    let mut j: usize = 0;
    while j < ws
        invariant
            ws < n,
            n == w@.len(),
            j <= ws,
            any <==> !(forall|t: int| 0 <= t < j ==> w@[t] == 0),
        decreases ws - j,
    {
        if w[j] != 0 {
            any = true;
        }
        j = j + 1;
    }
    proof {
        let lo = w@.take(ws as int);
        let hi = w@.skip(ws as int);
        lemma_mval_split(w@, ws as int);
        lemma_mval_bound(lo);
        vstd::arithmetic::div_mod::lemma_fundamental_div_mod_converse(
            mval(w@) as int,
            p as int,
            mval(hi) as int,
            mval(lo) as int,
        );
        // the built vector is the high part padded with zeros
        assert(r@.take((n - ws) as int) =~= hi);
        lemma_mval_split(r@, (n - ws) as int);
        let rhi = r@.skip((n - ws) as int);
        lemma_mval_zero_iff(rhi);
        assert(forall|t: int| 0 <= t < rhi.len() ==> rhi[t] == 0);
        assert(mval(r@) == mval(hi) + 0 * pow2(64 * (n - ws) as nat));
        lemma_mval_zero_iff(lo);
        assert(forall|t: int| 0 <= t < ws ==> lo[t] == w@[t]);
        if any {
            assert(exists|t: int| 0 <= t < ws && w@[t] != 0);
            let t = choose|t: int| 0 <= t < ws && w@[t] != 0;
            assert(lo[t] != 0);
            assert(mval(lo) != 0);
        } else {
            assert(forall|t: int| 0 <= t < lo.len() ==> lo[t] == 0);
            assert(mval(lo) == 0);
        }
        assert(any <==> mval(lo) != 0);
    }
    (r, any)
}

/// Shift right by `bs` bits, below one word; returns the shifted vector
/// and the dropped low bits.
fn shr_bits(w: &Vec<u64>, bs: usize) -> (r: (Vec<u64>, u64))
    requires
        1 <= bs <= 63,
    ensures
        r.0@.len() == w@.len(),
        mval(r.0@) == mval(w@) / pow2(bs as nat),
        r.1 == mval(w@) % pow2(bs as nat),
{
    let n = w.len();
    let d = pow2_u64(bs);
    let m = pow2_u64(64 - bs);
    proof {
        vstd::arithmetic::power2::lemma_pow2_adds(bs as nat, (64 - bs) as nat);
        vstd::arithmetic::power2::lemma_pow2_pos(bs as nat);
        vstd::arithmetic::power2::lemma_pow2_pos((64 - bs) as nat);
        vstd::arithmetic::power2::lemma2_to64();
        vstd::arithmetic::power2::lemma2_to64_rest();
        assert((d as nat) * (m as nat) == pow2(64));
    }
    let mut r = words_copy(w);
    let mut rem: u64 = 0;
    let mut i: usize = n;
    loop
        invariant
            n == w@.len(),
            r@.len() == n,
            i <= n,
            1 <= bs <= 63,
            d == pow2(bs as nat),
            m == pow2((64 - bs) as nat),
            (d as nat) * (m as nat) == pow2(64),
            rem < d,
            forall|j: int| 0 <= j < i ==> r@[j] == w@[j],
            mval(r@.skip(i as int)) == mval(w@.skip(i as int)) / pow2(bs as nat),
            rem == mval(w@.skip(i as int)) % pow2(bs as nat),
        ensures
            i == 0,
            mval(r@) == mval(w@) / pow2(bs as nat),
            rem == mval(w@) % pow2(bs as nat),
            r@.len() == n,
        decreases i,
    {
        if i == 0 {
            proof {
                assert(r@.skip(0) =~= r@);
                assert(w@.skip(0) =~= w@);
            }
            break ;
        }
        let j = i - 1;
        let wj = w[j];
        proof {
            vstd::arithmetic::power2::lemma2_to64();
            vstd::arithmetic::power2::lemma2_to64_rest();
            vstd::arithmetic::power2::lemma_pow2_pos(bs as nat);
            vstd::arithmetic::power2::lemma_pow2_pos((64 - bs) as nat);
            assert((wj as nat) / (d as nat) < m) by (nonlinear_arith)
                requires
                    (d as nat) * (m as nat) == pow2(64),
                    wj < pow2(64),
                    d >= 1,
                    m >= 1,
            ;
            assert((rem as nat) * (m as nat) <= (d as nat - 1) * (m as nat)) by (nonlinear_arith)
                requires
                    rem < d,
                    m >= 1,
            ;
            assert((d as nat - 1) * (m as nat) == (d as nat) * (m as nat) - (m as nat)) by (
            nonlinear_arith);
        }
        let nw: u64 = wj / d + rem * m;
        let rem2: u64 = wj % d;
        let ghost rpre = r@;
        let ghost rempre = rem;
        r[j] = nw;
        rem = rem2;
        proof {
            let dd = d as int;
            let vj = mval(w@.skip(j as int)) as int;
            let vi = mval(w@.skip(i as int)) as int;
            let ri = mval(rpre.skip(i as int)) as int;
            assert(w@.skip(j as int)[0] == wj);
            assert(w@.skip(j as int).skip(1) =~= w@.skip(i as int));
            lemma_mval_low(w@.skip(j as int));
            assert(vj == wj + vi * pow2(64));
            assert(r@.skip(j as int)[0] == nw);
            assert(r@.skip(j as int).skip(1) =~= rpre.skip(i as int));
            lemma_mval_low(r@.skip(j as int));
            assert(mval(r@.skip(j as int)) == nw + ri * pow2(64));
            vstd::arithmetic::div_mod::lemma_fundamental_div_mod(wj as int, dd);
            assert(vi == dd * ri + rempre) by {
                vstd::arithmetic::div_mod::lemma_fundamental_div_mod(vi, dd);
            }
            // nw * d == (wj / d) * d + rem * 2^64
            assert((wj as int / dd + rempre * m) * dd == (wj as int / dd) * dd + rempre * (
            m as int * dd)) by (nonlinear_arith);
            assert(m as int * dd == pow2(64));
            assert((nw + ri * pow2(64)) * dd + rem2 == wj as int + (rempre + dd * ri) * pow2(
                64,
            )) by (nonlinear_arith)
                requires
                    nw == wj as int / dd + rempre * m,
                    (wj as int / dd + rempre * m) * dd == (wj as int / dd) * dd + rempre * (
                    m as int * dd),
                    m as int * dd == pow2(64),
                    wj as int == dd * (wj as int / dd) + rem2,
            ;
            assert((rempre + dd * ri) == vi);
            vstd::arithmetic::div_mod::lemma_fundamental_div_mod_converse(
                vj,
                dd,
                nw + ri * pow2(64),
                rem2 as int,
            );
        }
        i = j;
    }
    (r, rem)
}

/// Shift right by `s` bits. The sticky flag reports whether any dropped
/// bit was set.
pub fn shr_sticky(w: &Vec<u64>, s: usize) -> (r: (Vec<u64>, bool))
    requires
        s <= 67108864,
    ensures
        r.0@.len() == w@.len(),
        mval(r.0@) == mval(w@) / pow2(s as nat),
        r.1 <==> mval(w@) % pow2(s as nat) != 0,
{
    let ws = s / 64;
    let bs = s % 64;
    let (r1, any1) = shr_words(w, ws);
    proof {
        vstd::arithmetic::power2::lemma_pow2_adds(64 * ws as nat, bs as nat);
        vstd::arithmetic::power2::lemma_pow2_pos(64 * ws as nat);
        vstd::arithmetic::power2::lemma_pow2_pos(bs as nat);
        assert(64 * ws + bs == s);
    }
    if bs == 0 {
        proof {
            assert(pow2(s as nat) == pow2(64 * ws as nat) * pow2(0));
            vstd::arithmetic::power2::lemma2_to64();
        }
        return (r1, any1);
    }
    let (r2, rem) = shr_bits(&r1, bs);
    let sticky = any1 || rem != 0;
    proof {
        let v = mval(w@) as int;
        let c = pow2(64 * ws as nat) as int;
        let dd = pow2(bs as nat) as int;
        let q1 = v / c;
        let l1 = v % c;
        let q2 = q1 / dd;
        let l2 = q1 % dd;
        vstd::arithmetic::div_mod::lemma_fundamental_div_mod(v, c);
        vstd::arithmetic::div_mod::lemma_fundamental_div_mod(q1, dd);
        assert(v == c * (dd * q2 + l2) + l1);
        assert(c * (dd * q2 + l2) == (c * dd) * q2 + c * l2) by (nonlinear_arith);
        assert(0 <= l2 * c <= (dd - 1) * c) by (nonlinear_arith)
            requires
                0 <= l2 <= dd - 1,
                c > 0,
        ;
        assert((dd - 1) * c + l1 < dd * c) by (nonlinear_arith)
            requires
                l1 < c,
        ;
        assert(c * dd == pow2(s as nat));
        vstd::arithmetic::div_mod::lemma_mod_bound(v, c);
        vstd::arithmetic::div_mod::lemma_mod_bound(q1, dd);
        assert(c * dd > 0) by (nonlinear_arith)
            requires
                c > 0,
                dd > 0,
        ;
        assert(c * l2 == l2 * c) by (nonlinear_arith);
        assert(c * l2 + l1 < c * dd) by (nonlinear_arith)
            requires
                c * l2 <= (dd - 1) * c,
                l1 < c,
        ;
        vstd::arithmetic::div_mod::lemma_fundamental_div_mod_converse(
            v,
            c * dd,
            q2,
            c * l2 + l1,
        );
        assert(c * l2 + l1 == 0 <==> (l1 == 0 && l2 == 0)) by (nonlinear_arith)
            requires
                c > 0,
                l1 >= 0,
                l2 >= 0,
        ;
    }
    (r2, sticky)
}

/// Shift left by `s` bits, exactly; the result grows by the shifted
/// words plus one.
pub fn shl_exact(w: &Vec<u64>, s: usize) -> (r: Vec<u64>)
    requires
        s <= 67108864,
        w@.len() <= 1048576,
    ensures
        r@.len() == w@.len() + s / 64 + 1,
        mval(r@) == mval(w@) * pow2(s as nat),
{
    let n = w.len();
    let ws = s / 64;
    let bs = s % 64;
    // prepend whole zero words
    let mut r1: Vec<u64> = words_zero(ws);
    let mut i: usize = 0;
    while i < n
        invariant
            n == w@.len(),
            i <= n,
            r1@.len() == ws + i,
            forall|j: int| 0 <= j < ws ==> r1@[j] == 0,
            forall|j: int| 0 <= j < i ==> r1@[ws + j] == w@[j],
        decreases n - i,
    {
        r1.push(w[i]);
        i = i + 1;
    }
    proof {
        lemma_mval_split(r1@, ws as int);
        lemma_mval_zero_iff(r1@.take(ws as int));
        assert(forall|t: int| 0 <= t < ws ==> r1@.take(ws as int)[t] == 0);
        assert(r1@.skip(ws as int) =~= w@);
        assert(mval(r1@) == 0 + mval(w@) * pow2(64 * ws as nat));
        vstd::arithmetic::power2::lemma_pow2_adds(64 * ws as nat, bs as nat);
        assert(64 * ws + bs == s);
    }
    if bs == 0 {
        let ghost rpre = r1@;
        r1.push(0);
        proof {
            assert(r1@.drop_last() =~= rpre);
            assert(r1@.last() == 0);
            vstd::arithmetic::power2::lemma2_to64();
            assert(pow2(s as nat) == pow2(64 * ws as nat) * pow2(0));
        }
        return r1;
    }
    let d = pow2_u64(bs);
    let m = pow2_u64(64 - bs);
    proof {
        vstd::arithmetic::power2::lemma_pow2_adds(bs as nat, (64 - bs) as nat);
        vstd::arithmetic::power2::lemma_pow2_pos(bs as nat);
        vstd::arithmetic::power2::lemma_pow2_pos((64 - bs) as nat);
        vstd::arithmetic::power2::lemma2_to64();
        vstd::arithmetic::power2::lemma2_to64_rest();
        assert((d as nat) * (m as nat) == pow2(64));
    }
    let ln = r1.len();
    let mut r2: Vec<u64> = Vec::new();
    let mut carry: u64 = 0;
    let mut k: usize = 0;
    proof {
        assert(r1@.take(0) =~= Seq::<u64>::empty());
        assert(mval(r1@.take(0)) == 0);
        assert(mval(r2@) == 0);
        vstd::arithmetic::power2::lemma2_to64();
    }
    while k < ln
        invariant
            ln == r1@.len(),
            k <= ln,
            r2@.len() == k,
            1 <= bs <= 63,
            d == pow2(bs as nat),
            m == pow2((64 - bs) as nat),
            (d as nat) * (m as nat) == pow2(64),
            carry < d,
            mval(r2@) + (carry as nat) * pow2(64 * k as nat) == mval(r1@.take(k as int)) * pow2(
                bs as nat,
            ),
        decreases ln - k,
    {
        let wk = r1[k];
        proof {
            vstd::arithmetic::power2::lemma2_to64();
            vstd::arithmetic::power2::lemma2_to64_rest();
            vstd::arithmetic::power2::lemma_pow2_pos(bs as nat);
            vstd::arithmetic::power2::lemma_pow2_pos((64 - bs) as nat);
            vstd::arithmetic::div_mod::lemma_mod_bound(wk as int, m as int);
            let q = (wk as nat) % (m as nat);
            assert(q <= (m as nat) - 1);
            assert(q * (d as nat) <= ((m as nat) - 1) * (d as nat)) by (nonlinear_arith)
                requires
                    q <= (m as nat) - 1,
                    d >= 1,
            ;
            assert(((m as nat) - 1) * (d as nat) == (m as nat) * (d as nat) - (d as nat)) by (
            nonlinear_arith);
            assert((wk as nat) / (m as nat) < d) by (nonlinear_arith)
                requires
                    (d as nat) * (m as nat) == pow2(64),
                    wk < pow2(64),
                    d >= 1,
                    m >= 1,
            ;
        }
        let nw: u64 = (wk % m) * d + carry;
        let nc: u64 = wk / m;
        let ghost rpre = r2@;
        let ghost cpre = carry;
        r2.push(nw);
        carry = nc;
        k = k + 1;
        proof {
            lemma_mval_take_succ(r1@, k - 1);
            assert(r2@.drop_last() =~= rpre);
            assert(mval(r2@) == mval(rpre) + (nw as nat) * pow2(64 * (k - 1) as nat));
            vstd::arithmetic::power2::lemma_pow2_adds(64 * (k - 1) as nat, 64);
            vstd::arithmetic::div_mod::lemma_fundamental_div_mod(wk as int, m as int);
            let p = pow2(64 * (k - 1) as nat) as int;
            let wv = r1@[k - 1] as int;
            assert(wv == wk);
            // value identity for one step of the left shift
            assert((nw + nc * pow2(64)) == wv * d + cpre) by (nonlinear_arith)
                requires
                    nw == (wk as int % m as int) * d + cpre,
                    nc == wk as int / m as int,
                    wk as int == m as int * (wk as int / m as int) + (wk as int % m as int),
                    m as int * d as int == pow2(64),
                    wv == wk as int,
            ;
            assert((nw + nc * pow2(64)) * p == nw * p + nc * (pow2(64) * p)) by (nonlinear_arith);
            assert((wv * d + cpre) * p == wv * (d as int * p) + cpre * p) by (nonlinear_arith);
            assert((mval(r1@.take(k - 1)) + wv * p) * d == mval(r1@.take(k - 1)) * d + wv * (
            d as int * p)) by (nonlinear_arith);
            assert(pow2(64) * p == pow2(64 * k as nat));
        }
    }
    proof {
        lemma_mval_take_all(r1@);
    }
    let ghost rpre2 = r2@;
    r2.push(carry);
    proof {
        assert(r2@.drop_last() =~= rpre2);
        assert(mval(r2@) == mval(rpre2) + (carry as nat) * pow2(64 * ln as nat));
        lemma_mval_take_all(r1@);
        assert(mval(r2@) == mval(r1@) * pow2(bs as nat));
        vstd::arithmetic::power2::lemma_pow2_adds(64 * ws as nat, bs as nat);
        let a = mval(w@);
        let b = pow2(64 * ws as nat);
        let c2 = pow2(bs as nat);
        assert(mval(r1@) == a * b);
        assert((a * b) * c2 == a * (b * c2)) by (nonlinear_arith);
        assert(pow2(s as nat) == b * c2);
    }
    r2
}


/// Prepends `z` zero words, scaling the value by `2^(64z)`.
pub fn words_pad_low(w: &Vec<u64>, z: usize) -> (r: Vec<u64>)
    ensures
        r@.len() == w@.len() + z,
        mval(r@) == mval(w@) * pow2(64 * z as nat),
{
    let mut r = words_zero(z);
    let n = w.len();
    let mut i: usize = 0;
    while i < n
        invariant
            n == w@.len(),
            i <= n,
            r@.len() == z + i,
            forall|j: int| 0 <= j < z ==> r@[j] == 0,
            forall|j: int| 0 <= j < i ==> r@[z + j] == w@[j],
        decreases n - i,
    {
        r.push(w[i]);
        i = i + 1;
    }
    proof {
        lemma_mval_split(r@, z as int);
        lemma_mval_zero_iff(r@.take(z as int));
        assert(forall|t: int| 0 <= t < z ==> r@.take(z as int)[t] == 0);
        assert(r@.skip(z as int) =~= w@);
        assert(mval(r@) == 0 + mval(w@) * pow2(64 * z as nat));
    }
    r
}

/// Schoolbook product of two word vectors.
pub fn mul_words(a: &Vec<u64>, b: &Vec<u64>) -> (r: Vec<u64>)
    requires
        a@.len() >= 1,
        b@.len() >= 1,
        a@.len() + b@.len() <= 2097152,
    ensures
        r@.len() == a@.len() + b@.len(),
        mval(r@) == mval(a@) * mval(b@),
{
    let la = a.len();
    let lb = b.len();
    let mut r = words_zero(la + lb);
    let mut i: usize = 0;
    proof {
        assert(a@.take(0) =~= Seq::<u64>::empty());
        assert(mval(a@.take(0)) == 0);
        assert(mval(r@) == 0 * mval(b@)) by (nonlinear_arith)
            requires
                mval(r@) == 0,
        ;
    }
    while i < la
        invariant
            la == a@.len(),
            lb == b@.len(),
            la + lb <= 2097152,
            i <= la,
            r@.len() == la + lb,
            mval(r@) == mval(a@.take(i as int)) * mval(b@),
            forall|t: int| i + lb <= t < la + lb ==> r@[t] == 0,
        decreases la - i,
    {
        let ai = a[i];
        let mut carry: u64 = 0;
        let mut j: usize = 0;
        proof {
            assert(b@.take(0) =~= Seq::<u64>::empty());
            assert(mval(b@.take(0)) == 0);
            vstd::arithmetic::power2::lemma2_to64();
            assert((ai as nat) * mval(b@.take(0)) * pow2(64 * i as nat) == 0) by (
            nonlinear_arith)
                requires
                    mval(b@.take(0)) == 0,
            ;
        }
        while j < lb
            invariant
                la == a@.len(),
                lb == b@.len(),
                la + lb <= 2097152,
                i < la,
                j <= lb,
                ai == a@[i as int],
                r@.len() == la + lb,
                mval(r@) + (carry as nat) * pow2(64 * (i + j) as nat) == mval(
                    a@.take(i as int),
                ) * mval(b@) + (ai as nat) * mval(b@.take(j as int)) * pow2(64 * i as nat),
                forall|t: int| i + lb <= t < la + lb ==> r@[t] == 0,
            decreases lb - j,
        {
            proof {
                let x = ai as nat;
                let y = b@[j as int] as nat;
                assert(x * y <= 0xFFFF_FFFF_FFFF_FFFF * 0xFFFF_FFFF_FFFF_FFFF) by (
                nonlinear_arith)
                    requires
                        x <= 0xFFFF_FFFF_FFFF_FFFF,
                        y <= 0xFFFF_FFFF_FFFF_FFFF,
                ;
            }
            let t128: u128 = ai as u128 * b[j] as u128 + r[i + j] as u128 + carry as u128;
            let lo: u64 = (t128 % 0x1_0000_0000_0000_0000) as u64;
            let hi: u64 = (t128 / 0x1_0000_0000_0000_0000) as u64;
            let ghost rpre = r@;
            let ghost cpre = carry as nat;
            let ghost old_w = r@[(i + j) as int] as nat;
            r[i + j] = lo;
            carry = hi;
            proof {
                vstd::arithmetic::power2::lemma2_to64();
                vstd::arithmetic::power2::lemma2_to64_rest();
                lemma_mval_update(rpre, (i + j) as int, lo);
                lemma_mval_take_succ(b@, j as int);
                vstd::arithmetic::power2::lemma_pow2_adds(64 * (i + j) as nat, 64);
                vstd::arithmetic::power2::lemma_pow2_adds(64 * i as nat, 64 * j as nat);
                let pij = pow2(64 * (i + j) as nat);
                let pi = pow2(64 * i as nat);
                let pj = pow2(64 * j as nat);
                let x = ai as nat;
                let y = b@[j as int] as nat;
                let bj = mval(b@.take(j as int));
                assert(t128 == lo + (hi as nat) * pow2(64));
                assert(t128 == x * y + old_w + cpre);
                // the new partial value gains this row's term at its column
                assert((lo as nat + (hi as nat) * pow2(64)) * pij == (x * y + old_w + cpre)
                    * pij) by (nonlinear_arith)
                    requires
                        lo + (hi as nat) * pow2(64) == x * y + old_w + cpre,
                ;
                assert((lo as nat + (hi as nat) * pow2(64)) * pij == (lo as nat) * pij + (
                hi as nat) * (pow2(64) * pij)) by (nonlinear_arith);
                assert((x * y + old_w + cpre) * pij == (x * y) * pij + old_w * pij + cpre
                    * pij) by (nonlinear_arith);
                assert(mval(r@) + (hi as nat) * pow2(64 * (i + j + 1) as nat) == mval(rpre)
                    + (x * y) * pij + cpre * pij);
                assert(mval(rpre) + cpre * pij == mval(a@.take(i as int)) * mval(b@) + x * bj
                    * pi);
                assert(x * bj * pi + (x * y) * pij == x * (bj + y * pj) * pi) by (
                nonlinear_arith)
                    requires
                        pij == pi * pj,
                ;
                assert(mval(b@.take(j + 1)) == bj + y * pj);
            }
            j = j + 1;
        }
        let ghost rpre2 = r@;
        let ghost cfin = carry as nat;
        r[i + lb] = carry;
        proof {
            lemma_mval_update(rpre2, (i + lb) as int, carry);
            lemma_mval_take_all(b@);
            lemma_mval_take_succ(a@, i as int);
            let pil = pow2(64 * (i + lb) as nat);
            let pi = pow2(64 * i as nat);
            let pl = pow2(64 * lb as nat);
            vstd::arithmetic::power2::lemma_pow2_adds(64 * i as nat, 64 * lb as nat);
            assert(rpre2[(i + lb) as int] == 0);
            assert(mval(r@) == mval(rpre2) - (rpre2[(i + lb) as int] as nat) * pil + cfin
                * pil);
            assert((rpre2[(i + lb) as int] as nat) * pil == 0) by (nonlinear_arith)
                requires
                    rpre2[(i + lb) as int] == 0,
            ;
            assert(mval(r@) == mval(rpre2) + cfin * pil);
            assert(mval(r@) == (mval(a@.take(i as int)) + (a@[i as int] as nat) * pi) * mval(
                b@,
            )) by (nonlinear_arith)
                requires
                    mval(r@) == mval(rpre2) + cfin * pil,
                    mval(rpre2) + cfin * pil == mval(a@.take(i as int)) * mval(b@) + (
                    a@[i as int] as nat) * mval(b@) * pi,
            ;
            assert((mval(a@.take(i as int)) + (a@[i as int] as nat) * pi) == mval(
                a@.take(i + 1),
            ));
        }
        i = i + 1;
    }
    proof {
        lemma_mval_take_all(a@);
    }
    r
}

/// Doubles the stored number and adds one bit at the bottom.
fn shl1_bit(rem: &Vec<u64>, bit: u64) -> (r: Vec<u64>)
    requires
        bit <= 1,
        rem@.len() >= 1,
        2 * mval(rem@) + 1 < pow2(64 * rem@.len()),
    ensures
        r@.len() == rem@.len(),
        mval(r@) == 2 * mval(rem@) + bit,
{
    let (dbl, c1) = words_add(rem, rem);
    proof {
        if c1 {
            lemma_mval_bound(dbl@);
        }
    }
    if bit == 1 {
        let (r2, c2) = words_inc(&dbl);
        proof {
            if c2 {
                lemma_mval_bound(r2@);
            }
        }
        r2
    } else {
        dbl
    }
}

/// The bit of the stored number at position `t` can be read out of one
/// word.
pub proof fn lemma_word_bit(s: Seq<u64>, t: int)
    requires
        0 <= t < 64 * s.len(),
    ensures
        (mval(s) / pow2(t as nat)) % 2 == ((s[t / 64] as nat) / pow2((t % 64) as nat)) % 2,
{
    let w0 = t / 64;
    let s0 = (t % 64) as nat;
    vstd::arithmetic::div_mod::lemma_fundamental_div_mod(t, 64);
    assert(0 <= w0 < s.len()) by (nonlinear_arith)
        requires
            t == 64 * w0 + s0,
            0 <= t < 64 * s.len(),
            0 <= s0 < 64,
    ;
    let lo = mval(s.take(w0));
    let hi = mval(s.skip(w0));
    let pw = pow2(64 * w0 as nat);
    let ps = pow2(s0);
    lemma_mval_split(s, w0);
    lemma_mval_bound(s.take(w0));
    vstd::arithmetic::power2::lemma_pow2_pos(64 * w0 as nat);
    vstd::arithmetic::power2::lemma_pow2_pos(s0);
    vstd::arithmetic::power2::lemma_pow2_adds(64 * w0 as nat, s0);
    // the words above position w0 are the number divided by the word base
    vstd::arithmetic::div_mod::lemma_fundamental_div_mod_converse(
        mval(s) as int,
        pw as int,
        hi as int,
        lo as int,
    );
    vstd::arithmetic::div_mod::lemma_div_denominator(mval(s) as int, pw as int, ps as int);
    assert(mval(s) / pow2(t as nat) == hi / ps) by {
        assert(pow2(t as nat) == pw * ps);
    }
    // split the low word off the upper part
    lemma_mval_low(s.skip(w0));
    let wv = s[w0] as nat;
    let rest = mval(s.skip(w0).skip(1));
    vstd::arithmetic::power2::lemma_pow2_adds(s0, (64 - s0) as nat);
    vstd::arithmetic::power2::lemma2_to64();
    vstd::arithmetic::power2::lemma2_to64_rest();
    vstd::arithmetic::div_mod::lemma_fundamental_div_mod(wv as int, ps as int);
    vstd::arithmetic::div_mod::lemma_mod_bound(wv as int, ps as int);
    let q0 = wv / ps;
    let qq: int = q0 as int + pow2((64 - s0) as nat) as int * (rest as int);
    assert(qq * ps == q0 as int * ps + (pow2((64 - s0) as nat) as int * (rest as int)) * ps)
        by (nonlinear_arith)
        requires
            qq == q0 as int + pow2((64 - s0) as nat) as int * (rest as int),
    ;
    assert((pow2((64 - s0) as nat) as int * (rest as int)) * ps == (rest as int) * (
    ps as int * pow2((64 - s0) as nat) as int)) by (nonlinear_arith);
    assert(q0 as int * ps == ps * q0) by (nonlinear_arith);
    assert((rest as int) * (pow2(64) as int) == rest * pow2(64)) by (nonlinear_arith);
    assert(hi as int == qq * ps + (wv % ps));
    vstd::arithmetic::div_mod::lemma_fundamental_div_mod_converse(
        hi as int,
        ps as int,
        qq,
        (wv % ps) as int,
    );
    // the upper words contribute only even amounts at this bit
    assert(qq % 2 == q0 as int % 2) by {
        vstd::arithmetic::power2::lemma_pow2_adds((64 - s0 - 1) as nat, 1);
        assert(pow2((64 - s0) as nat) as int * (rest as int) == 2 * (pow2(
            (64 - s0 - 1) as nat,
        ) as int * (rest as int))) by (nonlinear_arith)
            requires
                pow2((64 - s0) as nat) == pow2((64 - s0 - 1) as nat) * 2,
        ;
        vstd::arithmetic::div_mod::lemma_mod_multiples_vanish(
            pow2((64 - s0 - 1) as nat) as int * (rest as int),
            q0 as int,
            2,
        );
    }
}

/// When the stored number is a multiple of `2^(t+1)`, the word holding
/// bit `t` is zero below and at that bit.
proof fn lemma_word_low_zero(s: Seq<u64>, t: int)
    requires
        0 <= t < 64 * s.len(),
        mval(s) % pow2((t + 1) as nat) == 0,
    ensures
        (s[t / 64] as nat) % pow2(((t % 64) + 1) as nat) == 0,
{
    let w0 = t / 64;
    let s0 = (t % 64) as nat;
    vstd::arithmetic::div_mod::lemma_fundamental_div_mod(t, 64);
    assert(0 <= w0 < s.len()) by (nonlinear_arith)
        requires
            t == 64 * w0 + s0,
            0 <= t < 64 * s.len(),
            0 <= s0 < 64,
    ;
    let lo = mval(s.take(w0));
    let hi = mval(s.skip(w0));
    let pw = pow2(64 * w0 as nat);
    let ps1 = pow2(s0 + 1);
    lemma_mval_split(s, w0);
    lemma_mval_bound(s.take(w0));
    vstd::arithmetic::power2::lemma_pow2_pos(64 * w0 as nat);
    vstd::arithmetic::power2::lemma_pow2_pos(s0 + 1);
    vstd::arithmetic::power2::lemma_pow2_adds(64 * w0 as nat, s0 + 1);
    assert(pow2((t + 1) as nat) == pw * ps1);
    // the number is a multiple of the full power, so the low split is zero
    vstd::arithmetic::power2::lemma_pow2_pos((t + 1) as nat);
    let k = mval(s) / pow2((t + 1) as nat);
    vstd::arithmetic::div_mod::lemma_fundamental_div_mod(
        mval(s) as int,
        pow2((t + 1) as nat) as int,
    );
    assert(mval(s) == (pw * ps1) * k);
    assert(mval(s) == pw * (ps1 * k)) by (nonlinear_arith)
        requires
            mval(s) == (pw * ps1) * k,
    ;
    vstd::arithmetic::div_mod::lemma_fundamental_div_mod_converse(
        mval(s) as int,
        pw as int,
        (hi) as int,
        lo as int,
    );
    assert(mval(s) as int == (ps1 * k) as int * pw + 0) by (nonlinear_arith)
        requires
            mval(s) == pw * (ps1 * k),
    ;
    vstd::arithmetic::div_mod::lemma_fundamental_div_mod_converse(
        mval(s) as int,
        pw as int,
        (ps1 * k) as int,
        0,
    );
    assert(hi == ps1 * k);
    // peel the low word out of the upper part
    lemma_mval_low(s.skip(w0));
    let wv = s[w0] as nat;
    let rest = mval(s.skip(w0).skip(1));
    vstd::arithmetic::power2::lemma_pow2_adds(s0 + 1, (64 - s0 - 1) as nat);
    assert(ps1 * pow2((64 - s0 - 1) as nat) == pow2(64));
    assert(wv as int == ps1 * (k as int - pow2((64 - s0 - 1) as nat) * rest)) by (
    nonlinear_arith)
        requires
            wv + rest * pow2(64) == ps1 * k,
            ps1 * pow2((64 - s0 - 1) as nat) == pow2(64),
    ;
    vstd::arithmetic::div_mod::lemma_fundamental_div_mod_converse(
        wv as int,
        ps1 as int,
        k as int - pow2((64 - s0 - 1) as nat) * rest,
        0,
    );
}

/// Restoring binary long division: the quotient of the stored numbers
/// and a flag reporting a nonzero remainder.
pub fn div_words(nv: &Vec<u64>, dv: &Vec<u64>) -> (r: (Vec<u64>, bool))
    requires
        nv@.len() >= 1,
        dv@.len() >= 1,
        nv@.len() <= 2097152,
        dv@.len() <= 2097152,
        mval(dv@) >= 1,
    ensures
        r.0@.len() == nv@.len(),
        mval(r.0@) == mval(nv@) / mval(dv@),
        r.1 <==> mval(nv@) % mval(dv@) != 0,
{
    let ln = nv.len();
    let ld = dv.len();
    let mut q = words_zero(ln);
    // one headroom word so that doubling the remainder cannot overflow
    let mut dv2 = words_copy(dv);
    words_pad(&mut dv2, ld + 1);
    let mut rem = words_zero(ld + 1);
    let nbits = ln * 64;
    let mut t = nbits;
    let ghost nval = mval(nv@);
    let ghost dval = mval(dv@);
    let ghost mut qh: nat = 0nat;
    proof {
        lemma_mval_bound(dv@);
        lemma_mval_bound(nv@);
        vstd::arithmetic::power2::lemma_pow2_adds(64 * ld as nat, 64);
        vstd::arithmetic::power2::lemma_pow2_pos(64 * ld as nat);
        vstd::arithmetic::power2::lemma_pow2_pos(64 * ln as nat);
        vstd::arithmetic::power2::lemma2_to64();
        vstd::arithmetic::power2::lemma2_to64_rest();
        assert(pow2(64 * ld as nat) * pow2(64) >= pow2(64 * ld as nat) * 2) by (nonlinear_arith)
            requires
                pow2(64) >= 2,
                pow2(64 * ld as nat) >= 1,
        ;
        // nothing of the dividend lies at or above its own bit length
        vstd::arithmetic::div_mod::lemma_fundamental_div_mod_converse(
            nval as int,
            pow2(64 * ln as nat) as int,
            0,
            nval as int,
        );
        assert(mval(q@) == 0 * pow2(nbits as nat)) by (nonlinear_arith)
            requires
                mval(q@) == 0,
        ;
    }
    while t > 0
        invariant
            ln == nv@.len(),
            ld == dv@.len(),
            ln <= 2097152,
            ld >= 1,
            nval == mval(nv@),
            dval == mval(dv@),
            mval(dv2@) == dval,
            dval >= 1,
            2 * dval < pow2(64 * (ld + 1) as nat),
            nbits == ln * 64,
            t <= nbits,
            q@.len() == ln,
            dv2@.len() == ld + 1,
            rem@.len() == ld + 1,
            mval(rem@) < dval,
            mval(q@) == qh * pow2(t as nat),
            nval / pow2(t as nat) == qh * dval + mval(rem@),
        decreases t,
    {
        t = t - 1;
        proof {
            assert(t / 64 < ln) by (nonlinear_arith)
                requires
                    t < 64 * ln,
            ;
        }
        let sh: usize = t % 64;
        let word = nv[t / 64];
        let ps = pow2_u64(sh);
        proof {
            vstd::arithmetic::power2::lemma_pow2_pos(sh as nat);
        }
        let bit: u64 = (word / ps) % 2;
        let ghost pt = pow2(t as nat);
        let ghost rpre = mval(rem@);
        proof {
            vstd::arithmetic::power2::lemma_pow2_pos(t as nat);
            vstd::arithmetic::power2::lemma_pow2_adds(t as nat, 1);
            vstd::arithmetic::power2::lemma2_to64();
            assert(pow2(t as nat + 1) == pt * 2);
            lemma_word_bit(nv@, t as int);
            assert(bit == (nval / pt) % 2);
            // one more dividend bit enters the running remainder
            vstd::arithmetic::div_mod::lemma_div_denominator(nval as int, pt as int, 2);
            assert((nval / pt) / 2 == nval / (pt * 2));
            vstd::arithmetic::div_mod::lemma_fundamental_div_mod((nval / pt) as int, 2);
            assert(nval / pt == 2 * ((nval / pt) / 2) + (nval / pt) % 2);
            assert(nval / pt == 2 * (nval / pow2(t as nat + 1)) + bit);
        }
        let rem2 = shl1_bit(&rem, bit);
        let c = words_cmp(&rem2, &dv2);
        if c >= 0 {
            rem = words_sub(&rem2, &dv2);
            let qi = t / 64;
            let ghost qpre = q@;
            proof {
                // the quotient holds no bit at or below this position yet
                assert(mval(q@) % pow2(t as nat + 1) == 0) by {
                    assert(pow2(t as nat + 1) * qh + 0 == mval(q@)) by (nonlinear_arith)
                        requires
                            mval(q@) == qh * pow2(t as nat + 1),
                    ;
                    vstd::arithmetic::div_mod::lemma_mod_multiples_vanish(
                        qh as int,
                        0,
                        pow2(t as nat + 1) as int,
                    );
                }
                lemma_word_low_zero(q@, t as int);
                vstd::arithmetic::power2::lemma_pow2_adds(sh as nat + 1, (63 - sh) as nat);
                vstd::arithmetic::power2::lemma_pow2_adds(sh as nat, 1);
                vstd::arithmetic::power2::lemma2_to64();
                vstd::arithmetic::power2::lemma2_to64_rest();
                vstd::arithmetic::power2::lemma_pow2_pos(sh as nat + 1);
                vstd::arithmetic::power2::lemma_pow2_pos((63 - sh) as nat);
                // so adding the bit cannot overflow the word
                let wq = q@[qi as int] as nat;
                let m1 = pow2(sh as nat + 1);
                vstd::arithmetic::div_mod::lemma_fundamental_div_mod(wq as int, m1 as int);
                let k = wq / m1;
                assert(wq == m1 * k);
                assert(k < pow2((63 - sh) as nat)) by (nonlinear_arith)
                    requires
                        wq == m1 * k,
                        wq < pow2(64),
                        m1 * pow2((63 - sh) as nat) == pow2(64),
                        m1 >= 1,
                ;
                assert(wq + ps <= u64::MAX) by (nonlinear_arith)
                    requires
                        wq == m1 * k,
                        k + 1 <= pow2((63 - sh) as nat),
                        m1 * pow2((63 - sh) as nat) == pow2(64),
                        2 * (ps as nat) == m1,
                        ps >= 1,
                        pow2(64) == u64::MAX + 1,
                ;
            }
            q[qi] = q[qi] + ps;
            proof {
                lemma_mval_update(qpre, qi as int, (qpre[qi as int] + ps) as u64);
                vstd::arithmetic::div_mod::lemma_fundamental_div_mod(t as int, 64);
                vstd::arithmetic::power2::lemma_pow2_adds(64 * qi as nat, sh as nat);
                assert(64 * qi + sh == t);
                // the written bit adds exactly this position's weight
                assert(mval(q@) == qh * pow2(t as nat + 1) + (ps as nat) * pow2(
                    64 * qi as nat,
                )) by (nonlinear_arith)
                    requires
                        mval(q@) == mval(qpre) - (qpre[qi as int] as nat) * pow2(
                            64 * qi as nat,
                        ) + ((qpre[qi as int] + ps) as nat) * pow2(64 * qi as nat),
                        mval(qpre) == qh * pow2(t as nat + 1),
                        qpre[qi as int] + ps <= u64::MAX,
                ;
                assert((ps as nat) * pow2(64 * qi as nat) == pt) by {
                    vstd::arithmetic::power2::lemma_pow2_adds(sh as nat, 64 * qi as nat);
                    assert(sh as nat + 64 * qi as nat == t as nat);
                }
                assert(mval(q@) == (2 * qh + 1) * pt) by (nonlinear_arith)
                    requires
                        mval(q@) == qh * pow2(t as nat + 1) + pt,
                        pow2(t as nat + 1) == pt * 2,
                ;
                // the division relation advances by one bit
                assert(nval / pt == (2 * qh + 1) * dval + (mval(rem2@) - dval)) by (
                nonlinear_arith)
                    requires
                        nval / pt == 2 * (nval / pow2(t as nat + 1)) + bit,
                        nval / pow2(t as nat + 1) == qh * dval + rpre,
                        mval(rem2@) == 2 * rpre + bit,
                ;
                qh = 2 * qh + 1;
            }
        } else {
            rem = rem2;
            proof {
                assert(mval(q@) == (2 * qh) * pt) by (nonlinear_arith)
                    requires
                        mval(q@) == qh * pow2(t as nat + 1),
                        pow2(t as nat + 1) == pt * 2,
                ;
                assert(nval / pt == (2 * qh) * dval + mval(rem@)) by (nonlinear_arith)
                    requires
                        nval / pt == 2 * (nval / pow2(t as nat + 1)) + bit,
                        nval / pow2(t as nat + 1) == qh * dval + rpre,
                        mval(rem@) == 2 * rpre + bit,
                ;
                qh = 2 * qh;
            }
        }
    }
    proof {
        vstd::arithmetic::power2::lemma2_to64();
        assert(qh * pow2(0) == qh) by (nonlinear_arith)
            requires
                pow2(0) == 1,
        ;
        vstd::arithmetic::div_mod::lemma_fundamental_div_mod_converse(
            nval as int,
            1,
            nval as int,
            0,
        );
        assert(nval as int == qh as int * dval + mval(rem@)) by (nonlinear_arith)
            requires
                nval / pow2(0) == qh * dval + mval(rem@),
                nval / pow2(0) == nval,
    ;
        vstd::arithmetic::div_mod::lemma_fundamental_div_mod_converse(
            nval as int,
            dval as int,
            qh as int,
            mval(rem@) as int,
        );
    }
    let sticky = !words_is_zero(&rem);
    (q, sticky)
}

} // verus!
