//! The constants cache: fixed-point tables for pi, e, ln(2) and ln(10),
//! served at any requested precision up to the table length.
//!
//! The engine never reaches the cache through ambient state: callers pass
//! it explicitly as a mutable borrow, so concurrent computations need
//! separate caches or external synchronization.

use vstd::arithmetic::power2::pow2;
use vstd::prelude::*;

use crate::defs::round_p;
use crate::defs::spec_round_p;
use crate::defs::Error;
use crate::defs::RoundingMode;
use crate::defs::Sign;
use crate::defs::MAX_P;
use crate::num::BigFloatNumber;
use crate::series::term_negligible;
use crate::series::ITER_BUDGET;
use crate::words::lemma_mval_bound;
use crate::words::lemma_mval_split;
use crate::words::lemma_mval_low;
use crate::words::mval;

verus! {

/// Bits held by each constant table.
pub const CONST_TABLE_BITS: usize = 4096;

/// Largest precision the cache can serve, leaving guard bits for correct
/// rounding of the table's tail.
pub const CONST_MAX_P: usize = 3968;

/// A 64-word table whose top word has its highest bit set holds a value
/// of at least `2^4095`.
proof fn lemma_table_top(w: Seq<u64>)
    requires
        w.len() == 64,
        w[63] >= 0x8000_0000_0000_0000,
    ensures
        mval(w) >= pow2(4095),
{
    lemma_mval_split(w, 63);
    let hi = w.skip(63);
    assert(hi[0] == w[63]);
    assert(hi.skip(1) =~= Seq::<u64>::empty());
    assert(mval(hi.skip(1)) == 0);
    lemma_mval_low(hi);
    assert(mval(hi) == w[63] + 0 * pow2(64));
    vstd::arithmetic::power2::lemma2_to64_rest();
    vstd::arithmetic::power2::lemma_pow2_adds(63, 4032);
    vstd::arithmetic::power2::lemma_pow2_pos(4032);
    assert(mval(hi) * pow2(4032) >= pow2(63) * pow2(4032)) by (nonlinear_arith)
        requires
            mval(hi) >= pow2(63),
            pow2(4032) > 0,
    ;
}

/// The first 4096 mantissa bits of the circle constant, least significant word
/// first, with the top bit set.
fn pi_table() -> (w: Vec<u64>)
    ensures
        w@.len() == 64,
        mval(w@) >= pow2(4095),
{
    let mut w: Vec<u64> = Vec::new();
    w.push(0xc1d4dcb2602646de);
    w.push(0x36c3fab4d27c7026);
    w.push(0x4df435c934028492);
    w.push(0x86ffb7dc90a6c08f);
    w.push(0x93b4ea988d8fddc1);
    w.push(0xd0069127d5b05aa9);
    w.push(0xb81bdd762170481c);
    w.push(0x1f612970cee2d7af);
    w.push(0x233ba186515be7ed);
    w.push(0x99b2964fa090c3a2);
    w.push(0x287c59474e6bc05d);
    w.push(0x2e8efc141fbecaa6);
    w.push(0xdbbbc2db04de8ef9);
    w.push(0x2583e9ca2ad44ce8);
    w.push(0x1a946834b6150bda);
    w.push(0x99c327186af4e23c);
    w.push(0x88719a10bdba5b26);
    w.push(0x1a723c12a787e6d7);
    w.push(0x4b82d120a9210801);
    w.push(0x43db5bfce0fd108e);
    w.push(0x08e24fa074e5ab31);
    w.push(0x770988c0bad946e2);
    w.push(0xbbe117577a615d6c);
    w.push(0x521f2b18177b200c);
    w.push(0xd87602733ec86a64);
    w.push(0xf12ffa06d98a0864);
    w.push(0xcee3d2261ad2ee6b);
    w.push(0x1e8c94e04a25619d);
    w.push(0xabf5ae8cdb0933d7);
    w.push(0xb3970f85a6e1e4c7);
    w.push(0x8aea71575d060c7d);
    w.push(0xecfb850458dbef0a);
    w.push(0xa85521abdf1cba64);
    w.push(0xad33170d04507a33);
    w.push(0x15728e5a8aaac42d);
    w.push(0x15d2261898fa0510);
    w.push(0x3995497cea956ae5);
    w.push(0xde2bcbf695581718);
    w.push(0xb5c55df06f4c52c9);
    w.push(0x9b2783a2ec07a28f);
    w.push(0xe39e772c180e8603);
    w.push(0x32905e462e36ce3b);
    w.push(0xf1746c08ca18217c);
    w.push(0x670c354e4abc9804);
    w.push(0x9ed529077096966d);
    w.push(0x1c62f356208552bb);
    w.push(0x83655d23dca3ad96);
    w.push(0x69163fa8fd24cf5f);
    w.push(0x98da48361c55d39a);
    w.push(0xc2007cb8a163bf05);
    w.push(0x49286651ece45b3d);
    w.push(0xae9f24117c4b1fe6);
    w.push(0xee386bfb5a899fa5);
    w.push(0x0bff5cb6f406b7ed);
    w.push(0xf44c42e9a637ed6b);
    w.push(0xe485b576625e7ec6);
    w.push(0x4fe1356d6d51c245);
    w.push(0x302b0a6df25f1437);
    w.push(0xef9519b3cd3a431b);
    w.push(0x514a08798e3404dd);
    w.push(0x020bbea63b139b22);
    w.push(0x29024e088a67cc74);
    w.push(0xc4c6628b80dc1cd1);
    w.push(0xc90fdaa22168c234);
    proof {
        lemma_table_top(w@);
    }
    w
}

/// The first 4096 mantissa bits of Euler's number, least significant word
/// first, with the top bit set.
fn euler_table() -> (w: Vec<u64>)
    ensures
        w@.len() == 64,
        mval(w@) >= pow2(4095),
{
    let mut w: Vec<u64> = Vec::new();
    w.push(0x4e677d2c38532a3a);
    w.push(0x0bfd64b645036c7a);
    w.push(0xc68a007e5e0dd902);
    w.push(0x4db5a851f44182e1);
    w.push(0x8ec9b55a7f88a46b);
    w.push(0x0a8291cdcec97dcf);
    w.push(0x2a4ecea9f98d0acc);
    w.push(0x1a1db93d7140003c);
    w.push(0x092999a333cb8b7a);
    w.push(0x6dc778f971ad0038);
    w.push(0xa907600a918130c4);
    w.push(0xed6a1e012d9e6832);
    w.push(0x7135c886efb4318a);
    w.push(0x87f55ba57e31cc7a);
    w.push(0x7763cf1d55034004);
    w.push(0xac7d5f42d69f6d18);
    w.push(0x7930e9e4e58857b6);
    w.push(0x6e6f52c3164df4fb);
    w.push(0x25e41d2b669e1ef1);
    w.push(0x3c1b20ee3fd59d7c);
    w.push(0x0abcd06bfa53ddef);
    w.push(0x1dbf9a42d5c4484e);
    w.push(0xabc521979b0deada);
    w.push(0xe86d2bc522363a0d);
    w.push(0x5cae82ab9c9df69e);
    w.push(0x64f2e21e71f54bff);
    w.push(0xf4fd4452e2d74dd3);
    w.push(0xb4130c93bc437944);
    w.push(0xaefe130985139270);
    w.push(0x598cb0fac186d91c);
    w.push(0x7ad91d2691f7f7ee);
    w.push(0x61b46fc9d6e6c907);
    w.push(0xbc34f4def99c0238);
    w.push(0xde355b3b6519035b);
    w.push(0x886b4238611fcfdc);
    w.push(0xc6f34a26c1b2effa);
    w.push(0xc58ef1837d1683b2);
    w.push(0x3bb5fcbc2ec22005);
    w.push(0xc3fe3b1b4c6fad73);
    w.push(0x8e4f1232eef28183);
    w.push(0x9172fe9ce98583ff);
    w.push(0xc03404cd28342f61);
    w.push(0x9e02fce1cdf7e2ec);
    w.push(0x0b07a7c8ee0a6d70);
    w.push(0xae56ede76372bb19);
    w.push(0x1d4f42a3de394df4);
    w.push(0xb96adab760d7f468);
    w.push(0xd108a94bb2c8e3fb);
    w.push(0xbc0ab182b324fb61);
    w.push(0x30acca4f483a797a);
    w.push(0x1df158a136ade735);
    w.push(0xe2a689daf3efe872);
    w.push(0x984f0c70e0e68b77);
    w.push(0xb557135e7f57c935);
    w.push(0x856365553ded1af3);
    w.push(0x2433f51f5f066ed0);
    w.push(0xd3df1ed5d5fd6561);
    w.push(0xf681b202aec4617a);
    w.push(0x7d2fe363630c75d8);
    w.push(0xcc939dce249b3ef9);
    w.push(0xa9e13641146433fb);
    w.push(0xd8b9c583ce2d3695);
    w.push(0xafdc5620273d3cf1);
    w.push(0xadf85458a2bb4a9a);
    proof {
        lemma_table_top(w@);
    }
    w
}

/// The first 4096 mantissa bits of the natural logarithm of two, least significant word
/// first, with the top bit set.
fn ln2_table() -> (w: Vec<u64>)
    ensures
        w@.len() == 64,
        mval(w@) >= pow2(4095),
{
    let mut w: Vec<u64> = Vec::new();
    w.push(0x175eb4afc8daadd8);
    w.push(0xf07afff3a892374e);
    w.push(0x8f6826250dea891e);
    w.push(0xcecb72f19c38339d);
    w.push(0x5f6f7cebac9f45ae);
    w.push(0x6c472096e76115c0);
    w.push(0x972cd18bfbbd9d42);
    w.push(0x0ab111bbbd67c724);
    w.push(0x473826fda0c238b9);
    w.push(0x61c1696dd24aaebd);
    w.push(0x156e0c292413d5e3);
    w.push(0x95184460dc4e7487);
    w.push(0xd7622658901e646a);
    w.push(0xef2f0ce2d7373958);
    w.push(0x2ac5b61cc4e9207c);
    w.push(0x57339ba2beba7d05);
    w.push(0x0060e49908391a0c);
    w.push(0x621363196af50302);
    w.push(0x05c128d53d0bd2f9);
    w.push(0x36e02b20cee886b9);
    w.push(0x0bbb16faf3d949f2);
    w.push(0x422183edc9942109);
    w.push(0x5e9222b88c66d3c5);
    w.push(0x61affd446b1ca3cf);
    w.push(0x268a5c1f9538b982);
    w.push(0x8d6f5177fbcf0755);
    w.push(0xa17293d1228a4ef9);
    w.push(0x44a02554731cdc8e);
    w.push(0x96d4e6d330af889b);
    w.push(0x5570b6c68f969834);
    w.push(0x7598a1951ae273ee);
    w.push(0x4d162db3b365853d);
    w.push(0x5f50b5185064c18b);
    w.push(0x078f735d1b2db31b);
    w.push(0xae313cdb6c606cb1);
    w.push(0x955d5179b1e17b9d);
    w.push(0x0c480a5417350d2c);
    w.push(0x074db6015cfe7aa3);
    w.push(0x6a9c7f8a5e148e82);
    w.push(0x25669b333564a337);
    w.push(0x4c1a1e0bd1d6095d);
    w.push(0xcccc4e659393514c);
    w.push(0xc943e732b479cd33);
    w.push(0x17460775db8990e5);
    w.push(0x7d2e23de1400b396);
    w.push(0xee569d6dfc1efa15);
    w.push(0x610d30f88fe551a2);
    w.push(0x07f4ca11fb5bfb90);
    w.push(0xda2d97c50f3fd5c6);
    w.push(0x655fa1872f20e3a2);
    w.push(0xf5dfa6bd38303248);
    w.push(0x72ce87b19d6548ca);
    w.push(0x256fa0ec7657f74b);
    w.push(0xb9ea9bc3b136603b);
    w.push(0x1acbda11317c387e);
    w.push(0x3e96ca16224ae8c5);
    w.push(0x27573b291169b825);
    w.push(0xed2eae35c1382144);
    w.push(0x559552fb4afa1b10);
    w.push(0xe7b876206debac98);
    w.push(0x8a0d175b8baafa2b);
    w.push(0x40f343267298b62d);
    w.push(0xc9e3b39803f2f6af);
    w.push(0xb17217f7d1cf79ab);
    proof {
        lemma_table_top(w@);
    }
    w
}

/// The first 4096 mantissa bits of the natural logarithm of ten, least significant word
/// first, with the top bit set.
fn ln10_table() -> (w: Vec<u64>)
    ensures
        w@.len() == 64,
        mval(w@) >= pow2(4095),
{
    let mut w: Vec<u64> = Vec::new();
    w.push(0x8e668aeaba83c7f8);
    w.push(0xb81c4a5b53d49ea6);
    w.push(0x48a93f5f5e3b6eb4);
    w.push(0xa2d6fe91388e9e3e);
    w.push(0x4b40ed7a56c6cdcd);
    w.push(0xc4b83301006bf062);
    w.push(0x1be5a9a967fddc57);
    w.push(0xff3065c40cfceec8);
    w.push(0x89bf752fb5dfb353);
    w.push(0x6a36ceccb2d5ae5b);
    w.push(0xbc1261c8b3e4daad);
    w.push(0xdf3ccbb3189da49d);
    w.push(0xd006f8b4be145a2a);
    w.push(0x99d6d20ea2defd2b);
    w.push(0xb6524dc18c167e86);
    w.push(0xed69b13dc1a03730);
    w.push(0xf42c58def8a3c52d);
    w.push(0xf6ff363db00b6b33);
    w.push(0xa0d9c260794a976f);
    w.push(0x421ef5e0b00410a0);
    w.push(0xdef85a05eb56323a);
    w.push(0x8fcd08324a7b32a6);
    w.push(0x0a62d18e478f7bd5);
    w.push(0x4d5e843f20642b97);
    w.push(0x1f1d366c20663834);
    w.push(0xbc64ea806e198566);
    w.push(0xaa6604a5324ec3dc);
    w.push(0xb5e4b1c8c0e5a10a);
    w.push(0x3b70fcda2d732d47);
    w.push(0x0942617819127a6e);
    w.push(0x3982a78ca45ddfc8);
    w.push(0xef99c8e5f6974f36);
    w.push(0x4cb0466d61ba648e);
    w.push(0xad6bfbffd821ba0a);
    w.push(0xe38a5700ffde2db1);
    w.push(0xf77e37604e943960);
    w.push(0xa949eaaadf69e8a5);
    w.push(0xe88047f17b0d9b50);
    w.push(0x3848c8d25faf1bca);
    w.push(0x3dfd3c51748e6d6e);
    w.push(0xaf88486ea9b7401e);
    w.push(0xf47fa96deb271060);
    w.push(0x45765cde268339db);
    w.push(0xe40bf3cc1e14126a);
    w.push(0xdb1d28ea57d4fdc0);
    w.push(0xa47ecb26978c5d4f);
    w.push(0x9cd5b42e6a271619);
    w.push(0xe2478fcaad3aee98);
    w.push(0x469ea58e9305e981);
    w.push(0x5b08b057d5ede20f);
    w.push(0x8e93368d44789c4f);
    w.push(0xca67b35b23605085);
    w.push(0x5161bb49d219c7bb);
    w.push(0xef66ceb04ab3c6fa);
    w.push(0x765aa6c3b0d831fb);
    w.push(0x782cf8a28a8c911e);
    w.push(0xfb8f788402e516d6);
    w.push(0x2c622418410be2da);
    w.push(0xcc70cbc02c5f0d68);
    w.push(0x962f02d7b1a8105c);
    w.push(0x83c61e8201f02d72);
    w.push(0xe28fecf9da5df90e);
    w.push(0xea56d62b82d30a28);
    w.push(0x935d8dddaaa8ac16);
    proof {
        lemma_table_top(w@);
    }
    w
}

/// One arctangent of an inverse integer, `atan(1/x)`, summed at the
/// working precision `pw` until the next term is negligible against the
/// accumulator.
fn atan_inv(x: u64, pw: usize) -> (r: Result<BigFloatNumber, Error>)
    requires
        64 <= pw <= MAX_P,
        pw % 64 == 0,
        2 <= x <= 1000,
    ensures
        r matches Ok(f) ==> {
            &&& f.wf()
            &&& f.sp_prec() == pw
        },
        r matches Err(e) ==> e != Error::InvalidPrecision,
{
    proof {
        crate::defs::lemma_whole_words(pw as nat);
    }
    let xv = BigFloatNumber::from_word(x, 64)?;
    let inv_x = xv.reciprocal(pw, RoundingMode::NoRound)?;
    let xx = xv.mul(&xv, 64, RoundingMode::NoRound)?;
    let mut neg_inv_x2 = xx.reciprocal(pw, RoundingMode::NoRound)?;
    neg_inv_x2.inv_sign();
    let mut acc = inv_x.clone()?;
    let mut term = inv_x;
    let mut k: u64 = 1;
    let mut budget: usize = ITER_BUDGET;
    loop
        invariant
            acc.wf(),
            term.wf(),
            neg_inv_x2.wf(),
            acc.sp_prec() == pw,
            term.sp_prec() == pw,
            64 <= pw <= MAX_P,
            spec_round_p(pw as nat) == pw,
            1 <= k <= 4294967296,
        decreases budget,
    {
        term = term.mul(&neg_inv_x2, pw, RoundingMode::NoRound)?;
        let d = BigFloatNumber::from_word(2 * k + 1, 64)?;
        let part = term.div(&d, pw, RoundingMode::NoRound)?;
        acc = acc.add(&part, pw, RoundingMode::NoRound)?;
        if term_negligible(&part, &acc) {
            break ;
        }
        if budget == 0 || k >= 4294967296 {
            return Err(Error::AllocationError);
        }
        k = k + 1;
        budget = budget - 1;
    }
    Ok(acc)
}

/// One inverse hyperbolic arctangent of an inverse integer,
/// `atanh(1/x)`: the same series as the arctangent with all terms
/// positive.
fn atanh_inv(x: u64, pw: usize) -> (r: Result<BigFloatNumber, Error>)
    requires
        64 <= pw <= MAX_P,
        pw % 64 == 0,
        2 <= x <= 1000,
    ensures
        r matches Ok(f) ==> {
            &&& f.wf()
            &&& f.sp_prec() == pw
        },
        r matches Err(e) ==> e != Error::InvalidPrecision,
{
    proof {
        crate::defs::lemma_whole_words(pw as nat);
    }
    let xv = BigFloatNumber::from_word(x, 64)?;
    let inv_x = xv.reciprocal(pw, RoundingMode::NoRound)?;
    let xx = xv.mul(&xv, 64, RoundingMode::NoRound)?;
    let inv_x2 = xx.reciprocal(pw, RoundingMode::NoRound)?;
    let mut acc = inv_x.clone()?;
    let mut term = inv_x;
    let mut k: u64 = 1;
    let mut budget: usize = ITER_BUDGET;
    loop
        invariant
            acc.wf(),
            term.wf(),
            inv_x2.wf(),
            acc.sp_prec() == pw,
            term.sp_prec() == pw,
            64 <= pw <= MAX_P,
            spec_round_p(pw as nat) == pw,
            1 <= k <= 4294967296,
        decreases budget,
    {
        term = term.mul(&inv_x2, pw, RoundingMode::NoRound)?;
        let d = BigFloatNumber::from_word(2 * k + 1, 64)?;
        let part = term.div(&d, pw, RoundingMode::NoRound)?;
        acc = acc.add(&part, pw, RoundingMode::NoRound)?;
        if term_negligible(&part, &acc) {
            break ;
        }
        if budget == 0 || k >= 4294967296 {
            return Err(Error::AllocationError);
        }
        k = k + 1;
        budget = budget - 1;
    }
    Ok(acc)
}

/// Checks the run-time window of a computed constant: nonzero, positive,
/// and with the expected exponent. The true constants always pass; a
/// failure surfaces as exhaustion.
fn check_const_window(v: BigFloatNumber, e_lo: i32, e_hi: i32) -> (r: Result<
    BigFloatNumber,
    Error,
>)
    requires
        v.wf(),
        crate::defs::EXPONENT_MIN < e_lo <= e_hi,
    ensures
        r matches Ok(f) ==> {
            &&& f.wf()
            &&& f.sp_prec() == v.sp_prec()
            &&& !f.sp_is_zero()
            &&& f.sp_normalized()
            &&& f.sp_sign() == Sign::Pos
            &&& (e_lo <= f.sp_e() <= e_hi)
        },
        r matches Err(e) ==> e == Error::AllocationError,
{
    let mut v = v;
    v.set_inexact(true);
    if v.is_zero() {
        return Err(Error::AllocationError);
    }
    let e = v.exponent();
    if e < e_lo || e > e_hi {
        return Err(Error::AllocationError);
    }
    if v.sign() != Sign::Pos {
        return Err(Error::AllocationError);
    }
    Ok(v)
}

/// Euler's number computed from its factorial series, for precisions
/// beyond the table.
pub fn euler_computed(p: usize) -> (r: Result<BigFloatNumber, Error>)
    requires
        64 <= p,
        p + 192 <= MAX_P,
        p % 64 == 0,
    ensures
        r matches Ok(f) ==> {
            &&& f.wf()
            &&& f.sp_prec() == p
            &&& !f.sp_is_zero()
            &&& f.sp_normalized()
            &&& f.sp_sign() == Sign::Pos
            &&& (2 <= f.sp_e() <= 3)
        },
        r matches Err(e) ==> e != Error::InvalidPrecision,
{
    proof {
        crate::defs::lemma_whole_words(p as nat);
        crate::defs::lemma_whole_words((p + 128) as nat);
    }
    let pw = p + 128;
    let mut acc = BigFloatNumber::from_word(2, pw)?;
    let mut term = BigFloatNumber::from_word(1, pw)?;
    let mut k: u64 = 2;
    let mut budget: usize = ITER_BUDGET;
    loop
        invariant
            acc.wf(),
            term.wf(),
            acc.sp_prec() == pw,
            term.sp_prec() == pw,
            64 <= pw <= MAX_P,
            spec_round_p(pw as nat) == pw,
            2 <= k <= 4294967296,
        decreases budget,
    {
        let d = BigFloatNumber::from_word(k, 64)?;
        term = term.div(&d, pw, RoundingMode::NoRound)?;
        acc = acc.add(&term, pw, RoundingMode::NoRound)?;
        if term_negligible(&term, &acc) {
            break ;
        }
        if budget == 0 || k >= 4294967296 {
            return Err(Error::AllocationError);
        }
        k = k + 1;
        budget = budget - 1;
    }
    acc.set_precision(p, RoundingMode::NoRound)?;
    check_const_window(acc, 2, 3)
}

/// The natural logarithm of two, `2 * atanh(1/3)`, for precisions beyond
/// the table.
pub fn ln2_computed(p: usize) -> (r: Result<BigFloatNumber, Error>)
    requires
        64 <= p,
        p + 192 <= MAX_P,
        p % 64 == 0,
    ensures
        r matches Ok(f) ==> {
            &&& f.wf()
            &&& f.sp_prec() == p
            &&& !f.sp_is_zero()
            &&& f.sp_normalized()
            &&& f.sp_sign() == Sign::Pos
            &&& (0 <= f.sp_e() <= 1)
        },
        r matches Err(e) ==> e != Error::InvalidPrecision,
{
    proof {
        crate::defs::lemma_whole_words(p as nat);
        crate::defs::lemma_whole_words((p + 128) as nat);
    }
    let pw = p + 128;
    let a = atanh_inv(3, pw)?;
    let two = BigFloatNumber::from_word(2, 64)?;
    let v = a.mul(&two, p, RoundingMode::NoRound)?;
    check_const_window(v, 0, 1)
}

/// The natural logarithm of ten, `3 * ln(2) + 2 * atanh(1/9)`, for
/// precisions beyond the table.
pub fn ln10_computed(p: usize) -> (r: Result<BigFloatNumber, Error>)
    requires
        64 <= p,
        p + 320 <= MAX_P,
        p % 64 == 0,
    ensures
        r matches Ok(f) ==> {
            &&& f.wf()
            &&& f.sp_prec() == p
            &&& !f.sp_is_zero()
            &&& f.sp_normalized()
            &&& f.sp_sign() == Sign::Pos
            &&& (2 <= f.sp_e() <= 3)
        },
        r matches Err(e) ==> e != Error::InvalidPrecision,
{
    proof {
        crate::defs::lemma_whole_words(p as nat);
        crate::defs::lemma_whole_words((p + 128) as nat);
    }
    let pw = p + 128;
    let l2 = ln2_computed(pw)?;
    let a9 = atanh_inv(9, pw)?;
    let three = BigFloatNumber::from_word(3, 64)?;
    let two = BigFloatNumber::from_word(2, 64)?;
    let t1 = l2.mul(&three, pw, RoundingMode::NoRound)?;
    let t2 = a9.mul(&two, pw, RoundingMode::NoRound)?;
    let v = t1.add(&t2, p, RoundingMode::NoRound)?;
    check_const_window(v, 2, 3)
}

/// The circle constant computed by Machin's formula,
/// `pi = 16*atan(1/5) - 4*atan(1/239)`, for precisions beyond the table.
/// The exponent window of the result is checked at run time; the true
/// constant always passes, and a failure surfaces as exhaustion.
pub fn pi_computed(p: usize) -> (r: Result<BigFloatNumber, Error>)
    requires
        64 <= p,
        p + 192 <= MAX_P,
        p % 64 == 0,
    ensures
        r matches Ok(f) ==> {
            &&& f.wf()
            &&& f.sp_prec() == p
            &&& !f.sp_is_zero()
            &&& f.sp_normalized()
            &&& f.sp_sign() == Sign::Pos
            &&& (2 <= f.sp_e() <= 3)
        },
        r matches Err(e) ==> e != Error::InvalidPrecision,
{
    proof {
        crate::defs::lemma_whole_words(p as nat);
        crate::defs::lemma_whole_words((p + 128) as nat);
    }
    let pw = p + 128;
    let a5 = atan_inv(5, pw)?;
    let a239 = atan_inv(239, pw)?;
    let sixteen = BigFloatNumber::from_word(16, 64)?;
    let four = BigFloatNumber::from_word(4, 64)?;
    let t1 = a5.mul(&sixteen, pw, RoundingMode::NoRound)?;
    let t2 = a239.mul(&four, pw, RoundingMode::NoRound)?;
    let v = t1.sub(&t2, p, RoundingMode::NoRound)?;
    check_const_window(v, 2, 3)
}

/// The constants cache. Fetches up to the table length round from the
/// fixed tables; wider requests for the circle constant are computed on
/// demand by Machin's formula.
pub struct Consts {}

/// Word count of a precision the cache serves.
proof fn lemma_cache_words(p: nat)
    requires
        1 <= p <= CONST_MAX_P,
    ensures
        1 <= spec_round_p(p) / 64 <= 62,
        64 * (spec_round_p(p) / 64) == spec_round_p(p),
{
    assert(spec_round_p(p) >= p) by (nonlinear_arith);
    assert(spec_round_p(p) < p + 64) by (nonlinear_arith);
    assert(spec_round_p(p) % 64 == 0) by (nonlinear_arith);
    assert(spec_round_p(p) <= CONST_MAX_P) by (nonlinear_arith)
        requires
            p <= CONST_MAX_P,
    ;
    assert(spec_round_p(p) / 64 >= 1 && spec_round_p(p) / 64 <= 62) by (nonlinear_arith)
        requires
            64 <= spec_round_p(p) <= CONST_MAX_P,
            spec_round_p(p) % 64 == 0,
    ;
    assert(64 * (spec_round_p(p) / 64) == spec_round_p(p)) by (nonlinear_arith)
        requires
            spec_round_p(p) % 64 == 0,
    ;
}

impl Consts {
    /// A fresh constants cache.
    pub fn new() -> (r: Result<Consts, Error>)
        ensures
            r is Ok,
    {
        Ok(Consts {})
    }

    /// The circle constant pi at precision `p`, rounded under `rm`.
    /// Requests beyond the table are computed on demand.
    pub fn pi(&mut self, p: usize, rm: RoundingMode) -> (r: Result<BigFloatNumber, Error>)
        ensures
            p == 0 <==> r == Result::<BigFloatNumber, Error>::Err(Error::InvalidPrecision),
            p + 192 > MAX_P && p > 0 ==> r == Result::<BigFloatNumber, Error>::Err(
                Error::AllocationError,
            ),
            0 < p <= CONST_MAX_P ==> r is Ok,
            r matches Ok(f) ==> {
                &&& f.wf()
                &&& f.sp_prec() == spec_round_p(p as nat)
                &&& !f.sp_is_zero()
                &&& f.sp_normalized()
                &&& f.sp_sign() == Sign::Pos
                &&& (2 <= f.sp_e() <= 3)
            },
    {
        if p == 0 {
            return Err(Error::InvalidPrecision);
        }
        if p > MAX_P - 192 {
            return Err(Error::AllocationError);
        }
        if p > CONST_MAX_P {
            return pi_computed(round_p(p));
        }
        let k = round_p(p) / 64;
        proof {
            lemma_cache_words(p as nat);
        }
        let w = pi_table();
        proof {
            lemma_mval_bound(w@);
            crate::util::lemma_log2_window(mval(w@), 4095);
        }
        let r = BigFloatNumber::from_magnitude(w, -4094, Sign::Pos, true, k, rm);
        match r {
            Ok(f) => Ok(f),
            Err(_) => Err(Error::AllocationError),
        }
    }

    /// Euler's number e at precision `p`, rounded under `rm`.
    pub fn euler(&mut self, p: usize, rm: RoundingMode) -> (r: Result<BigFloatNumber, Error>)
        ensures
            p == 0 <==> r == Result::<BigFloatNumber, Error>::Err(Error::InvalidPrecision),
            p > MAX_P - 192 && p > 0 ==> r == Result::<BigFloatNumber, Error>::Err(
                Error::AllocationError,
            ),
            0 < p <= CONST_MAX_P ==> r is Ok,
            r matches Ok(f) ==> {
                &&& f.wf()
                &&& f.sp_prec() == spec_round_p(p as nat)
                &&& !f.sp_is_zero()
                &&& f.sp_normalized()
                &&& f.sp_sign() == Sign::Pos
                &&& (2 <= f.sp_e() <= 3)
            },
    {
        if p == 0 {
            return Err(Error::InvalidPrecision);
        }
        if p > MAX_P - 192 {
            return Err(Error::AllocationError);
        }
        if p > CONST_MAX_P {
            return euler_computed(round_p(p));
        }
        let k = round_p(p) / 64;
        proof {
            lemma_cache_words(p as nat);
        }
        let w = euler_table();
        proof {
            lemma_mval_bound(w@);
            crate::util::lemma_log2_window(mval(w@), 4095);
        }
        let r = BigFloatNumber::from_magnitude(w, -4094, Sign::Pos, true, k, rm);
        match r {
            Ok(f) => Ok(f),
            Err(_) => Err(Error::AllocationError),
        }
    }

    /// The natural logarithm of two at precision `p`, rounded under `rm`.
    pub fn ln2(&mut self, p: usize, rm: RoundingMode) -> (r: Result<BigFloatNumber, Error>)
        ensures
            p == 0 <==> r == Result::<BigFloatNumber, Error>::Err(Error::InvalidPrecision),
            p > MAX_P - 192 && p > 0 ==> r == Result::<BigFloatNumber, Error>::Err(
                Error::AllocationError,
            ),
            0 < p <= CONST_MAX_P ==> r is Ok,
            r matches Ok(f) ==> {
                &&& f.wf()
                &&& f.sp_prec() == spec_round_p(p as nat)
                &&& !f.sp_is_zero()
                &&& f.sp_normalized()
                &&& f.sp_sign() == Sign::Pos
                &&& (0 <= f.sp_e() <= 1)
            },
    {
        if p == 0 {
            return Err(Error::InvalidPrecision);
        }
        if p > MAX_P - 192 {
            return Err(Error::AllocationError);
        }
        if p > CONST_MAX_P {
            return ln2_computed(round_p(p));
        }
        let k = round_p(p) / 64;
        proof {
            lemma_cache_words(p as nat);
        }
        let w = ln2_table();
        proof {
            lemma_mval_bound(w@);
            crate::util::lemma_log2_window(mval(w@), 4095);
        }
        let r = BigFloatNumber::from_magnitude(w, -4096, Sign::Pos, true, k, rm);
        match r {
            Ok(f) => Ok(f),
            Err(_) => Err(Error::AllocationError),
        }
    }

    /// The natural logarithm of ten at precision `p`, rounded under `rm`.
    pub fn ln10(&mut self, p: usize, rm: RoundingMode) -> (r: Result<BigFloatNumber, Error>)
        ensures
            p == 0 <==> r == Result::<BigFloatNumber, Error>::Err(Error::InvalidPrecision),
            p > MAX_P - 320 && p > 0 ==> r == Result::<BigFloatNumber, Error>::Err(
                Error::AllocationError,
            ),
            0 < p <= CONST_MAX_P ==> r is Ok,
            r matches Ok(f) ==> {
                &&& f.wf()
                &&& f.sp_prec() == spec_round_p(p as nat)
                &&& !f.sp_is_zero()
                &&& f.sp_normalized()
                &&& f.sp_sign() == Sign::Pos
                &&& (2 <= f.sp_e() <= 3)
            },
    {
        if p == 0 {
            return Err(Error::InvalidPrecision);
        }
        if p > MAX_P - 320 {
            return Err(Error::AllocationError);
        }
        if p > CONST_MAX_P {
            return ln10_computed(round_p(p));
        }
        let k = round_p(p) / 64;
        proof {
            lemma_cache_words(p as nat);
        }
        let w = ln10_table();
        proof {
            lemma_mval_bound(w@);
            crate::util::lemma_log2_window(mval(w@), 4095);
        }
        let r = BigFloatNumber::from_magnitude(w, -4094, Sign::Pos, true, k, rm);
        match r {
            Ok(f) => Ok(f),
            Err(_) => Err(Error::AllocationError),
        }
    }

}

} // verus!
