//! Basic definitions: sign, rounding policy, error taxonomy, exponent range
//! and precision limits.

use vstd::prelude::*;

verus! {

/// Size of one mantissa word in bits.
pub const WORD_BIT_SIZE: usize = 64;

/// Largest number of mantissa words a value may hold. This is the cap that
/// stands for available memory: any request to grow a mantissa beyond it
/// fails with `Error::AllocationError`.
pub const MAX_WORDS: usize = 4096;

/// Largest usable precision in bits.
pub const MAX_P: usize = 262144;

/// Exponent type of a floating-point value.
pub type Exponent = i32;

/// Smallest allowed exponent. A nonzero value whose exponent is pinned here
/// may be subnormal (leading zero bits in the mantissa).
pub const EXPONENT_MIN: Exponent = -2147483647;

/// Largest allowed exponent.
pub const EXPONENT_MAX: Exponent = 2147483647;

/// Sign of a floating-point value.
#[derive(Clone, Copy, PartialEq, Eq, Structural, Debug)]
pub enum Sign {
    Neg,
    Pos,
}

impl Sign {
    /// The opposite sign.
    pub fn invert(self) -> (r: Sign)
        ensures
            r == self.spec_invert(),
    {
        match self {
            Sign::Neg => Sign::Pos,
            Sign::Pos => Sign::Neg,
        }
    }

    /// The opposite sign, in specifications.
    pub open spec fn spec_invert(self) -> Sign {
        match self {
            Sign::Neg => Sign::Pos,
            Sign::Pos => Sign::Neg,
        }
    }
}

/// Rounding policy: the IEEE directions, round-to-odd, and a no-op sentinel
/// meaning "truncate, the caller will re-round later".
#[derive(Clone, Copy, PartialEq, Eq, Structural, Debug)]
pub enum RoundingMode {
    /// Truncate the discarded bits; the caller will re-round later.
    NoRound,
    /// Round to nearest, ties to even.
    ToEven,
    /// Round to odd (sets the lowest kept bit when anything is discarded).
    ToOdd,
    /// Round toward zero.
    ToZero,
    /// Round away from zero.
    FromZero,
    /// Round toward positive infinity.
    Up,
    /// Round toward negative infinity.
    Down,
}

/// Error taxonomy. Every failing operation of the engine returns one of
/// these; no error is ever swallowed or retried.
#[derive(Clone, Copy, PartialEq, Eq, Structural, Debug)]
pub enum Error {
    /// The true result's exponent exceeds the representable range; carries
    /// the sign of the lost value.
    ExponentOverflow(Sign),
    /// Growing a mantissa or cache would exceed the memory cap.
    AllocationError,
    /// The caller requested a precision of zero or one beyond the usable
    /// range; produced only at a driver's entry.
    InvalidPrecision,
    /// Division by a zero value.
    DivisionByZero,
}

/// Precision in bits rounded upward to a whole number of words.
pub open spec fn spec_round_p(p: nat) -> nat {
    ((p + 63) / 64) * 64
}

/// A whole-word precision rounds to itself.
pub proof fn lemma_whole_words(p: nat)
    requires
        p % 64 == 0,
        p <= MAX_P,
    ensures
        spec_round_p(p) == p,
{
    assert(((p + 63) / 64) * 64 == p) by (nonlinear_arith)
        requires
            p % 64 == 0,
    ;
}

/// Rounds a requested precision upward to a whole number of words.
pub fn round_p(p: usize) -> (r: usize)
    requires
        p <= MAX_P,
    ensures
        r == spec_round_p(p as nat),
        r % 64 == 0,
        p <= r <= MAX_P,
        p > 0 ==> r >= 64,
        p % 64 == 0 ==> r == p,
{
    proof {
        assert(((p + 63) / 64) * 64 < p + 64) by (nonlinear_arith);
        assert(((p + 63) / 64) * 64 >= p) by (nonlinear_arith);
        assert(((p + 63) / 64) * 64 % 64 == 0) by (nonlinear_arith);
        assert(p % 64 == 0 ==> ((p + 63) / 64) * 64 == p) by (nonlinear_arith);
        assert(p <= MAX_P ==> ((p + 63) / 64) * 64 <= MAX_P) by (nonlinear_arith);
    }
    ((p + 63) / 64) * 64
}

} // verus!
