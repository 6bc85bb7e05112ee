//! Single-precision numbers, held as their bit patterns.

pub mod arith;
pub mod laws;
pub mod model;
pub mod order;
pub mod pack;
pub mod root;

use crate::single::model::{magnitude, INFINITY_BITS};
use vstd::prelude::*;

verus! {

/// A single-precision floating-point number (IEEE 754 binary32), held as its
/// bit pattern: the sign in the top bit, eight bits of exponent, and the
/// remaining bits of the significand.
#[derive(Clone, Copy, Debug)]
pub struct Single {
    /// The bit pattern.
    pub bits: u32,
}

/// The pattern of the quiet number that stands for an invalid operation.
pub const NAN_BITS: u32 = 0x7fc0_0000;

/// The sign bit.
pub const SIGN_BIT: u32 = 0x8000_0000;

/// The pattern of one.
pub const ONE_BITS: u32 = 0x3f80_0000;

impl Single {
    /// Whether the sign bit is set.
    pub open spec fn spec_is_negative(self) -> bool {
        self.bits >= SIGN_BIT
    }

    /// The pattern without its sign.
    pub open spec fn pattern(self) -> nat {
        (self.bits % SIGN_BIT) as nat
    }

    pub open spec fn spec_is_nan(self) -> bool {
        self.pattern() > INFINITY_BITS
    }

    pub open spec fn spec_is_infinite(self) -> bool {
        self.pattern() == INFINITY_BITS
    }

    pub open spec fn spec_is_finite(self) -> bool {
        self.pattern() < INFINITY_BITS
    }

    pub open spec fn spec_is_zero(self) -> bool {
        self.pattern() == 0
    }

    /// The value of a finite number, in units of two to the power of minus 149.
    pub open spec fn value(self) -> int {
        if self.spec_is_negative() {
            -(magnitude(self.pattern()) as int)
        } else {
            magnitude(self.pattern()) as int
        }
    }

    /// The number with the given sign and pattern.
    pub open spec fn spec_with_sign(negative: bool, pattern: nat) -> Single {
        Single {
            bits: (pattern + if negative {
                SIGN_BIT as nat
            } else {
                0
            }) as u32,
        }
    }

    /// The number with the opposite sign.
    pub open spec fn spec_negated(self) -> Single {
        Single::spec_with_sign(!self.spec_is_negative(), self.pattern())
    }

    /// The number without its sign.
    pub open spec fn spec_abs(self) -> Single {
        Single::spec_with_sign(false, self.pattern())
    }

    pub open spec fn spec_zero() -> Single {
        Single { bits: 0 }
    }

    pub open spec fn spec_one() -> Single {
        Single { bits: ONE_BITS }
    }

    /// Positive zero.
    #[verifier::when_used_as_spec(spec_zero)]
    pub fn zero() -> (x: Single)
        ensures
            x == Single::zero(),
    {
        Single { bits: 0 }
    }

    /// One.
    #[verifier::when_used_as_spec(spec_one)]
    pub fn one() -> (x: Single)
        ensures
            x == Single::one(),
    {
        Single { bits: ONE_BITS }
    }

    /// The number with the bit pattern `bits`.
    pub fn from_bits(bits: u32) -> (x: Single)
        ensures
            x.bits == bits,
    {
        Single { bits }
    }

    /// The bit pattern of this number.
    pub fn to_bits(self) -> (bits: u32)
        ensures
            bits == self.bits,
    {
        self.bits
    }

    /// Whether the sign bit is set, as it is on a negative zero too.
    #[verifier::when_used_as_spec(spec_is_negative)]
    pub fn is_negative(self) -> (r: bool)
        ensures
            r == self.is_negative(),
    {
        self.bits >= SIGN_BIT
    }

    /// Whether this is not a number.
    #[verifier::when_used_as_spec(spec_is_nan)]
    pub fn is_nan(self) -> (r: bool)
        ensures
            r == self.is_nan(),
    {
        self.bits % SIGN_BIT > INFINITY_BITS
    }

    /// Whether this is an infinity.
    #[verifier::when_used_as_spec(spec_is_infinite)]
    pub fn is_infinite(self) -> (r: bool)
        ensures
            r == self.is_infinite(),
    {
        self.bits % SIGN_BIT == INFINITY_BITS
    }

    /// Whether this is neither an infinity nor not a number.
    #[verifier::when_used_as_spec(spec_is_finite)]
    pub fn is_finite(self) -> (r: bool)
        ensures
            r == self.is_finite(),
    {
        self.bits % SIGN_BIT < INFINITY_BITS
    }

    /// Whether this is a zero of either sign.
    #[verifier::when_used_as_spec(spec_is_zero)]
    pub fn is_zero(self) -> (r: bool)
        ensures
            r == self.is_zero(),
    {
        self.bits % SIGN_BIT == 0
    }

    /// The number with the given sign and pattern.
    pub(crate) fn with_sign(negative: bool, pattern: u32) -> (x: Single)
        requires
            pattern < SIGN_BIT,
        ensures
            x == Single::spec_with_sign(negative, pattern as nat),
            x.pattern() == pattern,
            x.is_negative() == negative,
    {
        if negative {
            Single { bits: pattern + SIGN_BIT }
        } else {
            Single { bits: pattern }
        }
    }

    /// The number with the opposite sign.
    #[verifier::when_used_as_spec(spec_negated)]
    pub fn negated(self) -> (x: Single)
        ensures
            x == self.negated(),
            x.pattern() == self.pattern(),
            x.is_negative() == !self.is_negative(),
    {
        let pattern: u32 = self.bits % SIGN_BIT;
        Single::with_sign(!self.is_negative(), pattern)
    }

    /// The number without its sign.
    #[verifier::when_used_as_spec(spec_abs)]
    pub fn abs(self) -> (x: Single)
        ensures
            x == self.abs(),
            x.pattern() == self.pattern(),
            !x.is_negative(),
    {
        let pattern: u32 = self.bits % SIGN_BIT;
        Single::with_sign(false, pattern)
    }
}

} // verus!
