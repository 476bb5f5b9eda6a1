//! The IEEE 754 binary64 encoding, as far as ordering needs it.
//!
//! A double is handled here by its 64-bit encoding: one sign bit, eleven
//! exponent bits and fifty-two fraction bits, from the most significant bit
//! down. Everything in this module is integer arithmetic on that encoding.

use vstd::prelude::*;

verus! {

/// The encoding with only the sign bit set (that of `-0.0`).
pub const SIGN_BIT: u64 = 0x8000_0000_0000_0000;

/// The encoding of positive infinity: all exponent bits set, fraction zero.
pub const INFINITY_BITS: u64 = 0x7ff0_0000_0000_0000;

/// A double, held as its encoding.
///
/// Equality on this type is equality of encodings: `0.0` and `-0.0` are
/// different values of it, although they occupy the same place in the order
/// that [`Binary64::order_key`] gives.
#[derive(Clone, Copy, Debug, PartialEq, Eq, Structural)]
pub struct Binary64 {
    pub bits: u64,
}

impl Binary64 {
    /// Whether the sign bit is set.
    pub open spec fn sign_negative(self) -> bool {
        self.bits >= SIGN_BIT
    }

    /// The encoding with the sign bit cleared.
    pub open spec fn magnitude(self) -> int {
        if self.bits >= SIGN_BIT {
            self.bits - SIGN_BIT
        } else {
            self.bits as int
        }
    }

    /// A NaN has all exponent bits set and a fraction that is not zero, so
    /// its magnitude lies above that of infinity.
    pub open spec fn spec_is_nan(self) -> bool {
        self.magnitude() > INFINITY_BITS
    }

    /// The place of the value in the numeric order: the magnitude, negated
    /// where the sign bit is set. Among encodings that are no NaN, a smaller
    /// key is a smaller number and equal keys are equal numbers; both zeros
    /// have key 0.
    pub open spec fn order_key(self) -> int {
        if self.sign_negative() {
            -self.magnitude()
        } else {
            self.magnitude()
        }
    }

    pub fn from_bits(bits: u64) -> (x: Self)
        ensures
            x.bits == bits,
    {
        Binary64 { bits }
    }

    pub fn to_bits(self) -> (bits: u64)
        ensures
            bits == self.bits,
    {
        self.bits
    }

    #[verifier::when_used_as_spec(spec_is_nan)]
    pub fn is_nan(self) -> (b: bool)
        ensures
            b == self.spec_is_nan(),
    {
        if self.bits >= SIGN_BIT {
            self.bits - SIGN_BIT > INFINITY_BITS
        } else {
            self.bits > INFINITY_BITS
        }
    }

    /// The order key as a machine integer.
    pub fn key(self) -> (k: i64)
        ensures
            k == self.order_key(),
    {
        if self.bits >= SIGN_BIT {
            let magnitude: u64 = self.bits - SIGN_BIT;
            -(magnitude as i64)
        } else {
            self.bits as i64
        }
    }
}

} // verus!
