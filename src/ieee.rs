//! Double-precision values carried by their IEEE 754 bit pattern.
//!
//! The search computes its statistics in binary64 arithmetic; the library only
//! compares, orders and matches those results, which it does on the bits. For
//! every value that is not NaN the order of real values is the order of the
//! signed magnitude: the sign bit, then the remaining 63 bits read as an
//! unsigned integer (exponent above mantissa). Both zeros have magnitude 0.
use vstd::prelude::*;

verus! {

/// The sign bit of a binary64 pattern.
pub const SIGN_BIT: u64 = 0x8000_0000_0000_0000;

/// Exponent all ones and mantissa zero: the magnitude of an infinity.
pub const INFINITY_MAGNITUDE: u64 = 0x7ff0_0000_0000_0000;

/// A binary64 value, held as its bit pattern.
#[derive(Debug, Clone, Copy, PartialEq, Eq, Structural)]
pub struct Binary64 {
    pub bits: u64,
}

impl Binary64 {
    /// The 63 bits below the sign.
    pub open spec fn magnitude(self) -> nat {
        (self.bits % SIGN_BIT) as nat
    }

    pub open spec fn negative(self) -> bool {
        self.bits >= SIGN_BIT
    }

    /// Exponent all ones and a mantissa other than zero.
    pub open spec fn spec_is_nan(self) -> bool {
        self.magnitude() > INFINITY_MAGNITUDE
    }

    /// Position of the value on the real line, for values that are not NaN:
    /// `a` is below `b` exactly when `a.rank() < b.rank()`, and equal to it
    /// exactly when the ranks are equal.
    pub open spec fn rank(self) -> int {
        if self.negative() {
            -(self.magnitude() as int)
        } else {
            self.magnitude() as int
        }
    }

    /// Equality as ordered keys compare: all NaNs are one key, both zeros are
    /// one key, any other value is equal to itself alone.
    pub open spec fn same_key(self, other: Binary64) -> bool {
        if self.spec_is_nan() {
            other.spec_is_nan()
        } else {
            !other.spec_is_nan() && self.rank() == other.rank()
        }
    }

    pub fn from_bits(bits: u64) -> (r: Binary64)
        ensures
            r.bits == bits,
    {
        Binary64 { bits }
    }

    pub fn to_bits(self) -> (r: u64)
        ensures
            r == self.bits,
    {
        self.bits
    }

    fn magnitude_of(self) -> (r: u64)
        ensures
            r == self.magnitude(),
    {
        if self.bits >= SIGN_BIT {
            self.bits - SIGN_BIT
        } else {
            self.bits
        }
    }

    pub fn is_nan(self) -> (r: bool)
        ensures
            r == self.spec_is_nan(),
    {
        self.magnitude_of() > INFINITY_MAGNITUDE
    }

    /// Whether `self` stands strictly below `other` on the real line.
    pub fn rank_below(self, other: Binary64) -> (r: bool)
        ensures
            r == (self.rank() < other.rank()),
    {
        let a = self.magnitude_of();
        let b = other.magnitude_of();
        let na = self.bits >= SIGN_BIT;
        let nb = other.bits >= SIGN_BIT;
        if na && nb {
            b < a
        } else if na {
            !(a == 0 && b == 0)
        } else if nb {
            false
        } else {
            a < b
        }
    }

    pub fn key_eq(self, other: Binary64) -> (r: bool)
        ensures
            r == self.same_key(other),
    {
        if self.is_nan() {
            other.is_nan()
        } else {
            !other.is_nan() && !self.rank_below(other) && !other.rank_below(self)
        }
    }
}

} // verus!
