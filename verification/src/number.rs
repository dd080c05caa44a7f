//! Numbers as IEEE 754 binary64 bit patterns, and the order the format gives them.
//!
//! A [`Number`] carries the 64 bits of a double-precision value: one sign bit,
//! then 63 bits of magnitude (exponent and fraction). Among the values that are
//! not NaN, comparing two of them is comparing two signed integers, their
//! [`Number::rank`]s; a NaN is neither below, above nor equal to anything.

use vstd::prelude::*;

verus! {

/// The sign bit of a binary64 bit pattern.
pub const SIGN_MASK: u64 = 0x8000_0000_0000_0000;

/// The exponent and fraction bits of a binary64 bit pattern.
pub const MAGNITUDE_MASK: u64 = 0x7fff_ffff_ffff_ffff;

/// The magnitude of the two infinities; every larger magnitude is a NaN.
pub const INFINITY_MAGNITUDE: u64 = 0x7ff0_0000_0000_0000;

/// A double-precision number, held as its bit pattern.
///
/// `==` on `Number` compares bit patterns; [`Number::equals`] compares values.
#[derive(Clone, Copy, Debug, PartialEq, Eq, Structural)]
pub struct Number {
    pub bits: u64,
}

impl Number {
    /// The bit pattern without its sign bit.
    pub open spec fn magnitude(self) -> u64 {
        self.bits & MAGNITUDE_MASK
    }

    /// Whether the sign bit is set.
    pub open spec fn negative(self) -> bool {
        self.bits & SIGN_MASK != 0
    }

    /// Whether the pattern encodes a NaN.
    pub open spec fn nan(self) -> bool {
        self.magnitude() > INFINITY_MAGNITUDE
    }

    /// The signed integer by which values that are not NaN are ordered.
    /// Both zeros have rank 0.
    pub open spec fn rank(self) -> int {
        if self.negative() {
            -(self.magnitude() as int)
        } else {
            self.magnitude() as int
        }
    }

    /// `self < other` as the format defines it.
    pub open spec fn below(self, other: Number) -> bool {
        !self.nan() && !other.nan() && self.rank() < other.rank()
    }

    /// `self > other` as the format defines it.
    pub open spec fn above(self, other: Number) -> bool {
        other.below(self)
    }

    /// `self == other` as the format defines it: NaN equals nothing, and the
    /// two zeros equal each other.
    pub open spec fn alike(self, other: Number) -> bool {
        !self.nan() && !other.nan() && self.rank() == other.rank()
    }

    /// The number with the given bit pattern.
    pub fn from_bits(bits: u64) -> (r: Number)
        ensures
            r.bits == bits,
    {
        Number { bits }
    }

    /// The bit pattern of the number.
    pub fn to_bits(self) -> (r: u64)
        ensures
            r == self.bits,
    {
        self.bits
    }

    /// Whether the number is a NaN.
    pub fn is_nan(self) -> (r: bool)
        ensures
            r == self.nan(),
    {
        (self.bits & MAGNITUDE_MASK) > INFINITY_MAGNITUDE
    }

    /// The rank as a machine integer.
    pub fn sort_key(self) -> (k: i64)
        ensures
            k == self.rank(),
    {
        let bits: u64 = self.bits;
        let m: u64 = bits & MAGNITUDE_MASK;
        assert(m <= 0x7fff_ffff_ffff_ffff) by (bit_vector)
            requires
                m == bits & 0x7fff_ffff_ffff_ffff,
        ;
        let k: i64 = m as i64;
        if self.bits & SIGN_MASK != 0 {
            -k
        } else {
            k
        }
    }

    /// Whether `self` is less than `other`. False if either is a NaN.
    pub fn lt(self, other: Number) -> (r: bool)
        ensures
            r == self.below(other),
    {
        !self.is_nan() && !other.is_nan() && self.sort_key() < other.sort_key()
    }

    /// Whether `self` is greater than `other`. False if either is a NaN.
    pub fn gt(self, other: Number) -> (r: bool)
        ensures
            r == self.above(other),
    {
        other.lt(self)
    }

    /// Whether `self` equals `other` in value. False if either is a NaN.
    pub fn equals(self, other: Number) -> (r: bool)
        ensures
            r == self.alike(other),
    {
        !self.is_nan() && !other.is_nan() && self.sort_key() == other.sort_key()
    }
}

} // verus!
