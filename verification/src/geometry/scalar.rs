//! Single-precision numbers as bit patterns.
//!
//! Coordinates are IEEE 754 single-precision numbers. The world stores each
//! as the 32 bits of its encoding and never computes with them; it only
//! compares them, which the encoding allows without decoding: apart from the
//! sign bit, a larger bit pattern is a larger magnitude.

use vstd::prelude::*;

verus! {

/// The bit pattern of positive zero.
pub const POSITIVE_ZERO: u32 = 0;

/// The sign bit; alone, the bit pattern of negative zero.
pub const SIGN_BIT: u32 = 0x8000_0000;

/// The bit pattern of positive infinity; a larger magnitude is not a number.
pub const INFINITY: u32 = 0x7f80_0000;

/// A single-precision number, by its bit pattern.
#[derive(Clone, Copy, Debug, PartialEq, Eq, Structural)]
pub struct Scalar {
    pub bits: u32,
}

impl Scalar {
    /// The bit pattern without the sign bit.
    pub open spec fn magnitude(self) -> int {
        if self.bits >= SIGN_BIT {
            self.bits - SIGN_BIT
        } else {
            self.bits as int
        }
    }

    /// Whether the bit pattern encodes no number.
    pub open spec fn nan(self) -> bool {
        self.magnitude() > INFINITY
    }

    /// An integer that is ordered as the encoded numbers are: the magnitude,
    /// negated under a sign bit. Both zeros have rank 0.
    pub open spec fn rank(self) -> int {
        if self.bits >= SIGN_BIT {
            -self.magnitude()
        } else {
            self.magnitude()
        }
    }

    /// The encoded number is less than the other one. Nothing is less than,
    /// or has less than it, what is not a number.
    pub open spec fn less(self, other: Scalar) -> bool {
        !self.nan() && !other.nan() && self.rank() < other.rank()
    }

    /// The encoded numbers are equal. What is not a number equals nothing,
    /// and the two zeros equal each other.
    pub open spec fn same(self, other: Scalar) -> bool {
        !self.nan() && !other.nan() && self.rank() == other.rank()
    }

    pub fn from_bits(bits: u32) -> (scalar: Scalar)
        ensures
            scalar.bits == bits,
    {
        Scalar { bits }
    }

    pub fn to_bits(self) -> (bits: u32)
        ensures
            bits == self.bits,
    {
        self.bits
    }

    pub fn zero() -> (scalar: Scalar)
        ensures
            scalar.bits == POSITIVE_ZERO,
    {
        Scalar { bits: POSITIVE_ZERO }
    }

    fn rank_of(self) -> (rank: i64)
        ensures
            rank == self.rank(),
    {
        if self.bits >= SIGN_BIT {
            let magnitude: u32 = self.bits - SIGN_BIT;
            -(magnitude as i64)
        } else {
            self.bits as i64
        }
    }

    pub fn is_nan(self) -> (nan: bool)
        ensures
            nan == self.nan(),
    {
        if self.bits >= SIGN_BIT {
            self.bits - SIGN_BIT > INFINITY
        } else {
            self.bits > INFINITY
        }
    }

    pub fn is_zero(self) -> (zero: bool)
        ensures
            zero == (self.bits == POSITIVE_ZERO || self.bits == SIGN_BIT),
            zero == self.same(Scalar { bits: POSITIVE_ZERO }),
    {
        self.bits == POSITIVE_ZERO || self.bits == SIGN_BIT
    }

    pub fn is_less(self, other: Scalar) -> (less: bool)
        ensures
            less == self.less(other),
    {
        !self.is_nan() && !other.is_nan() && self.rank_of() < other.rank_of()
    }

    pub fn is_same(self, other: Scalar) -> (same: bool)
        ensures
            same == self.same(other),
    {
        !self.is_nan() && !other.is_nan() && self.rank_of() == other.rank_of()
    }

    /// Among numbers, `less` is a strict order, and of two numbers that are
    /// not `same` one is `less` than the other.
    pub proof fn lemma_order(a: Scalar, b: Scalar, c: Scalar)
        ensures
            !a.less(a),
            a.less(b) && b.less(c) ==> a.less(c),
            a.less(b) ==> !b.less(a) && !a.same(b),
            !a.nan() && !b.nan() ==> a.less(b) || b.less(a) || a.same(b),
    {
    }
}

} // verus!
