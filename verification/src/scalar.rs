//! Single-precision numbers by their encoding.
//!
//! The solver's arithmetic is done outside this crate; what the solver
//! *decides* depends only on how numbers compare. A [`Scalar`] holds an
//! IEEE 754 binary32 number as its 32-bit pattern, and this module states
//! and implements the comparisons of that standard on the pattern alone.
//!
//! The model is the standard's: a pattern is a sign bit above a 31-bit
//! magnitude; magnitudes above that of infinity are not numbers; among
//! numbers, a larger magnitude is further from zero, and the two zeros are
//! equal.

use vstd::prelude::*;

verus! {

/// The sign bit of an encoding.
pub const SIGN_BIT: u32 = 0x8000_0000;

/// The encoding of positive infinity. Larger magnitudes are not numbers.
pub const INFINITY_BITS: u32 = 0x7f80_0000;

/// A binary32 number, held by its encoding.
#[derive(Clone, Copy, Debug)]
pub struct Scalar {
    pub bits: u32,
}

impl Scalar {
    /// The sign bit is set.
    pub open spec fn sign(self) -> bool {
        self.bits >= SIGN_BIT
    }

    /// The encoding without its sign bit.
    pub open spec fn magnitude(self) -> int {
        if self.sign() {
            self.bits - SIGN_BIT
        } else {
            self.bits as int
        }
    }

    /// The encoding is not a number.
    pub open spec fn nan(self) -> bool {
        self.magnitude() > INFINITY_BITS
    }

    /// The encoding is a number other than an infinity.
    pub open spec fn finite(self) -> bool {
        self.magnitude() < INFINITY_BITS
    }

    /// Where a number stands among all numbers: `a` is below `b` exactly
    /// when `a.ordinal() < b.ordinal()`. Both zeros stand at 0.
    pub open spec fn ordinal(self) -> int {
        if self.sign() {
            -self.magnitude()
        } else {
            self.magnitude()
        }
    }

    /// Where an encoding stands in the total order of the standard, in which
    /// negative zero is below positive zero and encodings that are not
    /// numbers lie beyond the infinities on the side of their sign.
    pub open spec fn total_rank(self) -> int {
        if self.sign() {
            -self.magnitude() - 1
        } else {
            self.magnitude()
        }
    }

    /// `self < other` as numbers; false when either is not a number.
    pub open spec fn below(self, other: Scalar) -> bool {
        !self.nan() && !other.nan() && self.ordinal() < other.ordinal()
    }

    /// `self <= other` as numbers; false when either is not a number.
    pub open spec fn at_most(self, other: Scalar) -> bool {
        !self.nan() && !other.nan() && self.ordinal() <= other.ordinal()
    }

    /// A finite number that is not below zero: what a time difference or a
    /// cost may be. Negative zero qualifies, as it equals zero.
    pub open spec fn finite_non_negative(self) -> bool {
        self.finite() && self.ordinal() >= 0
    }

    /// The scalar with the given encoding.
    pub fn from_bits(bits: u32) -> (s: Scalar)
        ensures
            s.bits == bits,
    {
        Scalar { bits }
    }

    /// The encoding.
    pub fn to_bits(self) -> (bits: u32)
        ensures
            bits == self.bits,
    {
        self.bits
    }

    /// The encoding without its sign bit.
    fn abs_bits(self) -> (m: u32)
        ensures
            m == self.magnitude(),
            m < SIGN_BIT,
    {
        if self.bits >= SIGN_BIT {
            self.bits - SIGN_BIT
        } else {
            self.bits
        }
    }

    /// Whether the encoding is not a number.
    pub fn is_nan(self) -> (r: bool)
        ensures
            r == self.nan(),
    {
        self.abs_bits() > INFINITY_BITS
    }

    /// Whether the encoding is a number other than an infinity.
    pub fn is_finite(self) -> (r: bool)
        ensures
            r == self.finite(),
    {
        self.abs_bits() < INFINITY_BITS
    }

    /// Whether the encoding is a finite number not below zero.
    pub fn is_finite_non_negative(self) -> (r: bool)
        ensures
            r == self.finite_non_negative(),
    {
        let m: u32 = self.abs_bits();
        m < INFINITY_BITS && (self.bits < SIGN_BIT || m == 0)
    }

    /// The place of the encoding in the total order, as a machine integer.
    pub fn total_key(self) -> (k: i64)
        ensures
            k == self.total_rank(),
            -0x8000_0000 <= k < 0x8000_0000,
    {
        let m: i64 = self.abs_bits() as i64;
        if self.bits >= SIGN_BIT {
            -m - 1
        } else {
            m
        }
    }

    /// The place of a number among all numbers, as a machine integer.
    fn ordinal_key(self) -> (k: i64)
        ensures
            k == self.ordinal(),
    {
        let m: i64 = self.abs_bits() as i64;
        if self.bits >= SIGN_BIT {
            -m
        } else {
            m
        }
    }

    /// Whether `self < other` as numbers.
    pub fn lt(self, other: Scalar) -> (r: bool)
        ensures
            r == self.below(other),
    {
        !self.is_nan() && !other.is_nan() && self.ordinal_key() < other.ordinal_key()
    }

    /// Whether `self > other` as numbers.
    pub fn gt(self, other: Scalar) -> (r: bool)
        ensures
            r == other.below(self),
    {
        other.lt(self)
    }

    /// Whether `self <= other` as numbers.
    pub fn le(self, other: Scalar) -> (r: bool)
        ensures
            r == self.at_most(other),
    {
        !self.is_nan() && !other.is_nan() && self.ordinal_key() <= other.ordinal_key()
    }
}

/// `below` is a strict order: nothing is below itself, of two scalars at most
/// one is below the other, and what is below a second that is below a third
/// is below the third. Of two numbers, the first is at most the second
/// exactly when the second is not below the first.
pub proof fn lemma_below_is_a_strict_order(a: Scalar, b: Scalar, c: Scalar)
    ensures
        !a.below(a),
        a.below(b) ==> !b.below(a),
        a.below(b) && b.below(c) ==> a.below(c),
        !a.nan() && !b.nan() ==> (a.at_most(b) <==> !b.below(a)),
{
}

/// The total order tells any two encodings apart, and agrees with `below`
/// wherever `below` holds.
pub proof fn lemma_total_rank_refines_below(a: Scalar, b: Scalar)
    ensures
        a.total_rank() == b.total_rank() <==> a.bits == b.bits,
        a.below(b) ==> a.total_rank() < b.total_rank(),
{
}

} // verus!
