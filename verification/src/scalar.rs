//! Real numbers held by their IEEE 754 binary64 encoding.
//!
//! Coordinates and ray times are double-precision numbers. The library keeps
//! each one as its 64-bit encoding and states the comparisons that it makes on
//! them (IEEE `<`, `<=`, and the total order used for sorting) over that
//! encoding, so that the ordering logic can be proved while the arithmetic
//! stays with the caller.

use vstd::prelude::*;

verus! {

/// The sign bit; encodings at or above it are negative (including `-0.0`).
pub const SIGN_BIT: u64 = 0x8000_0000_0000_0000u64;

/// Encoding of positive infinity; encodings of larger magnitude are NaNs.
pub const INFINITY_BITS: u64 = 0x7ff0_0000_0000_0000u64;

/// Encoding of negative infinity.
pub const NEG_INFINITY_BITS: u64 = 0xfff0_0000_0000_0000u64;

/// A double-precision real number, held as its IEEE 754 binary64 encoding.
#[derive(Clone, Copy, Debug, PartialEq, Eq, Structural)]
pub struct Scalar {
    /// The 64-bit encoding: sign bit, 11 exponent bits, 52 fraction bits.
    pub bits: u64,
}

impl Scalar {
    /// The encoding without its sign bit.
    pub open spec fn magnitude(self) -> int {
        if self.bits < SIGN_BIT {
            self.bits as int
        } else {
            self.bits - SIGN_BIT
        }
    }

    /// Whether the sign bit is set.
    pub open spec fn is_negative_spec(self) -> bool {
        self.bits >= SIGN_BIT
    }

    /// Whether this is a NaN: all exponent bits set and a nonzero fraction.
    pub open spec fn is_nan_spec(self) -> bool {
        self.magnitude() > INFINITY_BITS
    }

    /// Whether this is `+0.0` or `-0.0`.
    pub open spec fn is_zero_spec(self) -> bool {
        self.magnitude() == 0
    }

    /// The position of this value in IEEE 754 `totalOrder` (the order of
    /// `f64::total_cmp`): negative encodings count down from `-1`, positive
    /// ones count up from `0`.
    pub open spec fn order_key(self) -> int {
        if self.bits < SIGN_BIT {
            self.bits as int
        } else {
            (SIGN_BIT - 1) - self.bits
        }
    }

    /// Whether this is neither a NaN nor `-0.0`: on such values IEEE comparison
    /// and the total order agree.
    pub open spec fn is_plain(self) -> bool {
        !self.is_nan_spec() && !(self.is_zero_spec() && self.is_negative_spec())
    }

    /// IEEE 754 `<`: false when either side is NaN, and the two zeros are equal.
    pub open spec fn less_than(self, other: Scalar) -> bool {
        &&& !self.is_nan_spec()
        &&& !other.is_nan_spec()
        &&& !(self.is_zero_spec() && other.is_zero_spec())
        &&& self.order_key() < other.order_key()
    }

    /// IEEE 754 `<=`: false when either side is NaN, and the two zeros are equal.
    pub open spec fn at_most(self, other: Scalar) -> bool {
        &&& !self.is_nan_spec()
        &&& !other.is_nan_spec()
        &&& (self.order_key() <= other.order_key() || (self.is_zero_spec()
            && other.is_zero_spec()))
    }

    /// The value with the opposite sign bit, which is what IEEE negation gives.
    pub open spec fn negated_spec(self) -> Scalar {
        if self.bits < SIGN_BIT {
            Scalar { bits: (self.bits + SIGN_BIT) as u64 }
        } else {
            Scalar { bits: (self.bits - SIGN_BIT) as u64 }
        }
    }

    /// Wraps an encoding.
    pub fn from_bits(bits: u64) -> (r: Scalar)
        ensures
            r.bits == bits,
    {
        Scalar { bits }
    }

    /// Returns the encoding.
    pub fn to_bits(&self) -> (r: u64)
        ensures
            r == self.bits,
    {
        self.bits
    }

    /// Positive zero.
    pub fn zero() -> (r: Scalar)
        ensures
            r.bits == 0,
            r.is_zero_spec(),
            !r.is_negative_spec(),
    {
        Scalar { bits: 0 }
    }

    /// Positive infinity.
    pub fn infinity() -> (r: Scalar)
        ensures
            r.bits == INFINITY_BITS,
    {
        Scalar { bits: INFINITY_BITS }
    }

    /// Negative infinity.
    pub fn neg_infinity() -> (r: Scalar)
        ensures
            r.bits == NEG_INFINITY_BITS,
    {
        Scalar { bits: NEG_INFINITY_BITS }
    }

    /// Whether this value is a NaN.
    pub fn is_nan(&self) -> (r: bool)
        ensures
            r == self.is_nan_spec(),
    {
        let m: u64 = if self.bits < SIGN_BIT {
            self.bits
        } else {
            self.bits - SIGN_BIT
        };
        m > INFINITY_BITS
    }

    /// Whether this value is `+0.0` or `-0.0`.
    pub fn is_zero(&self) -> (r: bool)
        ensures
            r == self.is_zero_spec(),
    {
        self.bits == 0 || self.bits == SIGN_BIT
    }

    /// IEEE 754 `self < other`.
    pub fn lt(&self, other: &Scalar) -> (r: bool)
        ensures
            r == self.less_than(*other),
    {
        if self.is_nan() || other.is_nan() || (self.is_zero() && other.is_zero()) {
            false
        } else {
            self.total_lt(other)
        }
    }

    /// IEEE 754 `self <= other`.
    pub fn le(&self, other: &Scalar) -> (r: bool)
        ensures
            r == self.at_most(*other),
    {
        if self.is_nan() || other.is_nan() {
            false
        } else {
            (self.is_zero() && other.is_zero()) || !other.total_lt(self)
        }
    }

    /// Whether `self` comes strictly before `other` in the total order of
    /// `f64::total_cmp`.
    pub fn total_lt(&self, other: &Scalar) -> (r: bool)
        ensures
            r == (self.order_key() < other.order_key()),
    {
        let a_neg = self.bits >= SIGN_BIT;
        let b_neg = other.bits >= SIGN_BIT;
        if a_neg && b_neg {
            // Larger encodings of negative values lie further below zero.
            self.bits > other.bits
        } else if a_neg {
            true
        } else if b_neg {
            false
        } else {
            self.bits < other.bits
        }
    }

    /// Whether `self` and `other` are the same element of the total order
    /// (equal encodings).
    pub fn total_eq(&self, other: &Scalar) -> (r: bool)
        ensures
            r == (self.order_key() == other.order_key()),
    {
        self.bits == other.bits
    }

    /// IEEE negation: the same value with the sign bit flipped.
    pub fn negated(&self) -> (r: Scalar)
        ensures
            r == self.negated_spec(),
    {
        if self.bits < SIGN_BIT {
            Scalar { bits: self.bits + SIGN_BIT }
        } else {
            Scalar { bits: self.bits - SIGN_BIT }
        }
    }
}

/// The order key determines the encoding: two values with the same position in
/// the total order are the same value.
pub proof fn lemma_order_key_injective(a: Scalar, b: Scalar)
    requires
        a.order_key() == b.order_key(),
    ensures
        a == b,
{
}

/// IEEE `<` is irreflexive and transitive, and never holds in both directions.
pub proof fn lemma_less_than_strict_order(a: Scalar, b: Scalar, c: Scalar)
    ensures
        !a.less_than(a),
        a.less_than(b) && b.less_than(c) ==> a.less_than(c),
        !(a.less_than(b) && b.less_than(a)),
{
}

/// IEEE `<=` is reflexive and transitive on values that are not NaN, and any two
/// such values are related one way or the other.
pub proof fn lemma_at_most_preorder(a: Scalar, b: Scalar, c: Scalar)
    ensures
        !a.is_nan_spec() ==> a.at_most(a),
        a.at_most(b) && b.at_most(c) ==> a.at_most(c),
        !a.is_nan_spec() && !b.is_nan_spec() ==> a.at_most(b) || b.at_most(a),
        a.at_most(b) <==> (!a.is_nan_spec() && !b.is_nan_spec() && !b.less_than(a)),
{
}

/// On values that are neither NaN nor `-0.0`, IEEE `<=` and `<` are the total
/// order of `f64::total_cmp`.
pub proof fn lemma_plain_comparisons(a: Scalar, b: Scalar)
    requires
        a.is_plain(),
        b.is_plain(),
    ensures
        a.at_most(b) <==> a.order_key() <= b.order_key(),
        a.less_than(b) <==> a.order_key() < b.order_key(),
{
}

/// Negating twice gives back the value, and a NaN stays a NaN.
pub proof fn lemma_negate_involution(a: Scalar)
    ensures
        a.negated_spec().negated_spec() == a,
        a.negated_spec().is_nan_spec() == a.is_nan_spec(),
        a.negated_spec().magnitude() == a.magnitude(),
{
}

} // verus!
