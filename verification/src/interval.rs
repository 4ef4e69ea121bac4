//! Closed real intervals, used for box extents and ray time ranges.

use vstd::prelude::*;

use crate::scalar::{Scalar, INFINITY_BITS, NEG_INFINITY_BITS};

verus! {

/// An interval `[start, end]` of real numbers.
///
/// An interval whose start lies above its end contains nothing.
#[derive(Clone, Copy, Debug, PartialEq, Eq, Structural)]
pub struct Interval {
    /// The lower end.
    pub start: Scalar,
    /// The upper end.
    pub end: Scalar,
}

impl Interval {
    /// The interval from `+inf` down to `-inf`, which contains nothing and is the
    /// neutral element of [`Interval::enclosing`].
    pub open spec fn empty_spec() -> Interval {
        Interval { start: Scalar { bits: INFINITY_BITS }, end: Scalar { bits: NEG_INFINITY_BITS } }
    }

    /// The interval from `-inf` to `+inf`.
    pub open spec fn universal_spec() -> Interval {
        Interval { start: Scalar { bits: NEG_INFINITY_BITS }, end: Scalar { bits: INFINITY_BITS } }
    }

    /// The smallest interval that covers both `a` and `b`: the lower of the two
    /// starts and the higher of the two ends, by IEEE comparison (on a tie or a
    /// NaN the start of `b`, and the end of `b`, are taken).
    pub open spec fn enclosing_spec(a: Interval, b: Interval) -> Interval {
        Interval {
            start: if a.start.at_most(b.start) {
                a.start
            } else {
                b.start
            },
            end: if b.end.at_most(a.end) {
                a.end
            } else {
                b.end
            },
        }
    }

    /// Whether `other` lies within `self`, by IEEE comparison of the ends.
    pub open spec fn covers(self, other: Interval) -> bool {
        self.start.at_most(other.start) && other.end.at_most(self.end)
    }

    /// Whether no end is a NaN.
    pub open spec fn is_ordered(self) -> bool {
        !self.start.is_nan_spec() && !self.end.is_nan_spec()
    }

    /// Constructs the interval `[start, end]`.
    pub fn new(start: Scalar, end: Scalar) -> (r: Interval)
        ensures
            r.start == start,
            r.end == end,
    {
        Interval { start, end }
    }

    /// Constructs an empty interval.
    pub fn empty() -> (r: Interval)
        ensures
            r == Interval::empty_spec(),
    {
        Interval { start: Scalar::infinity(), end: Scalar::neg_infinity() }
    }

    /// Constructs the interval of all real numbers.
    pub fn universal() -> (r: Interval)
        ensures
            r == Interval::universal_spec(),
    {
        Interval { start: Scalar::neg_infinity(), end: Scalar::infinity() }
    }

    /// Constructs the smallest interval covering both given intervals.
    pub fn enclosing(a: &Interval, b: &Interval) -> (r: Interval)
        ensures
            r == Interval::enclosing_spec(*a, *b),
    {
        let start = if a.start.le(&b.start) {
            a.start
        } else {
            b.start
        };
        let end = if b.end.le(&a.end) {
            a.end
        } else {
            b.end
        };
        Interval { start, end }
    }

    /// Whether `t` lies in `[start, end]`.
    pub fn contains_inclusive(&self, t: Scalar) -> (r: bool)
        ensures
            r == (self.start.at_most(t) && t.at_most(self.end)),
    {
        self.start.le(&t) && t.le(&self.end)
    }

    /// Whether `t` lies in `(start, end)`.
    pub fn contains_exclusive(&self, t: Scalar) -> (r: bool)
        ensures
            r == (self.start.less_than(t) && t.less_than(self.end)),
    {
        self.start.lt(&t) && t.lt(&self.end)
    }
}

impl Default for Interval {
    /// The empty interval.
    fn default() -> (r: Interval)
        ensures
            r == Interval::empty_spec(),
    {
        Interval::empty()
    }
}

/// The empty interval is a neutral element of `enclosing` on the left for every
/// interval, and on the right for every interval whose ends are not NaN.
pub proof fn lemma_enclosing_empty_neutral(a: Interval)
    ensures
        Interval::enclosing_spec(Interval::empty_spec(), a) == a,
        a.is_ordered() ==> Interval::enclosing_spec(a, Interval::empty_spec()) == a,
{
}

/// Enclosing an interval with itself gives it back.
pub proof fn lemma_enclosing_idempotent(a: Interval)
    ensures
        Interval::enclosing_spec(a, a) == a,
{
}

/// The enclosing interval covers both of its parts, when no end is a NaN.
pub proof fn lemma_enclosing_covers(a: Interval, b: Interval)
    requires
        a.is_ordered(),
        b.is_ordered(),
    ensures
        Interval::enclosing_spec(a, b).covers(a),
        Interval::enclosing_spec(a, b).covers(b),
        Interval::enclosing_spec(a, b).is_ordered(),
{
}

/// Every interval whose ends are not NaN covers itself.
pub proof fn lemma_covers_reflexive(a: Interval)
    requires
        a.is_ordered(),
    ensures
        a.covers(a),
{
}

/// Covering is transitive.
pub proof fn lemma_covers_transitive(a: Interval, b: Interval, c: Interval)
    requires
        a.covers(b),
        b.covers(c),
    ensures
        a.covers(c),
{
}

/// An interval that covers both parts covers what encloses them.
pub proof fn lemma_enclosing_least(a: Interval, b: Interval, c: Interval)
    requires
        c.covers(a),
        c.covers(b),
    ensures
        c.covers(Interval::enclosing_spec(a, b)),
{
}

/// Whether neither end is a NaN or `-0.0`.
pub open spec fn is_plain_interval(a: Interval) -> bool {
    a.start.is_plain() && a.end.is_plain()
}

/// On intervals whose ends are neither NaN nor `-0.0`, `enclosing` takes the
/// least start and the greatest end, so it is associative and commutative, and
/// its result has such ends too.
pub proof fn lemma_enclosing_plain(a: Interval, b: Interval, c: Interval)
    requires
        is_plain_interval(a),
        is_plain_interval(b),
        is_plain_interval(c),
    ensures
        is_plain_interval(Interval::enclosing_spec(a, b)),
        Interval::enclosing_spec(a, b) == Interval::enclosing_spec(b, a),
        Interval::enclosing_spec(Interval::enclosing_spec(a, b), c) == Interval::enclosing_spec(
            a,
            Interval::enclosing_spec(b, c),
        ),
{
    crate::scalar::lemma_plain_comparisons(a.start, b.start);
    crate::scalar::lemma_plain_comparisons(b.start, a.start);
    crate::scalar::lemma_plain_comparisons(b.start, c.start);
    crate::scalar::lemma_plain_comparisons(a.start, c.start);
    crate::scalar::lemma_plain_comparisons(a.end, b.end);
    crate::scalar::lemma_plain_comparisons(b.end, a.end);
    crate::scalar::lemma_plain_comparisons(b.end, c.end);
    crate::scalar::lemma_plain_comparisons(c.end, b.end);
    crate::scalar::lemma_plain_comparisons(a.end, c.end);
    crate::scalar::lemma_plain_comparisons(c.end, a.end);
    crate::scalar::lemma_plain_comparisons(c.start, a.start);
    crate::scalar::lemma_plain_comparisons(c.start, b.start);
    if a.start.order_key() == b.start.order_key() {
        crate::scalar::lemma_order_key_injective(a.start, b.start);
    }
    if a.end.order_key() == b.end.order_key() {
        crate::scalar::lemma_order_key_injective(a.end, b.end);
    }
}

} // verus!
