//! Axis-aligned bounding boxes for optimizing hit detection in larger scenes.

use vstd::prelude::*;

use crate::interval::Interval;
use crate::scalar::Scalar;

verus! {

/// An axis-aligned bounding box: one interval along each of the x, y and z axes.
#[derive(Clone, Copy, Debug)]
pub struct BoundingBox {
    x: Interval,
    y: Interval,
    z: Interval,
}

impl View for BoundingBox {
    type V = (Interval, Interval, Interval);

    /// The extents along the x, y and z axes.
    closed spec fn view(&self) -> (Interval, Interval, Interval) {
        (self.x, self.y, self.z)
    }
}

/// The interval with the lower of two values as its start, by IEEE `<`: the
/// second value is taken as the start unless the first is strictly lower.
pub open spec fn minmax_spec(v1: Scalar, v2: Scalar) -> Interval {
    if v1.less_than(v2) {
        Interval { start: v1, end: v2 }
    } else {
        Interval { start: v2, end: v1 }
    }
}

/// The part of `current` that remains after the ray's crossing times `t` of one
/// slab are taken into account: the crossing times are put in order, the start
/// is raised to the slab's entry time if that is later, and the end lowered to
/// the slab's exit time if that is sooner.
pub open spec fn narrow_spec(current: Interval, t: (Scalar, Scalar)) -> Interval {
    let (slab_start, slab_end) = if t.0.at_most(t.1) {
        (t.0, t.1)
    } else {
        (t.1, t.0)
    };
    Interval {
        start: if current.start.less_than(slab_start) {
            slab_start
        } else {
            current.start
        },
        end: if slab_end.less_than(current.end) {
            slab_end
        } else {
            current.end
        },
    }
}

/// Narrows `current` by each slab's crossing times in turn, giving `None` as soon
/// as the start is no longer below the end.
pub open spec fn clip_spec(current: Interval, times: Seq<(Scalar, Scalar)>) -> Option<Interval>
    decreases times.len(),
{
    if times.len() == 0 {
        Some(current)
    } else {
        let next = narrow_spec(current, times[0]);
        if next.end.at_most(next.start) {
            None
        } else {
            clip_spec(next, times.drop_first())
        }
    }
}

/// Whether some extent runs downward (its end lies below its start, by IEEE
/// `<`), so that the box contains no point.
pub open spec fn extents_empty(e: BoxExtents) -> bool {
    ||| e.0.end.less_than(e.0.start)
    ||| e.1.end.less_than(e.1.start)
    ||| e.2.end.less_than(e.2.start)
}

/// The part of `ray_time` in which a ray is inside box `b`, given the ray's
/// crossing times of the box's planes on each axis: nothing for an empty box,
/// else `ray_time` clipped by the three slabs.
pub open spec fn intersect_spec(b: BoundingBox, ray_time: Interval, times: Seq<(Scalar, Scalar)>) -> Option<Interval> {
    if extents_empty(b@) {
        None
    } else {
        clip_spec(ray_time, times)
    }
}

/// The extents of a box along the x, y and z axes.
pub type BoxExtents = (Interval, Interval, Interval);

/// The extents of the box enclosing boxes with extents `a` and `b`.
pub open spec fn enclosing_extents(a: BoxExtents, b: BoxExtents) -> BoxExtents {
    (
        Interval::enclosing_spec(a.0, b.0),
        Interval::enclosing_spec(a.1, b.1),
        Interval::enclosing_spec(a.2, b.2),
    )
}

/// Whether extents `outer` cover extents `inner` along every axis.
pub open spec fn extents_cover(outer: BoxExtents, inner: BoxExtents) -> bool {
    &&& outer.0.covers(inner.0)
    &&& outer.1.covers(inner.1)
    &&& outer.2.covers(inner.2)
}

/// Whether no extent has a NaN end.
pub open spec fn extents_ordered(e: BoxExtents) -> bool {
    &&& e.0.is_ordered()
    &&& e.1.is_ordered()
    &&& e.2.is_ordered()
}

/// The extents of the box enclosing all the boxes in `boxes`, starting from the
/// empty box and enclosing each in turn.
pub open spec fn enclose_all(boxes: Seq<BoundingBox>) -> BoxExtents
    decreases boxes.len(),
{
    if boxes.len() == 0 {
        BoundingBox::empty_spec()
    } else {
        enclosing_extents(enclose_all(boxes.drop_last()), boxes.last()@)
    }
}

impl BoundingBox {
    /// The extent along axis `a` (0 for x, 1 for y, 2 for z).
    pub open spec fn axis_spec(self, a: int) -> Interval {
        if a == 0 {
            self@.0
        } else if a == 1 {
            self@.1
        } else {
            self@.2
        }
    }

    /// The extents of the box that encloses `b1` and `b2`.
    pub open spec fn enclosing_spec(b1: BoundingBox, b2: BoundingBox) -> BoxExtents {
        enclosing_extents(b1@, b2@)
    }

    /// The extents of the empty box.
    pub open spec fn empty_spec() -> BoxExtents {
        (Interval::empty_spec(), Interval::empty_spec(), Interval::empty_spec())
    }

    /// Whether `other` lies within `self` along every axis.
    pub open spec fn covers(self, other: BoundingBox) -> bool {
        extents_cover(self@, other@)
    }

    /// Whether no extent has a NaN end.
    pub open spec fn is_ordered(self) -> bool {
        extents_ordered(self@)
    }

    /// Constructs an empty bounding box.
    pub fn empty() -> (r: BoundingBox)
        ensures
            r@ == BoundingBox::empty_spec(),
    {
        BoundingBox { x: Interval::empty(), y: Interval::empty(), z: Interval::empty() }
    }

    /// Constructs a new bounding box which encloses the given intervals along
    /// its axes.
    pub fn new(x: Interval, y: Interval, z: Interval) -> (r: BoundingBox)
        ensures
            r@ == (x, y, z),
    {
        BoundingBox { x, y, z }
    }

    /// Returns the interval of this bounding box along the x axis.
    pub fn x(&self) -> (r: Interval)
        ensures
            r == self@.0,
    {
        self.x
    }

    /// Returns the interval of this bounding box along the y axis.
    pub fn y(&self) -> (r: Interval)
        ensures
            r == self@.1,
    {
        self.y
    }

    /// Returns the interval of this bounding box along the z axis.
    pub fn z(&self) -> (r: Interval)
        ensures
            r == self@.2,
    {
        self.z
    }

    /// Returns the interval of this bounding box along axis `axis` (0 for x, 1
    /// for y, 2 for z).
    pub fn axis(&self, axis: usize) -> (r: Interval)
        requires
            axis < 3,
        ensures
            r == self.axis_spec(axis as int),
    {
        if axis == 0 {
            self.x
        } else if axis == 1 {
            self.y
        } else {
            self.z
        }
    }

    /// Constructs a new bounding box with the given points as its opposite
    /// corners (each point given by its x, y and z coordinates).
    pub fn from_corners(p1: &[Scalar; 3], p2: &[Scalar; 3]) -> (r: BoundingBox)
        ensures
            r@ == (
                minmax_spec(p1@[0], p2@[0]),
                minmax_spec(p1@[1], p2@[1]),
                minmax_spec(p1@[2], p2@[2]),
            ),
            forall|a: int|
                0 <= a < 3 ==> {
                    let e = #[trigger] r.axis_spec(a);
                    ||| e.start == p1@[a] && e.end == p2@[a]
                    ||| e.start == p2@[a] && e.end == p1@[a]
                },
            forall|a: int|
                0 <= a < 3 ==> ((#[trigger] r.axis_spec(a)).start == p1@[a] <==> (p1@[a].less_than(
                    p2@[a],
                ) || p1@[a] == p2@[a])),
    {
        let x_interval = minmax(p1[0], p2[0]);
        let y_interval = minmax(p1[1], p2[1]);
        let z_interval = minmax(p1[2], p2[2]);
        BoundingBox { x: x_interval, y: y_interval, z: z_interval }
    }

    /// Constructs a new bounding box that encloses both of the provided
    /// bounding boxes.
    pub fn enclosing(b1: &BoundingBox, b2: &BoundingBox) -> (r: BoundingBox)
        ensures
            r@ == BoundingBox::enclosing_spec(*b1, *b2),
    {
        let x_interval = Interval::enclosing(&b1.x, &b2.x);
        let y_interval = Interval::enclosing(&b1.y, &b2.y);
        let z_interval = Interval::enclosing(&b1.z, &b2.z);
        BoundingBox { x: x_interval, y: y_interval, z: z_interval }
    }

    /// Determines whether a ray is inside this box at some time of `ray_time`,
    /// given, for each of the x, y and z axes, the two times at which the ray
    /// crosses the box's planes on that axis (in either order).
    ///
    /// Returns `None` when the box is empty along some axis (an extent whose end
    /// lies below its start contains no point, so no ray is ever within it), and
    /// otherwise as soon as the remaining interval is empty; else `Some` with
    /// the part of `ray_time` that lies inside all three slabs.
    pub fn intersected_by(&self, ray_time: Interval, slab_times: &[(Scalar, Scalar); 3]) -> (r: Option<
        Interval,
    >)
        ensures
            r == intersect_spec(*self, ray_time, slab_times@),
    {
        if self.x.end.lt(&self.x.start) || self.y.end.lt(&self.y.start) || self.z.end.lt(
            &self.z.start,
        ) {
            return None;
        }
        let mut intersect_time = ray_time;
        let mut i: usize = 0;
        assert(slab_times@.subrange(0, 3) =~= slab_times@);
        while i < 3
            invariant
                i <= 3,
                clip_spec(ray_time, slab_times@) == clip_spec(
                    intersect_time,
                    slab_times@.subrange(i as int, 3),
                ),
            decreases 3 - i,
        {
            let ghost rest = slab_times@.subrange(i as int, 3);
            assert(rest.drop_first() =~= slab_times@.subrange(i + 1, 3));
            let (t0, t1) = slab_times[i];
            // If the ray travels in the negative direction along this axis, it
            // crosses the far plane first, so the times are swapped.
            let (start, end) = if t0.le(&t1) {
                (t0, t1)
            } else {
                (t1, t0)
            };
            if intersect_time.start.lt(&start) {
                intersect_time.start = start;
            }
            if end.lt(&intersect_time.end) {
                intersect_time.end = end;
            }
            // If the intersection time interval is empty, bail early.
            if intersect_time.end.le(&intersect_time.start) {
                return None;
            }
            i = i + 1;
        }
        assert(slab_times@.subrange(3, 3) =~= Seq::<(Scalar, Scalar)>::empty());
        Some(intersect_time)
    }
}

impl Default for BoundingBox {
    /// The empty bounding box.
    fn default() -> (r: BoundingBox)
        ensures
            r@ == BoundingBox::empty_spec(),
    {
        BoundingBox::empty()
    }
}

/// Orders two coordinates into an interval.
fn minmax(v1: Scalar, v2: Scalar) -> (r: Interval)
    ensures
        r == minmax_spec(v1, v2),
{
    if v1.lt(&v2) {
        Interval::new(v1, v2)
    } else {
        Interval::new(v2, v1)
    }
}

/// A box built from two corners covers both corners, and each of its extents
/// runs upward, when no coordinate is a NaN.
pub proof fn lemma_from_corners_ordered(p1: Seq<Scalar>, p2: Seq<Scalar>, a: int)
    requires
        0 <= a < 3,
        p1.len() == 3,
        p2.len() == 3,
        !p1[a].is_nan_spec(),
        !p2[a].is_nan_spec(),
    ensures
        minmax_spec(p1[a], p2[a]).start.at_most(minmax_spec(p1[a], p2[a]).end),
        minmax_spec(p1[a], p2[a]).start.at_most(p1[a]),
        minmax_spec(p1[a], p2[a]).start.at_most(p2[a]),
        p1[a].at_most(minmax_spec(p1[a], p2[a]).end),
        p2[a].at_most(minmax_spec(p1[a], p2[a]).end),
{
}

/// The enclosing box covers both of its parts, when no extent has a NaN end.
pub proof fn lemma_enclosing_covers_both(a: BoxExtents, b: BoxExtents)
    requires
        extents_ordered(a),
        extents_ordered(b),
    ensures
        extents_cover(enclosing_extents(a, b), a),
        extents_cover(enclosing_extents(a, b), b),
        extents_ordered(enclosing_extents(a, b)),
{
    crate::interval::lemma_enclosing_covers(a.0, b.0);
    crate::interval::lemma_enclosing_covers(a.1, b.1);
    crate::interval::lemma_enclosing_covers(a.2, b.2);
}

/// Covering is transitive.
pub proof fn lemma_extents_cover_transitive(a: BoxExtents, b: BoxExtents, c: BoxExtents)
    requires
        extents_cover(a, b),
        extents_cover(b, c),
    ensures
        extents_cover(a, c),
{
    crate::interval::lemma_covers_transitive(a.0, b.0, c.0);
    crate::interval::lemma_covers_transitive(a.1, b.1, c.1);
    crate::interval::lemma_covers_transitive(a.2, b.2, c.2);
}

/// Enclosing the empty box with any box gives that box, and enclosing a box
/// with itself gives it back.
pub proof fn lemma_enclosing_empty_box(b: BoxExtents)
    ensures
        enclosing_extents(BoundingBox::empty_spec(), b) == b,
        enclosing_extents(b, b) == b,
{
    crate::interval::lemma_enclosing_empty_neutral(b.0);
    crate::interval::lemma_enclosing_empty_neutral(b.1);
    crate::interval::lemma_enclosing_empty_neutral(b.2);
    crate::interval::lemma_enclosing_idempotent(b.0);
    crate::interval::lemma_enclosing_idempotent(b.1);
    crate::interval::lemma_enclosing_idempotent(b.2);
}

/// When a ray's time interval survives the three slabs, what remains is a
/// non-empty part of the interval it started from: its start is not below the
/// original start and its end not above the original end in the total order, and
/// the start lies below the end.
pub proof fn lemma_clip_within(current: Interval, times: Seq<(Scalar, Scalar)>)
    requires
        clip_spec(current, times) is Some,
    ensures
        current.start.order_key() <= clip_spec(current, times)->0.start.order_key(),
        clip_spec(current, times)->0.end.order_key() <= current.end.order_key(),
        times.len() > 0 ==> !clip_spec(current, times)->0.end.at_most(
            clip_spec(current, times)->0.start,
        ),
    decreases times.len(),
{
    if times.len() > 0 {
        let next = narrow_spec(current, times[0]);
        lemma_clip_within(next, times.drop_first());
        if times.len() == 1 {
            assert(times.drop_first().len() == 0);
        }
    }
}

/// Whether no extent end is a NaN or `-0.0`.
pub open spec fn extents_plain(e: BoxExtents) -> bool {
    &&& crate::interval::is_plain_interval(e.0)
    &&& crate::interval::is_plain_interval(e.1)
    &&& crate::interval::is_plain_interval(e.2)
}

/// Enclosing a list of boxes whose extent ends are neither NaN nor `-0.0` in
/// two parts and then enclosing the two results gives the enclosure of the
/// whole list; the enclosure has such ends too.
pub proof fn lemma_enclose_all_append(a: Seq<BoundingBox>, b: Seq<BoundingBox>)
    requires
        forall|i: int| 0 <= i < a.len() ==> extents_plain(#[trigger] a[i]@),
        forall|i: int| 0 <= i < b.len() ==> extents_plain(#[trigger] b[i]@),
    ensures
        enclose_all(a + b) == enclosing_extents(enclose_all(a), enclose_all(b)),
        extents_plain(enclose_all(a + b)),
    decreases b.len(),
{
    lemma_enclose_all_plain(a);
    if b.len() == 0 {
        assert(a + b =~= a);
        crate::interval::lemma_enclosing_empty_neutral(enclose_all(a).0);
        crate::interval::lemma_enclosing_empty_neutral(enclose_all(a).1);
        crate::interval::lemma_enclosing_empty_neutral(enclose_all(a).2);
    } else {
        let b0 = b.drop_last();
        assert((a + b).drop_last() =~= a + b0);
        assert((a + b).last() == b.last());
        lemma_enclose_all_append(a, b0);
        lemma_enclose_all_plain(b0);
        let x = enclose_all(a);
        let y = enclose_all(b0);
        let z = b.last()@;
        crate::interval::lemma_enclosing_plain(x.0, y.0, z.0);
        crate::interval::lemma_enclosing_plain(x.1, y.1, z.1);
        crate::interval::lemma_enclosing_plain(x.2, y.2, z.2);
        crate::interval::lemma_enclosing_plain(y.0, z.0, x.0);
        crate::interval::lemma_enclosing_plain(y.1, z.1, x.1);
        crate::interval::lemma_enclosing_plain(y.2, z.2, x.2);
    }
}

/// The enclosure of boxes whose extent ends are neither NaN nor `-0.0` has such
/// ends too.
pub proof fn lemma_enclose_all_plain(a: Seq<BoundingBox>)
    requires
        forall|i: int| 0 <= i < a.len() ==> extents_plain(#[trigger] a[i]@),
    ensures
        extents_plain(enclose_all(a)),
    decreases a.len(),
{
    if a.len() > 0 {
        let a0 = a.drop_last();
        lemma_enclose_all_plain(a0);
        let x = enclose_all(a0);
        let z = a.last()@;
        crate::interval::lemma_enclosing_plain(x.0, z.0, z.0);
        crate::interval::lemma_enclosing_plain(x.1, z.1, z.1);
        crate::interval::lemma_enclosing_plain(x.2, z.2, z.2);
    }
}

/// The interval built from two values has exactly those two values as its
/// ends: the first is the start when it is below the second by IEEE `<` (or
/// equal to it), else the second is; so for values that are not NaN the start
/// is not above the end, and the interval is the least one holding both.
pub proof fn lemma_minmax_ends(v1: Scalar, v2: Scalar)
    ensures
        (minmax_spec(v1, v2).start == v1 && minmax_spec(v1, v2).end == v2) || (minmax_spec(v1, v2).start
            == v2 && minmax_spec(v1, v2).end == v1),
        v1.less_than(v2) ==> minmax_spec(v1, v2).start == v1 && minmax_spec(v1, v2).end == v2,
        v2.less_than(v1) ==> minmax_spec(v1, v2).start == v2 && minmax_spec(v1, v2).end == v1,
        !v1.is_nan_spec() && !v2.is_nan_spec() ==> minmax_spec(v1, v2).start.at_most(
            minmax_spec(v1, v2).end,
        ),
{
}

/// Narrowing an interval by a slab, on values that are neither NaN nor `-0.0`,
/// raises the start to the slab's earlier crossing time if that is later and
/// lowers the end to its later crossing time if that is sooner.
proof fn lemma_narrow_plain(current: Interval, t: (Scalar, Scalar))
    requires
        current.start.is_plain(),
        current.end.is_plain(),
        t.0.is_plain(),
        t.1.is_plain(),
    ensures
        narrow_spec(current, t).start == if current.start.order_key() < slab_low(t).order_key() {
            slab_low(t)
        } else {
            current.start
        },
        narrow_spec(current, t).end == if slab_high(t).order_key() < current.end.order_key() {
            slab_high(t)
        } else {
            current.end
        },
        narrow_spec(current, t).start.is_plain(),
        narrow_spec(current, t).end.is_plain(),
{
    crate::scalar::lemma_plain_comparisons(t.0, t.1);
    crate::scalar::lemma_plain_comparisons(current.start, slab_low(t));
    crate::scalar::lemma_plain_comparisons(slab_high(t), current.end);
    if t.0.order_key() == t.1.order_key() {
        crate::scalar::lemma_order_key_injective(t.0, t.1);
    }
}

/// The earlier of a slab's two crossing times, in the total order.
pub open spec fn slab_low(t: (Scalar, Scalar)) -> Scalar {
    if t.0.order_key() <= t.1.order_key() {
        t.0
    } else {
        t.1
    }
}

/// The later of a slab's two crossing times, in the total order.
pub open spec fn slab_high(t: (Scalar, Scalar)) -> Scalar {
    if t.0.order_key() <= t.1.order_key() {
        t.1
    } else {
        t.0
    }
}

/// The starts of the four intervals a ray must be in at once to be inside a
/// box: its time interval and its time in each of the three slabs.
pub open spec fn window_starts(ray_time: Interval, times: Seq<(Scalar, Scalar)>) -> Seq<Scalar> {
    seq![ray_time.start, slab_low(times[0]), slab_low(times[1]), slab_low(times[2])]
}

/// The ends of the four intervals a ray must be in at once to be inside a box.
pub open spec fn window_ends(ray_time: Interval, times: Seq<(Scalar, Scalar)>) -> Seq<Scalar> {
    seq![ray_time.end, slab_high(times[0]), slab_high(times[1]), slab_high(times[2])]
}

/// A ray is inside a box exactly when the box is not empty and its time
/// interval and its times in the three slabs all overlap: then the result is
/// their common part, from the latest of the four starts to the earliest of
/// the four ends (for times that are neither NaN nor `-0.0`). In particular a
/// ray is reported inside a box only within every one of the three slabs, and
/// every non-empty box whose slabs overlap the ray's time is reported.
pub proof fn lemma_intersected_by_slabs(b: BoundingBox, ray_time: Interval, times: Seq<(Scalar, Scalar)>)
    requires
        times.len() == 3,
        ray_time.start.is_plain(),
        ray_time.end.is_plain(),
        forall|a: int| 0 <= a < 3 ==> (#[trigger] times[a]).0.is_plain() && times[a].1.is_plain(),
    ensures
        intersect_spec(b, ray_time, times) is Some <==> {
            &&& !b@.0.end.less_than(b@.0.start)
            &&& !b@.1.end.less_than(b@.1.start)
            &&& !b@.2.end.less_than(b@.2.start)
            &&& forall|i: int, j: int|
                0 <= i < 4 && 0 <= j < 4 ==> (#[trigger] window_starts(ray_time, times)[i]).order_key()
                    < (#[trigger] window_ends(ray_time, times)[j]).order_key()
        },
        intersect_spec(b, ray_time, times) is Some ==> {
            let r = intersect_spec(b, ray_time, times).unwrap();
            &&& forall|i: int|
                0 <= i < 4 ==> (#[trigger] window_starts(ray_time, times)[i]).order_key()
                    <= r.start.order_key()
            &&& forall|i: int|
                0 <= i < 4 ==> r.end.order_key() <= (#[trigger] window_ends(
                    ray_time,
                    times,
                )[i]).order_key()
            &&& exists|i: int| 0 <= i < 4 && r.start == #[trigger] window_starts(ray_time, times)[i]
            &&& exists|i: int| 0 <= i < 4 && r.end == #[trigger] window_ends(ray_time, times)[i]
        },
{
    let t0 = times[0];
    let t1 = times[1];
    let t2 = times[2];
    assert(t0.0.is_plain() && t0.1.is_plain());
    assert(t1.0.is_plain() && t1.1.is_plain());
    assert(t2.0.is_plain() && t2.1.is_plain());
    let n1 = narrow_spec(ray_time, t0);
    lemma_narrow_plain(ray_time, t0);
    let n2 = narrow_spec(n1, t1);
    lemma_narrow_plain(n1, t1);
    let n3 = narrow_spec(n2, t2);
    lemma_narrow_plain(n2, t2);
    let lows = window_starts(ray_time, times);
    let highs = window_ends(ray_time, times);
    assert(lows[0] == ray_time.start && lows[1] == slab_low(t0) && lows[2] == slab_low(t1) && lows[3]
        == slab_low(t2));
    assert(highs[0] == ray_time.end && highs[1] == slab_high(t0) && highs[2] == slab_high(t1)
        && highs[3] == slab_high(t2));
    let d1 = times.drop_first();
    let d2 = d1.drop_first();
    let d3 = d2.drop_first();
    assert(d1[0] == t1 && d2[0] == t2 && d3.len() == 0);
    crate::scalar::lemma_plain_comparisons(n1.end, n1.start);
    crate::scalar::lemma_plain_comparisons(n2.end, n2.start);
    crate::scalar::lemma_plain_comparisons(n3.end, n3.start);
    assert(clip_spec(n3, d3) == Some(n3));
    assert(clip_spec(n2, d2) == if n3.end.at_most(n3.start) {
        None
    } else {
        clip_spec(n3, d3)
    });
    assert(clip_spec(n1, d1) == if n2.end.at_most(n2.start) {
        None
    } else {
        clip_spec(n2, d2)
    });
    assert(clip_spec(ray_time, times) == if n1.end.at_most(n1.start) {
        None
    } else {
        clip_spec(n1, d1)
    });
    // The start only rises and the end only falls, so the interval is empty at
    // some step exactly when it is empty at the last one.
    assert(clip_spec(ray_time, times) is Some <==> n3.start.order_key() < n3.end.order_key());
    assert forall|i: int| 0 <= i < 4 implies (#[trigger] lows[i]).order_key() <= n3.start.order_key() by {}
    assert forall|i: int| 0 <= i < 4 implies n3.end.order_key() <= (#[trigger] highs[i]).order_key() by {}
    assert(exists|i: int| 0 <= i < 4 && n3.start == #[trigger] lows[i]);
    assert(exists|i: int| 0 <= i < 4 && n3.end == #[trigger] highs[i]);
    let si = choose|i: int| 0 <= i < 4 && n3.start == #[trigger] lows[i];
    let ei = choose|i: int| 0 <= i < 4 && n3.end == #[trigger] highs[i];
    if forall|i: int, j: int|
        0 <= i < 4 && 0 <= j < 4 ==> (#[trigger] lows[i]).order_key() < (#[trigger] highs[j]).order_key() {
        assert(lows[si].order_key() < highs[ei].order_key());
    }
}

} // verus!
