//! The nearest-hit laws of the scene collections: casting a ray over a scene
//! list, or over a scene tree, finds the earliest collision among all of its
//! objects, and finds none exactly when no object is hit.
//!
//! What an object's collisions are is given by a predicate `hit_at(o, t)`
//! ("the ray meets object `o` at time `t`"); the laws rest on two premises
//! about the caller's closures: the object test reports the earliest
//! collision of an object within the interval it is asked about, and a box
//! that covers an object's box keeps every collision of that object when it
//! clips a ray's time interval.

use vstd::prelude::*;

use crate::bound::{
    enclose_all, extents_cover, extents_ordered, intersect_spec, lemma_clip_within, BoundingBox,
};
use crate::bvh::{earlier_spec, item_boxes, item_objects, lemma_tree_bound_covers_items, tree_hit_spec, SceneTree};
use crate::interval::Interval;
use crate::scalar::Scalar;
use crate::scene::{lemma_enclose_all_covers, list_hit_spec, scan_hit_spec};

verus! {

/// Whether `t` lies strictly inside `iv`, in the total order of
/// `f64::total_cmp`.
pub open spec fn inside_open(iv: Interval, t: Scalar) -> bool {
    iv.start.order_key() < t.order_key() && t.order_key() < iv.end.order_key()
}

/// Whether the ray meets object `o` at time `t`, strictly inside `iv`.
pub open spec fn hit_in<T>(hit_at: spec_fn(T, Scalar) -> bool, o: T, iv: Interval, t: Scalar) -> bool {
    hit_at(o, t) && inside_open(iv, t)
}

/// Whether `hit_object(o, iv)` always answers with the earliest collision of
/// `o` strictly inside `iv` (by time), or `None` when there is none.
pub open spec fn reports_earliest<'m, T: 'm, H, F>(
    hit_object: F,
    hit_at: spec_fn(T, Scalar) -> bool,
) -> bool
    where
        F: Fn(&'m T, Interval) -> Option<(H, Scalar)>,
{
    forall|o: &'m T, iv: Interval, r: Option<(H, Scalar)>|
        #[trigger] call_ensures(hit_object, (o, iv), r) ==> match r {
            None => forall|t: Scalar| !#[trigger] hit_in(hit_at, *o, iv, t),
            Some(found) => hit_in(hit_at, *o, iv, found.1) && forall|t: Scalar|
                #[trigger] hit_in(hit_at, *o, iv, t) ==> found.1.order_key() <= t.order_key(),
        }
}

/// Whether every box that covers the box of one of `objects` keeps all that
/// object's collisions: clipping an interval that holds a collision to such a
/// box, with the crossing times `slab_times` gives for it, leaves an interval
/// that still holds the collision.
pub open spec fn boxes_keep_hits<T, G>(
    hit_at: spec_fn(T, Scalar) -> bool,
    slab_times: G,
    objects: Seq<T>,
    boxes: Seq<BoundingBox>,
) -> bool
    where
        G: Fn(&BoundingBox) -> [(Scalar, Scalar); 3],
{
    forall|i: int, b: BoundingBox, times: [(Scalar, Scalar); 3], iv: Interval, t: Scalar|
        #![trigger call_ensures(slab_times, (&b,), times), hit_in(hit_at, objects[i], iv, t), extents_cover(b@, boxes[i]@)]
        0 <= i < objects.len() && extents_cover(b@, boxes[i]@) && call_ensures(
            slab_times,
            (&b,),
            times,
        ) && hit_in(hit_at, objects[i], iv, t) ==> intersect_spec(b, iv, times@) is Some
            && inside_open(intersect_spec(b, iv, times@).unwrap(), t)
}

/// Whether `result` is the nearest collision among `objects` strictly inside
/// `iv`: `None` exactly when no object is met there, and otherwise a
/// collision of some object there whose time is no later than that of any
/// collision of any object there.
pub open spec fn nearest_among<T, H>(
    hit_at: spec_fn(T, Scalar) -> bool,
    objects: Seq<T>,
    iv: Interval,
    result: Option<(H, Scalar)>,
) -> bool {
    match result {
        None => forall|j: int, t: Scalar|
            0 <= j < objects.len() ==> !#[trigger] hit_in(hit_at, objects[j], iv, t),
        Some(found) => (exists|j: int|
            0 <= j < objects.len() && #[trigger] hit_in(hit_at, objects[j], iv, found.1))
            && forall|j: int, t: Scalar|
            0 <= j < objects.len() && #[trigger] hit_in(hit_at, objects[j], iv, t)
                ==> found.1.order_key() <= t.order_key(),
    }
}

/// Scanning objects `k..` from the interval `iv`, with `best` the nearest
/// collision among objects `..k` inside `iv0` (whose end `iv` was lowered to),
/// gives the nearest collision among all the objects inside `iv0`.
proof fn lemma_scan_nearest<'m, T: 'm, H, F>(
    objects: Seq<T>,
    k: int,
    iv0: Interval,
    iv: Interval,
    best: Option<(H, Scalar)>,
    hit_object: F,
    hit_at: spec_fn(T, Scalar) -> bool,
    result: Option<(H, Scalar)>,
)
    where
        F: Fn(&'m T, Interval) -> Option<(H, Scalar)>,

    requires
        scan_hit_spec(objects, k, iv, best, hit_object, result),
        reports_earliest(hit_object, hit_at),
        0 <= k <= objects.len(),
        iv.start == iv0.start,
        best is None ==> iv == iv0,
        nearest_among(hit_at, objects.subrange(0, k), iv0, best),
        best is Some ==> iv.end == best.unwrap().1,
    ensures
        nearest_among(hit_at, objects, iv0, result),
    decreases objects.len() - k,
{
    let prefix = objects.subrange(0, k);
    if k == objects.len() {
        assert(prefix =~= objects);
    } else {
        let h = choose|h: Option<(H, Scalar)>|
            call_ensures(hit_object, (&objects[k], iv), h) && match h {
                Some(found) => scan_hit_spec(
                    objects,
                    k + 1,
                    Interval { start: iv.start, end: found.1 },
                    Some(found),
                    hit_object,
                    result,
                ),
                None => scan_hit_spec(objects, k + 1, iv, best, hit_object, result),
            };
        let next = objects.subrange(0, k + 1);
        assert forall|j: int| 0 <= j < k implies next[j] == #[trigger] prefix[j] by {}
        assert(next[k] == objects[k]);
        match h {
            Some(found) => {
                let t1 = found.1;
                assert(hit_in(hit_at, objects[k], iv, t1));
                // The new collision lies inside `iv0`, before every earlier one.
                assert(inside_open(iv0, t1)) by {
                    if best is Some {
                        assert(exists|j: int|
                            0 <= j < prefix.len() && #[trigger] hit_in(
                                hit_at,
                                prefix[j],
                                iv0,
                                best.unwrap().1,
                            ));
                    }
                }
                assert(hit_in(hit_at, next[k], iv0, t1));
                assert forall|j: int, t: Scalar|
                    0 <= j < next.len() && #[trigger] hit_in(hit_at, next[j], iv0, t) implies t1.order_key()
                    <= t.order_key() by {
                    if j < k {
                        assert(hit_in(hit_at, prefix[j], iv0, t));
                        if best is None {
                            assert(!hit_in(hit_at, prefix[j], iv0, t));
                        }
                    } else {
                        if t.order_key() < iv.end.order_key() {
                            assert(hit_in(hit_at, objects[k], iv, t));
                        }
                    }
                }
                lemma_scan_nearest(
                    objects,
                    k + 1,
                    iv0,
                    Interval { start: iv.start, end: t1 },
                    Some(found),
                    hit_object,
                    hit_at,
                    result,
                );
            },
            None => {
                match best {
                    None => {
                        assert forall|j: int, t: Scalar| 0 <= j < next.len() implies !#[trigger] hit_in(
                            hit_at,
                            next[j],
                            iv0,
                            t,
                        ) by {
                            if j < k {
                                assert(!hit_in(hit_at, prefix[j], iv0, t));
                            } else {
                                assert(!hit_in(hit_at, objects[k], iv, t));
                            }
                        }
                    },
                    Some(b) => {
                        let j0 = choose|j: int|
                            0 <= j < prefix.len() && #[trigger] hit_in(hit_at, prefix[j], iv0, b.1);
                        assert(hit_in(hit_at, next[j0], iv0, b.1));
                        assert forall|j: int, t: Scalar|
                            0 <= j < next.len() && #[trigger] hit_in(hit_at, next[j], iv0, t) implies b.1.order_key()
                            <= t.order_key() by {
                            if j < k {
                                assert(hit_in(hit_at, prefix[j], iv0, t));
                            } else {
                                assert(!hit_in(hit_at, objects[k], iv, t));
                            }
                        }
                    },
                }
                lemma_scan_nearest(objects, k + 1, iv0, iv, best, hit_object, hit_at, result);
            },
        }
    }
}

/// Clipping to a box that covers every object's box keeps the nearest
/// collision: the nearest collision inside the clipped interval is the nearest
/// inside the original one.
proof fn lemma_nearest_through_box<T, H, G>(
    hit_at: spec_fn(T, Scalar) -> bool,
    slab_times: G,
    objects: Seq<T>,
    boxes: Seq<BoundingBox>,
    bound: BoundingBox,
    times: [(Scalar, Scalar); 3],
    ray_time: Interval,
    result: Option<(H, Scalar)>,
)
    where
        G: Fn(&BoundingBox) -> [(Scalar, Scalar); 3],

    requires
        boxes_keep_hits(hit_at, slab_times, objects, boxes),
        objects.len() == boxes.len(),
        forall|i: int| 0 <= i < boxes.len() ==> extents_cover(bound@, #[trigger] boxes[i]@),
        call_ensures(slab_times, (&bound,), times),
        intersect_spec(bound, ray_time, times@) is None ==> result is None,
        intersect_spec(bound, ray_time, times@) is Some ==> nearest_among(
            hit_at,
            objects,
            intersect_spec(bound, ray_time, times@).unwrap(),
            result,
        ),
    ensures
        nearest_among(hit_at, objects, ray_time, result),
{
    match intersect_spec(bound, ray_time, times@) {
        None => {
            assert forall|j: int, t: Scalar| 0 <= j < objects.len() implies !#[trigger] hit_in(
                hit_at,
                objects[j],
                ray_time,
                t,
            ) by {
                if hit_in(hit_at, objects[j], ray_time, t) {
                    assert(extents_cover(bound@, boxes[j]@));
                }
            }
        },
        Some(inner) => {
            lemma_clip_within(ray_time, times@);
            assert forall|j: int, t: Scalar|
                0 <= j < objects.len() && #[trigger] hit_in(hit_at, objects[j], ray_time, t) implies hit_in(
                hit_at,
                objects[j],
                inner,
                t,
            ) by {
                assert(extents_cover(bound@, boxes[j]@));
            }
            assert forall|j: int, t: Scalar|
                0 <= j < objects.len() && #[trigger] hit_in(hit_at, objects[j], inner, t) implies hit_in(
                hit_at,
                objects[j],
                ray_time,
                t,
            ) by {}
            match result {
                None => {
                    assert forall|j: int, t: Scalar| 0 <= j < objects.len() implies !#[trigger] hit_in(
                        hit_at,
                        objects[j],
                        ray_time,
                        t,
                    ) by {
                        if hit_in(hit_at, objects[j], ray_time, t) {
                            assert(hit_in(hit_at, objects[j], inner, t));
                        }
                    }
                },
                Some(found) => {
                    let j0 = choose|j: int|
                        0 <= j < objects.len() && #[trigger] hit_in(hit_at, objects[j], inner, found.1);
                    assert(hit_in(hit_at, objects[j0], ray_time, found.1));
                    assert forall|j: int, t: Scalar|
                        0 <= j < objects.len() && #[trigger] hit_in(hit_at, objects[j], ray_time, t) implies found.1.order_key()
                        <= t.order_key() by {
                        assert(hit_in(hit_at, objects[j], inner, t));
                    }
                },
            }
        },
    }
}

/// Casting a ray over a scene list finds the nearest collision among all its
/// objects inside `ray_time`, and none exactly when no object is met there,
/// when the object test reports each object's earliest collision, the boxes the
/// objects were added with keep their collisions, and no box has a NaN end.
pub proof fn lemma_list_hit_nearest<'m, T: 'm, H, F, G>(
    bound: BoundingBox,
    objects: Seq<T>,
    boxes: Seq<BoundingBox>,
    ray_time: Interval,
    hit_object: F,
    slab_times: G,
    hit_at: spec_fn(T, Scalar) -> bool,
    result: Option<(H, Scalar)>,
)
    where
        F: Fn(&'m T, Interval) -> Option<(H, Scalar)>,
        G: Fn(&BoundingBox) -> [(Scalar, Scalar); 3],

    requires
        list_hit_spec(bound, objects, ray_time, hit_object, slab_times, result),
        bound@ == enclose_all(boxes),
        objects.len() == boxes.len(),
        forall|i: int| 0 <= i < boxes.len() ==> extents_ordered(#[trigger] boxes[i]@),
        reports_earliest(hit_object, hit_at),
        boxes_keep_hits(hit_at, slab_times, objects, boxes),
    ensures
        nearest_among(hit_at, objects, ray_time, result),
{
    let times = choose|times: [(Scalar, Scalar); 3]|
        call_ensures(slab_times, (&bound,), times) && match intersect_spec(bound, ray_time, times@) {
            None => result is None,
            Some(inner) => scan_hit_spec(objects, 0, inner, None, hit_object, result),
        };
    lemma_enclose_all_covers(boxes);
    if let Some(inner) = intersect_spec(bound, ray_time, times@) {
        assert(objects.subrange(0, 0) =~= Seq::<T>::empty());
        lemma_scan_nearest(objects, 0, inner, inner, None, hit_object, hit_at, result);
    }
    lemma_nearest_through_box(hit_at, slab_times, objects, boxes, bound, times, ray_time, result);
}

/// The earlier of the nearest collisions among two groups of objects is the
/// nearest collision among both, when no collision time is a NaN or `-0.0`.
proof fn lemma_combine_nearest<T, H>(
    hit_at: spec_fn(T, Scalar) -> bool,
    left: Seq<T>,
    right: Seq<T>,
    iv: Interval,
    l: Option<(H, Scalar)>,
    r: Option<(H, Scalar)>,
)
    requires
        nearest_among(hit_at, left, iv, l),
        nearest_among(hit_at, right, iv, r),
        forall|o: T, t: Scalar| #[trigger] hit_at(o, t) ==> t.is_plain(),
    ensures
        nearest_among(hit_at, left + right, iv, earlier_spec(l, r)),
{
    let all = left + right;
    let n = left.len();
    assert forall|j: int| 0 <= j < n implies #[trigger] all[j] == left[j] by {}
    assert forall|j: int| n <= j < all.len() implies #[trigger] all[j] == right[j - n] by {}
    match (l, r) {
        (None, None) => {
            assert forall|j: int, t: Scalar| 0 <= j < all.len() implies !#[trigger] hit_in(
                hit_at,
                all[j],
                iv,
                t,
            ) by {
                if j < n {
                    assert(!hit_in(hit_at, left[j], iv, t));
                } else {
                    assert(!hit_in(hit_at, right[j - n], iv, t));
                }
            }
        },
        (Some(a), None) => {
            let j0 = choose|j: int| 0 <= j < left.len() && #[trigger] hit_in(hit_at, left[j], iv, a.1);
            assert(hit_in(hit_at, all[j0], iv, a.1));
            assert forall|j: int, t: Scalar|
                0 <= j < all.len() && #[trigger] hit_in(hit_at, all[j], iv, t) implies a.1.order_key()
                <= t.order_key() by {
                if j < n {
                    assert(hit_in(hit_at, left[j], iv, t));
                } else {
                    assert(!hit_in(hit_at, right[j - n], iv, t));
                }
            }
        },
        (None, Some(b)) => {
            let j0 = choose|j: int| 0 <= j < right.len() && #[trigger] hit_in(hit_at, right[j], iv, b.1);
            assert(hit_in(hit_at, all[n + j0], iv, b.1));
            assert forall|j: int, t: Scalar|
                0 <= j < all.len() && #[trigger] hit_in(hit_at, all[j], iv, t) implies b.1.order_key()
                <= t.order_key() by {
                if j < n {
                    assert(!hit_in(hit_at, left[j], iv, t));
                } else {
                    assert(hit_in(hit_at, right[j - n], iv, t));
                }
            }
        },
        (Some(a), Some(b)) => {
            let ja = choose|j: int| 0 <= j < left.len() && #[trigger] hit_in(hit_at, left[j], iv, a.1);
            let jb = choose|j: int| 0 <= j < right.len() && #[trigger] hit_in(hit_at, right[j], iv, b.1);
            assert(hit_at(left[ja], a.1));
            assert(hit_at(right[jb], b.1));
            crate::scalar::lemma_plain_comparisons(a.1, b.1);
            assert(hit_in(hit_at, all[ja], iv, a.1));
            assert(hit_in(hit_at, all[n + jb], iv, b.1));
            assert(hit_in(hit_at, right[jb], iv, b.1));
            assert(hit_in(hit_at, left[ja], iv, a.1));
            assert forall|j: int, t: Scalar|
                0 <= j < all.len() && #[trigger] hit_in(hit_at, all[j], iv, t) implies earlier_spec(
                l,
                r,
            ).unwrap().1.order_key() <= t.order_key() by {
                if j < n {
                    assert(hit_in(hit_at, left[j], iv, t));
                } else {
                    assert(hit_in(hit_at, right[j - n], iv, t));
                }
            }
        },
    }
}

/// Casting a ray over a constructed scene tree finds the nearest collision
/// among all its objects inside `ray_time`, and none exactly when no object is
/// met there, when the object test reports each object's earliest collision,
/// the objects' boxes keep their collisions, no box has a NaN end, and no
/// collision time is a NaN or `-0.0`. This is what a scan over every object
/// (a scene list) finds.
pub proof fn lemma_tree_hit_nearest<'m, T: 'm, H, F, G>(
    tree: &'m SceneTree<T>,
    ray_time: Interval,
    hit_object: F,
    slab_times: G,
    hit_at: spec_fn(T, Scalar) -> bool,
    result: Option<(H, Scalar)>,
)
    where
        F: Fn(&'m T, Interval) -> Option<(H, Scalar)>,
        G: Fn(&BoundingBox) -> [(Scalar, Scalar); 3],

    requires
        tree_hit_spec(tree, ray_time, hit_object, slab_times, result),
        tree.well_formed(),
        forall|i: int| 0 <= i < tree.items().len() ==> extents_ordered(#[trigger] tree.items()[i].1@),
        reports_earliest(hit_object, hit_at),
        boxes_keep_hits(hit_at, slab_times, item_objects(tree.items()), item_boxes(tree.items())),
        forall|o: T, t: Scalar| #[trigger] hit_at(o, t) ==> t.is_plain(),
    ensures
        nearest_among(hit_at, item_objects(tree.items()), ray_time, result),
    decreases tree,
{
    let items = tree.items();
    let objs = item_objects(items);
    match tree {
        SceneTree::Empty => {},
        SceneTree::Leaf { object, bound } => {
            assert(objs[0] == *object);
            match result {
                None => {
                    assert forall|j: int, t: Scalar| 0 <= j < objs.len() implies !#[trigger] hit_in(
                        hit_at,
                        objs[j],
                        ray_time,
                        t,
                    ) by {
                        assert(!hit_in(hit_at, *object, ray_time, t));
                    }
                },
                Some(found) => {
                    assert(hit_in(hit_at, objs[0], ray_time, found.1));
                    assert forall|j: int, t: Scalar|
                        0 <= j < objs.len() && #[trigger] hit_in(hit_at, objs[j], ray_time, t) implies found.1.order_key()
                        <= t.order_key() by {
                        assert(hit_in(hit_at, *object, ray_time, t));
                    }
                },
            }
        },
        SceneTree::Tree { left, right, bound } => {
            let li = left.items();
            let ri = right.items();
            let boxes = item_boxes(items);
            lemma_tree_bound_covers_items(*tree);
            assert forall|i: int| 0 <= i < boxes.len() implies extents_cover(bound@, #[trigger] boxes[i]@) by {
                assert(boxes[i] == items[i].1);
            }
            let times = choose|times: [(Scalar, Scalar); 3]|
                call_ensures(slab_times, (bound,), times) && match intersect_spec(*bound, ray_time, times@) {
                    None => result is None,
                    Some(inner) => exists|l: Option<(H, Scalar)>, r: Option<(H, Scalar)>|
                        tree_hit_spec(&**left, inner, hit_object, slab_times, l)
                            && tree_hit_spec(&**right, inner, hit_object, slab_times, r)
                            && result == earlier_spec(l, r),
                };
            if let Some(inner) = intersect_spec(*bound, ray_time, times@) {
                let (l, r) = choose|l: Option<(H, Scalar)>, r: Option<(H, Scalar)>|
                    tree_hit_spec(&**left, inner, hit_object, slab_times, l)
                        && tree_hit_spec(&**right, inner, hit_object, slab_times, r)
                        && result == earlier_spec(l, r);
                let n = li.len();
                assert forall|i: int| 0 <= i < n implies #[trigger] items[i] == li[i] by {}
                assert forall|i: int| 0 <= i < ri.len() implies #[trigger] items[n + i] == ri[i] by {}
                // The premises carry over to each part.
                assert forall|i: int| 0 <= i < li.len() implies extents_ordered(#[trigger] li[i].1@) by {
                    assert(items[i] == li[i]);
                }
                assert forall|i: int| 0 <= i < ri.len() implies extents_ordered(#[trigger] ri[i].1@) by {
                    assert(items[n + i] == ri[i]);
                }
                let ol = item_objects(li);
                let bl = item_boxes(li);
                let or = item_objects(ri);
                let br = item_boxes(ri);
                assert forall|i: int, b: BoundingBox, ts: [(Scalar, Scalar); 3], iv: Interval, t: Scalar|
                    0 <= i < ol.len() && extents_cover(b@, #[trigger] bl[i]@) && #[trigger] call_ensures(
                        slab_times,
                        (&b,),
                        ts,
                    ) && #[trigger] hit_in(hit_at, ol[i], iv, t) implies intersect_spec(b, iv, ts@) is Some
                    && inside_open(intersect_spec(b, iv, ts@).unwrap(), t) by {
                    assert(objs[i] == ol[i]);
                    assert(boxes[i] == bl[i]);
                    assert(hit_in(hit_at, objs[i], iv, t));
                    assert(extents_cover(b@, boxes[i]@));
                }
                assert forall|i: int, b: BoundingBox, ts: [(Scalar, Scalar); 3], iv: Interval, t: Scalar|
                    0 <= i < or.len() && extents_cover(b@, #[trigger] br[i]@) && #[trigger] call_ensures(
                        slab_times,
                        (&b,),
                        ts,
                    ) && #[trigger] hit_in(hit_at, or[i], iv, t) implies intersect_spec(b, iv, ts@) is Some
                    && inside_open(intersect_spec(b, iv, ts@).unwrap(), t) by {
                    assert(objs[n + i] == or[i]);
                    assert(boxes[n + i] == br[i]);
                    assert(hit_in(hit_at, objs[n + i], iv, t));
                    assert(extents_cover(b@, boxes[n + i]@));
                }
                lemma_tree_hit_nearest(&**left, inner, hit_object, slab_times, hit_at, l);
                lemma_tree_hit_nearest(&**right, inner, hit_object, slab_times, hit_at, r);
                lemma_combine_nearest(hit_at, ol, or, inner, l, r);
                assert(objs =~= ol + or);
            }
            lemma_nearest_through_box(hit_at, slab_times, objs, boxes, *bound, times, ray_time, result);
        },
    }
}

/// Two groups holding the same objects with their boxes (in any order) have
/// the same nearest collision time, and one has none exactly when the other
/// has none: so a scene tree built from a list of objects answers with the
/// same collision time as a scan over that list.
pub proof fn lemma_nearest_same_objects<T, H>(
    hit_at: spec_fn(T, Scalar) -> bool,
    items1: Seq<(T, BoundingBox)>,
    items2: Seq<(T, BoundingBox)>,
    iv: Interval,
    r1: Option<(H, Scalar)>,
    r2: Option<(H, Scalar)>,
)
    requires
        items1.to_multiset() == items2.to_multiset(),
        nearest_among(hit_at, item_objects(items1), iv, r1),
        nearest_among(hit_at, item_objects(items2), iv, r2),
    ensures
        r1 is None <==> r2 is None,
        r1 is Some ==> r1.unwrap().1 == r2.unwrap().1,
{
    broadcast use vstd::seq_lib::group_to_multiset_ensures;

    let o1 = item_objects(items1);
    let o2 = item_objects(items2);
    // Every collision of an object of one group is one of an object of the other.
    assert forall|j: int, t: Scalar|
        0 <= j < o1.len() && #[trigger] hit_in(hit_at, o1[j], iv, t) implies exists|k: int|
        0 <= k < o2.len() && #[trigger] hit_in(hit_at, o2[k], iv, t) by {
        assert(items1.to_multiset().count(items1[j]) > 0);
        assert(items2.contains(items1[j]));
        let k = choose|k: int| 0 <= k < items2.len() && items2[k] == items1[j];
        assert(o2[k] == o1[j]);
    }
    assert forall|k: int, t: Scalar|
        0 <= k < o2.len() && #[trigger] hit_in(hit_at, o2[k], iv, t) implies exists|j: int|
        0 <= j < o1.len() && #[trigger] hit_in(hit_at, o1[j], iv, t) by {
        assert(items2.to_multiset().count(items2[k]) > 0);
        assert(items1.contains(items2[k]));
        let j = choose|j: int| 0 <= j < items1.len() && items1[j] == items2[k];
        assert(o1[j] == o2[k]);
    }
    match (r1, r2) {
        (Some(a), Some(b)) => {
            let j = choose|j: int| 0 <= j < o1.len() && #[trigger] hit_in(hit_at, o1[j], iv, a.1);
            let k = choose|k: int| 0 <= k < o2.len() && #[trigger] hit_in(hit_at, o2[k], iv, b.1);
            let k2 = choose|k2: int| 0 <= k2 < o2.len() && #[trigger] hit_in(hit_at, o2[k2], iv, a.1);
            let j2 = choose|j2: int| 0 <= j2 < o1.len() && #[trigger] hit_in(hit_at, o1[j2], iv, b.1);
            crate::scalar::lemma_order_key_injective(a.1, b.1);
        },
        (Some(a), None) => {
            let j = choose|j: int| 0 <= j < o1.len() && #[trigger] hit_in(hit_at, o1[j], iv, a.1);
            let k = choose|k: int| 0 <= k < o2.len() && #[trigger] hit_in(hit_at, o2[k], iv, a.1);
        },
        (None, Some(b)) => {
            let k = choose|k: int| 0 <= k < o2.len() && #[trigger] hit_in(hit_at, o2[k], iv, b.1);
            let j = choose|j: int| 0 <= j < o1.len() && #[trigger] hit_in(hit_at, o1[j], iv, b.1);
        },
        (None, None) => {},
    }
}

/// Whether every box that covers the box of one of `objects` holds all that
/// object's collisions, by the geometry of its slabs: when the ray meets the
/// object at time `t`, the box is not empty, and on each axis the ray's two
/// crossing times of the box's planes (neither a NaN) lie one before and one
/// after `t`.
pub open spec fn slabs_hold_hits<T, G>(
    hit_at: spec_fn(T, Scalar) -> bool,
    slab_times: G,
    objects: Seq<T>,
    boxes: Seq<BoundingBox>,
) -> bool
    where
        G: Fn(&BoundingBox) -> [(Scalar, Scalar); 3],
{
    forall|i: int, b: BoundingBox, times: [(Scalar, Scalar); 3], iv: Interval, t: Scalar|
        #![trigger call_ensures(slab_times, (&b,), times), hit_in(hit_at, objects[i], iv, t), extents_cover(b@, boxes[i]@)]
        0 <= i < objects.len() && extents_cover(b@, boxes[i]@) && call_ensures(
            slab_times,
            (&b,),
            times,
        ) && hit_in(hit_at, objects[i], iv, t) ==> {
            &&& !b@.0.end.less_than(b@.0.start)
            &&& !b@.1.end.less_than(b@.1.start)
            &&& !b@.2.end.less_than(b@.2.start)
            &&& forall|a: int| 0 <= a < 3 ==> straddles(#[trigger] times@[a], t)
        }
}

/// Whether the two crossing times are not NaN and `t` lies strictly between
/// them, in the total order.
pub open spec fn straddles(crossing: (Scalar, Scalar), t: Scalar) -> bool {
    &&& !crossing.0.is_nan_spec()
    &&& !crossing.1.is_nan_spec()
    &&& ((crossing.0.order_key() < t.order_key() && t.order_key() < crossing.1.order_key()) || (
    crossing.1.order_key() < t.order_key() && t.order_key() < crossing.0.order_key()))
}

/// Narrowing an interval that holds `t` strictly inside by a slab whose
/// crossing times straddle `t` leaves an interval that still holds `t`
/// strictly inside, so it is not empty.
proof fn lemma_narrow_keeps(current: Interval, crossing: (Scalar, Scalar), t: Scalar)
    requires
        inside_open(current, t),
        straddles(crossing, t),
    ensures
        inside_open(crate::bound::narrow_spec(current, crossing), t),
        !crate::bound::narrow_spec(current, crossing).end.at_most(
            crate::bound::narrow_spec(current, crossing).start,
        ),
{
}

/// A box whose slabs straddle a collision keeps it when it clips an interval
/// that holds the collision: so the geometric premise gives the premise of the
/// nearest-hit laws.
pub proof fn lemma_slabs_keep_hits<T, G>(
    hit_at: spec_fn(T, Scalar) -> bool,
    slab_times: G,
    objects: Seq<T>,
    boxes: Seq<BoundingBox>,
)
    where
        G: Fn(&BoundingBox) -> [(Scalar, Scalar); 3],

    requires
        slabs_hold_hits(hit_at, slab_times, objects, boxes),
    ensures
        boxes_keep_hits(hit_at, slab_times, objects, boxes),
{
    assert forall|i: int, b: BoundingBox, times: [(Scalar, Scalar); 3], iv: Interval, t: Scalar|
        0 <= i < objects.len() && extents_cover(b@, #[trigger] boxes[i]@) && #[trigger] call_ensures(
            slab_times,
            (&b,),
            times,
        ) && #[trigger] hit_in(hit_at, objects[i], iv, t) implies intersect_spec(b, iv, times@) is Some
        && inside_open(intersect_spec(b, iv, times@).unwrap(), t) by {
        let ts = times@;
        assert(straddles(ts[0], t));
        assert(straddles(ts[1], t));
        assert(straddles(ts[2], t));
        let n1 = crate::bound::narrow_spec(iv, ts[0]);
        lemma_narrow_keeps(iv, ts[0], t);
        let n2 = crate::bound::narrow_spec(n1, ts[1]);
        lemma_narrow_keeps(n1, ts[1], t);
        let n3 = crate::bound::narrow_spec(n2, ts[2]);
        lemma_narrow_keeps(n2, ts[2], t);
        let d1 = ts.drop_first();
        let d2 = d1.drop_first();
        let d3 = d2.drop_first();
        assert(d1[0] == ts[1] && d2[0] == ts[2] && d3.len() == 0);
        assert(crate::bound::clip_spec(n3, d3) == Some(n3));
        assert(crate::bound::clip_spec(n2, d2) == crate::bound::clip_spec(n3, d3));
        assert(crate::bound::clip_spec(n1, d1) == crate::bound::clip_spec(n2, d2));
        assert(crate::bound::clip_spec(iv, ts) == crate::bound::clip_spec(n1, d1));
    }
}

/// The nearest-hit law of scene lists with the geometric premise: casting a ray
/// over a list finds the nearest collision among all its objects inside
/// `ray_time`, and none exactly when no object is met there, when the object
/// test reports each object's earliest collision, every box covering an
/// object's box has slabs straddling its collisions, and no box has a NaN end.
pub proof fn lemma_list_hit_nearest_by_slabs<'m, T: 'm, H, F, G>(
    bound: BoundingBox,
    objects: Seq<T>,
    boxes: Seq<BoundingBox>,
    ray_time: Interval,
    hit_object: F,
    slab_times: G,
    hit_at: spec_fn(T, Scalar) -> bool,
    result: Option<(H, Scalar)>,
)
    where
        F: Fn(&'m T, Interval) -> Option<(H, Scalar)>,
        G: Fn(&BoundingBox) -> [(Scalar, Scalar); 3],

    requires
        list_hit_spec(bound, objects, ray_time, hit_object, slab_times, result),
        bound@ == enclose_all(boxes),
        objects.len() == boxes.len(),
        forall|i: int| 0 <= i < boxes.len() ==> extents_ordered(#[trigger] boxes[i]@),
        reports_earliest(hit_object, hit_at),
        slabs_hold_hits(hit_at, slab_times, objects, boxes),
    ensures
        nearest_among(hit_at, objects, ray_time, result),
{
    lemma_slabs_keep_hits(hit_at, slab_times, objects, boxes);
    lemma_list_hit_nearest(bound, objects, boxes, ray_time, hit_object, slab_times, hit_at, result);
}

/// The nearest-hit law of scene trees with the geometric premise: casting a ray
/// over a constructed tree finds the nearest collision among all its objects
/// inside `ray_time`, and none exactly when no object is met there, when the
/// object test reports each object's earliest collision, every box covering an
/// object's box has slabs straddling its collisions, no box has a NaN end, and
/// no collision time is a NaN or `-0.0`.
pub proof fn lemma_tree_hit_nearest_by_slabs<'m, T: 'm, H, F, G>(
    tree: &'m SceneTree<T>,
    ray_time: Interval,
    hit_object: F,
    slab_times: G,
    hit_at: spec_fn(T, Scalar) -> bool,
    result: Option<(H, Scalar)>,
)
    where
        F: Fn(&'m T, Interval) -> Option<(H, Scalar)>,
        G: Fn(&BoundingBox) -> [(Scalar, Scalar); 3],

    requires
        tree_hit_spec(tree, ray_time, hit_object, slab_times, result),
        tree.well_formed(),
        forall|i: int| 0 <= i < tree.items().len() ==> extents_ordered(#[trigger] tree.items()[i].1@),
        reports_earliest(hit_object, hit_at),
        slabs_hold_hits(hit_at, slab_times, item_objects(tree.items()), item_boxes(tree.items())),
        forall|o: T, t: Scalar| #[trigger] hit_at(o, t) ==> t.is_plain(),
    ensures
        nearest_among(hit_at, item_objects(tree.items()), ray_time, result),
{
    lemma_slabs_keep_hits(hit_at, slab_times, item_objects(tree.items()), item_boxes(tree.items()));
    lemma_tree_hit_nearest(tree, ray_time, hit_object, slab_times, hit_at, result);
}

} // verus!
