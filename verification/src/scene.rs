//! A flat list of scene objects with a running bounding box.
//!
//! Each object is carried together with its bounding box; testing a ray against
//! an object, and computing where a ray crosses a box's planes, is left to the
//! caller.

use vstd::prelude::*;

use crate::bound::{
    enclose_all, intersect_spec, enclosing_extents, extents_cover, extents_ordered, lemma_enclosing_covers_both,
    lemma_enclosing_empty_box, lemma_extents_cover_transitive, BoundingBox, BoxExtents,
};
use crate::bvh::{reports_within, within_total};
use crate::interval::Interval;
use crate::scalar::Scalar;

verus! {

broadcast use vstd::seq_lib::group_seq_properties;

/// A list of objects and their collective bounding box.
///
/// Ray collision detection is performed by checking every object in the list,
/// which may be slow for large scenes. Consider using [`SceneTree`] instead
/// for scenes with many objects.
pub struct SceneList<T> {
    objects: Vec<T>,
    bounds: BoundingBox,
    object_bounds: Ghost<Seq<BoundingBox>>,
}

impl<T> SceneList<T> {
    /// One box per object, and the scene's box is the enclosure of all of them.
    #[verifier::type_invariant]
    spec fn well_formed(self) -> bool {
        &&& self.objects@.len() == self.object_bounds@.len()
        &&& self.bounds@ == enclose_all(self.object_bounds@)
    }

    /// The objects, in the order they were added.
    pub closed spec fn objects_spec(self) -> Seq<T> {
        self.objects@
    }

    /// The boxes the objects were added with, in the same order.
    pub closed spec fn object_bounds_spec(self) -> Seq<BoundingBox> {
        self.object_bounds@
    }

    /// The scene's bounding box.
    pub closed spec fn bounds_spec(self) -> BoundingBox {
        self.bounds
    }

    /// Constructs a new empty scene, whose box is the empty box.
    pub fn new() -> (r: SceneList<T>)
        ensures
            r.objects_spec() == Seq::<T>::empty(),
            r.object_bounds_spec() == Seq::<BoundingBox>::empty(),
            r.bounds_spec()@ == BoundingBox::empty_spec(),
    {
        SceneList { objects: Vec::new(), bounds: BoundingBox::empty(), object_bounds: Ghost(Seq::empty()) }
    }

    /// Adds a new object with its bounding box into this scene, updating the
    /// scene's bounding box to enclose it.
    pub fn push(&mut self, object: T, object_bounds: BoundingBox)
        ensures
            final(self).objects_spec() == old(self).objects_spec().push(object),
            final(self).object_bounds_spec() == old(self).object_bounds_spec().push(object_bounds),
            final(self).bounds_spec()@ == BoundingBox::enclosing_spec(
                old(self).bounds_spec(),
                object_bounds,
            ),
    {
        proof {
            use_type_invariant(&*self);
        }
        let mut list = SceneList::new();
        std::mem::swap(&mut list, self);
        let SceneList { mut objects, bounds, object_bounds: Ghost(boxes) } = list;
        let new_bounds = BoundingBox::enclosing(&bounds, &object_bounds);
        proof {
            assert(boxes.push(object_bounds).drop_last() =~= boxes);
        }
        objects.push(object);
        *self = SceneList { objects, bounds: new_bounds, object_bounds: Ghost(boxes.push(object_bounds)) };
    }

    /// Constructs a scene from objects with their boxes, adding them in order.
    pub fn from_objects(objects: Vec<(T, BoundingBox)>) -> (r: SceneList<T>)
        ensures
            r.objects_spec() == objects@.map_values(|p: (T, BoundingBox)| p.0),
            r.object_bounds_spec() == objects@.map_values(|p: (T, BoundingBox)| p.1),
            r.bounds_spec()@ == enclose_all(objects@.map_values(|p: (T, BoundingBox)| p.1)),
    {
        // Reverse the objects onto a stack, then pop them off in their original
        // order.
        let mut rest = objects;
        let ghost all = rest@;
        let mut reversed: Vec<(T, BoundingBox)> = Vec::new();
        while rest.len() > 0
            invariant
                rest@ == all.subrange(0, rest@.len() as int),
                rest@.len() + reversed@.len() == all.len(),
                forall|i: int| 0 <= i < reversed@.len() ==> #[trigger] reversed@[i] == all[all.len() - 1 - i],
            decreases rest.len(),
        {
            let item = rest.pop().unwrap();
            reversed.push(item);
        }
        let mut scene = SceneList::new();
        let ghost mut k: int = 0;
        while reversed.len() > 0
            invariant
                0 <= k <= all.len(),
                reversed@.len() == all.len() - k,
                forall|i: int| 0 <= i < reversed@.len() ==> #[trigger] reversed@[i] == all[all.len() - 1 - i],
                scene.objects_spec() == all.subrange(0, k).map_values(|p: (T, BoundingBox)| p.0),
                scene.object_bounds_spec() == all.subrange(0, k).map_values(
                    |p: (T, BoundingBox)| p.1,
                ),
            decreases reversed.len(),
        {
            let (object, bound) = reversed.pop().unwrap();
            proof {
                assert(all[k] == (object, bound));
                assert(all.subrange(0, k + 1) =~= all.subrange(0, k).push((object, bound)));
                k = k + 1;
            }
            scene.push(object, bound);
            proof {
                assert(scene.objects_spec() =~= all.subrange(0, k).map_values(
                    |p: (T, BoundingBox)| p.0,
                ));
                assert(scene.object_bounds_spec() =~= all.subrange(0, k).map_values(
                    |p: (T, BoundingBox)| p.1,
                ));
            }
        }
        proof {
            assert(all.subrange(0, k) =~= all);
            use_type_invariant(&scene);
        }
        scene
    }

    /// The objects of this scene, in the order they were added.
    pub fn objects(&self) -> (r: &[T])
        ensures
            r@ == self.objects_spec(),
    {
        self.objects.as_slice()
    }

    /// Returns a bounding box enclosing every object of this scene.
    pub fn bounds(&self) -> (r: &BoundingBox)
        ensures
            *r == self.bounds_spec(),
            r@ == enclose_all(self.object_bounds_spec()),
            self.objects_spec().len() == self.object_bounds_spec().len(),
    {
        proof {
            use_type_invariant(self);
        }
        &self.bounds
    }
}

impl<T> Default for SceneList<T> {
    /// An empty scene.
    fn default() -> (r: SceneList<T>)
        ensures
            r.objects_spec() == Seq::<T>::empty(),
            r.object_bounds_spec() == Seq::<BoundingBox>::empty(),
            r.bounds_spec()@ == BoundingBox::empty_spec(),
    {
        SceneList::new()
    }
}

/// The box enclosing a list of boxes encloses each of them, when no box has a
/// NaN end; and it has no NaN end itself unless the list is empty.
pub proof fn lemma_enclose_all_covers(boxes: Seq<BoundingBox>)
    requires
        forall|i: int| 0 <= i < boxes.len() ==> extents_ordered(#[trigger] boxes[i]@),
    ensures
        forall|i: int| 0 <= i < boxes.len() ==> extents_cover(enclose_all(boxes), #[trigger] boxes[i]@),
        boxes.len() > 0 ==> extents_ordered(enclose_all(boxes)),
    decreases boxes.len(),
{
    if boxes.len() > 0 {
        let init = boxes.drop_last();
        lemma_enclose_all_covers(init);
        let last = boxes.last()@;
        if init.len() == 0 {
            lemma_enclosing_empty_box(last);
            crate::interval::lemma_covers_reflexive(last.0);
            crate::interval::lemma_covers_reflexive(last.1);
            crate::interval::lemma_covers_reflexive(last.2);
        } else {
            lemma_enclosing_covers_both(enclose_all(init), last);
            assert forall|i: int| 0 <= i < boxes.len() implies extents_cover(
                enclose_all(boxes),
                #[trigger] boxes[i]@,
            ) by {
                if i < init.len() {
                    assert(init[i] == boxes[i]);
                    lemma_extents_cover_transitive(enclose_all(boxes), enclose_all(init), boxes[i]@);
                }
            }
        }
    }
}

/// Whether `result` is a possible outcome of testing a ray against the objects
/// `objects[k..]` in turn, starting from the time interval `ray_time` and the
/// hit `best` found so far: each hit found becomes the best one, and the end
/// of the interval is lowered to its time so that only sooner hits count.
pub open spec fn scan_hit_spec<'m, T: 'm, H, F>(
    objects: Seq<T>,
    k: int,
    ray_time: Interval,
    best: Option<(H, Scalar)>,
    hit_object: F,
    result: Option<(H, Scalar)>,
) -> bool
    where
        F: Fn(&'m T, Interval) -> Option<(H, Scalar)>,
    decreases objects.len() - k,
{
    if k < 0 || k >= objects.len() {
        result == best
    } else {
        exists|h: Option<(H, Scalar)>|
            #![trigger call_ensures(hit_object, (&objects[k], ray_time), h)]
            call_ensures(hit_object, (&objects[k], ray_time), h) && match h {
                Some(found) => scan_hit_spec(
                    objects,
                    k + 1,
                    Interval { start: ray_time.start, end: found.1 },
                    Some(found),
                    hit_object,
                    result,
                ),
                None => scan_hit_spec(objects, k + 1, ray_time, best, hit_object, result),
            }
    }
}

/// Whether `result` is a possible outcome of casting a ray within `ray_time`
/// over a scene list with box `bound` and objects `objects`: `ray_time` is
/// clipped to the box (nothing if the ray misses it), then the objects are
/// scanned as [`scan_hit_spec`] says.
pub open spec fn list_hit_spec<'m, T: 'm, H, F, G>(
    bound: BoundingBox,
    objects: Seq<T>,
    ray_time: Interval,
    hit_object: F,
    slab_times: G,
    result: Option<(H, Scalar)>,
) -> bool
    where
        F: Fn(&'m T, Interval) -> Option<(H, Scalar)>,
        G: Fn(&BoundingBox) -> [(Scalar, Scalar); 3],
{
    exists|times: [(Scalar, Scalar); 3]|
        #![trigger call_ensures(slab_times, (&bound,), times)]
        call_ensures(slab_times, (&bound,), times) && match intersect_spec(bound, ray_time, times@) {
            None => result is None,
            Some(inner) => scan_hit_spec(objects, 0, inner, None, hit_object, result),
        }
}

impl<T> SceneList<T> {
    /// Determines the earliest collision of a ray with the objects of this scene
    /// within `ray_time`.
    ///
    /// `slab_times` gives the times at which the ray crosses the planes of a box
    /// on each axis; `ray_time` is first clipped to the scene's box, answering
    /// `None` if the ray misses it. Then each object is tested in turn with
    /// `hit_object`, and each collision found narrows the interval's end to its
    /// time, so that the last collision found is the soonest.
    ///
    /// When the object test reports each object's earliest collision and boxes
    /// keep their objects' collisions, the answer is the nearest collision
    /// among all objects (`nearest::lemma_list_hit_nearest`).
    pub fn hit<'m, H, F, G>(&'m self, ray_time: Interval, hit_object: &F, slab_times: &G) -> (r: Option<
        (H, Scalar),
    >) where
        F: Fn(&'m T, Interval) -> Option<(H, Scalar)>,
        G: Fn(&BoundingBox) -> [(Scalar, Scalar); 3],

        requires
            forall|o: &'m T, i: Interval| #[trigger] hit_object.requires((o, i)),
            forall|b: &BoundingBox| #[trigger] slab_times.requires((b,)),
        ensures
            self.bounds_spec()@ == enclose_all(self.object_bounds_spec()),
            self.objects_spec().len() == self.object_bounds_spec().len(),
            list_hit_spec(self.bounds_spec(), self.objects_spec(), ray_time, hit_object, slab_times, r),
    {
        proof {
            use_type_invariant(self);
        }
        let times = slab_times(&self.bounds);
        assert(call_ensures(slab_times, (&self.bounds,), times));
        let mut curr_interval = match self.bounds.intersected_by(ray_time, &times) {
            None => return None,
            Some(inner) => inner,
        };
        let ghost start_interval = curr_interval;
        let objects = self.objects.as_slice();
        let mut soonest_hit: Option<(H, Scalar)> = None;
        let mut i: usize = 0;
        while i < objects.len()
            invariant
                objects@ == self.objects_spec(),
                i <= objects@.len(),
                forall|o: &'m T, iv: Interval| #[trigger] hit_object.requires((o, iv)),
                forall|res: Option<(H, Scalar)>|
                    scan_hit_spec(objects@, i as int, curr_interval, soonest_hit, hit_object, res)
                        ==> #[trigger] scan_hit_spec(
                        objects@,
                        0,
                        start_interval,
                        None,
                        hit_object,
                        res,
                    ),
            decreases objects.len() - i,
        {
            let ghost before_interval = curr_interval;
            let ghost before_best = soonest_hit;
            let found = hit_object(&objects[i], curr_interval);
            proof {
                assert forall|res: Option<(H, Scalar)>|
                    scan_hit_spec(
                        objects@,
                        i + 1,
                        if found is Some {
                            Interval { start: before_interval.start, end: found.unwrap().1 }
                        } else {
                            before_interval
                        },
                        if found is Some {
                            found
                        } else {
                            before_best
                        },
                        hit_object,
                        res,
                    ) implies scan_hit_spec(
                        objects@,
                        0,
                        start_interval,
                        None,
                        hit_object,
                        res,
                    ) by {
                    assert(scan_hit_spec(objects@, i as int, before_interval, before_best, hit_object, res));
                }
            }
            match found {
                Some(hit) => {
                    curr_interval.end = hit.1;
                    soonest_hit = Some(hit);
                },
                None => {},
            }
            i = i + 1;
        }
        assert(scan_hit_spec(objects@, i as int, curr_interval, soonest_hit, hit_object, soonest_hit));
        soonest_hit
    }
}

/// While scanning, every collision found lies inside the interval the scan
/// started from, when each object only reports collisions inside the interval
/// it is asked about: the interval's end only ever moves down to a reported
/// time.
pub proof fn lemma_scan_hit_within<'m, T: 'm, H, F>(
    objects: Seq<T>,
    k: int,
    outer: Interval,
    ray_time: Interval,
    best: Option<(H, Scalar)>,
    hit_object: F,
    result: Option<(H, Scalar)>,
)
    where
        F: Fn(&'m T, Interval) -> Option<(H, Scalar)>,

    requires
        scan_hit_spec(objects, k, ray_time, best, hit_object, result),
        reports_within(hit_object),
        ray_time.start == outer.start,
        ray_time.end.order_key() <= outer.end.order_key(),
        best is Some ==> within_total(outer, best.unwrap().1),
    ensures
        result is Some ==> within_total(outer, result.unwrap().1),
    decreases objects.len() - k,
{
    if 0 <= k < objects.len() {
        let h = choose|h: Option<(H, Scalar)>|
            call_ensures(hit_object, (&objects[k], ray_time), h) && match h {
                Some(found) => scan_hit_spec(
                    objects,
                    k + 1,
                    Interval { start: ray_time.start, end: found.1 },
                    Some(found),
                    hit_object,
                    result,
                ),
                None => scan_hit_spec(objects, k + 1, ray_time, best, hit_object, result),
            };
        match h {
            Some(found) => {
                lemma_scan_hit_within(
                    objects,
                    k + 1,
                    outer,
                    Interval { start: ray_time.start, end: found.1 },
                    Some(found),
                    hit_object,
                    result,
                );
            },
            None => {
                lemma_scan_hit_within(objects, k + 1, outer, ray_time, best, hit_object, result);
            },
        }
    }
}

} // verus!
