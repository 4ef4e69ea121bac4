//! Bounding volume hierarchy (BVH) for efficient ray collisions in large
//! scenes.
//!
//! Each object is carried together with its bounding box; the library decides
//! how objects are grouped and what boxes enclose the groups, and which of the
//! collisions found is the earliest, while testing a ray against an object, and
//! computing where a ray crosses a box's planes, is left to the caller.

use rand::RngExt;
use vstd::multiset::Multiset;
use vstd::prelude::*;

use crate::bound::{
    enclose_all, extents_plain, intersect_spec, enclosing_extents, lemma_enclose_all_append,
    lemma_enclosing_empty_box, extents_cover, extents_ordered, lemma_enclosing_covers_both,
    lemma_extents_cover_transitive, BoundingBox, BoxExtents,
};
use crate::interval::Interval;
use crate::scalar::Scalar;

verus! {

broadcast use vstd::seq_lib::group_seq_properties, vstd::seq_lib::group_to_multiset_ensures;

/// Whether box `b1` sorts no later than box `b2` along axis `axis`: by the start
/// of their extents in the total order of `f64::total_cmp`, ties broken by the
/// end.
pub open spec fn sorts_before(b1: BoundingBox, b2: BoundingBox, axis: int) -> bool {
    let i1 = b1.axis_spec(axis);
    let i2 = b2.axis_spec(axis);
    ||| i1.start.order_key() < i2.start.order_key()
    ||| (i1.start.order_key() == i2.start.order_key() && i1.end.order_key()
        <= i2.end.order_key())
}

/// Whether the boxes of `items` are in order along `axis`.
pub open spec fn sorted_along<T>(items: Seq<(T, BoundingBox)>, axis: int) -> bool {
    forall|i: int, j: int|
        0 <= i < j < items.len() ==> #[trigger] sorts_before(items[i].1, items[j].1, axis)
}

/// Whether every box of `left` sorts no later than every box of `right` along
/// `axis`.
pub open spec fn split_along<T>(
    left: Seq<(T, BoundingBox)>,
    right: Seq<(T, BoundingBox)>,
    axis: int,
) -> bool {
    forall|i: int, j: int|
        0 <= i < left.len() && 0 <= j < right.len() ==> #[trigger] sorts_before(
            left[i].1,
            right[j].1,
            axis,
        )
}

/// Whether `sorts_before` holds between two boxes along `axis`, computed.
fn box_sorts_before(b1: &BoundingBox, b2: &BoundingBox, axis: usize) -> (r: bool)
    requires
        axis < 3,
    ensures
        r == sorts_before(*b1, *b2, axis as int),
{
    let i1 = b1.axis(axis);
    let i2 = b2.axis(axis);
    i1.start.total_lt(&i2.start) || (i1.start.total_eq(&i2.start) && !i2.end.total_lt(&i1.end))
}

/// Draws a number below `bound` at random.
///
/// Calls `rand::rng().random_range(0..bound)`, which yields a value in
/// `[0, bound)` and panics only on an empty range, which `requires` rules out;
/// the contract states only that range, since the value is drawn at random.
#[verifier::external_body]
fn random_below(bound: usize) -> (r: usize)
    requires
        bound > 0,
    ensures
        r < bound,
{
    rand::rng().random_range(0..bound)
}

/// Puts objects in order of their boxes along `axis`, keeping every object.
///
/// A merge sort: the objects are split in half, each half is sorted, and the
/// two are merged. Objects whose boxes tie may come out in any order.
pub fn sort_along_axis<T>(objects: Vec<(T, BoundingBox)>, axis: usize) -> (r: Vec<
    (T, BoundingBox),
>)
    requires
        axis < 3,
    ensures
        r@.to_multiset() == objects@.to_multiset(),
        sorted_along(r@, axis as int),
        forall|i: int, j: int|
            0 <= i < j < r@.len() ==> {
                let ei = #[trigger] r@[i].1.axis_spec(axis as int);
                let ej = #[trigger] r@[j].1.axis_spec(axis as int);
                ||| ei.start.order_key() < ej.start.order_key()
                ||| (ei.start == ej.start && ei.end.order_key() <= ej.end.order_key())
            },
    decreases objects@.len(),
{
    let n = objects.len();
    if n <= 1 {
        return objects;
    }
    let mut left = objects;
    let ghost all = left@;
    let right = left.split_off(n / 2);
    proof {
        assert(all =~= left@ + right@);
        vstd::seq_lib::lemma_multiset_commutative(left@, right@);
    }
    let sorted_left = sort_along_axis(left, axis);
    let sorted_right = sort_along_axis(right, axis);
    let r = merge_along_axis(sorted_left, sorted_right, axis);
    proof {
        assert forall|i: int, j: int| 0 <= i < j < r@.len() implies #[trigger] sorts_before(
            r@[i].1,
            r@[j].1,
            axis as int,
        ) by {}
        assert forall|i: int, j: int| 0 <= i < j < r@.len() implies ({
            let ei = #[trigger] r@[i].1.axis_spec(axis as int);
            let ej = #[trigger] r@[j].1.axis_spec(axis as int);
            ||| ei.start.order_key() < ej.start.order_key()
            ||| (ei.start == ej.start && ei.end.order_key() <= ej.end.order_key())
        }) by {
            lemma_sorts_before_lexicographic(r@[i].1, r@[j].1, axis as int);
        }
    }
    r
}

/// Merges two lists of objects that are each in order of their boxes along
/// `axis` into one list in that order, keeping every object.
fn merge_along_axis<T>(a: Vec<(T, BoundingBox)>, b: Vec<(T, BoundingBox)>, axis: usize) -> (r: Vec<
    (T, BoundingBox),
>)
    requires
        axis < 3,
        sorted_along(a@, axis as int),
        sorted_along(b@, axis as int),
    ensures
        r@.to_multiset() == a@.to_multiset().add(b@.to_multiset()),
        sorted_along(r@, axis as int),
{
    let ghost total = a@.to_multiset().add(b@.to_multiset());
    let mut a = a;
    let mut b = b;
    // Move the greater of the two last objects onto `desc` until both lists
    // are empty; `desc` then holds every object, greatest first.
    let mut desc: Vec<(T, BoundingBox)> = Vec::new();
    while a.len() > 0 || b.len() > 0
        invariant
            axis < 3,
            sorted_along(a@, axis as int),
            sorted_along(b@, axis as int),
            forall|i: int, j: int|
                0 <= i < j < desc@.len() ==> #[trigger] sorts_before(desc@[j].1, desc@[i].1, axis as int),
            forall|i: int, j: int|
                0 <= i < a@.len() && 0 <= j < desc@.len() ==> #[trigger] sorts_before(
                    a@[i].1,
                    desc@[j].1,
                    axis as int,
                ),
            forall|i: int, j: int|
                0 <= i < b@.len() && 0 <= j < desc@.len() ==> #[trigger] sorts_before(
                    b@[i].1,
                    desc@[j].1,
                    axis as int,
                ),
            a@.to_multiset().add(b@.to_multiset()).add(desc@.to_multiset()) == total,
        decreases a.len() + b.len(),
    {
        let ghost a0 = a@;
        let ghost b0 = b@;
        let ghost d0 = desc@;
        let take_a = if a.len() == 0 {
            false
        } else if b.len() == 0 {
            true
        } else {
            !box_sorts_before(&a[a.len() - 1].1, &b[b.len() - 1].1, axis)
        };
        if take_a {
            let item = a.pop().unwrap();
            proof {
                assert(a0 == a@.push(item));
                assert forall|i: int| 0 <= i < a@.len() implies #[trigger] sorts_before(
                    a@[i].1,
                    item.1,
                    axis as int,
                ) by {
                    assert(sorts_before(a0[i].1, a0[a0.len() - 1].1, axis as int));
                }
                if b0.len() > 0 {
                    assert forall|i: int| 0 <= i < b0.len() implies #[trigger] sorts_before(
                        b0[i].1,
                        item.1,
                        axis as int,
                    ) by {
                        if i < b0.len() - 1 {
                            assert(sorts_before(b0[i].1, b0[b0.len() - 1].1, axis as int));
                        }
                    }
                }
            }
            desc.push(item);
            proof {
                let d = desc@;
                assert(d == d0.push(item));
                assert forall|i: int, j: int| 0 <= i < j < d.len() implies #[trigger] sorts_before(
                    d[j].1,
                    d[i].1,
                    axis as int,
                ) by {
                    if j == d0.len() {
                        assert(sorts_before(a0[a0.len() - 1].1, d0[i].1, axis as int));
                    } else {
                        assert(sorts_before(d0[j].1, d0[i].1, axis as int));
                    }
                }
                assert forall|i: int, j: int| 0 <= i < a@.len() && 0 <= j < d.len() implies #[trigger] sorts_before(
                    a@[i].1,
                    d[j].1,
                    axis as int,
                ) by {
                    assert(a@[i] == a0[i]);
                    if j < d0.len() {
                        assert(sorts_before(a0[i].1, d0[j].1, axis as int));
                    }
                }
                assert forall|i: int, j: int| 0 <= i < b@.len() && 0 <= j < d.len() implies #[trigger] sorts_before(
                    b@[i].1,
                    d[j].1,
                    axis as int,
                ) by {
                    if j < d0.len() {
                        assert(sorts_before(b0[i].1, d0[j].1, axis as int));
                    }
                }
                assert(a0.to_multiset() == a@.to_multiset().insert(item));
                assert(a@.to_multiset().add(b@.to_multiset()).add(desc@.to_multiset()) =~= a0.to_multiset().add(
                    b0.to_multiset(),
                ).add(d0.to_multiset()));
            }
        } else {
            let item = b.pop().unwrap();
            proof {
                assert(b0 == b@.push(item));
                assert forall|i: int| 0 <= i < b@.len() implies #[trigger] sorts_before(
                    b@[i].1,
                    item.1,
                    axis as int,
                ) by {
                    assert(sorts_before(b0[i].1, b0[b0.len() - 1].1, axis as int));
                }
                if a0.len() > 0 {
                    assert(sorts_before(a0[a0.len() - 1].1, item.1, axis as int));
                    assert forall|i: int| 0 <= i < a0.len() implies #[trigger] sorts_before(
                        a0[i].1,
                        item.1,
                        axis as int,
                    ) by {
                        if i < a0.len() - 1 {
                            assert(sorts_before(a0[i].1, a0[a0.len() - 1].1, axis as int));
                        }
                    }
                }
            }
            desc.push(item);
            proof {
                let d = desc@;
                assert(d == d0.push(item));
                assert forall|i: int, j: int| 0 <= i < j < d.len() implies #[trigger] sorts_before(
                    d[j].1,
                    d[i].1,
                    axis as int,
                ) by {
                    if j == d0.len() {
                        assert(sorts_before(b0[b0.len() - 1].1, d0[i].1, axis as int));
                    } else {
                        assert(sorts_before(d0[j].1, d0[i].1, axis as int));
                    }
                }
                assert forall|i: int, j: int| 0 <= i < b@.len() && 0 <= j < d.len() implies #[trigger] sorts_before(
                    b@[i].1,
                    d[j].1,
                    axis as int,
                ) by {
                    assert(b@[i] == b0[i]);
                    if j < d0.len() {
                        assert(sorts_before(b0[i].1, d0[j].1, axis as int));
                    }
                }
                assert forall|i: int, j: int| 0 <= i < a@.len() && 0 <= j < d.len() implies #[trigger] sorts_before(
                    a@[i].1,
                    d[j].1,
                    axis as int,
                ) by {
                    if j < d0.len() {
                        assert(sorts_before(a0[i].1, d0[j].1, axis as int));
                    }
                }
                assert(b0.to_multiset() == b@.to_multiset().insert(item));
                assert(a@.to_multiset().add(b@.to_multiset()).add(desc@.to_multiset()) =~= a0.to_multiset().add(
                    b0.to_multiset(),
                ).add(d0.to_multiset()));
            }
        }
    }
    // Pop `desc` from its least object onward to put the objects in order.
    let mut sorted: Vec<(T, BoundingBox)> = Vec::new();
    proof {
        assert(a@.to_multiset() =~= Multiset::empty());
        assert(b@.to_multiset() =~= Multiset::empty());
    }
    while desc.len() > 0
        invariant
            axis < 3,
            forall|i: int, j: int|
                0 <= i < j < desc@.len() ==> #[trigger] sorts_before(desc@[j].1, desc@[i].1, axis as int),
            sorted_along(sorted@, axis as int),
            forall|i: int, j: int|
                0 <= i < sorted@.len() && 0 <= j < desc@.len() ==> #[trigger] sorts_before(
                    sorted@[i].1,
                    desc@[j].1,
                    axis as int,
                ),
            sorted@.to_multiset().add(desc@.to_multiset()) == total,
        decreases desc.len(),
    {
        let ghost d0 = desc@;
        let ghost s0 = sorted@;
        let item = desc.pop().unwrap();
        proof {
            assert(d0 == desc@.push(item));
        }
        sorted.push(item);
        proof {
            let s = sorted@;
            assert(s == s0.push(item));
            assert forall|i: int, j: int| 0 <= i < j < s.len() implies #[trigger] sorts_before(
                s[i].1,
                s[j].1,
                axis as int,
            ) by {
                if j == s0.len() {
                    assert(sorts_before(s0[i].1, d0[d0.len() - 1].1, axis as int));
                } else {
                    assert(sorts_before(s0[i].1, s0[j].1, axis as int));
                }
            }
            assert forall|i: int, j: int| 0 <= i < s.len() && 0 <= j < desc@.len() implies #[trigger] sorts_before(
                s[i].1,
                desc@[j].1,
                axis as int,
            ) by {
                assert(desc@[j] == d0[j]);
                if i == s0.len() {
                    assert(sorts_before(d0[d0.len() - 1].1, d0[j].1, axis as int));
                } else {
                    assert(sorts_before(s0[i].1, d0[j].1, axis as int));
                }
            }
            assert(d0.to_multiset() == desc@.to_multiset().insert(item));
            assert(sorted@.to_multiset().add(desc@.to_multiset()) =~= s0.to_multiset().add(
                d0.to_multiset(),
            ));
        }
    }
    proof {
        assert(desc@.to_multiset() =~= Multiset::empty());
        assert(sorted@.to_multiset().add(desc@.to_multiset()) =~= sorted@.to_multiset());
    }
    sorted
}

/// A hierarchical collection of objects that lets a ray skip every object whose
/// group's box it misses.
pub enum SceneTree<T> {
    /// A tree containing no objects.
    Empty,
    /// A tree containing a single object, with its bounding box.
    Leaf { object: T, bound: BoundingBox },
    /// A tree split into two subtrees, with a box enclosing both.
    Tree { left: Box<SceneTree<T>>, right: Box<SceneTree<T>>, bound: BoundingBox },
}

impl<T> SceneTree<T> {
    /// The objects of the tree with their boxes, left to right.
    pub open spec fn items(self) -> Seq<(T, BoundingBox)>
        decreases self,
    {
        match self {
            SceneTree::Empty => Seq::empty(),
            SceneTree::Leaf { object, bound } => seq![(object, bound)],
            SceneTree::Tree { left, right, bound } => left.items() + right.items(),
        }
    }

    /// The extents of the tree's box: the empty box for an empty tree.
    pub open spec fn bound_extents(self) -> BoxExtents {
        match self {
            SceneTree::Empty => BoundingBox::empty_spec(),
            SceneTree::Leaf { object, bound } => bound@,
            SceneTree::Tree { left, right, bound } => bound@,
        }
    }

    /// The shape that construction gives a tree: no empty subtree below the
    /// root; at each split the left part holds half the objects (rounded down),
    /// every box on the left sorts no later than every box on the right along x
    /// or along y, and the split's box encloses the boxes of its two parts.
    pub open spec fn well_formed(self) -> bool
        decreases self,
    {
        match self {
            SceneTree::Empty => true,
            SceneTree::Leaf { object, bound } => true,
            SceneTree::Tree { left, right, bound } => {
                &&& left.well_formed()
                &&& right.well_formed()
                &&& !(*left is Empty)
                &&& !(*right is Empty)
                &&& left.items().len() == (left.items().len() + right.items().len()) / 2
                &&& exists|axis: int|
                    0 <= axis < 2 && #[trigger] split_along(left.items(), right.items(), axis)
                &&& bound@ == enclosing_extents(left.bound_extents(), right.bound_extents())
            },
        }
    }

    /// Constructs a new scene tree over a list of objects, each given with its
    /// bounding box.
    ///
    /// The objects are sorted along a randomly chosen axis, x or y (the two
    /// axes the renderer divides scenes along), and split in half, and each
    /// half becomes a subtree in the same way.
    pub fn new(objects: Vec<(T, BoundingBox)>) -> (r: SceneTree<T>)
        ensures
            r.items().to_multiset() == objects@.to_multiset(),
            r.well_formed(),
            r is Empty <==> objects@.len() == 0,
            r is Leaf <==> objects@.len() == 1,
        decreases objects@.len(), 1nat,
    {
        // Pick a random axis to divide the scene along.
        let axis = random_below(2);
        SceneTree::new_split_along(objects, axis)
    }

    /// Constructs a new scene tree whose top split divides the objects along
    /// the given axis (0 for x, 1 for y); below the top, each half is built by
    /// [`SceneTree::new`], along randomly chosen axes.
    ///
    /// The objects are sorted by their boxes along `axis` and split in half,
    /// the first half (rounded down) going left.
    pub fn new_split_along(objects: Vec<(T, BoundingBox)>, axis: usize) -> (r: SceneTree<T>)
        requires
            axis < 2,
        ensures
            r.items().to_multiset() == objects@.to_multiset(),
            r.well_formed(),
            r is Empty <==> objects@.len() == 0,
            r is Leaf <==> objects@.len() == 1,
            r matches SceneTree::Tree { left, right, bound } ==> split_along(
                left.items(),
                right.items(),
                axis as int,
            ),
        decreases objects@.len(), 0nat,
    {
        let n = objects.len();
        if n == 0 {
            return SceneTree::Empty;
        } else if n == 1 {
            let mut objects = objects;
            let ghost all = objects@;
            let (object, bound) = objects.pop().unwrap();
            proof {
                assert(all =~= seq![(object, bound)]);
            }
            return SceneTree::Leaf { object, bound };
        }
        // Sort the objects by their boxes along the axis.
        let ghost all = objects@;
        let mut left_objects = sort_along_axis(objects, axis);
        let ghost sorted = left_objects@;
        assert(sorted.len() == n) by {
            assert(sorted.to_multiset().len() == all.to_multiset().len());
        }
        // Split the list in half and construct the child nodes recursively.
        let right_objects = left_objects.split_off(n / 2);
        proof {
            assert(sorted =~= left_objects@ + right_objects@);
        }
        let left = Box::new(SceneTree::new(left_objects));
        let right = Box::new(SceneTree::new(right_objects));
        // Compute the overall bounding box for this tree.
        let bound = BoundingBox::enclosing(&left.bounds(), &right.bounds());
        proof {
            let li = left.items();
            let ri = right.items();
            assert(li.len() == n / 2) by {
                assert(li.to_multiset().len() == left_objects@.len());
            }
            assert(ri.len() == n - n / 2) by {
                assert(ri.to_multiset().len() == right_objects@.len());
            }
            assert forall|i: int, j: int| 0 <= i < li.len() && 0 <= j < ri.len() implies #[trigger] sorts_before(
                li[i].1,
                ri[j].1,
                axis as int,
            ) by {
                assert(li.to_multiset().count(li[i]) > 0);
                assert(left_objects@.contains(li[i]));
                let a = choose|a: int| 0 <= a < left_objects@.len() && left_objects@[a] == li[i];
                assert(ri.to_multiset().count(ri[j]) > 0);
                assert(right_objects@.contains(ri[j]));
                let b = choose|b: int| 0 <= b < right_objects@.len() && right_objects@[b] == ri[j];
                assert(sorted[a] == li[i]);
                assert(sorted[n / 2 + b] == ri[j]);
                assert(sorts_before(sorted[a].1, sorted[n / 2 + b].1, axis as int));
            }
            assert(split_along(li, ri, axis as int));
            vstd::seq_lib::lemma_multiset_commutative(li, ri);
            vstd::seq_lib::lemma_multiset_commutative(left_objects@, right_objects@);
        }
        SceneTree::Tree { left, right, bound }
    }

    /// Returns a bounding box enclosing all objects of this tree: the empty box
    /// for an empty tree.
    pub fn bounds(&self) -> (r: BoundingBox)
        ensures
            r@ == self.bound_extents(),
    {
        match self {
            SceneTree::Empty => BoundingBox::new(Interval::empty(), Interval::empty(), Interval::empty()),
            SceneTree::Leaf { object: _, bound } => *bound,
            SceneTree::Tree { left: _, right: _, bound } => *bound,
        }
    }
}

/// A well-formed tree other than the empty tree holds at least one object.
pub proof fn lemma_nonempty_items<T>(tree: SceneTree<T>)
    requires
        tree.well_formed(),
        !(tree is Empty),
    ensures
        tree.items().len() > 0,
    decreases tree,
{
    if let SceneTree::Tree { left, right, bound } = tree {
        lemma_nonempty_items(*left);
    }
}

/// The box of a constructed tree encloses the box of every object in it, when
/// no object's box has a NaN end; and that box has no NaN end either.
pub proof fn lemma_tree_bound_covers_items<T>(tree: SceneTree<T>)
    requires
        tree.well_formed(),
        forall|i: int| 0 <= i < tree.items().len() ==> extents_ordered(#[trigger] tree.items()[i].1@),
    ensures
        forall|i: int|
            0 <= i < tree.items().len() ==> extents_cover(
                tree.bound_extents(),
                #[trigger] tree.items()[i].1@,
            ),
        tree.items().len() > 0 ==> extents_ordered(tree.bound_extents()),
    decreases tree,
{
    match tree {
        SceneTree::Empty => {},
        SceneTree::Leaf { object, bound } => {
            assert(tree.items()[0].1 == bound);
            crate::interval::lemma_covers_reflexive(bound@.0);
            crate::interval::lemma_covers_reflexive(bound@.1);
            crate::interval::lemma_covers_reflexive(bound@.2);
        },
        SceneTree::Tree { left, right, bound } => {
            let li = left.items();
            let ri = right.items();
            assert forall|i: int| 0 <= i < li.len() implies extents_ordered(#[trigger] li[i].1@) by {
                assert(tree.items()[i] == li[i]);
            }
            assert forall|i: int| 0 <= i < ri.len() implies extents_ordered(#[trigger] ri[i].1@) by {
                assert(tree.items()[li.len() + i] == ri[i]);
            }
            lemma_tree_bound_covers_items(*left);
            lemma_tree_bound_covers_items(*right);
            lemma_nonempty_items(*left);
            lemma_nonempty_items(*right);
            lemma_enclosing_covers_both(left.bound_extents(), right.bound_extents());
            assert forall|i: int| 0 <= i < tree.items().len() implies extents_cover(
                tree.bound_extents(),
                #[trigger] tree.items()[i].1@,
            ) by {
                if i < li.len() {
                    assert(tree.items()[i] == li[i]);
                    lemma_extents_cover_transitive(bound@, left.bound_extents(), li[i].1@);
                } else {
                    assert(tree.items()[i] == ri[i - li.len()]);
                    lemma_extents_cover_transitive(bound@, right.bound_extents(), ri[i - li.len()].1@);
                }
            }
        },
    }
}

/// The earlier of two hits, by IEEE comparison of their times; the first one
/// when neither time is below the other's.
pub open spec fn earlier_spec<H>(first: Option<(H, Scalar)>, second: Option<(H, Scalar)>) -> Option<(H, Scalar)> {
    match (first, second) {
        (None, None) => None,
        (Some(h), None) => Some(h),
        (None, Some(h)) => Some(h),
        (Some(a), Some(b)) => if a.1.at_most(b.1) {
            Some(a)
        } else {
            Some(b)
        },
    }
}

/// Whether `result` is a possible outcome of casting a ray over `tree` within
/// `ray_time`, given how `hit_object` answers for single objects and
/// `slab_times` gives the ray's crossing times of a box.
pub open spec fn tree_hit_spec<'m, T, H, F, G>(
    tree: &'m SceneTree<T>,
    ray_time: Interval,
    hit_object: F,
    slab_times: G,
    result: Option<(H, Scalar)>,
) -> bool
    where
        F: Fn(&'m T, Interval) -> Option<(H, Scalar)>,
        G: Fn(&BoundingBox) -> [(Scalar, Scalar); 3],
    decreases tree,
{
    match tree {
        SceneTree::Empty => result is None,
        SceneTree::Leaf { object, bound } => call_ensures(hit_object, (object, ray_time), result),
        SceneTree::Tree { left, right, bound } => exists|times: [(Scalar, Scalar); 3]|
            #![trigger call_ensures(slab_times, (bound,), times)]
            call_ensures(slab_times, (bound,), times) && match intersect_spec(*bound, ray_time, times@) {
                None => result is None,
                Some(inner) => exists|l: Option<(H, Scalar)>, r: Option<(H, Scalar)>|
                    tree_hit_spec(&**left, inner, hit_object, slab_times, l)
                        && tree_hit_spec(&**right, inner, hit_object, slab_times, r)
                        && result == earlier_spec(l, r),
            },
    }
}

impl<T> SceneTree<T> {
    /// Determines the earliest collision of a ray with the objects of this tree
    /// within `ray_time`.
    ///
    /// `hit_object` tests the ray against one object in a time interval and
    /// gives the collision with its time; `slab_times` gives the times at which
    /// the ray crosses the planes of a box on each axis. A leaf asks its object;
    /// a split first clips `ray_time` to the split's box, answering `None` if
    /// the ray misses it, then asks both parts within the clipped interval and
    /// keeps the earlier answer (the left one on a tie).
    ///
    /// When the object test reports each object's earliest collision and boxes
    /// keep their objects' collisions, the answer is the nearest collision
    /// among all objects (`nearest::lemma_tree_hit_nearest`).
    pub fn hit<'m, H, F, G>(&'m self, ray_time: Interval, hit_object: &F, slab_times: &G) -> (r: Option<
        (H, Scalar),
    >) where
        F: Fn(&'m T, Interval) -> Option<(H, Scalar)>,
        G: Fn(&BoundingBox) -> [(Scalar, Scalar); 3],

        requires
            forall|o: &'m T, i: Interval| #[trigger] hit_object.requires((o, i)),
            forall|b: &BoundingBox| #[trigger] slab_times.requires((b,)),
        ensures
            tree_hit_spec(self, ray_time, hit_object, slab_times, r),
        decreases self,
    {
        match self {
            SceneTree::Empty => None,
            SceneTree::Leaf { object, bound: _ } => hit_object(object, ray_time),
            SceneTree::Tree { left, right, bound } => {
                let times = slab_times(bound);
                match bound.intersected_by(ray_time, &times) {
                    None => None,
                    Some(inner) => {
                        let left_hit = left.hit(inner, hit_object, slab_times);
                        let right_hit = right.hit(inner, hit_object, slab_times);
                        earlier_hit(left_hit, right_hit)
                    },
                }
            },
        }
    }
}

/// Keeps the earlier of two hits, by IEEE comparison of their times; the first
/// one when neither time is below the other's.
pub fn earlier_hit<H>(first: Option<(H, Scalar)>, second: Option<(H, Scalar)>) -> (r: Option<
    (H, Scalar),
>)
    ensures
        r == earlier_spec(first, second),
{
    match (first, second) {
        (None, None) => None,
        (Some(hit), None) => Some(hit),
        (None, Some(hit)) => Some(hit),
        (Some(first_hit), Some(second_hit)) => {
            if first_hit.1.le(&second_hit.1) {
                Some(first_hit)
            } else {
                Some(second_hit)
            }
        },
    }
}

/// Whether `t` lies in `iv`, in the total order of `f64::total_cmp`.
pub open spec fn within_total(iv: Interval, t: Scalar) -> bool {
    iv.start.order_key() <= t.order_key() <= iv.end.order_key()
}

/// Whether `hit_object` only reports collisions whose time lies in the interval
/// it was asked about.
pub open spec fn reports_within<'m, T: 'm, H, F>(hit_object: F) -> bool
    where
        F: Fn(&'m T, Interval) -> Option<(H, Scalar)>,
{
    forall|o: &'m T, iv: Interval, h: Option<(H, Scalar)>|
        #[trigger] call_ensures(hit_object, (o, iv), h) && h is Some ==> within_total(iv, h.unwrap().1)
}

/// When each object only reports collisions inside the interval it is asked
/// about, a collision found in a tree lies inside the ray's time interval.
pub proof fn lemma_tree_hit_within<'m, T, H, F, G>(
    tree: &'m SceneTree<T>,
    ray_time: Interval,
    hit_object: F,
    slab_times: G,
    result: Option<(H, Scalar)>,
)
    where
        F: Fn(&'m T, Interval) -> Option<(H, Scalar)>,
        G: Fn(&BoundingBox) -> [(Scalar, Scalar); 3],

    requires
        tree_hit_spec(tree, ray_time, hit_object, slab_times, result),
        reports_within(hit_object),
    ensures
        result is Some ==> within_total(ray_time, result.unwrap().1),
    decreases tree,
{
    match tree {
        SceneTree::Empty => {},
        SceneTree::Leaf { object, bound } => {},
        SceneTree::Tree { left, right, bound } => {
            let times = choose|times: [(Scalar, Scalar); 3]|
                call_ensures(slab_times, (bound,), times) && match intersect_spec(*bound, ray_time, times@) {
                    None => result is None,
                    Some(inner) => exists|l: Option<(H, Scalar)>, r: Option<(H, Scalar)>|
                        tree_hit_spec(&**left, inner, hit_object, slab_times, l)
                            && tree_hit_spec(&**right, inner, hit_object, slab_times, r)
                            && result == earlier_spec(l, r),
                };
            if let Some(inner) = intersect_spec(*bound, ray_time, times@) {
                crate::bound::lemma_clip_within(ray_time, times@);
                let (l, r) = choose|l: Option<(H, Scalar)>, r: Option<(H, Scalar)>|
                    tree_hit_spec(&**left, inner, hit_object, slab_times, l)
                        && tree_hit_spec(&**right, inner, hit_object, slab_times, r)
                        && result == earlier_spec(l, r);
                lemma_tree_hit_within(&**left, inner, hit_object, slab_times, l);
                lemma_tree_hit_within(&**right, inner, hit_object, slab_times, r);
            }
        },
    }
}

/// The objects of a list of objects with their boxes.
pub open spec fn item_objects<T>(items: Seq<(T, BoundingBox)>) -> Seq<T> {
    items.map_values(|p: (T, BoundingBox)| p.0)
}

/// The boxes of a list of objects with their boxes.
pub open spec fn item_boxes<T>(items: Seq<(T, BoundingBox)>) -> Seq<BoundingBox> {
    items.map_values(|p: (T, BoundingBox)| p.1)
}

/// The box of a constructed tree is exactly the enclosure of all its objects'
/// boxes (the least box containing them all), when no extent end of those
/// boxes is a NaN or `-0.0`.
pub proof fn lemma_tree_bound_is_enclosure<T>(tree: SceneTree<T>)
    requires
        tree.well_formed(),
        forall|i: int| 0 <= i < tree.items().len() ==> extents_plain(#[trigger] tree.items()[i].1@),
    ensures
        tree.bound_extents() == enclose_all(item_boxes(tree.items())),
    decreases tree,
{
    let boxes = item_boxes(tree.items());
    match tree {
        SceneTree::Empty => {
            assert(boxes.len() == 0);
            assert(enclose_all(boxes) == BoundingBox::empty_spec());
        },
        SceneTree::Leaf { object, bound } => {
            assert(boxes.drop_last() =~= Seq::<BoundingBox>::empty());
            assert(enclose_all(boxes.drop_last()) == BoundingBox::empty_spec());
            assert(boxes.last() == bound);
            lemma_enclosing_empty_box(bound@);
        },
        SceneTree::Tree { left, right, bound } => {
            let li = left.items();
            let ri = right.items();
            let n = li.len();
            assert forall|i: int| 0 <= i < li.len() implies extents_plain(#[trigger] li[i].1@) by {
                assert(tree.items()[i] == li[i]);
            }
            assert forall|i: int| 0 <= i < ri.len() implies extents_plain(#[trigger] ri[i].1@) by {
                assert(tree.items()[n + i] == ri[i]);
            }
            lemma_tree_bound_is_enclosure(*left);
            lemma_tree_bound_is_enclosure(*right);
            let bl = item_boxes(li);
            let br = item_boxes(ri);
            assert(boxes =~= bl + br);
            lemma_enclose_all_append(bl, br);
        },
    }
}

/// Boxes are ordered along an axis by the start of their extent on that axis in
/// the total order of `f64::total_cmp`, and boxes with the same start by the
/// end: one box sorts no later than another exactly when its start comes
/// first, or the starts are the same value and its end does not come later.
pub proof fn lemma_sorts_before_lexicographic(b1: BoundingBox, b2: BoundingBox, axis: int)
    ensures
        sorts_before(b1, b2, axis) <==> ({
            let e1 = b1.axis_spec(axis);
            let e2 = b2.axis_spec(axis);
            ||| e1.start.order_key() < e2.start.order_key()
            ||| (e1.start == e2.start && e1.end.order_key() <= e2.end.order_key())
        }),
{
    if b1.axis_spec(axis).start.order_key() == b2.axis_spec(axis).start.order_key() {
        crate::scalar::lemma_order_key_injective(b1.axis_spec(axis).start, b2.axis_spec(axis).start);
    }
}

} // verus!
