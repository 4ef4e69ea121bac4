use raytrace::scalar::Scalar;
use raytrace::bvh::earlier_hit;
use raytrace::{sort_along_axis, BoundingBox, Interval, SceneList, SceneTree};

fn s(x: f64) -> Scalar {
    Scalar::from_bits(x.to_bits())
}

fn f(x: Scalar) -> f64 {
    f64::from_bits(x.to_bits())
}

fn cube(x: f64, y: f64, z: f64) -> BoundingBox {
    BoundingBox::new(
        Interval::new(s(x), s(x + 1.0)),
        Interval::new(s(y), s(y + 1.0)),
        Interval::new(s(z), s(z + 1.0)),
    )
}

fn items(tree: &SceneTree<u32>, out: &mut Vec<(u32, BoundingBox)>) {
    match tree {
        SceneTree::Empty => {}
        SceneTree::Leaf { object, bound } => out.push((*object, *bound)),
        SceneTree::Tree { left, right, .. } => {
            items(left, out);
            items(right, out);
        }
    }
}

fn key(b: &BoundingBox, axis: usize) -> (f64, f64) {
    let i = b.axis(axis);
    (f(i.start), f(i.end))
}

fn check_tree(tree: &SceneTree<u32>) {
    if let SceneTree::Tree { left, right, bound } = tree {
        let mut l = vec![];
        let mut r = vec![];
        items(left, &mut l);
        items(right, &mut r);
        assert_eq!(l.len(), (l.len() + r.len()) / 2);
        let split_on = |axis: usize| {
            l.iter().all(|(_, lb)| r.iter().all(|(_, rb)| key(lb, axis) <= key(rb, axis)))
        };
        assert!(split_on(0) || split_on(1));
        let e = BoundingBox::enclosing(&left.bounds(), &right.bounds());
        assert_eq!((bound.x(), bound.y(), bound.z()), (e.x(), e.y(), e.z()));
        check_tree(left);
        check_tree(right);
    }
}

#[test]
fn sort_orders_by_start_then_end() {
    let objects = vec![
        (0u32, BoundingBox::new(Interval::new(s(2.0), s(3.0)), Interval::empty(), Interval::empty())),
        (1, BoundingBox::new(Interval::new(s(-1.0), s(5.0)), Interval::empty(), Interval::empty())),
        (2, BoundingBox::new(Interval::new(s(2.0), s(2.5)), Interval::empty(), Interval::empty())),
        (3, BoundingBox::new(Interval::new(s(-0.0), s(1.0)), Interval::empty(), Interval::empty())),
        (4, BoundingBox::new(Interval::new(s(0.0), s(1.0)), Interval::empty(), Interval::empty())),
    ];
    let sorted = sort_along_axis(objects, 0);
    let order: Vec<u32> = sorted.iter().map(|(o, _)| *o).collect();
    // -0.0 sorts before +0.0, as in `f64::total_cmp`.
    assert_eq!(order, vec![1, 3, 4, 2, 0]);
}

#[test]
fn scene_tree_shapes() {
    assert!(matches!(SceneTree::<u32>::new(vec![]), SceneTree::Empty));
    let empty_bounds = SceneTree::<u32>::new(vec![]).bounds();
    assert_eq!(empty_bounds.x(), Interval::empty());
    let leaf = SceneTree::new(vec![(7u32, cube(1.0, 2.0, 3.0))]);
    assert!(matches!(leaf, SceneTree::Leaf { object: 7, .. }));
    assert_eq!(leaf.bounds().y(), cube(1.0, 2.0, 3.0).y());
}

#[test]
fn scene_tree_keeps_every_object_and_splits_in_half() {
    for round in 0..20 {
        let n = 1 + round * 3;
        let objects: Vec<(u32, BoundingBox)> = (0..n)
            .map(|i| {
                let i = i as u32;
                let x = ((i * 7919) % 23) as f64;
                let y = ((i * 104729) % 31) as f64 - 10.0;
                (i, cube(x, y, (i % 5) as f64))
            })
            .collect();
        let tree = SceneTree::new(objects.clone());
        let mut got = vec![];
        items(&tree, &mut got);
        let mut ids: Vec<u32> = got.iter().map(|(o, _)| *o).collect();
        ids.sort();
        assert_eq!(ids, (0..n as u32).collect::<Vec<_>>());
        check_tree(&tree);
        // The tree's box encloses every object.
        let b = tree.bounds();
        for (_, ob) in &objects {
            for axis in 0..3 {
                assert!(b.axis(axis).start.le(&ob.axis(axis).start));
                assert!(ob.axis(axis).end.le(&b.axis(axis).end));
            }
        }
    }
}

#[test]
fn scene_list_tracks_enclosing_box() {
    let mut list: SceneList<&str> = SceneList::new();
    assert_eq!(list.bounds().x(), Interval::empty());
    list.push("a", cube(0.0, 0.0, 0.0));
    list.push("b", cube(-3.0, 4.0, 0.5));
    assert_eq!(list.objects(), &["a", "b"]);
    let b = list.bounds();
    assert_eq!((f(b.x().start), f(b.x().end)), (-3.0, 1.0));
    assert_eq!((f(b.y().start), f(b.y().end)), (0.0, 5.0));
    assert_eq!((f(b.z().start), f(b.z().end)), (0.0, 1.5));

    let from = SceneList::from_objects(vec![("a", cube(0.0, 0.0, 0.0)), ("b", cube(-3.0, 4.0, 0.5))]);
    assert_eq!(from.objects(), list.objects());
    assert_eq!(from.bounds().z(), list.bounds().z());
    let default_list: SceneList<u8> = SceneList::default();
    assert!(default_list.objects().is_empty());
}

/// Each object is hit at a fixed time, if that time lies strictly inside the
/// interval it is tested in.
fn hit_at(times: &'static [f64]) -> impl Fn(&u32, Interval) -> Option<(u32, Scalar)> {
    move |obj: &u32, iv: Interval| {
        let t = s(times[*obj as usize]);
        if iv.contains_exclusive(t) { Some((*obj, t)) } else { None }
    }
}

/// Crossing times that put the ray inside every box for all time.
fn always_inside(_: &BoundingBox) -> [(Scalar, Scalar); 3] {
    [(s(f64::NEG_INFINITY), s(f64::INFINITY)); 3]
}

/// Crossing times that put the ray outside every box.
fn never_inside(_: &BoundingBox) -> [(Scalar, Scalar); 3] {
    [(s(5.0), s(4.0)), (s(0.0), s(1.0)), (s(2.0), s(3.0))]
}

static HIT_TIMES: [f64; 6] = [4.0, 2.5, 9.0, 2.5, 0.5, 7.0];

#[test]
fn scene_list_hit_keeps_soonest() {
    let objects: Vec<(u32, BoundingBox)> = (0..6).map(|i| (i, cube(i as f64, 0.0, 0.0))).collect();
    let list = SceneList::from_objects(objects);
    let hit = hit_at(&HIT_TIMES);
    let r = list.hit(Interval::new(s(1.0), s(100.0)), &hit, &always_inside);
    // Object 4 is hit at 0.5, outside the interval; the soonest within is 2.5,
    // first reached by object 1 (object 3 at the same time no longer counts).
    assert_eq!(r.map(|(o, t)| (o, f(t))), Some((1, 2.5)));
    let r = list.hit(Interval::new(s(0.0), s(100.0)), &hit, &always_inside);
    assert_eq!(r.map(|(o, _)| o), Some(4));
    assert!(list.hit(Interval::new(s(0.0), s(100.0)), &hit, &never_inside).is_none());
    assert!(list.hit(Interval::new(s(10.0), s(100.0)), &hit, &always_inside).is_none());
}

#[test]
fn scene_tree_hit_keeps_soonest() {
    let objects: Vec<(u32, BoundingBox)> = (0..6).map(|i| (i, cube(i as f64, 0.0, 0.0))).collect();
    let tree = SceneTree::new(objects);
    let hit = hit_at(&HIT_TIMES);
    let r = tree.hit(Interval::new(s(1.0), s(100.0)), &hit, &always_inside);
    let (o, t) = r.unwrap();
    assert_eq!(f(t), 2.5);
    assert!(o == 1 || o == 3);
    let r = tree.hit(Interval::new(s(0.0), s(100.0)), &hit, &always_inside);
    assert_eq!(r.map(|(o, _)| o), Some(4));
    assert!(tree.hit(Interval::new(s(0.0), s(100.0)), &hit, &never_inside).is_none());
    let leaf = SceneTree::new(vec![(2u32, cube(0.0, 0.0, 0.0))]);
    // A single object is asked directly, without its box.
    assert_eq!(leaf.hit(Interval::new(s(0.0), s(100.0)), &hit, &never_inside).map(|(o, _)| o), Some(2));
}

#[test]
fn earlier_hit_prefers_first_on_tie() {
    assert_eq!(earlier_hit(Some((1u8, s(2.0))), Some((2u8, s(2.0)))), Some((1, s(2.0))));
    assert_eq!(earlier_hit(Some((1u8, s(3.0))), Some((2u8, s(2.0)))), Some((2, s(2.0))));
    assert_eq!(earlier_hit(None, Some((2u8, s(2.0)))), Some((2, s(2.0))));
    assert_eq!(earlier_hit::<u8>(None, None), None);
}

#[test]
fn scene_tree_split_along_given_axis() {
    let objects: Vec<(u32, BoundingBox)> = (0..9u32)
        .map(|i| (i, cube(((i * 5) % 9) as f64, ((i * 7) % 9) as f64 - 4.0, 0.0)))
        .collect();
    for axis in 0..2 {
        let tree = SceneTree::new_split_along(objects.clone(), axis);
        let SceneTree::Tree { left, right, .. } = &tree else {
            panic!("nine objects make a split");
        };
        let mut l = vec![];
        let mut r = vec![];
        items(left, &mut l);
        items(right, &mut r);
        assert_eq!(l.len(), 4);
        assert_eq!(r.len(), 5);
        for (_, lb) in &l {
            for (_, rb) in &r {
                assert!(key(lb, axis) <= key(rb, axis));
            }
        }
        check_tree(&tree);
    }
}

#[test]
fn sort_handles_many_objects() {
    let objects: Vec<(u32, BoundingBox)> =
        (0..200u32).map(|i| (i, cube(((i * 37) % 101) as f64, 0.0, 0.0))).collect();
    let sorted = sort_along_axis(objects, 0);
    assert_eq!(sorted.len(), 200);
    for w in sorted.windows(2) {
        assert!(key(&w[0].1, 0) <= key(&w[1].1, 0));
    }
    let mut ids: Vec<u32> = sorted.iter().map(|(o, _)| *o).collect();
    ids.sort();
    assert_eq!(ids, (0..200).collect::<Vec<_>>());
}

/// Each object is a point on the x axis met at time equal to its coordinate;
/// the crossing times of a box are those of a ray along +x from the origin.
fn along_x(b: &BoundingBox) -> [(Scalar, Scalar); 3] {
    let x = b.x();
    [(x.start, x.end), (s(f64::NEG_INFINITY), s(f64::INFINITY)), (s(f64::NEG_INFINITY), s(f64::INFINITY))]
}

#[test]
fn scene_tree_and_list_find_the_same_nearest_hit() {
    let xs: Vec<f64> = (0..40u32).map(|i| ((i * 17) % 41) as f64 + 0.5).collect();
    let objects: Vec<(u32, BoundingBox)> = xs
        .iter()
        .enumerate()
        .map(|(i, &x)| {
            // The boxes are padded so that each collision lies strictly inside.
            let b = BoundingBox::new(
                Interval::new(s(x - 0.25), s(x + 0.25)),
                Interval::new(s(-1.0), s(1.0)),
                Interval::new(s(-1.0), s(1.0)),
            );
            (i as u32, b)
        })
        .collect();
    let hit = |o: &u32, iv: Interval| {
        let t = s(xs[*o as usize]);
        if iv.contains_exclusive(t) { Some((*o, t)) } else { None }
    };
    let list = SceneList::from_objects(objects.clone());
    let tree = SceneTree::new(objects);
    for (start, end) in [(0.0, 100.0), (10.0, 20.0), (30.25, 30.75), (41.0, 50.0)] {
        let ray_time = Interval::new(s(start), s(end));
        let from_list = list.hit(ray_time, &hit, &along_x).map(|(_, t)| f(t));
        let from_tree = tree.hit(ray_time, &hit, &along_x).map(|(_, t)| f(t));
        let expected = xs.iter().copied().filter(|&x| start < x && x < end).fold(None, |m: Option<f64>, x| {
            Some(m.map_or(x, |m| m.min(x)))
        });
        assert_eq!(from_list, expected);
        assert_eq!(from_tree, expected);
    }
}
