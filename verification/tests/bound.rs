use raytrace::scalar::Scalar;
use raytrace::{BoundingBox, Interval};

fn s(x: f64) -> Scalar {
    Scalar::from_bits(x.to_bits())
}

fn f(x: Scalar) -> f64 {
    f64::from_bits(x.to_bits())
}

fn iv(start: f64, end: f64) -> Interval {
    Interval::new(s(start), s(end))
}

fn pt(x: f64, y: f64, z: f64) -> [Scalar; 3] {
    [s(x), s(y), s(z)]
}

/// The crossing times of a ray with the two planes of each axis of a box, as
/// the renderer computes them.
fn slab_times(bbox: &BoundingBox, origin: [f64; 3], direction: [f64; 3]) -> [(Scalar, Scalar); 3] {
    let axes = [bbox.x(), bbox.y(), bbox.z()];
    let mut times = [(s(0.0), s(0.0)); 3];
    for i in 0..3 {
        let t0 = (f(axes[i].start) - origin[i]) / direction[i];
        let t1 = (f(axes[i].end) - origin[i]) / direction[i];
        times[i] = (s(t0), s(t1));
    }
    times
}

#[test]
fn bounding_box_constructors() {
    let bbox = BoundingBox::from_corners(&pt(1.0, -2.0, 3.0), &pt(-1.0, 2.0, -3.0));
    assert_eq!(f(bbox.x().start), -1.0);
    assert_eq!(f(bbox.x().end), 1.0);
    assert_eq!(f(bbox.y().start), -2.0);
    assert_eq!(f(bbox.y().end), 2.0);
    assert_eq!(f(bbox.z().start), -3.0);
    assert_eq!(f(bbox.z().end), 3.0);

    let bbox1 = BoundingBox::new(iv(0.0, 1.0), iv(0.0, 2.0), iv(0.0, 3.0));
    let bbox2 = BoundingBox::new(iv(-4.0, 0.0), iv(-5.0, 0.0), iv(-6.0, 0.0));
    let bbox = BoundingBox::enclosing(&bbox1, &bbox2);
    assert_eq!(f(bbox.x().start), -4.0);
    assert_eq!(f(bbox.x().end), 1.0);
    assert_eq!(f(bbox.y().start), -5.0);
    assert_eq!(f(bbox.y().end), 2.0);
    assert_eq!(f(bbox.z().start), -6.0);
    assert_eq!(f(bbox.z().end), 3.0);
}

#[test]
fn bounding_box_collisions() {
    let bbox = BoundingBox::new(iv(0.0, 2.0), iv(-1.0, 1.0), iv(-1.0, 1.0));
    let times = slab_times(&bbox, [-1.0, 0.0, 0.0], [1.0, 0.0, 0.0]);
    let Some(collide) = bbox.intersected_by(Interval::universal(), &times) else {
        panic!("collision should occur successfully");
    };
    assert_eq!(f(collide.start), 1.0);
    assert_eq!(f(collide.end), 3.0);
}

#[test]
fn ray_missing_box_gives_none() {
    let bbox = BoundingBox::new(iv(0.0, 2.0), iv(-1.0, 1.0), iv(-1.0, 1.0));
    // Travels along x but two units above the box.
    let times = slab_times(&bbox, [-1.0, 2.0, 0.0], [1.0, 0.0, 0.0]);
    assert!(bbox.intersected_by(Interval::universal(), &times).is_none());
}

#[test]
fn ray_box_hit_outside_time_range_gives_none() {
    let bbox = BoundingBox::new(iv(0.0, 2.0), iv(-1.0, 1.0), iv(-1.0, 1.0));
    let times = slab_times(&bbox, [-1.0, 0.0, 0.0], [1.0, 0.0, 0.0]);
    // The ray is inside the box between times 1 and 3 only.
    assert!(bbox.intersected_by(iv(3.5, 10.0), &times).is_none());
    let clipped = bbox.intersected_by(iv(2.0, 10.0), &times).unwrap();
    assert_eq!((f(clipped.start), f(clipped.end)), (2.0, 3.0));
}

#[test]
fn ray_travelling_backwards_swaps_slab_times() {
    let bbox = BoundingBox::new(iv(0.0, 2.0), iv(-1.0, 1.0), iv(-1.0, 1.0));
    let times = slab_times(&bbox, [5.0, 0.0, 0.0], [-1.0, 0.0, 0.0]);
    let clipped = bbox.intersected_by(Interval::universal(), &times).unwrap();
    assert_eq!((f(clipped.start), f(clipped.end)), (3.0, 5.0));
}

#[test]
fn from_corners_orders_each_axis() {
    let bbox = BoundingBox::from_corners(&pt(5.0, 5.0, -1.5), &pt(2.0, 7.0, -1.5));
    assert_eq!((f(bbox.x().start), f(bbox.x().end)), (2.0, 5.0));
    assert_eq!((f(bbox.y().start), f(bbox.y().end)), (5.0, 7.0));
    assert_eq!((f(bbox.z().start), f(bbox.z().end)), (-1.5, -1.5));
    // With equal zeros of different sign, `<` does not hold, so the second
    // corner's coordinate becomes the start.
    let bbox = BoundingBox::from_corners(&pt(-0.0, 0.0, 0.0), &pt(0.0, 0.0, 0.0));
    assert_eq!(bbox.x().start.to_bits(), 0.0f64.to_bits());
    assert_eq!(bbox.x().end.to_bits(), (-0.0f64).to_bits());
}

#[test]
fn empty_box_is_neutral_for_enclosing() {
    let empty = BoundingBox::empty();
    assert_eq!(f(empty.x().start), f64::INFINITY);
    assert_eq!(f(empty.x().end), f64::NEG_INFINITY);
    let default_box = BoundingBox::default();
    assert_eq!(default_box.y(), empty.y());
    let b = BoundingBox::new(iv(1.0, 2.0), iv(-3.0, 4.0), iv(0.5, 0.75));
    let e = BoundingBox::enclosing(&empty, &b);
    assert_eq!((e.x(), e.y(), e.z()), (b.x(), b.y(), b.z()));
    let e = BoundingBox::enclosing(&b, &empty);
    assert_eq!((e.x(), e.y(), e.z()), (b.x(), b.y(), b.z()));
    let e = BoundingBox::enclosing(&b, &b);
    assert_eq!((e.x(), e.y(), e.z()), (b.x(), b.y(), b.z()));
}

#[test]
fn axis_selects_extent() {
    let b = BoundingBox::new(iv(1.0, 2.0), iv(-3.0, 4.0), iv(0.5, 0.75));
    assert_eq!(b.axis(0), b.x());
    assert_eq!(b.axis(1), b.y());
    assert_eq!(b.axis(2), b.z());
}

#[test]
fn empty_box_is_never_hit() {
    let bbox = BoundingBox::new(Interval::empty(), Interval::empty(), Interval::empty());
    let times = slab_times(&bbox, [0.0, 0.0, 0.0], [1.0, 1.0, 1.0]);
    assert!(bbox.intersected_by(Interval::universal(), &times).is_none());
    // A box empty along one axis only contains nothing either.
    let flat = BoundingBox::new(iv(0.0, 2.0), iv(1.0, -1.0), iv(-1.0, 1.0));
    let times = slab_times(&flat, [-1.0, 0.0, 0.0], [1.0, 0.0, 0.0]);
    assert!(flat.intersected_by(Interval::universal(), &times).is_none());
}
