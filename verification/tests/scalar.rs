use raytrace::hit::face_normal;
use raytrace::scalar::Scalar;
use raytrace::{Face, Interval};

fn s(x: f64) -> Scalar {
    Scalar::from_bits(x.to_bits())
}

#[test]
fn ieee_comparisons_match_f64() {
    let values = [
        -f64::INFINITY,
        -1.0e300,
        -2.5,
        -f64::MIN_POSITIVE,
        -0.0,
        0.0,
        5.0e-324,
        1.0,
        3.75,
        f64::MAX,
        f64::INFINITY,
        f64::NAN,
        -f64::NAN,
    ];
    for &a in &values {
        for &b in &values {
            assert_eq!(s(a).lt(&s(b)), a < b, "{a} < {b}");
            assert_eq!(s(a).le(&s(b)), a <= b, "{a} <= {b}");
            assert_eq!(
                s(a).total_lt(&s(b)),
                a.total_cmp(&b).is_lt(),
                "total {a} < {b}"
            );
        }
        assert_eq!(s(a).is_nan(), a.is_nan());
        assert_eq!(s(a).is_zero(), a == 0.0);
        assert_eq!(s(a).negated().to_bits(), (-a).to_bits());
    }
}

#[test]
fn constants() {
    assert_eq!(Scalar::zero().to_bits(), 0.0f64.to_bits());
    assert_eq!(Scalar::infinity().to_bits(), f64::INFINITY.to_bits());
    assert_eq!(Scalar::neg_infinity().to_bits(), f64::NEG_INFINITY.to_bits());
}

#[test]
fn interval_membership() {
    let i = Interval::new(s(1.0), s(2.0));
    assert!(i.contains_inclusive(s(1.0)));
    assert!(i.contains_inclusive(s(2.0)));
    assert!(!i.contains_inclusive(s(2.5)));
    assert!(!i.contains_exclusive(s(1.0)));
    assert!(i.contains_exclusive(s(1.5)));
    assert!(!i.contains_inclusive(s(f64::NAN)));
    assert!(!Interval::empty().contains_inclusive(s(0.0)));
    assert!(Interval::universal().contains_exclusive(s(-1.0e308)));
    assert_eq!(Interval::default(), Interval::empty());
}

#[test]
fn interval_enclosing() {
    let a = Interval::new(s(1.0), s(2.0));
    let b = Interval::new(s(-3.0), s(1.5));
    let e = Interval::enclosing(&a, &b);
    assert_eq!(e, Interval::new(s(-3.0), s(2.0)));
    assert_eq!(Interval::enclosing(&Interval::empty(), &a), a);
    // A NaN start in the first interval is passed over.
    let n = Interval::new(s(f64::NAN), s(0.0));
    assert_eq!(Interval::enclosing(&n, &a).start, s(1.0));
}

#[test]
fn face_normal_picks_front_for_opposing_ray() {
    let normal = [s(0.0), s(0.0), s(1.0)];
    let (face, n) = face_normal(s(-1.0), normal);
    assert_eq!(face, Face::Front);
    assert_eq!(n, normal);
    let (face, n) = face_normal(s(0.5), normal);
    assert_eq!(face, Face::Back);
    assert_eq!(n, [s(-0.0), s(-0.0), s(-1.0)]);
    // A ray skimming the surface hits the back face.
    let (face, _) = face_normal(s(-0.0), normal);
    assert_eq!(face, Face::Back);
}
