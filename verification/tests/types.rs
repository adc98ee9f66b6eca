use tracking::ratio::Ratio;
use tracking::{BBox, Confidence};

#[test]
fn a_box_has_extents_a_centre_and_an_area() {
    let b = BBox::new(10, 20, 40, 60);
    assert_eq!((b.width(), b.height()), (30, 40));
    // In half-pixels: the centre is (25, 40).
    assert_eq!(b.centre(), (50, 80));
    assert_eq!(b.area(), 1200);
    assert_eq!(BBox::new(0, 0, 3, 5).centre(), (3, 5));
}

#[test]
fn a_reversed_box_has_no_area() {
    let b = BBox::new(40, 60, 10, 20);
    assert_eq!((b.width(), b.height()), (-30, -40));
    assert_eq!(b.area(), 0);
    assert_eq!(BBox::new(0, 0, 10, -1).area(), 0);
}

#[test]
fn a_confidence_is_between_zero_and_one() {
    for v in [0.0f32, f32::MIN_POSITIVE, 1e-45, 0.3, 0.5, 0.85, 1.0] {
        assert_eq!(f32::from_bits(Confidence::new(v.to_bits()).unwrap().value()), v);
    }
    for v in [-0.1f32, 1.0000001, 2.0, f32::INFINITY, f32::NEG_INFINITY, f32::NAN, -1e-45] {
        assert!(Confidence::new(v.to_bits()).is_none(), "{v}");
    }
    assert_eq!(Confidence::new((-0.0f32).to_bits()).unwrap().value(), 0);
}

#[test]
fn clamping_limits_a_confidence() {
    for (v, want) in [
        (0.85f32, 0.85f32),
        (0.0, 0.0),
        (1.0, 1.0),
        (1.5, 1.0),
        (f32::INFINITY, 1.0),
        (-0.5, 0.0),
        (-0.0, 0.0),
        (f32::NEG_INFINITY, 0.0),
        (f32::NAN, 0.0),
    ] {
        assert_eq!(f32::from_bits(Confidence::clamp(v.to_bits()).value()), want, "{v}");
    }
    assert_eq!(Confidence::zero().value(), 0);
}

#[test]
fn scores_are_ordered_as_their_bits() {
    let mut last = 0.0f32;
    for v in [1e-45f32, 1e-40, 1e-20, 0.1, 0.29999998, 0.3, 0.5, 0.99999994, 1.0] {
        assert!(last < v);
        assert!(last.to_bits() < v.to_bits());
        last = v;
    }
}

#[test]
fn a_ratio_has_a_denominator() {
    assert!(Ratio::new(1, 0).is_none());
    let r = Ratio::new(-3, 7).unwrap();
    assert_eq!((r.numerator(), r.denominator()), (-3, 7));
    assert_eq!(Ratio::of(1, 2), Ratio::new(1, 2).unwrap());
}
