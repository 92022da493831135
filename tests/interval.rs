use raytr::math::interval::Interval as OpenInterval;
use raytr::math::Interval;

#[test]
fn interval_models_open_intervals() {
    assert!(OpenInterval::new(0, 0).is_none());
    assert!(OpenInterval::new(0, 1).is_some());
}

#[test]
fn overlap_with_non_overlapping_intervals() {
    let first = OpenInterval::new(0, 1).unwrap();
    let second = OpenInterval::new(1, 5).unwrap();

    assert!(first.overlap_with(&second).is_none());
    assert!(second.overlap_with(&first).is_none());
}

#[test]
fn overlap_with_overlapping_intervals() {
    let first = OpenInterval::new(0, 2).unwrap();
    let second = OpenInterval::new(1, 100).unwrap();

    let third = first.overlap_with(&second);

    assert!(third.is_some());
    assert_eq!(third.unwrap().min(), 1);
    assert_eq!(third.unwrap().max(), 2);
}

#[test]
fn closed_interval_valid_iff_ordered() {
    assert!(Interval::new(0, 0).is_some());
    assert!(Interval::new(-3, 7).is_some());
    assert!(Interval::new(1, 0).is_none());
    let i = Interval::new(2, 9).unwrap();
    assert_eq!((i.min, i.max), (2, 9));
}

#[test]
fn closed_interval_rejects_nan_ends() {
    assert!(Interval::new(f32::NAN, 1.0).is_none());
    assert!(Interval::new(0.0, f32::NAN).is_none());
    assert!(Interval::new(f32::INFINITY, f32::INFINITY).is_some());
}

#[test]
fn closed_overlap_is_commutative() {
    let a = Interval::new(0, 10).unwrap();
    let b = Interval::new(5, 20).unwrap();
    let ab = a.overlap_with(&b).unwrap();
    let ba = b.overlap_with(&a).unwrap();
    assert_eq!((ab.min, ab.max), (5, 10));
    assert_eq!((ba.min, ba.max), (5, 10));

    let c = Interval::new(11, 12).unwrap();
    assert!(a.overlap_with(&c).is_none());
    assert!(c.overlap_with(&a).is_none());
}

#[test]
fn closed_overlap_keeps_a_single_common_point() {
    let a = Interval::new(0, 1).unwrap();
    let b = Interval::new(1, 5).unwrap();
    let ab = a.overlap_with(&b).unwrap();
    assert_eq!((ab.min, ab.max), (1, 1));
}

#[test]
fn with_max_and_with_min_move_one_end() {
    let a = Interval::new(0.5f32, 8.0).unwrap();
    let b = a.with_max(3.0).unwrap();
    assert_eq!((b.min, b.max), (0.5, 3.0));
    let c = a.with_min(2.0).unwrap();
    assert_eq!((c.min, c.max), (2.0, 8.0));
    assert!(a.with_max(0.25).is_none());
    assert!(a.with_min(9.0).is_none());
}

#[test]
fn open_overlap_is_commutative() {
    let a = OpenInterval::new(-4, 3).unwrap();
    let b = OpenInterval::new(-1, 9).unwrap();
    let ab = a.overlap_with(&b).unwrap();
    let ba = b.overlap_with(&a).unwrap();
    assert_eq!((ab.min(), ab.max()), (-1, 3));
    assert_eq!((ba.min(), ba.max()), (-1, 3));
}
