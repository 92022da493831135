use raytr::aabb::{enclosing_box, slabs_overlap, surrounding_box, AABB};
use raytr::math::Interval;

/// The distances at which a ray crosses the slabs of a box, each pair in the
/// order the ray meets its planes.
fn slabs(b: &AABB<f32>, origin: [f32; 3], direction: [f32; 3]) -> [(f32, f32); 3] {
    let mut result = [(0.0, 0.0); 3];
    for d in 0..3 {
        let inv_dir = 1.0 / direction[d];
        let t0 = (b.min[d] - origin[d]) * inv_dir;
        let t1 = (b.max[d] - origin[d]) * inv_dir;
        result[d] = if inv_dir < 0.0 { (t1, t0) } else { (t0, t1) };
    }
    result
}

fn test_box() -> AABB<f32> {
    AABB {
        min: [1.0, 1.0, 1.0],
        max: [5.0, 10.0, 30.0],
    }
}

#[test]
fn surrounding_box_test() {
    let a = AABB {
        min: [0.0, 0.0, 0.0],
        max: [3.0, 4.0, 5.0],
    };
    let b = AABB {
        min: [-1.0, 2.0, 3.0],
        max: [3.0, 100.0, 2.0],
    };
    let c = surrounding_box(&a, &b);

    assert_eq!(c.min, [-1.0, 0.0, 0.0]);
    assert_eq!(c.max, [3.0, 100.0, 5.0]);
}

#[test]
fn surrounding_box_dominates_both() {
    let a = AABB {
        min: [4, -2, 7],
        max: [9, 3, 8],
    };
    let b = AABB {
        min: [-5, 0, 7],
        max: [1, 6, 20],
    };
    let c = surrounding_box(&a, &b);
    for k in 0..3 {
        assert!(c.min[k] <= a.min[k] && c.min[k] <= b.min[k]);
        assert!(c.max[k] >= a.max[k] && c.max[k] >= b.max[k]);
    }
    assert_eq!(c.min, [-5, -2, 7]);
    assert_eq!(c.max, [9, 6, 20]);
}

#[test]
fn ray_outside_of_aabb_does_not_hit_it() {
    let aabb = test_box();
    let hit_interval = Interval::new(0.0, 100.0).unwrap();

    assert!(!slabs_overlap(&hit_interval, &slabs(&aabb, [0.0, 0.0, 0.0], [-1.0, 1.0, 1.0])));
}

#[test]
fn ray_parallel_to_aabb_does_not_hit_it() {
    let aabb = test_box();
    let hit_interval = Interval::new(0.0, 100.0).unwrap();

    assert!(!slabs_overlap(&hit_interval, &slabs(&aabb, [0.0, 0.0, 0.0], [0.0, 1.0, 1.0])));
}

#[test]
fn ray_through_aabb_hits_it() {
    let aabb = test_box();
    let hit_interval = Interval::new(0.0, 100.0).unwrap();

    assert!(slabs_overlap(&hit_interval, &slabs(&aabb, [0.0, 0.0, 0.0], [1.0, 1.0, 1.0])));
}

#[test]
fn slab_past_the_window_misses() {
    let window = Interval::new(0, 10).unwrap();
    assert!(!slabs_overlap(&window, &[(0, 5), (11, 12), (0, 5)]));
    assert!(!slabs_overlap(&window, &[(-8, -2), (0, 5), (0, 5)]));
    assert!(slabs_overlap(&window, &[(-8, 2), (1, 5), (2, 20)]));
}

#[test]
fn empty_slab_misses() {
    let window = Interval::new(0, 10).unwrap();
    assert!(!slabs_overlap(&window, &[(3, 2), (0, 5), (0, 5)]));
}

#[test]
fn slabs_sharing_no_point_miss() {
    let window = Interval::new(0, 10).unwrap();
    assert!(!slabs_overlap(&window, &[(0, 3), (4, 6), (0, 10)]));
}

#[test]
fn enclosing_box_of_points() {
    let points = vec![[1, 5, -2], [-3, 0, 4], [2, 2, 2], [0, -7, 1]];
    let b = enclosing_box(&points).unwrap();
    assert_eq!(b.min, [-3, -7, -2]);
    assert_eq!(b.max, [2, 5, 4]);

    let single = enclosing_box(&vec![[0.5f32, -1.0, 2.0]]).unwrap();
    assert_eq!(single.min, [0.5, -1.0, 2.0]);
    assert_eq!(single.max, [0.5, -1.0, 2.0]);

    let none: Vec<[i32; 3]> = Vec::new();
    assert!(enclosing_box(&none).is_none());
}
