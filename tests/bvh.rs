use raytr::aabb::{slabs_overlap, AABB};
use raytr::bvh::Node;
use raytr::hittable::Hittable;
use raytr::math::Interval;
use raytr::scene::Scene;

#[derive(Clone, Copy, Debug, PartialEq)]
struct Ball {
    center: [f64; 3],
    radius: f64,
}

struct Query {
    origin: [f64; 3],
    direction: [f64; 3],
    window: Interval<f64>,
}

fn dot(a: [f64; 3], b: [f64; 3]) -> f64 {
    a[0] * b[0] + a[1] * b[1] + a[2] * b[2]
}

impl Hittable for Ball {
    type Query = Query;
    type Hit = f64;
    type Scalar = f64;

    fn hit(&self, q: &Query) -> Option<f64> {
        let oc = [
            q.origin[0] - self.center[0],
            q.origin[1] - self.center[1],
            q.origin[2] - self.center[2],
        ];
        let a = dot(q.direction, q.direction);
        let b = dot(q.direction, oc);
        let c = dot(oc, oc) - self.radius * self.radius;
        let discriminant = b * b - a * c;
        if discriminant <= 0.0 {
            return None;
        }
        let d = discriminant.sqrt();
        [(-b - d) / a, (-b + d) / a]
            .iter()
            .copied()
            .find(|&t| q.window.min < t && t < q.window.max)
    }

    fn bounding_box(&self, _: &Interval<f64>) -> Option<AABB<f64>> {
        let r = self.radius;
        let c = self.center;
        Some(AABB {
            min: [c[0] - r, c[1] - r, c[2] - r],
            max: [c[0] + r, c[1] + r, c[2] + r],
        })
    }

    fn box_hit(b: &AABB<f64>, q: &Query) -> bool {
        let mut s = [(0.0, 0.0); 3];
        for d in 0..3 {
            let inv_dir = 1.0 / q.direction[d];
            let t0 = (b.min[d] - q.origin[d]) * inv_dir;
            let t1 = (b.max[d] - q.origin[d]) * inv_dir;
            s[d] = if inv_dir < 0.0 { (t1, t0) } else { (t0, t1) };
        }
        slabs_overlap(&q.window, &s)
    }

    fn closer(a: &f64, b: &f64) -> bool {
        a < b
    }
}

fn uniform(lo: f64, hi: f64) -> f64 {
    lo + (hi - lo) * rand::random::<f64>()
}

fn random_balls(n: usize) -> Vec<Ball> {
    (0..n)
        .map(|_| Ball {
            center: [uniform(-20.0, 20.0), uniform(-20.0, 20.0), uniform(-20.0, 20.0)],
            radius: uniform(0.2, 3.0),
        })
        .collect()
}

fn time_window() -> Interval<f64> {
    Interval::new(0.0, 1.0).unwrap()
}

#[test]
fn bvh_hit_matches_linear_scan() {
    let balls = random_balls(60);
    let node = Node::new(balls.clone(), &time_window());
    for _ in 0..1000 {
        let q = Query {
            origin: [uniform(-30.0, 30.0), uniform(-30.0, 30.0), uniform(-30.0, 30.0)],
            direction: [uniform(-1.0, 1.0), uniform(-1.0, 1.0), uniform(-1.0, 1.0)],
            window: Interval::new(0.001, f64::MAX).unwrap(),
        };
        let expected = balls
            .iter()
            .filter_map(|b| b.hit(&q))
            .fold(None, |acc: Option<f64>, t| match acc {
                Some(u) if u <= t => Some(u),
                _ => Some(t),
            });
        assert_eq!(node.hit(&q), expected);
    }
}

#[test]
fn bvh_over_two_three_and_four_items() {
    for n in 2..=4 {
        let balls: Vec<Ball> = (0..n)
            .map(|i| Ball {
                center: [4.0 * i as f64, 0.0, 0.0],
                radius: 1.0,
            })
            .collect();
        let node = Node::new(balls, &time_window());
        assert_eq!(node.bounding_box.min, [-1.0, -1.0, -1.0]);
        assert_eq!(node.bounding_box.max, [4.0 * (n - 1) as f64 + 1.0, 1.0, 1.0]);
        let q = Query {
            origin: [-10.0, 0.0, 0.0],
            direction: [1.0, 0.0, 0.0],
            window: Interval::new(0.0, 100.0).unwrap(),
        };
        assert_eq!(node.hit(&q), Some(9.0));
        let away = Query {
            origin: [-10.0, 0.0, 0.0],
            direction: [-1.0, 0.0, 0.0],
            window: Interval::new(0.0, 100.0).unwrap(),
        };
        assert_eq!(node.hit(&away), None);
    }
}

#[test]
fn scene_delegates_to_its_hierarchy() {
    let balls = vec![
        Ball { center: [0.0, 0.0, 10.0], radius: 2.0 },
        Ball { center: [0.0, 0.0, 20.0], radius: 2.0 },
        Ball { center: [0.0, 5.0, 5.0], radius: 1.0 },
    ];
    let scene = Scene::new(balls, &time_window());
    let q = Query {
        origin: [0.0, 0.0, 0.0],
        direction: [0.0, 0.0, 1.0],
        window: Interval::new(0.001, 1000.0).unwrap(),
    };
    assert_eq!(scene.hit(&q), Some(8.0));
    let b = scene.bounding_box(&time_window()).unwrap();
    assert_eq!(b.min, [-2.0, -2.0, 4.0]);
    assert_eq!(b.max, [2.0, 6.0, 22.0]);
}
