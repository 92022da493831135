//! The scene: the hierarchy over all objects, behind the same queries as
//! any one of them.
use vstd::prelude::*;
use crate::aabb::AABB;
use crate::bvh::Node;
use crate::hittable::Hittable;
use crate::math::Interval;

verus! {

/// A scene built once from its objects and then only queried.
pub struct Scene<H: Hittable> {
    root: Node<H>,
}

/// Another name for a scene.
pub type World<H> = Scene<H>;

impl<H: Hittable> Scene<H> {
    /// The hierarchy at the root of the scene.
    pub closed spec fn root_node(self) -> Node<H> {
        self.root
    }

    /// Builds the scene over `hittables`, whose boxes are taken over
    /// `time_interval`; as for `Node::new`, at least two objects are
    /// needed and each must have a box.
    pub fn new(hittables: Vec<H>, time_interval: &Interval<H::Scalar>) -> (r: Self)
        requires
            hittables@.len() >= 2,
            forall|i: int, b: Option<AABB<H::Scalar>>|
                0 <= i < hittables@.len() && #[trigger] hittables@[i].bounds_outcome(
                    *time_interval,
                    b,
                ) ==> b is Some,
        ensures
            r.root_node().leaves().to_multiset() == hittables@.to_multiset(),
            crate::bvh::node_boxes_nested(r.root_node()),
            crate::bvh::leaves_bounded(r.root_node(), *time_interval),
    {
        Scene { root: Node::new(hittables, time_interval) }
    }
}

impl<H: Hittable> Hittable for Scene<H> {
    type Query = H::Query;
    type Hit = H::Hit;
    type Scalar = H::Scalar;

    open spec fn hit_outcome(&self, q: H::Query, r: Option<H::Hit>) -> bool {
        self.root_node().hit_outcome(q, r)
    }

    open spec fn bounds_outcome(&self, t: Interval<H::Scalar>, r: Option<AABB<H::Scalar>>) -> bool {
        self.root_node().bounds_outcome(t, r)
    }

    open spec fn box_outcome(b: AABB<H::Scalar>, q: H::Query, r: bool) -> bool {
        H::box_outcome(b, q, r)
    }

    open spec fn closer_outcome(a: H::Hit, b: H::Hit, r: bool) -> bool {
        H::closer_outcome(a, b, r)
    }

    fn hit(&self, q: &H::Query) -> (r: Option<H::Hit>) {
        self.root.hit(q)
    }

    fn bounding_box(&self, time_interval: &Interval<H::Scalar>) -> (r: Option<AABB<H::Scalar>>) {
        self.root.bounding_box(time_interval)
    }

    fn box_hit(b: &AABB<H::Scalar>, q: &H::Query) -> (r: bool) {
        H::box_hit(b, q)
    }

    fn closer(a: &H::Hit, b: &H::Hit) -> (r: bool) {
        H::closer(a, b)
    }
}

} // verus!
