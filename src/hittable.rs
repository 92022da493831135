//! The capability shared by everything a ray can hit.
use vstd::prelude::*;
use crate::aabb::AABB;
use crate::math::Interval;

verus! {

/// Anything that answers ray-hit and bounding-box queries: the primitives of
/// a scene, their decorators, and the hierarchy built over them.
///
/// The outcome of each query is stated as a relation (`hit_outcome` and the
/// like) rather than a function: a participating medium draws a random free
/// path, so one query may well have several possible outcomes. Unless an
/// implementation states more, every outcome counts as possible, which
/// claims nothing of it.
pub trait Hittable: Sized {
    /// A ray together with the window of distances in which a hit counts.
    type Query;
    /// What a hit reports (its distance along the ray among the rest).
    type Hit;
    /// The scalar of box coordinates.
    type Scalar: Copy + PartialOrd;

    /// `r` is a possible outcome of `self.hit(q)`.
    open spec fn hit_outcome(&self, q: Self::Query, r: Option<Self::Hit>) -> bool {
        true
    }

    /// `r` is a possible outcome of `self.bounding_box(t)`.
    open spec fn bounds_outcome(&self, t: Interval<Self::Scalar>, r: Option<AABB<Self::Scalar>>) -> bool {
        true
    }

    /// `r` is a possible outcome of `Self::box_hit(b, q)`.
    open spec fn box_outcome(b: AABB<Self::Scalar>, q: Self::Query, r: bool) -> bool {
        true
    }

    /// `r` is a possible outcome of `Self::closer(a, b)`.
    open spec fn closer_outcome(a: Self::Hit, b: Self::Hit, r: bool) -> bool {
        true
    }

    /// The nearest hit of the query's ray within its window, if any.
    fn hit(&self, q: &Self::Query) -> (r: Option<Self::Hit>)
        ensures
            self.hit_outcome(*q, r),
    ;

    /// A box holding the object over the whole time window, or `None` for
    /// an object that no box holds.
    fn bounding_box(&self, time_interval: &Interval<Self::Scalar>) -> (r: Option<AABB<Self::Scalar>>)
        ensures
            self.bounds_outcome(*time_interval, r),
    ;

    /// Whether the query's ray meets the box `b` within its window.
    fn box_hit(b: &AABB<Self::Scalar>, q: &Self::Query) -> (r: bool)
        ensures
            Self::box_outcome(*b, *q, r),
    ;

    /// Whether hit `a` lies strictly nearer along the ray than hit `b`.
    fn closer(a: &Self::Hit, b: &Self::Hit) -> (r: bool)
        ensures
            Self::closer_outcome(*a, *b, r),
    ;
}

} // verus!
