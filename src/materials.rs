//! What a material hands back when it scatters a ray.
use vstd::prelude::*;

verus! {

/// The outcome of a scatter: the colour factor applied to the light carried
/// back along the scattered ray, and that ray.
#[derive(Copy, Clone)]
pub struct ScatterResult<C, R> {
    pub attenuation: C,
    pub scattered_ray: R,
}

} // verus!
