//! The source of uniformly drawn indices.
use rand::Rng;
use vstd::prelude::*;

verus! {

/// Relies on `rand::Rng::gen_range` (rand 0.7) on the thread-local generator:
/// a value drawn from `[low, high)`. It panics when `low >= high`, which the
/// precondition rules out.
#[verifier::external_body]
pub(crate) fn gen_range(low: usize, high: usize) -> (r: usize)
    requires
        low < high,
    ensures
        low <= r < high,
{
    rand::thread_rng().gen_range(low, high)
}

} // verus!
