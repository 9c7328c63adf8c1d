use rand::Rng;
use vstd::prelude::*;

verus! {

/// Relies on `rand::Rng::gen_range` (rand 0.7) over `u64` on the thread's
/// generator: a value in `[low, high)`; it panics when `low >= high`.
#[verifier::external_body]
pub(crate) fn random_below(high: u64) -> (r: u64)
    requires
        high > 0,
    ensures
        r < high,
{
    rand::thread_rng().gen_range(0, high)
}

} // verus!
