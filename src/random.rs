use vstd::prelude::*;
use rand::Rng;

verus! {

/// Relies on rand's `thread_rng` and `Rng::gen_range(low, high)`, which draws a
/// value from `[low, high)` and panics when `low >= high`.
#[verifier::external_body]
pub(crate) fn draw_below(bound: usize) -> (r: usize)
    requires
        0 < bound,
    ensures
        r < bound,
{
    rand::thread_rng().gen_range(0, bound)
}

} // verus!
