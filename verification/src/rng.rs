//! The process-wide source of randomness used for tie-breaking and
//! candidate picking.

use vstd::prelude::*;

verus! {

/// Relies on `rand::thread_rng` and `rand::Rng::gen_range`: `gen_range`
/// over the half-open range `0..n` returns a value strictly below `n`,
/// drawn uniformly; it panics only when the range is empty, which
/// `n >= 1` rules out. Nothing beyond the bound is assumed of the draw.
#[verifier::external_body]
pub(crate) fn random_below(n: usize) -> (r: usize)
    requires
        n >= 1,
    ensures
        r < n,
{
    let mut generator = rand::thread_rng();
    rand::Rng::gen_range(&mut generator, 0..n)
}

} // verus!
