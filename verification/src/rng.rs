//! Random indices, drawn by the `fastrand` crate.
use vstd::prelude::*;

verus! {

/// Calls `fastrand::usize(lo..hi)`, which returns a value of the half-open
/// range and panics on an empty one; claimed: the result lies in `lo..hi`.
/// Which value comes is left unsaid: it rests on the thread's generator.
#[verifier::external_body]
pub(crate) fn random_below(lo: usize, hi: usize) -> (r: usize)
    requires
        lo < hi,
    ensures
        lo <= r < hi,
{
    fastrand::usize(lo..hi)
}

} // verus!
