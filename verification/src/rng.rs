//! The one source of randomness: a trusted wrapper around the `rand` crate.
//! Every algorithm that draws a random number takes what this returns and is
//! verified for every value the contract admits.

use vstd::prelude::*;

verus! {

/// Relies on `rand::Rng::gen_range` over a thread-local generator: a
/// uniformly distributed value in `[lo, hi)`. The call panics only on an
/// empty range, which the precondition rules out. Nothing more can be
/// promised of a random draw than its bounds.
#[verifier::external_body]
pub(crate) fn rand_range(lo: i64, hi: i64) -> (r: i64)
    requires
        lo < hi,
    ensures
        lo <= r < hi,
{
    rand::Rng::gen_range(&mut rand::thread_rng(), lo..hi)
}

} // verus!
