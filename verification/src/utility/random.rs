//! Random choices.

use vstd::prelude::*;

verus! {

/// Draws an index from 0 up to and including `upper`.
///
/// This is `Rng::gen_range` of the `rand` crate on the generator of the
/// calling thread, asked for the inclusive range from 0 to `upper`. All
/// that is claimed of the draw is that it lies in that range.
#[verifier::external_body]
pub(crate) fn random_index(upper: usize) -> (index: usize)
    ensures
        index <= upper,
{
    rand::Rng::gen_range(&mut rand::thread_rng(), 0..=upper)
}

} // verus!
