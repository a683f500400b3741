//! The one place where chance enters: a draw from the thread's generator.

use rand::Rng;
use vstd::prelude::*;

verus! {

/// Draws a number below `bound` from the generator that `rand::thread_rng`
/// hands out, by `Rng::gen_range` on the range `0..bound`.
///
/// Trusted: the draw lies in the range it was asked for. Which number comes
/// is not said, and two draws need not agree. `gen_range` panics on an empty
/// range, so `bound` has to be positive. The generator is seeded by the
/// system when a thread first asks for it, and `thread_rng` panics where the
/// system has no seed to give: no argument rules that out.
#[verifier::external_body]
pub(crate) fn random_below(bound: usize) -> (drawn: usize)
    requires
        bound > 0,
    ensures
        drawn < bound,
{
    rand::thread_rng().gen_range(0..bound)
}

} // verus!
