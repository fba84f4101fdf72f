//! The source of randomness.

use rand::seq::SliceRandom;
use rand::Rng;
use vstd::prelude::*;

use crate::candidates::Candidate;

verus! {

/// Draws one entry of a non-empty list with `SliceRandom::choose`, on the
/// thread's generator. Claimed of it: what comes back is an entry of the list.
/// Which one is left open.
#[verifier::external_body]
pub(crate) fn choose_candidate(list: &Vec<Candidate>) -> (chosen: Candidate)
    requires
        list@.len() > 0,
    ensures
        list@.contains(chosen),
{
    *list.choose(&mut rand::thread_rng()).unwrap()
}

/// Draws a number with `Rng::gen_range` from `0..bound`, on the thread's
/// generator. Claimed of it: the number lies below `bound`. Which one is left
/// open.
#[verifier::external_body]
pub(crate) fn random_below(bound: u32) -> (draw: u32)
    requires
        bound > 0,
    ensures
        draw < bound,
{
    rand::thread_rng().gen_range(0..bound)
}

} // verus!
