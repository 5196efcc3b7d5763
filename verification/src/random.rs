//! The random source and the two draws the solver makes from it.

use vstd::prelude::*;
use rand::rngs::StdRng;
use rand::seq::IteratorRandom;
use rand::seq::SliceRandom;

verus! {

/// `rand::rngs::StdRng`, a seedable generator. It is carried through and
/// handed to the draws below; nothing is known of its state.
#[verifier::external_type_specification]
#[verifier::external_body]
pub struct ExStdRng(StdRng);

/// Calls `rand::seq::SliceRandom::choose` on the candidates. Not proved:
/// that the draw yields nothing on an empty slice and otherwise one of the
/// slice's elements. Which one depends on the generator.
#[verifier::external_body]
pub(crate) fn choose_candidate(candidates: &Vec<usize>, rng: &mut StdRng) -> (picked: Option<usize>)
    ensures
        picked is Some <==> candidates@.len() > 0,
        picked matches Some(t) ==> candidates@.contains(t),
{
    SliceRandom::choose(candidates.as_slice(), rng).copied()
}

/// Calls `rand::seq::IteratorRandom::choose` on the pool's items. Not
/// proved: that the draw yields nothing on an empty pool and otherwise one
/// of its items. Which one depends on the generator.
#[verifier::external_body]
pub(crate) fn choose_entry(pool: Vec<(usize, usize)>, rng: &mut StdRng) -> (picked: Option<(usize, usize)>)
    ensures
        picked is Some <==> pool@.len() > 0,
        picked matches Some(entry) ==> pool@.contains(entry),
{
    IteratorRandom::choose(pool.into_iter(), rng)
}

} // verus!
