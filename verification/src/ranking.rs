//! Ordering cells by entropy.

use vstd::prelude::*;
use itertools::Itertools;

verus! {

/// The entries of `items` whose entropy is `e`, in their order in `items`.
/// An entry pairs a position with the entropy of the cell there.
pub open spec fn with_entropy(items: Seq<(usize, usize)>, e: usize) -> Seq<(usize, usize)> {
    items.filter(has_entropy(e))
}

/// The test that an entry's entropy is `e`.
pub open spec fn has_entropy(e: usize) -> spec_fn((usize, usize)) -> bool {
    |entry: (usize, usize)| entry.1 == e
}

/// Calls `itertools::Itertools::sorted_by`, comparing entries by their
/// entropy. Not proved: that the result holds the same entries, in ascending
/// order of entropy, and that the sort is stable, so the entries of one
/// entropy keep their order.
#[verifier::external_body]
pub(crate) fn sorted_by_entropy(items: Vec<(usize, usize)>) -> (sorted: Vec<(usize, usize)>)
    ensures
        sorted@.to_multiset() == items@.to_multiset(),
        forall|a: int, b: int| 0 <= a <= b < sorted@.len() ==> sorted@[a].1 <= sorted@[b].1,
        forall|e: usize| #[trigger] with_entropy(sorted@, e) == with_entropy(items@, e),
{
    items.into_iter().sorted_by(|a, b| a.1.cmp(&b.1)).collect()
}

/// Keeps the entries of entropy `e`.
pub fn keep_entropy(items: &Vec<(usize, usize)>, e: usize) -> (kept: Vec<(usize, usize)>)
    ensures
        kept@ == with_entropy(items@, e),
{
    let mut kept: Vec<(usize, usize)> = Vec::new();
    let mut k: usize = 0;
    while k < items.len()
        invariant
            k <= items.len(),
            kept@ == with_entropy(items@.take(k as int), e),
        decreases items.len() - k,
    {
        proof {
            assert(items@.take(k + 1) == items@.take(k as int).push(items@[k as int]));
            items@.take(k as int).lemma_filter_push(items@[k as int], has_entropy(e));
        }
        if items[k].1 == e {
            kept.push(items[k]);
        }
        k += 1;
    }
    assert(items@.take(k as int) == items@);
    kept
}

} // verus!
