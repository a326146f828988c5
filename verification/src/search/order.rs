//! Ordering of scored moves, best score first.
use vstd::prelude::*;
use crate::board::moves::Move;

verus! {

/// Sorts scored moves by decreasing score (calls `slice::sort_unstable_by`).
/// Trusted: the contract claims that the result is a permutation of the
/// input (same length, same multiset, each entry taken from the input) and
/// that the scores do not increase along it, as the std documentation of
/// `sort_unstable_by` states for this comparison. Which of two entries with
/// equal scores comes first is left unsaid, as std leaves it unspecified.
#[verifier::external_body]
pub(crate) fn sort_by_score_desc(v: &mut Vec<(i32, Move)>)
    ensures
        final(v)@.len() == old(v)@.len(),
        final(v)@.to_multiset() == old(v)@.to_multiset(),
        forall|i: int| 0 <= i < final(v)@.len() ==> old(v)@.contains(#[trigger] final(v)@[i]),
        forall|i: int, j: int| 0 <= i < j < final(v)@.len() ==> #[trigger] final(v)@[i].0 >= #[trigger] final(v)@[j].0,
{
    v.sort_unstable_by(|a, b| b.0.cmp(&a.0));
}

} // verus!
