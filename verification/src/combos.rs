use vstd::prelude::*;

use itertools::Itertools;

use crate::digits::strictly_sorted;

verus! {

/// Relies on itertools::Itertools::combinations: over a strictly ascending
/// input it yields every `k`-element combination, each again strictly
/// ascending with its elements drawn from the input, and every strictly
/// ascending `k`-element selection from the input appears among them.
#[verifier::external_body]
pub(crate) fn combinations_u8(items: &Vec<u8>, k: usize) -> (r: Vec<Vec<u8>>)
    requires
        strictly_sorted(items@),
    ensures
        forall|i: int| 0 <= i < r@.len() ==> (#[trigger] r@[i])@.len() == k,
        forall|i: int| 0 <= i < r@.len() ==> strictly_sorted((#[trigger] r@[i])@),
        forall|i: int, j: int|
            0 <= i < r@.len() && 0 <= j < k ==> items@.contains(#[trigger] r@[i]@[j]),
        forall|s: Seq<u8>|
            s.len() == k && strictly_sorted(s) && (forall|j: int|
                0 <= j < k ==> items@.contains(#[trigger] s[j])) ==> exists|i: int|
                0 <= i < r@.len() && (#[trigger] r@[i])@ == s,
{
    items.iter().copied().combinations(k).collect()
}

} // verus!
