//! Sorting identifier lists, and what order says about their contents.

use vstd::prelude::*;

verus! {

/// Each element is at most the ones after it.
pub open spec fn is_ascending(s: Seq<u32>) -> bool {
    forall|i: int, j: int| 0 <= i < j < s.len() ==> s[i] <= s[j]
}

/// Each element is below the ones after it: ascending order without repetition.
pub open spec fn is_strictly_ascending(s: Seq<u32>) -> bool {
    forall|i: int, j: int| 0 <= i < j < s.len() ==> s[i] < s[j]
}

/// Sorts `v` in place with `sort_unstable` of the standard library's slices.
///
/// Taken on trust from its documentation: afterwards the elements stand in
/// ascending order, and they are the elements from before, each as often as
/// it occurred.
#[verifier::external_body]
pub(crate) fn sort_ids(v: &mut Vec<u32>)
    ensures
        is_ascending(final(v)@),
        final(v)@.to_multiset() == old(v)@.to_multiset(),
{
    v.sort_unstable();
}

/// Rearranging a list changes neither its length, nor what it contains, nor
/// whether an element repeats.
pub proof fn lemma_rearranged(s: Seq<u32>, t: Seq<u32>)
    requires
        s.to_multiset() == t.to_multiset(),
    ensures
        s.len() == t.len(),
        forall|x: u32| s.contains(x) <==> t.contains(x),
        s.no_duplicates() <==> t.no_duplicates(),
{
    broadcast use vstd::seq_lib::to_multiset_len;
    assert(s.to_multiset().len() == s.len());
    assert(t.to_multiset().len() == t.len());
    assert forall|x: u32| s.contains(x) <==> t.contains(x) by {
        vstd::seq_lib::to_multiset_contains(s, x);
        vstd::seq_lib::to_multiset_contains(t, x);
    }
    if s.no_duplicates() {
        s.lemma_multiset_has_no_duplicates();
        t.lemma_multiset_has_no_duplicates_conv();
    }
    if t.no_duplicates() {
        t.lemma_multiset_has_no_duplicates();
        s.lemma_multiset_has_no_duplicates_conv();
    }
}

/// An ascending list in which nothing repeats is strictly ascending.
pub proof fn lemma_ascending_distinct_is_strict(s: Seq<u32>)
    requires
        is_ascending(s),
        s.no_duplicates(),
    ensures
        is_strictly_ascending(s),
{
}

} // verus!
