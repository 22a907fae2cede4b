//! Where enumerations start and what they find.

use vstd::prelude::*;

use super::{
    directory_start, distinct, element_before, first_equal, first_judged, judgement, lemma_place,
    outcome, place_or_end, RtlAvlTable, GENERIC_EQUAL,
};

verus! {

/// The element in front of an element is its neighbour in the order; the first has none.
pub proof fn neighbours_stand_in_front(items: Seq<(u64, Seq<u8>)>, k: int)
    requires
        distinct(items),
        0 <= k < items.len(),
    ensures
        k > 0 ==> element_before(items, items[k].0) == Some(items[k - 1].0),
        k == 0 ==> element_before(items, items[k].0) is None,
        place_or_end(items, items[k].0) == k,
{
    lemma_place(items, k);
}

/// An enumeration that is restarted at an element begins there, or one behind it where the next one is
/// asked for, as long as nothing was deleted.
pub proof fn restarts_begin_at_their_element<C: Fn(&[u8], &[u8]) -> u32>(
    table: RtlAvlTable<C>,
    key: Seq<u8>,
    k: int,
)
    requires
        distinct(table.items()),
        0 <= k < table.items().len(),
    ensures
        directory_start(table, key, false, Some(table.items()[k].0), table.delete_count) == k,
        directory_start(table, key, true, Some(table.items()[k].0), table.delete_count) == k + 1,
{
    lemma_place(table.items(), k);
}

/// An enumeration gives the first element that its test does not pass over, and tells whether the
/// test wants it. Without a test, every element is wanted.
pub proof fn first_judgements_count<M: Fn(&[u8]) -> u32>(
    items: Seq<(u64, Seq<u8>)>,
    m: M,
    p: int,
    k: int,
)
    requires
        0 <= p <= k < items.len(),
        forall|i: int| p <= i < k ==> judgement(m, (#[trigger] items[i]).1) == 0xC000_0272,
        judgement(m, items[k].1) != 0xC000_0272,
    ensures
        first_judged(items, Some(m), p) == Some((items[k].0, judgement(m, items[k].1) == 0)),
        first_judged(items, None::<M>, p) == Some((items[p].0, true)),
    decreases k - p,
{
    if p < k {
        assert(judgement(m, items[p].1) == 0xC000_0272);
        first_judgements_count(items, m, p + 1, k);
    }
}

/// Where a test passes over all elements, nothing is found.
pub proof fn passed_elements_are_not_found<M: Fn(&[u8]) -> u32>(
    items: Seq<(u64, Seq<u8>)>,
    m: M,
    p: int,
)
    requires
        0 <= p <= items.len(),
        forall|i: int| p <= i < items.len() ==> judgement(m, (#[trigger] items[i]).1) == 0xC000_0272,
    ensures
        first_judged(items, Some(m), p) is None,
    decreases items.len() - p,
{
    if p < items.len() {
        assert(judgement(m, items[p].1) == 0xC000_0272);
        passed_elements_are_not_found(items, m, p + 1);
    }
}

/// Of elements that equal a key in a row, the first one is found, wherever in the row the search
/// ended.
pub proof fn rows_of_equals_are_entered_at_their_start<C: Fn(&[u8], &[u8]) -> u32>(
    items: Seq<(u64, Seq<u8>)>,
    c: C,
    key: Seq<u8>,
    first: int,
    p: int,
)
    requires
        0 <= first <= p < items.len(),
        forall|i: int| first <= i < p ==> outcome(c, key, (#[trigger] items[i]).1) == GENERIC_EQUAL,
        first > 0 ==> outcome(c, key, items[first - 1].1) != GENERIC_EQUAL,
    ensures
        first_equal(items, c, key, p) == first,
    decreases p - first,
{
    if first < p {
        assert(outcome(c, key, items[p - 1].1) == GENERIC_EQUAL);
        rows_of_equals_are_entered_at_their_start(items, c, key, first, p - 1);
    }
}

} // verus!
