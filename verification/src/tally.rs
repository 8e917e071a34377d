//! Counting a sequence into a table, one element at a time.

use crate::entries::lemma_bag_count;
use crate::model::{bag_of, count_of, fits_tally, occurrences, tallied, total_of};
use vstd::prelude::*;
use vstd::seq_lib::{
    lemma_multiset_commutative, to_multiset_build, to_multiset_contains, to_multiset_len,
};

verus! {

/// A prefix of a sequence holds no element more often than the sequence.
pub proof fn lemma_occurrences_of_prefix<T>(items: Seq<T>, n: int, item: T)
    requires
        0 <= n <= items.len(),
    ensures
        occurrences(items.take(n), item) <= occurrences(items, item),
{
    assert(items =~= items.take(n) + items.skip(n));
    lemma_multiset_commutative(items.take(n), items.skip(n));
}

/// The counts of a tallied table are the old counts plus the occurrences, for
/// keys with and without an entry.
pub proof fn lemma_count_of_tallied<T>(table: Map<T, usize>, items: Seq<T>, key: T)
    requires
        items.len() <= usize::MAX,
        fits_tally(table, items),
    ensures
        count_of(table, key) + occurrences(items, key) <= usize::MAX,
        count_of(tallied(table, items), key) == count_of(table, key) + occurrences(items, key),
{
    to_multiset_contains(items, key);
    to_multiset_len(items);
}

/// Counting nothing leaves the table as it is.
pub proof fn lemma_tally_nothing<T>(table: Map<T, usize>)
    ensures
        tallied(table, Seq::<T>::empty()) == table,
{
    assert forall|k: T| occurrences(Seq::<T>::empty(), k) == 0 by {
        to_multiset_contains(Seq::<T>::empty(), k);
    }
}

/// Counting one more element raises the count of that element by one, and
/// gives it an entry if it had none; the new count is within range.
pub proof fn lemma_tally_step<T>(table: Map<T, usize>, items: Seq<T>, i: int)
    requires
        0 <= i < items.len() <= usize::MAX,
        fits_tally(table, items),
    ensures
        fits_tally(table, items.take(i)),
        fits_tally(table, items.take(i + 1)),
        count_of(tallied(table, items.take(i)), items[i]) + 1 <= usize::MAX,
        tallied(table, items.take(i + 1)) == tallied(table, items.take(i)).insert(
            items[i],
            (count_of(tallied(table, items.take(i)), items[i]) + 1) as usize,
        ),
{
    let before = items.take(i);
    let after = items.take(i + 1);
    let item = items[i];
    assert(after =~= before.push(item));
    to_multiset_build(before, item);
    assert forall|k: T|
        occurrences(before, k) <= occurrences(items, k) && occurrences(after, k) <= occurrences(
            items,
            k,
        ) by {
        lemma_occurrences_of_prefix(items, i, k);
        lemma_occurrences_of_prefix(items, i + 1, k);
    }
    lemma_count_of_tallied(table, before, item);
    lemma_count_of_tallied(table, after, item);
}

/// A tallied table denotes the old multiset together with the counted
/// elements.
pub proof fn lemma_bag_of_tallied<T>(table: Map<T, usize>, items: Seq<T>)
    requires
        table.dom().finite(),
        items.len() <= usize::MAX,
        fits_tally(table, items),
    ensures
        tallied(table, items).dom().finite(),
        bag_of(tallied(table, items)) == bag_of(table).add(items.to_multiset()),
        total_of(tallied(table, items)) == total_of(table) + items.len(),
{
    to_multiset_len(items);
    assert(tallied(table, items).dom() =~= table.dom().union(items.to_set()));
    assert forall|k: T|
        bag_of(tallied(table, items)).count(k) == bag_of(table).add(items.to_multiset()).count(
            k,
        ) by {
        lemma_bag_count(tallied(table, items), k);
        lemma_bag_count(table, k);
        lemma_count_of_tallied(table, items, k);
    }
    assert(bag_of(tallied(table, items)) =~= bag_of(table).add(items.to_multiset()));
}

} // verus!
