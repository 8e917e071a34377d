//! What holds between the operations of a counter, whatever it stores.
//!
//! Each statement is made over the model; the contracts of the executable
//! operations carry it over to the counters themselves.

use crate::entries::{
    lemma_bag_count, lemma_total_empty, lemma_total_of_visited, lemma_visit_bounds,
};
use crate::model::{
    bag_of, count_of, difference, lists_entries, occurrences, sum_of_counts, tallied, total_of,
};
use crate::tally::{lemma_bag_of_tallied, lemma_count_of_tallied};
use vstd::prelude::*;

verus! {

/// The total of a table is the sum of its stored counts, in whatever order
/// the entries are listed. An entry with count zero adds nothing.
pub proof fn total_is_sum_of_counts<T>(table: Map<T, usize>, entries: Seq<(T, usize)>)
    requires
        table.dom().finite(),
        lists_entries(table, entries),
    ensures
        total_of(table) == sum_of_counts(entries),
{
    lemma_total_of_visited(table, entries, entries.len() as int);
    lemma_visit_bounds(table, entries, 0);
    assert(entries.take(entries.len() as int) =~= entries);
}

/// The total of a counter built from a sequence is the length of the
/// sequence.
pub proof fn total_of_fresh_tally<T>(items: Seq<T>)
    requires
        items.len() <= usize::MAX,
    ensures
        total_of(tallied(Map::<T, usize>::empty(), items)) == items.len(),
{
    lemma_bag_of_tallied(Map::<T, usize>::empty(), items);
    lemma_total_empty::<T>();
}

/// In a counter built from a sequence, the count of any element is the number
/// of times it occurs in the sequence: zero for one that does not occur.
pub proof fn count_in_fresh_tally<T>(items: Seq<T>, item: T)
    requires
        items.len() <= usize::MAX,
    ensures
        count_of(tallied(Map::<T, usize>::empty(), items), item) == occurrences(items, item),
        !items.contains(item) ==> count_of(tallied(Map::<T, usize>::empty(), items), item) == 0,
{
    lemma_count_of_tallied(Map::<T, usize>::empty(), items, item);
}

/// Counting the elements of a counter into an empty one gives every key the
/// count it had. The new table is the old one itself, unless the old one
/// stores a key with count zero: such a key has no element, and so gets no
/// entry.
pub proof fn elements_round_trip<T>(table: Map<T, usize>, items: Seq<T>)
    requires
        table.dom().finite(),
        items.len() <= usize::MAX,
        items.to_multiset() == bag_of(table),
    ensures
        forall|k: T|
            count_of(tallied(Map::<T, usize>::empty(), items), k) == #[trigger] count_of(table, k),
        bag_of(tallied(Map::<T, usize>::empty(), items)) == bag_of(table),
        (forall|k: T| table.contains_key(k) ==> table[k] > 0) ==> tallied(
            Map::<T, usize>::empty(),
            items,
        ) == table,
{
    let empty = Map::<T, usize>::empty();
    assert forall|k: T| count_of(tallied(empty, items), k) == #[trigger] count_of(table, k) by {
        lemma_bag_count(table, k);
        lemma_count_of_tallied(empty, items, k);
    }
    lemma_bag_of_tallied(empty, items);
    lemma_total_empty::<T>();
    if forall|k: T| table.contains_key(k) ==> table[k] > 0 {
        assert forall|k: T| tallied(empty, items).contains_key(k) <==> table.contains_key(k) by {
            lemma_bag_count(table, k);
            vstd::seq_lib::to_multiset_contains(items, k);
        }
        assert forall|k: T| table.contains_key(k) implies tallied(empty, items)[k] == table[k] by {
            assert(count_of(tallied(empty, items), k) == count_of(table, k));
        }
    }
}

/// An empty counter has total zero and counts every element zero times.
pub proof fn empty_counts_nothing<T>(key: T)
    ensures
        total_of(Map::<T, usize>::empty()) == 0,
        count_of(Map::<T, usize>::empty(), key) == 0,
{
    lemma_total_empty::<T>();
}

/// Subtraction gives the same table whichever operand comes first.
pub proof fn difference_is_symmetric<T>(a: Map<T, usize>, b: Map<T, usize>)
    ensures
        difference(a, b) == difference(b, a),
{
}

/// The result of a subtraction stores a key exactly when both operands do.
pub proof fn difference_keeps_common_keys<T>(a: Map<T, usize>, b: Map<T, usize>, key: T)
    ensures
        difference(a, b).contains_key(key) <==> a.contains_key(key) && b.contains_key(key),
{
}

} // verus!
