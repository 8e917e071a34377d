//! Walking a table entry by entry.
//!
//! The executable operations visit the entries of a table in whatever order
//! the table hands them out. The lemmas here say what holds of the part of
//! the table that has been visited after any number of steps.

use crate::model::{bag_of, count_of, lists_entries, sum_of_counts, total_of};
use vstd::multiset::Multiset;
use vstd::prelude::*;

verus! {

/// The part of `table` whose entries are among the first `n` of `entries`.
pub open spec fn visited<T>(table: Map<T, usize>, entries: Seq<(T, usize)>, n: int) -> Map<
    T,
    usize,
> {
    Map::new(
        |k: T| table.contains_key(k) && entries.take(n).contains((k, table[k])),
        |k: T| table[k],
    )
}

/// The multiset that holds `item` exactly `n` times.
pub open spec fn copies<T>(item: T, n: nat) -> Multiset<T>
    decreases n,
{
    if n == 0 {
        Multiset::empty()
    } else {
        copies(item, (n - 1) as nat).insert(item)
    }
}

/// `copies(item, n)` has `n` members, all of them `item`.
pub proof fn lemma_copies<T>(item: T, n: nat)
    ensures
        copies(item, n).len() == n,
        copies(item, n).count(item) == n,
        forall|other: T| other != item ==> copies(item, n).count(other) == 0,
    decreases n,
{
    if n > 0 {
        lemma_copies(item, (n - 1) as nat);
    }
}

/// The multiset of a finite table holds each key as often as the table counts
/// it.
pub proof fn lemma_bag_count<T>(table: Map<T, usize>, key: T)
    requires
        table.dom().finite(),
    ensures
        bag_of(table).count(key) == count_of(table, key),
{
    let counts = Map::new(|k: T| table.contains_key(k), |k: T| table[k] as nat);
    assert(counts.dom() =~= table.dom());
}

/// The empty table denotes the empty multiset, so its total is zero.
pub proof fn lemma_total_empty<T>()
    ensures
        bag_of(Map::<T, usize>::empty()) == Multiset::<T>::empty(),
        total_of(Map::<T, usize>::empty()) == 0,
{
    assert forall|k: T|
        bag_of(Map::<T, usize>::empty()).count(k) == Multiset::<T>::empty().count(k) by {
        lemma_bag_count(Map::<T, usize>::empty(), k);
    }
    assert(bag_of(Map::<T, usize>::empty()) =~= Multiset::<T>::empty());
}

/// A new entry adds its count to the total.
pub proof fn lemma_total_insert<T>(table: Map<T, usize>, key: T, count: usize)
    requires
        table.dom().finite(),
        !table.contains_key(key),
    ensures
        bag_of(table.insert(key, count)) == bag_of(table).add(copies(key, count as nat)),
        total_of(table.insert(key, count)) == total_of(table) + count,
{
    let grown = table.insert(key, count);
    lemma_copies(key, count as nat);
    assert forall|k: T|
        bag_of(grown).count(k) == bag_of(table).add(copies(key, count as nat)).count(k) by {
        lemma_bag_count(grown, k);
        lemma_bag_count(table, k);
    }
    assert(bag_of(grown) =~= bag_of(table).add(copies(key, count as nat)));
}

/// Setting a count changes the total by the difference to the count that the
/// key had before.
pub proof fn lemma_total_update<T>(table: Map<T, usize>, key: T, count: usize)
    requires
        table.dom().finite(),
    ensures
        total_of(table.insert(key, count)) == total_of(table) - count_of(table, key) + count,
{
    let rest = table.remove(key);
    lemma_total_insert(rest, key, count);
    assert(rest.insert(key, count) =~= table.insert(key, count));
    if table.contains_key(key) {
        lemma_total_insert(rest, key, table[key]);
        assert(rest.insert(key, table[key]) =~= table);
    } else {
        assert(rest =~= table);
    }
}

/// A part of a table has at most the table's total.
pub proof fn lemma_total_of_part<T>(part: Map<T, usize>, table: Map<T, usize>)
    requires
        table.dom().finite(),
        part.submap_of(table),
    ensures
        total_of(part) <= total_of(table),
{
    assert(part.dom().finite()) by {
        vstd::set_lib::lemma_len_subset(part.dom(), table.dom());
    }
    let rest = bag_of(table).sub(bag_of(part));
    assert forall|k: T| bag_of(table).count(k) == bag_of(part).add(rest).count(k) by {
        lemma_bag_count(part, k);
        lemma_bag_count(table, k);
    }
    assert(bag_of(table) =~= bag_of(part).add(rest));
}

/// What one step of a walk does: the entry at position `i` is an entry of the
/// table that was not visited before, and visiting it adds exactly that entry.
pub proof fn lemma_visit_step<T>(table: Map<T, usize>, entries: Seq<(T, usize)>, i: int)
    requires
        lists_entries(table, entries),
        0 <= i < entries.len(),
    ensures
        table.contains_pair(entries[i].0, entries[i].1),
        !visited(table, entries, i).contains_key(entries[i].0),
        visited(table, entries, i + 1) == visited(table, entries, i).insert(
            entries[i].0,
            entries[i].1,
        ),
{
    let (key, count) = entries[i];
    assert(table.kv_pairs().contains((key, count)));
    assert forall|k: T|
        visited(table, entries, i + 1).contains_key(k) <==> visited(table, entries, i).insert(
            key,
            count,
        ).contains_key(k) by {
        if k == key {
            assert(entries.take(i + 1)[i] == (key, count));
        }
    }
}

/// A walk starts with nothing visited and ends with the whole table visited;
/// in between, what is visited is a finite part of the table.
pub proof fn lemma_visit_bounds<T>(table: Map<T, usize>, entries: Seq<(T, usize)>, n: int)
    requires
        table.dom().finite(),
        lists_entries(table, entries),
    ensures
        visited(table, entries, 0) == Map::<T, usize>::empty(),
        visited(table, entries, entries.len() as int) == table,
        visited(table, entries, n).submap_of(table),
        visited(table, entries, n).dom().finite(),
{
    assert(entries.take(entries.len() as int) =~= entries);
    assert forall|k: T| table.contains_key(k) implies visited(
        table,
        entries,
        entries.len() as int,
    ).contains_key(k) by {
        assert(entries.to_set().contains((k, table[k])));
    }
    vstd::set_lib::lemma_len_subset(visited(table, entries, n).dom(), table.dom());
}

/// The total of what has been visited is the sum of the counts met so far.
pub proof fn lemma_total_of_visited<T>(table: Map<T, usize>, entries: Seq<(T, usize)>, n: int)
    requires
        table.dom().finite(),
        lists_entries(table, entries),
        0 <= n <= entries.len(),
    ensures
        total_of(visited(table, entries, n)) == sum_of_counts(entries.take(n)),
    decreases n,
{
    lemma_visit_bounds(table, entries, n);
    if n == 0 {
        lemma_total_empty::<T>();
    } else {
        lemma_total_of_visited(table, entries, n - 1);
        lemma_visit_step(table, entries, n - 1);
        lemma_visit_bounds(table, entries, n - 1);
        lemma_total_insert(visited(table, entries, n - 1), entries[n - 1].0, entries[n - 1].1);
        assert(entries.take(n).drop_last() =~= entries.take(n - 1));
    }
}

} // verus!
