//! The mathematical model of a counter.
//!
//! A counter is modelled by its table, a finite `Map` from element to stored
//! count. Everything the executable operations promise is stated over the
//! functions of this module.

use vstd::multiset::Multiset;
use vstd::prelude::*;

verus! {

/// The count a table gives for `key`: the stored one, and zero for a key that
/// was never recorded.
pub open spec fn count_of<T>(table: Map<T, usize>, key: T) -> nat {
    if table.contains_key(key) {
        table[key] as nat
    } else {
        0
    }
}

/// The multiset a table denotes: every key, as many times as its stored count.
/// A key stored with count zero does not occur in it.
pub open spec fn bag_of<T>(table: Map<T, usize>) -> Multiset<T> {
    Multiset::from_map(Map::new(|k: T| table.contains_key(k), |k: T| table[k] as nat))
}

/// The sum of all stored counts, which is the size of the multiset the table
/// denotes.
pub open spec fn total_of<T>(table: Map<T, usize>) -> nat {
    bag_of(table).len()
}

/// How often `item` occurs in `items`.
pub open spec fn occurrences<T>(items: Seq<T>, item: T) -> nat {
    items.to_multiset().count(item)
}

/// Whether every stored count stays within the machine's range when `items`
/// are counted into `table`. An empty table fits any sequence.
pub open spec fn fits_tally<T>(table: Map<T, usize>, items: Seq<T>) -> bool {
    forall|k: T| #[trigger]
        table.contains_key(k) ==> table[k] + occurrences(items, k) <= usize::MAX
}

/// The table after `items` were counted into `table`: an element of `items`
/// that has no entry yet gets one, and each stored count grows by the number
/// of times its key occurs in `items`.
pub open spec fn tallied<T>(table: Map<T, usize>, items: Seq<T>) -> Map<T, usize> {
    Map::new(
        |k: T| table.contains_key(k) || items.contains(k),
        |k: T| (count_of(table, k) + occurrences(items, k)) as usize,
    )
}

/// The distance between two counts.
pub open spec fn abs_diff(a: usize, b: usize) -> usize {
    if a > b {
        (a - b) as usize
    } else {
        (b - a) as usize
    }
}

/// The table that subtraction yields: the keys that both tables store, each
/// with the distance between its two counts.
pub open spec fn difference<T>(a: Map<T, usize>, b: Map<T, usize>) -> Map<T, usize> {
    Map::new(|k: T| a.contains_key(k) && b.contains_key(k), |k: T| abs_diff(a[k], b[k]))
}

/// Whether `entries` lists every entry of `table` exactly once, in any order.
pub open spec fn lists_entries<T>(table: Map<T, usize>, entries: Seq<(T, usize)>) -> bool {
    &&& entries.no_duplicates()
    &&& entries.to_set() == table.kv_pairs()
}

/// The counts of `entries`, added up.
pub open spec fn sum_of_counts<T>(entries: Seq<(T, usize)>) -> nat
    decreases entries.len(),
{
    if entries.len() == 0 {
        0
    } else {
        sum_of_counts(entries.drop_last()) + entries.last().1 as nat
    }
}

/// Whether the counts of `ranking` never grow from one position to the next.
pub open spec fn descending<T>(ranking: Seq<(T, usize)>) -> bool {
    forall|i: int, j: int| 0 <= i < j < ranking.len() ==> ranking[i].1 >= ranking[j].1
}

/// Whether `ranking` holds `n` entries of `table` with the highest counts,
/// highest first: its keys are pairwise different, each comes with its stored
/// count, and no entry left out has a higher count than one that is in.
/// Among entries of equal count any may be in, in any order.
pub open spec fn ranks_top<T>(table: Map<T, usize>, n: nat, ranking: Seq<(T, usize)>) -> bool {
    &&& ranking.len() == n
    &&& forall|i: int|
        0 <= i < ranking.len() ==> table.contains_pair(
            (#[trigger] ranking[i]).0,
            ranking[i].1,
        )
    &&& forall|i: int, j: int| 0 <= i < j < ranking.len() ==> ranking[i].0 != ranking[j].0
    &&& descending(ranking)
    &&& forall|k: T, i: int|
        #![trigger table.contains_key(k), ranking[i]]
        table.contains_key(k) && 0 <= i < ranking.len() && !holds_key(ranking, k) ==> table[k]
            <= ranking[i].1
}

/// Whether some entry of `ranking` has the key `key`.
pub open spec fn holds_key<T>(ranking: Seq<(T, usize)>, key: T) -> bool {
    exists|i: int| 0 <= i < ranking.len() && (#[trigger] ranking[i]).0 == key
}

} // verus!
