//! Ranking entries by count, highest first.

use crate::model::{descending, holds_key, lists_entries, ranks_top};
use vstd::prelude::*;
use vstd::seq_lib::{lemma_multiset_commutative, to_multiset_build, to_multiset_contains};

verus! {

/// Merges two rankings into one. Where counts are equal, the entries of
/// `left` come first.
fn merge_descending<T: Copy>(left: &Vec<(T, usize)>, right: &Vec<(T, usize)>) -> (merged: Vec<
    (T, usize),
>)
    requires
        descending(left@),
        descending(right@),
    ensures
        descending(merged@),
        merged@.to_multiset() == left@.to_multiset().add(right@.to_multiset()),
{
    let mut merged: Vec<(T, usize)> = Vec::new();
    let mut i: usize = 0;
    let mut j: usize = 0;
    proof {
        // Nothing is merged and nothing is taken yet: all three are the
        // empty sequence, which is itself twice over.
        assert(left@.take(0) =~= merged@);
        assert(right@.take(0) =~= merged@);
        lemma_multiset_commutative(merged@, merged@);
    }
    while i < left.len() || j < right.len()
        invariant
            i <= left.len(),
            j <= right.len(),
            descending(left@),
            descending(right@),
            descending(merged@),
            merged@.to_multiset() == left@.take(i as int).to_multiset().add(
                right@.take(j as int).to_multiset(),
            ),
            forall|a: int|
                0 <= a < merged@.len() && i < left.len() ==> (#[trigger] merged@[a]).1
                    >= left@[i as int].1,
            forall|a: int|
                0 <= a < merged@.len() && j < right.len() ==> (#[trigger] merged@[a]).1
                    >= right@[j as int].1,
        decreases left.len() - i + right.len() - j,
    {
        let take_left = if j >= right.len() {
            true
        } else if i >= left.len() {
            false
        } else {
            left[i].1 >= right[j].1
        };
        if take_left {
            proof {
                assert(left@.take(i + 1) =~= left@.take(i as int).push(left@[i as int]));
                to_multiset_build(left@.take(i as int), left@[i as int]);
                to_multiset_build(merged@, left@[i as int]);
            }
            merged.push(left[i]);
            i = i + 1;
        } else {
            proof {
                assert(right@.take(j + 1) =~= right@.take(j as int).push(right@[j as int]));
                to_multiset_build(right@.take(j as int), right@[j as int]);
                to_multiset_build(merged@, right@[j as int]);
            }
            merged.push(right[j]);
            j = j + 1;
        }
    }
    proof {
        assert(left@.take(i as int) =~= left@);
        assert(right@.take(j as int) =~= right@);
    }
    merged
}

/// Orders entries by count, highest first. Entries of equal count keep the
/// order they came in.
pub fn sort_descending<T: Copy>(entries: Vec<(T, usize)>) -> (sorted: Vec<(T, usize)>)
    ensures
        descending(sorted@),
        sorted@.to_multiset() == entries@.to_multiset(),
    decreases entries@.len(),
{
    let mut left = entries;
    if left.len() <= 1 {
        return left;
    }
    let middle = left.len() / 2;
    let right = left.split_off(middle);
    proof {
        assert(entries@ =~= left@ + right@);
        lemma_multiset_commutative(left@, right@);
    }
    let left = sort_descending(left);
    let right = sort_descending(right);
    merge_descending(&left, &right)
}

/// The first `n` of a table's entries, once they are ordered by count, are
/// `n` entries with the highest counts.
pub proof fn lemma_top_of_sorted<T>(
    table: Map<T, usize>,
    entries: Seq<(T, usize)>,
    sorted: Seq<(T, usize)>,
    n: int,
)
    requires
        lists_entries(table, entries),
        sorted.to_multiset() == entries.to_multiset(),
        descending(sorted),
        0 <= n <= sorted.len(),
    ensures
        ranks_top(table, n as nat, sorted.take(n)),
{
    let top = sorted.take(n);
    assert forall|pair: (T, usize)| sorted.contains(pair) <==> table.kv_pairs().contains(pair) by {
        to_multiset_contains(sorted, pair);
        to_multiset_contains(entries, pair);
    }
    assert(sorted.no_duplicates()) by {
        entries.lemma_multiset_has_no_duplicates();
        sorted.lemma_multiset_has_no_duplicates_conv();
    }
    assert forall|i: int| 0 <= i < top.len() implies table.contains_pair(
        (#[trigger] top[i]).0,
        top[i].1,
    ) by {
        assert(sorted.contains(sorted[i]));
    }
    assert forall|k: T, i: int|
        #![trigger table.contains_key(k), top[i]]
        table.contains_key(k) && 0 <= i < top.len() && !holds_key(top, k) implies table[k]
            <= top[i].1 by {
        let pair = (k, table[k]);
        assert(sorted.contains(pair));
        let j = choose|j: int| 0 <= j < sorted.len() && sorted[j] == pair;
        if j < n {
            assert(top[j].0 == k);
        }
    }
}

} // verus!
