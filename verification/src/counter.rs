//! The counter itself: a hash table from element to count.

use crate::entries::{
    copies, lemma_total_empty, lemma_total_insert, lemma_total_of_part, lemma_total_update,
    lemma_visit_bounds, lemma_visit_step, visited,
};
use crate::error::CounterError;
use crate::model::{
    bag_of, count_of, difference, fits_tally, lists_entries, occurrences, ranks_top, tallied,
    total_of,
};
use crate::ranking::{lemma_top_of_sorted, sort_descending};
use crate::tally::{
    lemma_bag_of_tallied, lemma_count_of_tallied, lemma_tally_nothing, lemma_tally_step,
};
use std::collections::HashMap;
use std::hash::Hash;
use vstd::prelude::*;
use vstd::seq_lib::{to_multiset_build, to_multiset_len};
use vstd::set_lib::lemma_subset_equality;
use vstd::std_specs::cmp::PartialEqSpecImpl;
use vstd::std_specs::hash::obeys_key_model;
use vstd::std_specs::iter::{IteratorSpec, VerusForLoopWrapper};

verus! {

/// A table that maps each recorded element to its count.
///
/// The element type must behave as a hash-table key: its `==` and its hash
/// have to agree with equality of values, which is what
/// `obeys_key_model::<T>()` says. The operations that read or write the table
/// ask for it; `==` on counters is specified for such types.
pub struct Counter<T: Eq + Hash + Copy + PartialOrd + PartialEq> {
    table: HashMap<T, usize>,
}

impl<T: Eq + Hash + Copy + PartialOrd + PartialEq> View for Counter<T> {
    type V = Map<T, usize>;

    /// The stored entries. A key stored with count zero is an entry too.
    closed spec fn view(&self) -> Map<T, usize> {
        self.table@
    }
}

impl<T: Eq + Hash + Copy + PartialOrd + PartialEq> Counter<T> {
    /// A counter stores finitely many entries.
    pub proof fn lemma_finite(&self)
        ensures
            self@.dom().finite(),
    {
    }

    /// An empty counter.
    pub fn new() -> (c: Self)
        ensures
            c@ == Map::<T, usize>::empty(),
            total_of(c@) == 0,
    {
        proof {
            lemma_total_empty::<T>();
        }
        Counter { table: HashMap::new() }
    }

    /// Counts every element of `items` into the counter: an element without
    /// an entry gets one with count one, and an element with an entry has its
    /// count raised by one, once for each time it occurs.
    ///
    /// The stored counts have to stay within `usize`. For an empty counter
    /// they always do.
    pub fn from(self, items: Vec<T>) -> (counter: Counter<T>)
        requires
            obeys_key_model::<T>(),
            fits_tally(self@, items@),
        ensures
            counter@ == tallied(self@, items@),
            forall|key: T|
                count_of(counter@, key) == count_of(self@, key) + #[trigger] occurrences(
                    items@,
                    key,
                ),
            total_of(counter@) == total_of(self@) + items.len(),
    {
        let mut table = self.table;
        let ghost start = table@;
        proof {
            lemma_tally_nothing(start);
            assert(items@.take(0) =~= Seq::<T>::empty());
        }
        let mut i: usize = 0;
        while i < items.len()
            invariant
                obeys_key_model::<T>(),
                0 <= i <= items.len(),
                fits_tally(start, items@),
                table@ == tallied(start, items@.take(i as int)),
            decreases items.len() - i,
        {
            let item = items[i];
            proof {
                lemma_tally_step(start, items@, i as int);
            }
            let count = match table.get(&item) {
                Some(count) => *count,
                None => 0,
            };
            table.insert(item, count + 1);
            i = i + 1;
        }
        proof {
            assert(items@.take(items.len() as int) =~= items@);
            lemma_bag_of_tallied(start, items@);
            assert forall|key: T|
                count_of(table@, key) == count_of(start, key) + #[trigger] occurrences(
                    items@,
                    key,
                ) by {
                lemma_count_of_tallied(start, items@, key);
            }
        }
        Counter { table }
    }

    /// The count of `key`: the stored one, and zero for a key that was never
    /// recorded.
    pub fn get(&self, key: T) -> (count: usize)
        requires
            obeys_key_model::<T>(),
        ensures
            count == count_of(self@, key),
    {
        match self.table.get(&key) {
            Some(count) => *count,
            None => 0,
        }
    }

    /// Sets the stored count of `key` to `count`, whatever it was before.
    /// The total changes by the difference between the two counts.
    pub fn update(&mut self, key: T, count: usize)
        requires
            obeys_key_model::<T>(),
        ensures
            final(self)@ == old(self)@.insert(key, count),
            total_of(final(self)@) == total_of(old(self)@) - count_of(old(self)@, key) + count,
    {
        proof {
            lemma_total_update(self.table@, key, count);
        }
        self.table.insert(key, count);
    }

    /// Every key, repeated as many times as its stored count, in no particular
    /// order. A key stored with count zero does not occur.
    ///
    /// The result has as many elements as the counter's total, so the total
    /// has to fit in `usize`.
    pub fn elements(&self) -> (items: Vec<T>)
        requires
            obeys_key_model::<T>(),
            total_of(self@) <= usize::MAX,
        ensures
            items@.to_multiset() == bag_of(self@),
            items@.len() == total_of(self@),
    {
        let walk = self.table.iter();
        let ghost entries = walk.remaining().unref();
        proof {
            lemma_visit_bounds(self.table@, entries, 0);
            lemma_total_empty::<T>();
        }
        let mut items: Vec<T> = Vec::new();
        proof {
            to_multiset_len(items@);
        }
        for (key, count) in it: walk
            invariant
                it.seq().unref() == entries,
                lists_entries(self.table@, entries),
                items@.to_multiset() == bag_of(visited(self.table@, entries, it.index())),
        {
            let ghost seen = visited(self.table@, entries, it.index());
            proof {
                lemma_visit_step(self.table@, entries, it.index());
                lemma_visit_bounds(self.table@, entries, it.index());
                lemma_total_insert(seen, *key, *count);
            }
            for n in 0..*count
                invariant
                    items@.to_multiset() == bag_of(seen).add(copies(*key, n as nat)),
            {
                proof {
                    to_multiset_build(items@, *key);
                }
                items.push(*key);
            }
        }
        proof {
            to_multiset_len(items@);
        }
        items
    }

    /// Every stored entry once, in no particular order.
    pub fn iter(&self) -> (entries: Vec<(T, usize)>)
        requires
            obeys_key_model::<T>(),
        ensures
            lists_entries(self@, entries@),
            entries@.len() == self@.len(),
    {
        let walk = self.table.iter();
        let ghost all = walk.remaining().unref();
        let mut entries: Vec<(T, usize)> = Vec::new();
        for (key, count) in it: walk
            invariant
                it.seq().unref() == all,
                entries@ == all.take(it.index()),
        {
            entries.push((*key, *count));
        }
        assert(entries@ =~= all);
        entries
    }

    /// The `n` entries with the highest counts, highest first. Which of
    /// several entries with the same count comes first, or is in at all, is
    /// not determined.
    ///
    /// Asking for more entries than there are distinct keys is an error;
    /// asking for none gives an empty ranking.
    pub fn most_common(&self, n: usize) -> (result: Result<Vec<(T, usize)>, CounterError>)
        requires
            obeys_key_model::<T>(),
        ensures
            match result {
                Ok(ranking) => n <= self@.len() && ranks_top(self@, n as nat, ranking@),
                Err(error) => n > self@.len() && error == CounterError::InsufficientDistinctKeys,
            },
            n == 0 ==> (result matches Ok(ranking) && ranking@.len() == 0),
    {
        if n > self.table.len() {
            return Err(CounterError::InsufficientDistinctKeys);
        }
        let entries = self.iter();
        let ghost listed = entries@;
        let mut ranking = sort_descending(entries);
        proof {
            to_multiset_len(listed);
            to_multiset_len(ranking@);
            lemma_top_of_sorted(self@, listed, ranking@, n as int);
        }
        ranking.truncate(n);
        Ok(ranking)
    }

    /// The table of the keys that both `self` and `other` store, each with
    /// the distance between its two counts. A key that only one of the two
    /// stores is dropped.
    pub fn substract(&self, other: &Self) -> (diff: Counter<T>)
        requires
            obeys_key_model::<T>(),
        ensures
            diff@ == difference(self@, other@),
    {
        let walk = self.table.iter();
        let ghost entries = walk.remaining().unref();
        proof {
            lemma_visit_bounds(self.table@, entries, 0);
        }
        let mut diff = Counter::new();
        for (key, count) in it: walk
            invariant
                obeys_key_model::<T>(),
                it.seq().unref() == entries,
                lists_entries(self.table@, entries),
                diff@ == difference(visited(self.table@, entries, it.index()), other.table@),
        {
            proof {
                lemma_visit_step(self.table@, entries, it.index());
            }
            match other.table.get(key) {
                Some(other_count) => {
                    let distance = if *count > *other_count {
                        *count - *other_count
                    } else {
                        *other_count - *count
                    };
                    diff.update(*key, distance);
                },
                None => {},
            }
        }
        diff
    }

    /// The sum of all stored counts.
    pub fn total(&self) -> (sum: usize)
        requires
            obeys_key_model::<T>(),
            total_of(self@) <= usize::MAX,
        ensures
            sum == total_of(self@),
    {
        let walk = self.table.iter();
        let ghost entries = walk.remaining().unref();
        proof {
            lemma_visit_bounds(self.table@, entries, 0);
            lemma_total_empty::<T>();
        }
        let mut sum: usize = 0;
        for (_key, count) in it: walk
            invariant
                it.seq().unref() == entries,
                lists_entries(self.table@, entries),
                sum == total_of(visited(self.table@, entries, it.index())),
                total_of(self.table@) <= usize::MAX,
        {
            proof {
                lemma_visit_step(self.table@, entries, it.index());
                lemma_visit_bounds(self.table@, entries, it.index());
                lemma_total_insert(
                    visited(self.table@, entries, it.index()),
                    entries[it.index()].0,
                    entries[it.index()].1,
                );
                lemma_total_of_part(visited(self.table@, entries, it.index() + 1), self.table@);
            }
            sum = sum + *count;
        }
        sum
    }

    /// Removes every entry. Afterwards the total is zero, and so is the count
    /// of every element.
    pub fn clear(&mut self)
        ensures
            final(self)@ == Map::<T, usize>::empty(),
            total_of(final(self)@) == 0,
            forall|key: T| count_of(final(self)@, key) == 0,
    {
        self.table.clear();
        proof {
            lemma_total_empty::<T>();
        }
    }
}

impl<T: Eq + Hash + Copy + PartialOrd + PartialEq> PartialEq for Counter<T> {
    /// Whether the two counters store the same entries: the same keys, each
    /// with the same count.
    fn eq(&self, other: &Self) -> (equal: bool) {
        if self.table.len() != other.table.len() {
            return false;
        }
        // `==` can ask nothing of the element type, and a `for` loop over the
        // table cannot start unless the type is known to behave as a key. So
        // the walk is stepped by hand, and a countdown bounds it; for a key
        // type the countdown runs out exactly when the walk ends.
        let walk = self.table.iter();
        let ghost entries = walk.remaining().unref();
        let mut steps = VerusForLoopWrapper::new(walk, Ghost(None));
        let mut left = self.table.len();
        while left > 0
            invariant
                steps.wf(),
                obeys_key_model::<T>() ==> {
                    &&& steps.seq().unref() == entries
                    &&& lists_entries(self.table@, entries)
                    &&& self.table@.len() == other.table@.len()
                    &&& left + steps.index() == entries.len()
                    &&& forall|j: int|
                        0 <= j < steps.index() ==> other.table@.contains_pair(
                            (#[trigger] entries[j]).0,
                            entries[j].1,
                        )
                },
            decreases left,
        {
            proof {
                if obeys_key_model::<T>() {
                    lemma_visit_step(self.table@, entries, steps.index());
                }
            }
            match steps.next() {
                Some((key, count)) => {
                    match other.table.get(key) {
                        Some(other_count) => {
                            if *other_count != *count {
                                return false;
                            }
                        },
                        None => {
                            return false;
                        },
                    }
                },
                None => {
                    return false;
                },
            }
            left = left - 1;
        }
        proof {
            if obeys_key_model::<T>() {
                assert forall|k: T| self.table@.contains_key(k) implies other.table@.contains_pair(
                    k,
                    self.table@[k],
                ) by {
                    assert(entries.to_set().contains((k, self.table@[k])));
                }
                lemma_subset_equality(self.table@.dom(), other.table@.dom());
                assert(self.table@ =~= other.table@);
            }
        }
        true
    }
}

impl<T: Eq + Hash + Copy + PartialOrd + PartialEq> PartialEqSpecImpl for Counter<T> {
    /// `==` is as specified for element types that behave as hash-table keys.
    open spec fn obeys_eq_spec() -> bool {
        obeys_key_model::<T>()
    }

    /// Counters are equal when they store the same entries.
    open spec fn eq_spec(&self, other: &Self) -> bool {
        self@ == other@
    }
}

impl<T: Eq + Hash + Copy + PartialOrd + PartialEq> Eq for Counter<T> {

}

impl<T: Eq + Hash + Copy + PartialOrd + PartialEq> Default for Counter<T> {
    /// An empty counter.
    fn default() -> (c: Self)
        ensures
            c@ == Map::<T, usize>::empty(),
            total_of(c@) == 0,
    {
        proof {
            lemma_total_empty::<T>();
        }
        Counter { table: HashMap::new() }
    }
}

impl<T: Eq + Hash + Copy + PartialOrd + PartialEq> Clone for Counter<T> {
    /// A counter of its own with the same entries.
    fn clone(&self) -> (copy: Self)
        ensures
            copy@ == self@,
    {
        Counter { table: self.table.clone() }
    }
}

} // verus!
