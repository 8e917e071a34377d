use counter::Counter;

fn table(entries: &[(char, usize)]) -> Counter<char> {
    let mut counter = Counter::new();
    for (key, count) in entries {
        counter.update(*key, *count);
    }
    counter
}

fn sorted_entries(counter: &Counter<char>) -> Vec<(char, usize)> {
    let mut entries = counter.iter();
    entries.sort();
    entries
}

#[test]
fn substract_keeps_common_keys_only() {
    let a = table(&[('x', 3), ('y', 1)]);
    let b = table(&[('x', 1), ('z', 2)]);
    let difference = a.substract(&b);
    assert_eq!(sorted_entries(&difference), vec![('x', 2)]);
    assert_eq!(difference.get('x'), 2);
    assert_eq!(difference.get('y'), 0);
    assert_eq!(difference.get('z'), 0);
}

#[test]
fn substract_takes_the_absolute_difference() {
    let a = table(&[('p', 2), ('q', 9), ('r', 4)]);
    let b = table(&[('p', 7), ('q', 3), ('r', 4)]);
    let difference = a.substract(&b);
    assert_eq!(sorted_entries(&difference), vec![('p', 5), ('q', 6), ('r', 0)]);
}

#[test]
fn substract_is_symmetric() {
    let a = table(&[('x', 3), ('y', 1), ('w', 10), ('v', 0)]);
    let b = table(&[('x', 1), ('z', 2), ('w', 25), ('v', 6)]);
    let one = a.substract(&b);
    let other = b.substract(&a);
    assert!(one == other);
    assert!(!(one != other));
    assert_eq!(sorted_entries(&one), vec![('v', 6), ('w', 15), ('x', 2)]);
}

#[test]
fn substract_of_itself_is_all_zero() {
    let a = table(&[('x', 3), ('y', 1)]);
    let difference = a.substract(&a);
    assert_eq!(sorted_entries(&difference), vec![('x', 0), ('y', 0)]);
    assert_eq!(difference.total(), 0);
}

#[test]
fn substract_with_empty_is_empty() {
    let a = table(&[('x', 3), ('y', 1)]);
    let empty: Counter<char> = Counter::new();
    assert!(a.substract(&empty).iter().is_empty());
    assert!(empty.substract(&a).iter().is_empty());
    assert!(empty.substract(&empty).iter().is_empty());
}

#[test]
fn substract_without_common_keys_is_empty() {
    let a = table(&[('x', 3)]);
    let b = table(&[('y', 3)]);
    assert!(a.substract(&b) == Counter::new());
}

#[test]
fn substract_leaves_its_operands_alone() {
    let a = table(&[('x', 3), ('y', 1)]);
    let b = table(&[('x', 1), ('z', 2)]);
    let _ = a.substract(&b);
    assert_eq!(sorted_entries(&a), vec![('x', 3), ('y', 1)]);
    assert_eq!(sorted_entries(&b), vec![('x', 1), ('z', 2)]);
}

#[test]
fn substract_spans_the_whole_range() {
    let a = table(&[('m', usize::MAX)]);
    let b = table(&[('m', 0)]);
    assert_eq!(a.substract(&b).get('m'), usize::MAX);
    assert_eq!(b.substract(&a).get('m'), usize::MAX);
}

#[test]
fn counters_with_the_same_entries_are_equal() {
    let built = Counter::new().from(vec!['a', 'b', 'a']);
    let set = table(&[('b', 1), ('a', 2)]);
    assert!(built == set);
    assert!(!(built != set));
    assert!(!(set != built));
}

#[test]
fn counters_that_differ_are_not_equal() {
    let base = table(&[('a', 2), ('b', 1)]);
    let other_count = table(&[('a', 2), ('b', 3)]);
    let other_key = table(&[('a', 2), ('c', 1)]);
    let fewer = table(&[('a', 2)]);
    let more = table(&[('a', 2), ('b', 1), ('c', 0)]);
    for different in [&other_count, &other_key, &fewer, &more] {
        assert!(base != *different);
        assert!(*different != base);
        assert!(!(base == *different));
        assert!(!(*different == base));
    }
}

#[test]
fn a_zero_entry_tells_counters_apart() {
    let with_zero = table(&[('a', 0)]);
    let without: Counter<char> = Counter::new();
    assert_eq!(with_zero.get('a'), without.get('a'));
    assert!(with_zero != without);
    assert!(!(with_zero == without));
}

#[test]
fn clone_is_equal_and_independent() {
    let first = table(&[('a', 2), ('b', 1)]);
    let mut copy = first.clone();
    assert!(copy == first);
    assert!(!(copy != first));
    copy.update('a', 50);
    copy.update('n', 1);
    assert_eq!(first.get('a'), 2);
    assert_eq!(first.get('n'), 0);
    assert_eq!(copy.get('a'), 50);
    assert!(copy != first);
}
