use counter::Counter;

#[test]
fn empty_counter_has_no_entries() {
    let counter: Counter<char> = Counter::new();
    assert_eq!(counter.total(), 0);
    assert_eq!(counter.get('a'), 0);
    assert!(counter.iter().is_empty());
    assert!(counter.elements().is_empty());
}

#[test]
fn default_is_an_empty_counter() {
    let counter: Counter<u32> = Counter::default();
    assert_eq!(counter.total(), 0);
    assert!(counter.iter().is_empty());
    assert!(counter == Counter::new());
}

#[test]
fn empty_sequence_builds_empty_counter() {
    let counter: Counter<char> = Counter::new().from(Vec::new());
    assert_eq!(counter.total(), 0);
    assert!(counter.iter().is_empty());
    assert!(counter == Counter::new());
}

#[test]
fn build_counts_each_element() {
    let counter = Counter::new().from(vec!['a', 'b', 'a', 'c', 'a', 'b']);
    assert_eq!(counter.get('a'), 3);
    assert_eq!(counter.get('b'), 2);
    assert_eq!(counter.get('c'), 1);
    assert_eq!(counter.get('d'), 0);
    assert_eq!(counter.total(), 6);
    assert_eq!(counter.iter().len(), 3);
}

#[test]
fn total_of_built_counter_is_sequence_length() {
    let sequences: Vec<Vec<u8>> = vec![
        vec![],
        vec![7],
        vec![1, 1, 1, 1],
        vec![1, 2, 3, 4, 5],
        vec![9, 8, 9, 8, 9, 7, 0, 0],
    ];
    for sequence in sequences {
        let length = sequence.len();
        let counter = Counter::new().from(sequence);
        assert_eq!(counter.total(), length);
    }
}

#[test]
fn count_of_built_counter_is_number_of_occurrences() {
    let sequence = vec![3u32, 1, 4, 1, 5, 9, 2, 6, 5, 3, 5];
    let counter = Counter::new().from(sequence.clone());
    for key in 0u32..12 {
        let expected = sequence.iter().filter(|item| **item == key).count();
        assert_eq!(counter.get(key), expected);
    }
}

#[test]
fn order_of_the_sequence_does_not_matter() {
    let forward = Counter::new().from(vec!["x", "y", "x", "z"]);
    let backward = Counter::new().from(vec!["z", "x", "y", "x"]);
    assert!(forward == backward);
    assert!(!(forward != backward));
}

#[test]
fn build_adds_to_what_is_stored() {
    let first = Counter::new().from(vec!['a', 'b', 'a']);
    let both = first.from(vec!['b', 'c', 'b']);
    assert_eq!(both.get('a'), 2);
    assert_eq!(both.get('b'), 3);
    assert_eq!(both.get('c'), 1);
    assert_eq!(both.total(), 6);
}

#[test]
fn build_raises_a_count_that_was_set() {
    let mut counter = Counter::new();
    counter.update("k", 40);
    counter.update("zero", 0);
    let counter = counter.from(vec!["k", "zero", "k", "new"]);
    assert_eq!(counter.get("k"), 42);
    assert_eq!(counter.get("zero"), 1);
    assert_eq!(counter.get("new"), 1);
    assert_eq!(counter.total(), 44);
}

#[test]
fn get_of_unknown_key_is_zero() {
    let counter = Counter::new().from(vec![1i64, 2, 3]);
    assert_eq!(counter.get(-1), 0);
    assert_eq!(counter.get(4), 0);
}

#[test]
fn update_sets_and_overwrites() {
    let mut counter = Counter::new();
    counter.update('a', 5);
    assert_eq!(counter.get('a'), 5);
    counter.update('a', 2);
    assert_eq!(counter.get('a'), 2);
    assert_eq!(counter.total(), 2);
    counter.update('b', 7);
    assert_eq!(counter.get('b'), 7);
    assert_eq!(counter.get('a'), 2);
    assert_eq!(counter.total(), 9);
}

#[test]
fn update_is_not_an_increment() {
    let mut counter = Counter::new().from(vec!['a', 'a', 'a']);
    counter.update('a', 1);
    assert_eq!(counter.get('a'), 1);
}

#[test]
fn update_to_zero_keeps_the_key_out_of_elements() {
    let mut counter = Counter::new().from(vec!['b', 'b']);
    counter.update('a', 0);
    assert_eq!(counter.get('a'), 0);
    let elements = counter.elements();
    assert!(!elements.contains(&'a'));
    assert_eq!(elements, vec!['b', 'b']);
    assert_eq!(counter.iter().len(), 2);
    assert!(counter.iter().contains(&('a', 0)));
    assert_eq!(counter.total(), 2);
}

#[test]
fn clear_removes_everything() {
    let mut counter = Counter::new().from(vec!['a', 'b', 'a']);
    counter.update('z', 9);
    counter.clear();
    assert_eq!(counter.total(), 0);
    assert_eq!(counter.get('a'), 0);
    assert_eq!(counter.get('b'), 0);
    assert_eq!(counter.get('z'), 0);
    assert!(counter.iter().is_empty());
    assert!(counter.elements().is_empty());
    assert!(counter == Counter::new());
}

#[test]
fn cleared_counter_can_be_filled_again() {
    let mut counter = Counter::new().from(vec![1u8, 1]);
    counter.clear();
    let counter = counter.from(vec![2u8]);
    assert_eq!(counter.get(1), 0);
    assert_eq!(counter.get(2), 1);
    assert_eq!(counter.total(), 1);
}

#[test]
fn total_sums_set_counts() {
    let mut counter = Counter::new();
    counter.update(1u16, 10);
    counter.update(2u16, 0);
    counter.update(3u16, 32);
    assert_eq!(counter.total(), 42);
}
