use crdt_richtext::small_set::SmallSetI32;

#[test]
fn small_set_test() {
    let mut set = SmallSetI32::new();
    set.insert(1);
    set.insert(2);
    set.insert(2);
    set.insert(2);
    set.insert(1);
    assert_eq!(set.len(), 2);
    assert!(set.contains(2));
    assert!(set.contains(1));
    assert!(!set.contains(0));
    assert!(!set.contains(-2));
    set.remove(2);
    assert!(!set.contains(2));
    assert!(set.len() == 1);
}

#[test]
fn smallset_size() {
    assert_eq!(32, std::mem::size_of::<SmallSetI32>());
}

#[test]
fn inserting_the_negation_cancels() {
    let mut set = SmallSetI32::new();
    set.insert(3);
    set.insert(-3);
    assert!(set.is_empty());
    for v in 1..10 {
        set.insert(v);
    }
    assert_eq!(set.len(), 9);
    set.insert(-4);
    assert_eq!(set.len(), 8);
    assert!(!set.contains(4));
    assert!(!set.contains(-4));
    let mut values = set.iter();
    values.sort();
    assert_eq!(values, vec![1, 2, 3, 5, 6, 7, 8, 9]);
}
