use homework::list_set::OrderedListSet;

#[test]
fn list_set_insert_contains_remove() {
    let mut s = OrderedListSet::new();
    assert!(!s.contains(&3));
    assert_eq!(s.insert(3), Ok(()));
    assert_eq!(s.insert(1), Ok(()));
    assert_eq!(s.insert(2), Ok(()));
    assert_eq!(s.insert(2), Err(2));
    assert!(s.contains(&1) && s.contains(&2) && s.contains(&3));
    assert_eq!(s.remove(&2), Ok(2));
    assert_eq!(s.remove(&2), Err(()));
    assert!(!s.contains(&2));
}

#[test]
fn list_set_iter_in_order() {
    let mut s = OrderedListSet::default();
    for k in [5u64, 1, 9, 3, 7] {
        assert_eq!(s.insert(k), Ok(()));
    }
    let mut it = s.iter();
    let mut seen = Vec::new();
    while let Some(k) = it.next() {
        seen.push(*k);
    }
    assert_eq!(seen, vec![1, 3, 5, 7, 9]);
    assert_eq!(it.next(), None);
}

#[test]
fn list_set_new_iter_is_empty() {
    let s = OrderedListSet::new();
    let mut it = s.iter();
    assert_eq!(it.next(), None);
    assert!(!s.contains(&0));
}
