use homework::split_order::{is_valid_key, reverse_bits};
use homework::split_ordered_list::SplitOrderedList;

#[test]
fn insert_then_lookup() {
    let mut m: SplitOrderedList<&str> = SplitOrderedList::new();
    assert_eq!(m.insert(&5, "a"), Ok(()));
    assert_eq!(m.lookup(&5), Some(&"a"));
    assert_eq!(m.lookup(&6), None);
}

#[test]
fn duplicate_insert_keeps_first_value() {
    let mut m: SplitOrderedList<&str> = SplitOrderedList::new();
    assert_eq!(m.insert(&5, "a"), Ok(()));
    assert_eq!(m.insert(&5, "b"), Err("b"));
    assert_eq!(m.lookup(&5), Some(&"a"));
    assert_eq!(m.count(), 1);
}

#[test]
fn delete_then_lookup() {
    let mut m: SplitOrderedList<&str> = SplitOrderedList::new();
    assert_eq!(m.insert(&5, "a"), Ok(()));
    assert_eq!(m.delete(&5), Ok("a"));
    assert_eq!(m.lookup(&5), None);
    assert_eq!(m.delete(&5), Err(()));
    assert_eq!(m.count(), 0);
}

#[test]
fn reinsert_after_delete() {
    let mut m: SplitOrderedList<&str> = SplitOrderedList::new();
    assert_eq!(m.insert(&1, "a"), Ok(()));
    assert_eq!(m.delete(&1), Ok("a"));
    assert_eq!(m.insert(&1, "b"), Ok(()));
    assert_eq!(m.insert(&1, "c"), Err("c"));
    assert_eq!(m.lookup(&1), Some(&"b"));
}

#[test]
fn growth_doubles_size() {
    let mut m: SplitOrderedList<usize> = SplitOrderedList::new();
    assert_eq!(m.size(), 2);
    for k in 0..4usize {
        assert_eq!(m.insert(&k, k * 10), Ok(()));
    }
    assert_eq!(m.size(), 2);
    assert_eq!(m.insert(&4, 40), Ok(()));
    assert_eq!(m.size(), 4);
    for k in 0..5usize {
        assert_eq!(m.lookup(&k), Some(&(k * 10)));
    }
}

#[test]
fn many_keys_survive_growth() {
    let mut m: SplitOrderedList<usize> = SplitOrderedList::new();
    for k in 0..1000usize {
        assert_eq!(m.insert(&(k * 7), k), Ok(()));
    }
    assert_eq!(m.count(), 1000);
    assert_eq!(m.size(), 512);
    for k in 0..1000usize {
        assert_eq!(m.lookup(&(k * 7)), Some(&k));
        assert_eq!(m.lookup(&(k * 7 + 1)), None);
    }
}

#[test]
fn count_tracks_live_entries() {
    let mut m: SplitOrderedList<usize> = SplitOrderedList::new();
    for t in 0..4usize {
        for k in (t * 100)..(t * 100 + 50) {
            assert_eq!(m.insert(&k, t), Ok(()));
        }
        for k in (t * 100)..(t * 100 + 20) {
            assert_eq!(m.delete(&k), Ok(t));
        }
    }
    assert_eq!(m.count(), 4 * 30);
    for t in 0..4usize {
        for k in (t * 100)..(t * 100 + 20) {
            assert_eq!(m.lookup(&k), None);
        }
        for k in (t * 100 + 20)..(t * 100 + 50) {
            assert_eq!(m.lookup(&k), Some(&t));
        }
    }
}

#[test]
fn keys_differing_in_low_bit_are_distinct() {
    let mut m: SplitOrderedList<&str> = SplitOrderedList::new();
    assert_eq!(m.insert(&4, "four"), Ok(()));
    assert_eq!(m.insert(&5, "five"), Ok(()));
    assert_eq!(m.lookup(&4), Some(&"four"));
    assert_eq!(m.lookup(&5), Some(&"five"));
    assert_eq!(m.delete(&4), Ok("four"));
    assert_eq!(m.lookup(&5), Some(&"five"));
}

#[test]
fn extreme_keys() {
    let mut m: SplitOrderedList<&str> = SplitOrderedList::default();
    let top: usize = (1usize << 63) - 1;
    assert_eq!(m.insert(&0, "zero"), Ok(()));
    assert_eq!(m.insert(&top, "top"), Ok(()));
    assert_eq!(m.insert(&(1usize << 62), "mid"), Ok(()));
    assert_eq!(m.lookup(&0), Some(&"zero"));
    assert_eq!(m.lookup(&top), Some(&"top"));
    assert_eq!(m.lookup(&(1usize << 62)), Some(&"mid"));
    assert_eq!(m.delete(&top), Ok("top"));
    assert_eq!(m.lookup(&top), None);
}

#[test]
fn key_range() {
    assert!(is_valid_key(0));
    assert!(is_valid_key((1usize << 63) - 1));
    assert!(!is_valid_key(1usize << 63));
    assert!(!is_valid_key(usize::MAX));
}

#[test]
fn bit_reversal() {
    assert_eq!(reverse_bits(1), 1u64 << 63);
    assert_eq!(reverse_bits(6), 0x6000_0000_0000_0000);
    assert_eq!(reverse_bits(0), 0);
    assert_eq!(reverse_bits(0x1234_5678_9abc_def0), 0x1234_5678_9abc_def0u64.reverse_bits());
}
