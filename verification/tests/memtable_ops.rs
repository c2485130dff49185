use lsm_core::memtable::SkipList;

#[test]
fn test_insert_onethread() {
    let mut s = SkipList::new(0);
    s.Insert(2);
    s.Insert(1);
    s.Insert(3);
    s.Insert(10);
    s.Insert(4);
    let key = 1;
    assert!(s.Contains(&key));
}

#[test]
fn contains_reports_exactly_the_inserted_keys() {
    let mut s = SkipList::new(0);
    for k in [7u64, 3, 11, 5, 2, 13] {
        s.Insert(k);
    }
    for k in [7u64, 3, 11, 5, 2, 13] {
        assert!(s.Contains(&k));
    }
    for k in [1u64, 4, 6, 8, 9, 10, 12, 14, 1000] {
        assert!(!s.Contains(&k));
    }
}

#[test]
fn iteration_yields_keys_in_ascending_order() {
    let mut s = SkipList::new(0);
    // ascending, descending and interleaved insertions
    for k in [5u64, 1, 9, 3, 7, 8, 2, 6, 4, 10] {
        s.Insert(k);
    }
    let mut it = s.iter();
    it.seek_to_first();
    let mut seen: Vec<u64> = Vec::new();
    while it.has_next() {
        seen.push(it.key());
        it.next();
    }
    assert_eq!(seen, vec![1, 2, 3, 4, 5, 6, 7, 8, 9, 10]);
}

#[test]
fn seek_lands_on_smallest_key_at_or_above_target() {
    let mut s = SkipList::new(0);
    for k in [10u64, 20, 30, 40] {
        s.Insert(k);
    }
    let mut it = s.iter();
    it.seek(20);
    assert!(it.has_next());
    assert_eq!(it.key(), 20);
    it.seek(21);
    assert!(it.has_next());
    assert_eq!(it.key(), 30);
    it.seek(5);
    assert!(it.has_next());
    assert_eq!(it.key(), 10);
    it.seek(41);
    assert!(!it.has_next());
}

#[test]
fn seek_to_first_on_empty_list_is_exhausted() {
    let s = SkipList::new(0);
    let mut it = s.iter();
    it.seek_to_first();
    assert!(!it.has_next());
}

#[test]
fn seek_is_restartable() {
    let mut s = SkipList::new(0);
    for k in [2u64, 4, 6] {
        s.Insert(k);
    }
    let mut it = s.iter();
    it.seek(6);
    assert_eq!(it.key(), 6);
    it.next();
    assert!(!it.has_next());
    // a later seek revives the exhausted cursor
    it.seek(1);
    assert_eq!(it.key(), 2);
    it.seek_to_first();
    assert_eq!(it.key(), 2);
}

#[test]
fn dense_ranges_from_both_ends() {
    let mut s = SkipList::new(0);
    // one range ascending, one descending, as a serialized writer would
    for k in 1u64..1000 {
        s.Insert(k);
    }
    for k in (3000u64..4000).rev() {
        s.Insert(k);
    }
    for k in 1u64..1000 {
        assert!(s.Contains(&k));
    }
    for k in 3000u64..4000 {
        assert!(s.Contains(&k));
    }
    for k in 1000u64..2000 {
        assert!(!s.Contains(&k));
    }
    let mut it = s.iter();
    it.seek(1000);
    assert!(it.has_next());
    assert_eq!(it.key(), 3000);
}
