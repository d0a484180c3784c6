use lsm_tree::sstable::SSTable;

fn make_sstable() -> SSTable {
    let entries = vec![
        (b"a".to_vec(), b"1".to_vec()),
        (b"b".to_vec(), b"2".to_vec()),
        (b"c".to_vec(), b"3".to_vec()),
        (b"d".to_vec(), b"4".to_vec()),
        (b"e".to_vec(), b"5".to_vec()),
    ];
    SSTable::new(0, entries)
}

#[test]
fn test_get_found() {
    let sst = make_sstable();
    assert_eq!(sst.get(b"c"), Some(b"3".as_slice()));
}

#[test]
fn test_get_not_found() {
    let sst = make_sstable();
    assert_eq!(sst.get(b"z"), None);
}

#[test]
fn test_min_max_key() {
    let sst = make_sstable();
    assert_eq!(sst.min_key(), Some(b"a".as_slice()));
    assert_eq!(sst.max_key(), Some(b"e".as_slice()));
}

#[test]
fn test_overlaps() {
    let sst = make_sstable();
    assert!(sst.overlaps(b"a", b"c"));
    assert!(sst.overlaps(b"d", b"f"));
    assert!(!sst.overlaps(b"f", b"z"));
}

#[test]
fn test_range() {
    let sst = make_sstable();
    let range = sst.range(b"b", b"d");
    assert_eq!(range.len(), 3);
    assert_eq!(range[0].0, b"b");
    assert_eq!(range[2].0, b"d");
}

#[test]
fn test_level() {
    let sst = make_sstable();
    assert_eq!(sst.level(), 0);
}

#[test]
fn test_len() {
    let sst = make_sstable();
    assert_eq!(sst.len(), 5);
}

#[test]
fn sstable_every_key_found_and_maybe_contained() {
    let entries: Vec<(Vec<u8>, Vec<u8>)> =
        (0..500).map(|i| (format!("key{:05}", i).into_bytes(), format!("v{}", i).into_bytes())).collect();
    let sst = SSTable::new(3, entries.clone());
    assert_eq!(sst.level(), 3);
    for (k, v) in &entries {
        assert!(sst.might_contain(k));
        assert_eq!(sst.get(k), Some(v.as_slice()));
    }
    assert_eq!(sst.get(b"key00500"), None);
    assert_eq!(sst.entries(), entries.as_slice());
}

#[test]
fn sstable_empty_table() {
    let sst = SSTable::new(1, Vec::new());
    assert!(sst.is_empty());
    assert_eq!(sst.min_key(), None);
    assert_eq!(sst.max_key(), None);
    assert!(!sst.overlaps(b"", b"\xff"));
    assert!(sst.range(b"", b"\xff").is_empty());
    assert_eq!(sst.get(b"a"), None);
}

#[test]
fn sstable_overlap_bounds_are_inclusive() {
    let sst = make_sstable();
    assert!(sst.overlaps(b"e", b"z"));
    assert!(sst.overlaps(b"0", b"a"));
    assert!(!sst.overlaps(b"0", b"0"));
    assert!(!sst.overlaps(b"ea", b"f"));
}

#[test]
fn sstable_range_edges() {
    let sst = make_sstable();
    let all = sst.range(b"a", b"e");
    assert_eq!(all.len(), 5);
    let none = sst.range(b"d", b"b");
    assert!(none.is_empty());
    let prefix = sst.range(b"", b"bb");
    assert_eq!(prefix, vec![(&b"a"[..], &b"1"[..]), (&b"b"[..], &b"2"[..])]);
}
