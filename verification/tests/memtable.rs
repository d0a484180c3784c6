use lsm_tree::memtable::MemTable;

#[test]
fn test_put_and_get() {
    let mut mt = MemTable::new(100);
    mt.put(b"key1", b"value1");
    mt.put(b"key2", b"value2");
    assert_eq!(mt.get(b"key1"), Some(b"value1".as_slice()));
    assert_eq!(mt.get(b"key2"), Some(b"value2".as_slice()));
    assert_eq!(mt.get(b"key3"), None);
}

#[test]
fn test_put_overwrite() {
    let mut mt = MemTable::new(100);
    mt.put(b"key", b"v1");
    mt.put(b"key", b"v2");
    assert_eq!(mt.get(b"key"), Some(b"v2".as_slice()));
    assert_eq!(mt.len(), 1);
}

#[test]
fn test_sorted_order() {
    let mut mt = MemTable::new(100);
    mt.put(b"c", b"3");
    mt.put(b"a", b"1");
    mt.put(b"b", b"2");
    let entries = mt.entries();
    assert_eq!(entries[0].0, b"a");
    assert_eq!(entries[1].0, b"b");
    assert_eq!(entries[2].0, b"c");
}

#[test]
fn test_is_full() {
    let mut mt = MemTable::new(3);
    mt.put(b"a", b"1");
    mt.put(b"b", b"2");
    assert!(!mt.is_full());
    mt.put(b"c", b"3");
    assert!(mt.is_full());
}

#[test]
fn test_drain() {
    let mut mt = MemTable::new(100);
    mt.put(b"a", b"1");
    mt.put(b"b", b"2");
    let drained = mt.drain();
    assert_eq!(drained.len(), 2);
    assert!(mt.is_empty());
}

#[test]
fn test_contains() {
    let mut mt = MemTable::new(100);
    mt.put(b"key", b"value");
    assert!(mt.contains(b"key"));
    assert!(!mt.contains(b"nokey"));
}

#[test]
fn memtable_delete_leaves_tombstone() {
    let mut mt = MemTable::new(100);
    mt.put(b"key", b"value");
    mt.delete(b"key");
    assert_eq!(mt.get(b"key"), Some(b"".as_slice()));
    assert!(mt.contains(b"key"));
    assert_eq!(mt.len(), 1);
}

#[test]
fn memtable_keeps_byte_order() {
    let mut mt = MemTable::new(100);
    for k in [&b"ab"[..], b"a", b"", b"b", b"aa", b"\xff", b"\x00"] {
        mt.put(k, k);
    }
    let keys: Vec<&[u8]> = mt.entries().iter().map(|(k, _)| k.as_slice()).collect();
    assert_eq!(keys, vec![&b""[..], b"\x00", b"a", b"aa", b"ab", b"b", b"\xff"]);
    assert_eq!(mt.get(b""), Some(b"".as_slice()));
    assert_eq!(mt.get(b"aa"), Some(b"aa".as_slice()));
}

#[test]
fn memtable_zero_limit_is_always_full() {
    let mt = MemTable::new(0);
    assert!(mt.is_full());
    assert!(mt.is_empty());
}
