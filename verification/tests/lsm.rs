use std::collections::BTreeMap;
use lsm_tree::LsmTree;

#[test]
fn test_basic_put_get() {
    let mut tree = LsmTree::new(100);
    tree.put(b"hello", b"world");
    assert_eq!(tree.get(b"hello"), Some(b"world".to_vec()));
}

#[test]
fn test_delete() {
    let mut tree = LsmTree::new(100);
    tree.put(b"key", b"value");
    tree.delete(b"key");
    assert_eq!(tree.get(b"key"), None);
}

#[test]
fn test_memtable_flush() {
    let mut tree = LsmTree::new(5);
    for i in 0..10 {
        tree.put(format!("k{}", i).as_bytes(), b"v");
    }
    assert!(tree.table_count() > 0);
    // All keys should still be accessible
    for i in 0..10 {
        assert!(tree.get(format!("k{}", i).as_bytes()).is_some());
    }
}

#[test]
fn test_not_found() {
    let tree = LsmTree::new(100);
    assert_eq!(tree.get(b"nonexistent"), None);
}

#[test]
fn test_overwrite() {
    let mut tree = LsmTree::new(100);
    tree.put(b"key", b"old");
    tree.put(b"key", b"new");
    assert_eq!(tree.get(b"key"), Some(b"new".to_vec()));
}

#[test]
fn test_many_keys() {
    let mut tree = LsmTree::new(10);
    for i in 0..100 {
        tree.put(format!("key_{:04}", i).as_bytes(), format!("val_{}", i).as_bytes());
    }
    for i in 0..100 {
        let val = tree.get(format!("key_{:04}", i).as_bytes());
        assert_eq!(val, Some(format!("val_{}", i).into_bytes()));
    }
}

#[test]
fn test_compaction_triggers() {
    let mut tree = LsmTree::new(3);
    for i in 0..50 {
        tree.put(format!("k{}", i).as_bytes(), b"v");
    }
    // Should have compacted some levels
    assert!(tree.active_levels() >= 1);
}

#[test]
fn lsm_counts_after_flushes() {
    let mut tree = LsmTree::new(2);
    assert_eq!(tree.table_count(), 0);
    assert_eq!(tree.active_levels(), 0);
    tree.put(b"a", b"1");
    assert_eq!(tree.memtable_len(), 1);
    tree.put(b"b", b"2");
    // the memtable reached its capacity of two and went to level 0
    assert_eq!(tree.memtable_len(), 0);
    assert_eq!(tree.table_count(), 1);
    assert_eq!(tree.active_levels(), 1);
    tree.put(b"c", b"3");
    tree.put(b"d", b"4");
    assert_eq!(tree.table_count(), 2);
    tree.put(b"e", b"5");
    tree.put(b"f", b"6");
    // level 0 now holds six entries, more than four: compacted into level 1
    assert_eq!(tree.table_count(), 1);
    assert_eq!(tree.active_levels(), 1);
    for (k, v) in [(b"a", b"1"), (b"c", b"3"), (b"f", b"6")] {
        assert_eq!(tree.get(k), Some(v.to_vec()));
    }
}

#[test]
fn lsm_delete_does_not_flush() {
    let mut tree = LsmTree::new(1);
    tree.delete(b"a");
    tree.delete(b"b");
    assert_eq!(tree.memtable_len(), 2);
    assert_eq!(tree.table_count(), 0);
    assert_eq!(tree.get(b"a"), None);
}

#[test]
fn lsm_delete_shadows_flushed_value() {
    let mut tree = LsmTree::new(2);
    tree.put(b"k", b"v");
    tree.put(b"x", b"1");
    assert_eq!(tree.table_count(), 1);
    tree.delete(b"k");
    assert_eq!(tree.get(b"k"), None);
    assert_eq!(tree.get(b"x"), Some(b"1".to_vec()));
}

#[test]
fn lsm_empty_value_reads_as_absent() {
    let mut tree = LsmTree::new(100);
    tree.put(b"k", b"v");
    tree.put(b"k", b"");
    assert_eq!(tree.get(b"k"), None);
}

#[test]
fn lsm_delete_survives_compaction_over_an_older_value() {
    // A value reaches level 1; a later tombstone for it is compacted out of
    // level 0 into a newer level-1 table; the older value stays hidden.
    let mut tree = LsmTree::new(1);
    tree.put(b"k", b"old");
    for i in 0..4 {
        tree.put(format!("a{}", i).as_bytes(), b"x");
    }
    // level 0 held five single-entry tables: compacted into level 1
    assert_eq!(tree.table_count(), 1);
    tree.delete(b"k");
    assert_eq!(tree.get(b"k"), None);
    for i in 0..4 {
        tree.put(format!("b{}", i).as_bytes(), b"y");
    }
    assert_eq!(tree.table_count(), 2);
    assert_eq!(tree.get(b"k"), None);
    for i in 0..60 {
        tree.put(format!("c{}", i).as_bytes(), b"z");
        assert_eq!(tree.get(b"k"), None);
    }
    tree.put(b"k", b"again");
    assert_eq!(tree.get(b"k"), Some(b"again".to_vec()));
}

#[test]
fn lsm_delete_then_other_writes() {
    let mut tree = LsmTree::new(1);
    tree.put(b"k", b"v");
    for x in [b"a", b"b", b"c", b"d"] {
        tree.put(x, b"1");
    }
    tree.delete(b"k");
    for x in [b"e", b"f", b"g", b"h"] {
        tree.put(x, b"1");
    }
    assert_eq!(tree.get(b"k"), None);
}

#[test]
fn lsm_reads_follow_a_map_model() {
    let mut tree = LsmTree::new(3);
    let mut model: BTreeMap<Vec<u8>, Vec<u8>> = BTreeMap::new();
    let mut seed: u64 = 7;
    for step in 0..3000u64 {
        seed = seed.wrapping_mul(6364136223846793005).wrapping_add(1442695040888963407);
        let key = format!("k{}", (seed >> 33) % 40).into_bytes();
        match (seed >> 20) % 4 {
            0 => {
                tree.delete(&key);
                model.remove(&key);
            }
            1 => {
                tree.put(&key, b"");
                model.remove(&key);
            }
            _ => {
                let v = format!("v{}", step).into_bytes();
                tree.put(&key, &v);
                model.insert(key.clone(), v);
            }
        }
        for i in 0..40 {
            let k = format!("k{}", i).into_bytes();
            assert_eq!(tree.get(&k), model.get(&k).cloned(), "step {} key {}", step, i);
        }
    }
}
