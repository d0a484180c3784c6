use lsm_tree::compaction::{CompactionStrategy, Compactor};
use lsm_tree::memtable::MemTable;
use lsm_tree::sstable::SSTable;

#[test]
fn test_flush_memtable() {
    let compactor = Compactor::new(CompactionStrategy::Leveled, 4);
    let mut mt = MemTable::new(100);
    mt.put(b"a", b"1");
    mt.put(b"b", b"2");
    let sst = compactor.flush_memtable(&mut mt).unwrap();
    assert_eq!(sst.level(), 0);
    assert_eq!(sst.len(), 2);
    assert!(mt.is_empty());
}

#[test]
fn test_compact_merge() {
    let compactor = Compactor::new(CompactionStrategy::Leveled, 4);
    let sst1 = SSTable::new(0, vec![
        (b"a".to_vec(), b"1".to_vec()),
        (b"c".to_vec(), b"3".to_vec()),
    ]);
    let sst2 = SSTable::new(0, vec![
        (b"b".to_vec(), b"2".to_vec()),
        (b"c".to_vec(), b"3_updated".to_vec()),
    ]);
    let merged = compactor.compact(vec![sst1, sst2], 1);
    assert_eq!(merged.level(), 1);
    assert_eq!(merged.len(), 3);
    assert_eq!(merged.get(b"c"), Some(b"3_updated".as_slice()));
}

#[test]
fn test_needs_compaction() {
    let compactor = Compactor::new(CompactionStrategy::Leveled, 2);
    let tables: Vec<SSTable> = (0..5)
        .map(|_| SSTable::new(0, vec![(b"k".to_vec(), b"v".to_vec())]))
        .collect();
    assert!(compactor.needs_compaction(&tables, 0));
}

#[test]
fn test_no_compaction_needed() {
    let compactor = Compactor::new(CompactionStrategy::Leveled, 100);
    let tables = vec![SSTable::new(0, vec![(b"k".to_vec(), b"v".to_vec())])];
    assert!(!compactor.needs_compaction(&tables, 0));
}

#[test]
fn test_tombstone_removal() {
    let compactor = Compactor::new(CompactionStrategy::Leveled, 4);
    let sst = SSTable::new(0, vec![
        (b"a".to_vec(), b"1".to_vec()),
        (b"b".to_vec(), b"".to_vec()), // tombstone
    ]);
    let merged = compactor.compact(vec![sst], 1);
    assert_eq!(merged.len(), 1); // tombstone removed
    assert_eq!(merged.get(b"a"), Some(b"1".as_slice()));
}

#[test]
fn test_flush_empty() {
    let compactor = Compactor::new(CompactionStrategy::Leveled, 4);
    let mut mt = MemTable::new(100);
    assert!(compactor.flush_memtable(&mut mt).is_none());
}

fn tables_of(sizes: &[usize]) -> Vec<SSTable> {
    sizes
        .iter()
        .map(|&n| {
            SSTable::new(0, (0..n).map(|i| (format!("k{:04}", i).into_bytes(), b"v".to_vec())).collect())
        })
        .collect()
}

#[test]
fn needs_compaction_threshold_is_ratio_power() {
    // ratio 2, level 2: at most 2^3 = 8 entries
    let compactor = Compactor::new(CompactionStrategy::SizeTiered, 2);
    assert!(!compactor.needs_compaction(&tables_of(&[3, 5]), 2));
    assert!(compactor.needs_compaction(&tables_of(&[3, 6]), 2));
    // ratio 4, level 0: at most 4 entries
    let compactor = Compactor::new(CompactionStrategy::Leveled, 4);
    assert!(!compactor.needs_compaction(&tables_of(&[4]), 0));
    assert!(compactor.needs_compaction(&tables_of(&[2, 3]), 0));
    assert!(!compactor.needs_compaction(&[], 5));
}

#[test]
fn merge_tables_newest_wins_and_drops_tombstones() {
    let compactor = Compactor::new(CompactionStrategy::Leveled, 4);
    let old = SSTable::new(0, vec![
        (b"a".to_vec(), b"1".to_vec()),
        (b"b".to_vec(), b"2".to_vec()),
        (b"c".to_vec(), b"".to_vec()),
    ]);
    let new = SSTable::new(0, vec![
        (b"a".to_vec(), b"".to_vec()),
        (b"c".to_vec(), b"3".to_vec()),
        (b"d".to_vec(), b"4".to_vec()),
    ]);
    let merged = compactor.merge_tables(&[old, new]);
    assert_eq!(merged, vec![
        (b"b".to_vec(), b"2".to_vec()),
        (b"c".to_vec(), b"3".to_vec()),
        (b"d".to_vec(), b"4".to_vec()),
    ]);
}

#[test]
fn compactor_max_level() {
    let compactor = Compactor::new(CompactionStrategy::SizeTiered, 10);
    assert_eq!(compactor.max_level(), 7);
}
