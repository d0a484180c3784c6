use lsm_tree::merge::{merge_two_tables, MergeIterator};
use lsm_tree::sstable::SSTable;

fn make_table(entries: Vec<(&[u8], &[u8])>) -> SSTable {
    let mut sorted: Vec<(Vec<u8>, Vec<u8>)> = entries
        .into_iter()
        .map(|(k, v)| (k.to_vec(), v.to_vec()))
        .collect();
    sorted.sort_by(|a, b| a.0.cmp(&b.0));
    SSTable::new(0, sorted)
}

fn collect(mut iter: MergeIterator) -> Vec<(Vec<u8>, Vec<u8>)> {
    let mut out = Vec::new();
    while let Some(e) = iter.next() {
        out.push(e);
    }
    out
}

#[test]
fn test_merge_non_overlapping() {
    let t1 = make_table(vec![(b"a", b"1"), (b"c", b"3")]);
    let t2 = make_table(vec![(b"b", b"2"), (b"d", b"4")]);
    let merged: Vec<_> = collect(MergeIterator::new(&[t1, t2]));
    assert_eq!(merged.len(), 4);
    assert_eq!(merged[0].0, b"a");
    assert_eq!(merged[3].0, b"d");
}

#[test]
fn test_merge_with_overlap() {
    let t1 = make_table(vec![(b"a", b"old"), (b"b", b"2")]);
    let t2 = make_table(vec![(b"a", b"new"), (b"c", b"3")]);
    let merged: Vec<_> = collect(MergeIterator::new(&[t1, t2]));
    assert_eq!(merged[0], (b"a".to_vec(), b"new".to_vec()));
}

#[test]
fn test_merge_two_tables_func() {
    let t1 = make_table(vec![(b"a", b"1"), (b"b", b"2")]);
    let t2 = make_table(vec![(b"b", b"new2"), (b"c", b"3")]);
    let merged = merge_two_tables(&t1, &t2);
    assert_eq!(merged.len(), 3);
    assert_eq!(merged[1], (b"b".to_vec(), b"new2".to_vec()));
}

#[test]
fn test_seek() {
    let t = make_table(vec![(b"a", b"1"), (b"b", b"2"), (b"c", b"3")]);
    let mut iter = MergeIterator::new(&[t]);
    iter.seek(b"b");
    assert_eq!(iter.current(), Some((b"b".as_slice(), b"2".as_slice())));
}

#[test]
fn test_empty_merge() {
    let iter = MergeIterator::new(&[]);
    assert_eq!(collect(iter).len(), 0);
}

#[test]
fn test_single_table() {
    let t = make_table(vec![(b"x", b"1"), (b"y", b"2")]);
    let merged: Vec<_> = collect(MergeIterator::new(&[t]));
    assert_eq!(merged.len(), 2);
}

#[test]
fn merge_newest_of_three_wins() {
    let t1 = make_table(vec![(b"k", b"1"), (b"a", b"a1")]);
    let t2 = make_table(vec![(b"k", b"2"), (b"z", b"z2")]);
    let t3 = make_table(vec![(b"k", b"3")]);
    let merged = collect(MergeIterator::new(&[t1, t2, t3]));
    assert_eq!(
        merged,
        vec![
            (b"a".to_vec(), b"a1".to_vec()),
            (b"k".to_vec(), b"3".to_vec()),
            (b"z".to_vec(), b"z2".to_vec()),
        ]
    );
}

#[test]
fn merge_keeps_tombstones() {
    let t1 = make_table(vec![(b"a", b"1")]);
    let t2 = make_table(vec![(b"a", b"")]);
    let merged = collect(MergeIterator::new(&[t1, t2]));
    assert_eq!(merged, vec![(b"a".to_vec(), Vec::new())]);
}

#[test]
fn seek_positions() {
    let t = make_table(vec![(b"b", b"1"), (b"d", b"2"), (b"f", b"3")]);
    let mut iter = MergeIterator::new(&[t]);
    assert_eq!(iter.current(), Some((b"b".as_slice(), b"1".as_slice())));
    iter.seek(b"c");
    assert_eq!(iter.current(), Some((b"d".as_slice(), b"2".as_slice())));
    iter.seek(b"a");
    assert_eq!(iter.current(), Some((b"b".as_slice(), b"1".as_slice())));
    iter.seek(b"g");
    assert_eq!(iter.current(), None);
    assert_eq!(iter.next(), None);
    iter.seek(b"f");
    assert_eq!(iter.next(), Some((b"f".to_vec(), b"3".to_vec())));
    assert_eq!(iter.next(), None);
}

#[test]
fn merge_two_tables_one_empty() {
    let t1 = make_table(vec![]);
    let t2 = make_table(vec![(b"b", b"2"), (b"a", b"1")]);
    assert_eq!(merge_two_tables(&t1, &t2), vec![(b"a".to_vec(), b"1".to_vec()), (b"b".to_vec(), b"2".to_vec())]);
    assert_eq!(merge_two_tables(&t2, &t1), vec![(b"a".to_vec(), b"1".to_vec()), (b"b".to_vec(), b"2".to_vec())]);
}
