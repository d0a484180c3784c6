# lsm_tree

A log-structured merge tree over byte-string keys and values, verified with
Verus: a sorted in-memory memtable, immutable sorted tables with bloom
filters, merging of tables (the newest entry of a key wins), and level-based
compaction, which drops tombstones only where no deeper level could hold an
older value of their key.

Layout:

- `src/order.rs` — the byte-wise key order, its laws, and key comparison.
- `src/run.rs` — sorted runs of entries, the map a run stands for, binary
  search.
- `src/bloom.rs` — the bloom filter; inserted keys are always reported.
- `src/memtable.rs` — the memtable.
- `src/sstable.rs` — sorted tables with their bloom filters.
- `src/merge.rs` — merging tables, and the merge iterator.
- `src/compaction.rs` — the compactor.
- `src/lib.rs` — the tree, its model as maps (`TreeView`), and the laws of
  reads and writes over that model (a read gives what the last write to its
  key says, through any flushes and compactions).
- `app/lib.rs` — the bloom filter constructor that takes a floating-point
  false-positive rate.
- `tests/` — the tests.
