//! Level-based compaction strategies.

use vstd::prelude::*;
use vstd::arithmetic::power::pow;
use crate::memtable::MemTable;
use crate::merge::merge_all;
use crate::order::{key_lt, lemma_key_lt_transitive};
use crate::run::{
    copy_entry, drop_tombstones, lemma_run_map_push, lemma_run_map_take_succ,
    lemma_sorted_take, merge_maps, run_map, strictly_sorted,
};
use crate::sstable::{all_wf, table_maps, SSTable};

verus! {

/// `usize::pow`: the std documentation describes it as raising `x` to the
/// power `exp`; with overflow checks it panics on overflow, which the
/// `requires` leaves out. The contract states the exact power.
pub assume_specification[ <usize>::pow ](x: usize, exp: u32) -> (r: usize)
    requires
        pow(x as int, exp as nat) <= usize::MAX,
    ensures
        r == pow(x as int, exp as nat),
;

/// The number of entries held by a sequence of tables.
pub open spec fn total_entries(ts: Seq<SSTable>) -> nat
    decreases ts.len(),
{
    if ts.len() == 0 {
        0
    } else {
        total_entries(ts.drop_last()) + ts.last().entries_spec().len()
    }
}

/// The most entries that level `level` may hold before it is compacted:
/// the size ratio to the power `level + 1` (the level taken as a `u32`).
pub open spec fn level_capacity(ratio: usize, level: usize) -> int {
    pow(ratio as int, ((level as u32) as nat + 1) as nat)
}

/// Adding a table's entries to the count of the tables before it.
pub proof fn lemma_total_entries_take(ts: Seq<SSTable>, n: int)
    requires
        0 <= n < ts.len(),
    ensures
        total_entries(ts.take(n + 1)) == total_entries(ts.take(n)) + ts[n].entries_spec().len(),
{
    assert(ts.take(n + 1).drop_last() =~= ts.take(n));
}

/// The tables before position `n` hold no more entries than all of them.
pub proof fn lemma_total_entries_prefix(ts: Seq<SSTable>, n: int)
    requires
        0 <= n <= ts.len(),
    ensures
        total_entries(ts.take(n)) <= total_entries(ts),
    decreases ts.len() - n,
{
    if n < ts.len() {
        lemma_total_entries_take(ts, n);
        lemma_total_entries_prefix(ts, n + 1);
    } else {
        assert(ts.take(n) =~= ts);
    }
}

/// The entries of tables are counted additively: the count over two runs of
/// tables is the sum of their counts, and one table counts its entries.
pub proof fn lemma_total_entries_additive(a: Seq<SSTable>, b: Seq<SSTable>)
    ensures
        total_entries(a + b) == total_entries(a) + total_entries(b),
        forall|t: SSTable| #[trigger] total_entries(seq![t]) == t.entries_spec().len(),
        total_entries(Seq::<SSTable>::empty()) == 0,
    decreases b.len(),
{
    assert forall|t: SSTable| #[trigger] total_entries(seq![t]) == t.entries_spec().len() by {
        assert(seq![t].drop_last() =~= Seq::<SSTable>::empty());
        assert(seq![t].last() == t);
        assert(total_entries(Seq::<SSTable>::empty()) == 0);
    }
    if b.len() == 0 {
        assert(a + b =~= a);
    } else {
        lemma_total_entries_additive(a, b.drop_last());
        assert((a + b).drop_last() =~= a + b.drop_last());
        assert((a + b).last() == b.last());
    }
}

/// Compaction strategy for merging SSTables.
#[derive(Debug, Clone, Copy)]
pub enum CompactionStrategy {
    /// Size-tiered compaction: merge SSTables of similar size.
    SizeTiered,
    /// Leveled compaction: each level has a max size.
    Leveled,
}

/// Compactor merges SSTables within a level.
pub struct Compactor {
    strategy: CompactionStrategy,
    level_size_ratio: usize,
    max_level: usize,
}

impl Compactor {
    /// The strategy.
    pub closed spec fn strategy_spec(&self) -> CompactionStrategy {
        self.strategy
    }

    /// The size ratio between levels.
    pub closed spec fn ratio_spec(&self) -> usize {
        self.level_size_ratio
    }

    /// The maximum level.
    pub closed spec fn max_level_spec(&self) -> usize {
        self.max_level
    }

    /// Create a new compactor.
    pub fn new(strategy: CompactionStrategy, level_size_ratio: usize) -> (r: Compactor)
        ensures
            r.strategy_spec() == strategy,
            r.ratio_spec() == level_size_ratio,
            r.max_level_spec() == 7,
    {
        Compactor { strategy, level_size_ratio, max_level: 7 }
    }

    /// Whether the tables hold more than `level_max` entries. The count stops
    /// as soon as it passes `level_max`, so it never overflows.
    fn exceeds(tables: &[SSTable], level_max: usize) -> (r: bool)
        ensures
            r == (total_entries(tables@) > level_max),
    {
        let mut total: usize = 0;
        let mut i: usize = 0;
        proof {
            assert(tables@.take(0) =~= Seq::<SSTable>::empty());
        }
        while i < tables.len()
            invariant
                i <= tables@.len(),
                total == total_entries(tables@.take(i as int)),
                total <= level_max,
            decreases tables@.len() - i,
        {
            let n = tables[i].len();
            proof {
                lemma_total_entries_take(tables@, i as int);
            }
            if n > level_max - total {
                proof {
                    lemma_total_entries_prefix(tables@, i + 1);
                }
                return true;
            }
            total = total + n;
            i = i + 1;
        }
        proof {
            assert(tables@.take(i as int) =~= tables@);
        }
        false
    }

    /// Check if compaction is needed for a given level: the tables hold more
    /// entries than the ratio to the power `level + 1`.
    pub fn needs_compaction(&self, tables: &[SSTable], level: usize) -> (r: bool)
        requires
            (level as u32) < u32::MAX,
            level_capacity(self.ratio_spec(), level) <= usize::MAX,
        ensures
            r == (total_entries(tables@) > level_capacity(self.ratio_spec(), level)),
    {
        match self.strategy {
            CompactionStrategy::SizeTiered => {
                let level_max = self.level_size_ratio.pow(level as u32 + 1);
                Self::exceeds(tables, level_max)
            },
            CompactionStrategy::Leveled => {
                let level_max = self.level_size_ratio.pow(level as u32 + 1);
                Self::exceeds(tables, level_max)
            },
        }
    }

    /// Compact a set of SSTables into one SSTable at the next level.
    /// Returns the merged SSTable.
    pub fn compact(&self, tables: Vec<SSTable>, target_level: usize) -> (r: SSTable)
        requires
            all_wf(tables@),
        ensures
            r.built_from(target_level, r.entries_spec()),
            strictly_sorted(r.entries_spec()),
            r@ == drop_tombstones(merge_maps(table_maps(tables@))),
            forall|i: int| 0 <= i < r.entries_spec().len() ==> (#[trigger] r.entries_spec()[i]).1@.len() > 0,
    {
        let merged = self.merge_tables(tables.as_slice());
        SSTable::new(target_level, merged)
    }

    /// Merge multiple SSTables into sorted entries, deduplicating by keeping
    /// the newest (tables later in the slice are newer) and removing
    /// tombstones.
    pub fn merge_tables(&self, tables: &[SSTable]) -> (r: Vec<(Vec<u8>, Vec<u8>)>)
        requires
            all_wf(tables@),
        ensures
            strictly_sorted(r@),
            run_map(r@) == drop_tombstones(merge_maps(table_maps(tables@))),
            forall|i: int| 0 <= i < r@.len() ==> (#[trigger] r@[i]).1@.len() > 0,
    {
        let all_entries = merge_all(tables);
        let mut result: Vec<(Vec<u8>, Vec<u8>)> = Vec::new();
        let mut i: usize = 0;
        proof {
            assert(all_entries@.take(0) =~= Seq::<(Vec<u8>, Vec<u8>)>::empty());
            assert(run_map(result@) =~= Map::empty());
            assert(drop_tombstones(run_map(all_entries@.take(0))) =~= Map::empty());
        }
        while i < all_entries.len()
            invariant
                strictly_sorted(all_entries@),
                i <= all_entries@.len(),
                strictly_sorted(result@),
                run_map(result@) == drop_tombstones(run_map(all_entries@.take(i as int))),
                forall|q: int| 0 <= q < result@.len() ==> (#[trigger] result@[q]).1@.len() > 0,
                forall|q: int|
                    0 <= q < result@.len() ==> (i < all_entries@.len() ==> key_lt(
                        (#[trigger] result@[q]).0@,
                        all_entries@[i as int].0@,
                    )),
            decreases all_entries@.len() - i,
        {
            let ghost prev = result@;
            let ghost m = run_map(all_entries@.take(i as int));
            let ghost k = all_entries@[i as int].0@;
            proof {
                lemma_run_map_take_succ(all_entries@, i as int);
                lemma_sorted_take(all_entries@, i as int);
                if m.contains_key(k) {
                    let p = choose|p: int|
                        0 <= p < all_entries@.take(i as int).len() && all_entries@.take(i as int)[p].0@ == k;
                    assert(all_entries@.take(i as int)[p] == all_entries@[p]);
                    crate::run::lemma_sorted_distinct(all_entries@, p, i as int);
                }
            }
            if all_entries[i].1.len() > 0 {
                let e = copy_entry(&all_entries[i]);
                proof {
                    assert forall|x: int, y: int|
                        0 <= x < y < result@.push(e).len() implies key_lt(
                        result@.push(e)[x].0@,
                        result@.push(e)[y].0@,
                    ) by {
                        assert(result@.push(e)[x] == result@[x]);
                        if y < result@.len() {
                            assert(result@.push(e)[y] == result@[y]);
                        }
                    }
                    lemma_run_map_push(result@, e);
                    assert(drop_tombstones(m.insert(k, e.1@)) =~= drop_tombstones(m).insert(k, e.1@));
                }
                result.push(e);
            } else {
                proof {
                    assert(drop_tombstones(m.insert(k, all_entries@[i as int].1@)) =~= drop_tombstones(m));
                }
            }
            proof {
                assert forall|q: int|
                    0 <= q < result@.len() implies (i + 1 < all_entries@.len() ==> key_lt(
                    (#[trigger] result@[q]).0@,
                    all_entries@[i + 1].0@,
                )) by {
                    if i + 1 < all_entries@.len() {
                        assert(key_lt(all_entries@[i as int].0@, all_entries@[i + 1].0@));
                        if q < prev.len() {
                            assert(result@[q] == prev[q]);
                            lemma_key_lt_transitive(
                                result@[q].0@,
                                all_entries@[i as int].0@,
                                all_entries@[i + 1].0@,
                            );
                        }
                    }
                }
            }
            i = i + 1;
        }
        proof {
            assert(all_entries@.take(i as int) =~= all_entries@);
        }
        result
    }

    /// Flush a memtable to an SSTable at level 0: `None` for an empty
    /// memtable, which is left alone; otherwise a table of the memtable's
    /// entries, and the memtable is left empty.
    pub fn flush_memtable(&self, memtable: &mut MemTable) -> (r: Option<SSTable>)
        requires
            old(memtable).wf(),
        ensures
            final(memtable).wf(),
            final(memtable).size_limit_spec() == old(memtable).size_limit_spec(),
            match r {
                None => {
                    &&& old(memtable).entries_spec().len() == 0
                    &&& final(memtable).entries_spec() == old(memtable).entries_spec()
                },
                Some(t) => {
                    &&& old(memtable).entries_spec().len() > 0
                    &&& t.built_from(0, old(memtable).entries_spec())
                    &&& final(memtable).entries_spec() == Seq::<(Vec<u8>, Vec<u8>)>::empty()
                },
            },
    {
        if memtable.is_empty() {
            return None;
        }
        let entries = memtable.drain();
        Some(SSTable::new(0, entries))
    }

    /// Get the maximum level.
    pub fn max_level(&self) -> (r: usize)
        ensures
            r == self.max_level_spec(),
    {
        self.max_level
    }
}

} // verus!
