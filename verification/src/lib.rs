//! Log-structured merge tree with memtable, SSTable, compaction, and bloom filters.

pub mod bloom;
pub mod compaction;
pub mod memtable;
pub mod merge;
pub mod order;
pub mod run;
pub mod sstable;

use vstd::prelude::*;
use vstd::arithmetic::power::pow;
use crate::compaction::{level_capacity, total_entries, CompactionStrategy, Compactor};
use crate::memtable::MemTable;
use crate::run::{drop_tombstones, lemma_run_map_len, merge_maps};
use crate::merge::merge_all;
use crate::sstable::{all_wf, table_maps, SSTable};

verus! {

/// A key-value map: the content of the memtable or of one table.
pub type KvMap = Map<Seq<u8>, Seq<u8>>;

/// The state of an LSM tree as maps: the memtable, its capacity, and the
/// levels, each a sequence of table maps, oldest first.
pub struct TreeView {
    pub memtable: KvMap,
    pub capacity: nat,
    pub levels: Seq<Seq<KvMap>>,
}

/// The newest version of `k` in a level: the value in the newest table of the
/// level that holds `k` (tombstones included).
pub open spec fn find_in_level(tables: Seq<KvMap>, k: Seq<u8>) -> Option<Seq<u8>>
    decreases tables.len(),
{
    if tables.len() == 0 {
        None
    } else if tables.last().contains_key(k) {
        Some(tables.last()[k])
    } else {
        find_in_level(tables.drop_last(), k)
    }
}

/// The newest version of `k` in the levels from `i` on: the first level, in
/// order, that holds `k` answers.
pub open spec fn find_from(levels: Seq<Seq<KvMap>>, i: int, k: Seq<u8>) -> Option<Seq<u8>>
    decreases levels.len() - i,
{
    if i < 0 || i >= levels.len() {
        None
    } else {
        match find_in_level(levels[i], k) {
            Some(v) => Some(v),
            None => find_from(levels, i + 1, k),
        }
    }
}

/// The number of entries of a level.
pub open spec fn level_size(tables: Seq<KvMap>) -> nat
    decreases tables.len(),
{
    if tables.len() == 0 {
        0
    } else {
        level_size(tables.drop_last()) + tables.last().dom().len()
    }
}

/// No level after level `i` holds a table.
pub open spec fn deeper_empty(levels: Seq<Seq<KvMap>>, i: int) -> bool {
    forall|j: int| i < j < levels.len() ==> (#[trigger] levels[j]).len() == 0
}

/// The table that compacting a level produces: the level's tables merged,
/// the newest version of each key winning. Tombstones are dropped only when
/// no deeper level holds a table, since otherwise a dropped tombstone would
/// uncover an older value of its key.
pub open spec fn compacted(tables: Seq<KvMap>, drop: bool) -> KvMap {
    if drop {
        drop_tombstones(merge_maps(tables))
    } else {
        merge_maps(tables)
    }
}

/// One compaction of level `i`: the level is emptied and its compacted table
/// becomes the newest table of level `i + 1`.
pub open spec fn compact_step(levels: Seq<Seq<KvMap>>, i: int) -> Seq<Seq<KvMap>> {
    levels.update(i, Seq::empty()).update(
        i + 1,
        levels[i + 1].push(compacted(levels[i], deeper_empty(levels, i))),
    )
}

/// Compaction starting at level `i`: while a level that is not the last holds
/// more than 4 to the power (level + 1) entries, it is compacted into the next.
pub open spec fn compact_from(levels: Seq<Seq<KvMap>>, i: int) -> Seq<Seq<KvMap>>
    decreases levels.len() - i,
{
    if i < 0 || i + 1 >= levels.len() {
        levels
    } else if level_size(levels[i]) > pow(4, (i + 1) as nat) {
        compact_from(compact_step(levels, i), i + 1)
    } else {
        levels
    }
}

/// The number of tables in the levels before level `n`.
pub open spec fn count_tables(levels: Seq<Seq<KvMap>>, n: int) -> nat
    decreases n,
{
    if n <= 0 || levels.len() < n {
        0
    } else {
        count_tables(levels, n - 1) + levels[n - 1].len()
    }
}

/// The number of non-empty levels before level `n`.
pub open spec fn count_active(levels: Seq<Seq<KvMap>>, n: int) -> nat
    decreases n,
{
    if n <= 0 || levels.len() < n {
        0
    } else {
        count_active(levels, n - 1) + if levels[n - 1].len() > 0 { 1nat } else { 0nat }
    }
}

/// What a read gives for a stored version: the value, unless there is no
/// version or it is a tombstone (an empty value).
pub open spec fn read(o: Option<Seq<u8>>) -> Option<Seq<u8>> {
    match o {
        Some(v) => if v.len() > 0 {
            Some(v)
        } else {
            None
        },
        None => None,
    }
}

/// Stored version `a` stands where `b` stood and reads the same: it is `b`,
/// or `b` was a tombstone and `a` is no version at all.
pub open spec fn same_read(a: Option<Seq<u8>>, b: Option<Seq<u8>>) -> bool {
    a == b || (a is None && b is Some && b->0.len() == 0)
}

impl TreeView {
    /// The newest stored version of `k`: the memtable's, else the levels',
    /// tombstones included.
    pub open spec fn latest(self, k: Seq<u8>) -> Option<Seq<u8>> {
        if self.memtable.contains_key(k) {
            Some(self.memtable[k])
        } else {
            find_from(self.levels, 0, k)
        }
    }

    /// What a read of `k` gives: the newest stored version, unless there is
    /// none or it is a tombstone.
    pub open spec fn get(self, k: Seq<u8>) -> Option<Seq<u8>> {
        read(self.latest(k))
    }

    /// Moving a non-empty memtable into a new newest table of level 0, then
    /// compacting from level 0.
    pub open spec fn flush(self) -> TreeView {
        if self.memtable.dom().len() == 0 {
            self
        } else {
            TreeView {
                memtable: Map::empty(),
                capacity: self.capacity,
                levels: compact_from(
                    self.levels.update(0, self.levels[0].push(self.memtable)),
                    0,
                ),
            }
        }
    }

    /// A write: into the memtable, which is flushed once it holds as many
    /// keys as its capacity.
    pub open spec fn put(self, k: Seq<u8>, v: Seq<u8>) -> TreeView {
        let t = TreeView { memtable: self.memtable.insert(k, v), ..self };
        if t.memtable.dom().len() >= self.capacity {
            t.flush()
        } else {
            t
        }
    }

    /// A delete: a tombstone written into the memtable, with no flush.
    pub open spec fn delete(self, k: Seq<u8>) -> TreeView {
        TreeView { memtable: self.memtable.insert(k, Seq::empty()), ..self }
    }

    /// The number of tables over all levels.
    pub open spec fn table_count(self) -> nat {
        count_tables(self.levels, self.levels.len() as int)
    }

    /// The number of levels that hold a table.
    pub open spec fn active_levels(self) -> nat {
        count_active(self.levels, self.levels.len() as int)
    }
}

/// A level's newest version of a key is what the merged level holds for it.
pub proof fn lemma_find_in_level_merge(tables: Seq<KvMap>, k: Seq<u8>)
    ensures
        find_in_level(tables, k) == (if merge_maps(tables).contains_key(k) {
            Some(merge_maps(tables)[k])
        } else {
            None
        }),
    decreases tables.len(),
{
    if tables.len() > 0 {
        lemma_find_in_level_merge(tables.drop_last(), k);
    }
}

/// Searching from level `i` looks only at the levels from `i` on.
pub proof fn lemma_find_from_suffix(a: Seq<Seq<KvMap>>, b: Seq<Seq<KvMap>>, i: int, k: Seq<u8>)
    requires
        a.len() == b.len(),
        forall|j: int| i <= j < a.len() ==> a[j] == b[j],
    ensures
        find_from(a, i, k) == find_from(b, i, k),
    decreases a.len() - i,
{
    if 0 <= i < a.len() {
        lemma_find_from_suffix(a, b, i + 1, k);
    }
}

/// Compacting from level `i` leaves the levels before `i` and the number of
/// levels alone.
pub proof fn lemma_compact_from_shape(levels: Seq<Seq<KvMap>>, i: int)
    ensures
        compact_from(levels, i).len() == levels.len(),
        forall|j: int| 0 <= j < i ==> #[trigger] compact_from(levels, i)[j] == levels[j],
    decreases levels.len() - i,
{
    if 0 <= i && i + 1 < levels.len() && level_size(levels[i]) > pow(4, (i + 1) as nat) {
        lemma_compact_from_shape(compact_step(levels, i), i + 1);
    }
}

/// Levels from `i` on that hold no table hold no version of any key.
pub proof fn lemma_find_from_empty(levels: Seq<Seq<KvMap>>, i: int, k: Seq<u8>)
    requires
        forall|j: int| i <= j < levels.len() ==> (#[trigger] levels[j]).len() == 0,
    ensures
        find_from(levels, i, k) == None::<Seq<u8>>,
    decreases levels.len() - i,
{
    if 0 <= i < levels.len() {
        lemma_find_from_empty(levels, i + 1, k);
    }
}

/// `same_read` chains, and versions that read the same give the same read.
pub proof fn lemma_same_read_transitive(a: Option<Seq<u8>>, b: Option<Seq<u8>>, c: Option<Seq<u8>>)
    requires
        same_read(a, b),
        same_read(b, c),
    ensures
        same_read(a, c),
        read(a) == read(c),
{
}

/// One compaction of level `i` keeps what a read from level `i` on gives for
/// every key.
pub proof fn lemma_compact_step_keeps(levels: Seq<Seq<KvMap>>, i: int, k: Seq<u8>)
    requires
        0 <= i,
        i + 1 < levels.len(),
    ensures
        same_read(find_from(compact_step(levels, i), i, k), find_from(levels, i, k)),
{
    let l2 = compact_step(levels, i);
    let drop = deeper_empty(levels, i);
    let m = compacted(levels[i], drop);
    let merged = merge_maps(levels[i]);
    lemma_find_in_level_merge(levels[i], k);
    assert(l2.len() == levels.len());
    assert(l2[i] == Seq::<KvMap>::empty());
    assert(l2[i + 1] == levels[i + 1].push(m));
    assert(l2[i + 1].drop_last() =~= levels[i + 1]);
    assert(l2[i + 1].last() == m);
    assert forall|j: int| i + 2 <= j < l2.len() implies l2[j] == levels[j] by {}
    lemma_find_from_suffix(l2, levels, i + 2, k);
    assert(find_in_level(l2[i], k) == None::<Seq<u8>>);
    assert(find_from(l2, i, k) == find_from(l2, i + 1, k));
    if merged.contains_key(k) {
        let w = merged[k];
        assert(find_in_level(levels[i], k) == Some(w));
        assert(find_from(levels, i, k) == Some(w));
        if m.contains_key(k) {
            assert(m[k] == w);
            assert(find_in_level(l2[i + 1], k) == Some(w));
        } else {
            // only a tombstone is dropped, and only above levels with no table
            assert(drop && w.len() == 0);
            assert(levels[i + 1].len() == 0);
            assert(find_in_level(l2[i + 1], k) == find_in_level(levels[i + 1], k));
            assert(find_in_level(levels[i + 1], k) == None::<Seq<u8>>);
            lemma_find_from_empty(levels, i + 2, k);
            assert(find_from(l2, i + 1, k) == None::<Seq<u8>>);
        }
    } else {
        assert(!m.contains_key(k));
        assert(find_in_level(l2[i + 1], k) == find_in_level(levels[i + 1], k));
        assert(find_from(levels, i, k) == find_from(levels, i + 1, k));
    }
}

/// Compaction from level `i` keeps what a read from level `i` on gives for
/// every key.
pub proof fn lemma_compact_from_keeps(levels: Seq<Seq<KvMap>>, i: int, k: Seq<u8>)
    requires
        0 <= i,
    ensures
        same_read(find_from(compact_from(levels, i), i, k), find_from(levels, i, k)),
    decreases levels.len() - i,
{
    if i + 1 < levels.len() && level_size(levels[i]) > pow(4, (i + 1) as nat) {
        let l2 = compact_step(levels, i);
        lemma_compact_step_keeps(levels, i, k);
        assert(l2[i] == Seq::<KvMap>::empty());
        assert(find_from(l2, i, k) == find_from(l2, i + 1, k));
        lemma_compact_from_keeps(l2, i + 1, k);
        let res = compact_from(l2, i + 1);
        lemma_compact_from_shape(l2, i + 1);
        assert(res[i] == l2[i]);
        assert(find_from(res, i, k) == find_from(res, i + 1, k));
        lemma_same_read_transitive(find_from(res, i, k), find_from(l2, i, k), find_from(levels, i, k));
    }
}

/// If the levels before `i` are the same and the reads from `i` on agree,
/// the reads from any earlier level `j` agree too.
pub proof fn lemma_same_read_from_earlier(a: Seq<Seq<KvMap>>, b: Seq<Seq<KvMap>>, i: int, j: int, k: Seq<u8>)
    requires
        0 <= j <= i,
        a.len() == b.len(),
        forall|q: int| 0 <= q < i && q < a.len() ==> a[q] == b[q],
        same_read(find_from(a, i, k), find_from(b, i, k)),
    ensures
        same_read(find_from(a, j, k), find_from(b, j, k)),
    decreases i - j,
{
    if j < i {
        lemma_same_read_from_earlier(a, b, i, j + 1, k);
    }
}

/// Compaction from any level keeps what a read of every key gives, and never
/// adds tables.
pub proof fn lemma_compaction_keeps_reads(t: TreeView, i: int, k: Seq<u8>)
    requires
        0 <= i,
    ensures
        (TreeView { levels: compact_from(t.levels, i), ..t }).get(k) == t.get(k),
        count_tables(compact_from(t.levels, i), t.levels.len() as int) <= count_tables(
            t.levels,
            t.levels.len() as int,
        ),
{
    let res = compact_from(t.levels, i);
    lemma_compact_from_keeps(t.levels, i, k);
    lemma_compact_from_shape(t.levels, i);
    lemma_same_read_from_earlier(res, t.levels, i, 0, k);
    lemma_same_read_transitive(find_from(res, 0, k), find_from(t.levels, 0, k), find_from(t.levels, 0, k));
    lemma_compact_from_count(t.levels, i);
}

/// Replacing level `j` changes the table count of the levels before `n` by
/// the difference in that level's tables.
pub proof fn lemma_count_tables_update(levels: Seq<Seq<KvMap>>, j: int, x: Seq<KvMap>, n: int)
    requires
        0 <= j < levels.len(),
        0 <= n <= levels.len(),
    ensures
        count_tables(levels.update(j, x), n) == count_tables(levels, n) + (if j < n {
            x.len() - levels[j].len()
        } else {
            0
        }),
    decreases n,
{
    if n > 0 {
        lemma_count_tables_update(levels, j, x, n - 1);
    }
}

/// A level that holds more entries than some count holds a table.
pub proof fn lemma_level_size_nonempty(tables: Seq<KvMap>)
    requires
        level_size(tables) > 0,
    ensures
        tables.len() > 0,
{
}

/// Compaction never adds tables: each step replaces the tables of a
/// non-empty level by one.
pub proof fn lemma_compact_from_count(levels: Seq<Seq<KvMap>>, i: int)
    ensures
        compact_from(levels, i).len() == levels.len(),
        count_tables(compact_from(levels, i), levels.len() as int) <= count_tables(
            levels,
            levels.len() as int,
        ),
    decreases levels.len() - i,
{
    if 0 <= i && i + 1 < levels.len() && level_size(levels[i]) > pow(4, (i + 1) as nat) {
        vstd::arithmetic::power::lemma_pow_positive(4, (i + 1) as nat);
        lemma_level_size_nonempty(levels[i]);
        let m = compacted(levels[i], deeper_empty(levels, i));
        let l1 = levels.update(i, Seq::empty());
        lemma_count_tables_update(levels, i, Seq::empty(), levels.len() as int);
        lemma_count_tables_update(l1, i + 1, levels[i + 1].push(m), levels.len() as int);
        assert(l1[i + 1] == levels[i + 1]);
        let l2 = compact_step(levels, i);
        lemma_compact_from_count(l2, i + 1);
    }
}

/// A flush keeps what a read of every key gives, and the number of levels.
pub proof fn lemma_flush_keeps(t: TreeView, k: Seq<u8>)
    requires
        t.levels.len() > 0,
    ensures
        same_read(t.flush().latest(k), t.latest(k)),
        t.flush().get(k) == t.get(k),
        t.flush().levels.len() == t.levels.len(),
{
    if t.memtable.dom().len() != 0 {
        let ls = t.levels.update(0, t.levels[0].push(t.memtable));
        assert(ls[0].drop_last() =~= t.levels[0]);
        lemma_find_from_suffix(ls, t.levels, 1, k);
        assert(find_from(ls, 0, k) == t.latest(k));
        lemma_compact_from_keeps(ls, 0, k);
        lemma_compact_from_shape(ls, 0);
        assert(!Map::<Seq<u8>, Seq<u8>>::empty().contains_key(k));
    }
}

/// A write keeps the number of levels.
pub proof fn lemma_put_levels(t: TreeView, k: Seq<u8>, v: Seq<u8>)
    requires
        t.levels.len() > 0,
    ensures
        t.put(k, v).levels.len() == t.levels.len(),
{
    let t1 = TreeView { memtable: t.memtable.insert(k, v), ..t };
    lemma_flush_keeps(t1, k);
}

/// Read after write: once `k` is written, a read of `k` gives the value
/// written, or nothing when the value is empty (a tombstone), whatever flush
/// and compaction the write set off.
pub proof fn lemma_put_then_get(t: TreeView, k: Seq<u8>, v: Seq<u8>)
    requires
        t.levels.len() > 0,
    ensures
        v.len() > 0 ==> t.put(k, v).get(k) == Some(v),
        v.len() == 0 ==> t.put(k, v).get(k) == None::<Seq<u8>>,
{
    let t1 = TreeView { memtable: t.memtable.insert(k, v), ..t };
    assert(t1.latest(k) == Some(v));
    if t1.memtable.dom().len() >= t.capacity {
        lemma_flush_keeps(t1, k);
    }
}

/// Only an empty value is a tombstone: a stored non-empty value reads as
/// itself, and no version or an empty value reads as nothing.
pub proof fn lemma_only_empty_values_are_tombstones(v: Seq<u8>)
    ensures
        v.len() > 0 ==> read(Some(v)) == Some(v),
        v.len() == 0 ==> read(Some(v)) == None::<Seq<u8>>,
        read(None) == None::<Seq<u8>>,
{
}

/// A write changes no read of another key.
pub proof fn lemma_put_keeps_other_keys(t: TreeView, k: Seq<u8>, v: Seq<u8>, k2: Seq<u8>)
    requires
        t.levels.len() > 0,
        k2 != k,
    ensures
        t.put(k, v).get(k2) == t.get(k2),
{
    let t1 = TreeView { memtable: t.memtable.insert(k, v), ..t };
    assert(t1.latest(k2) == t.latest(k2));
    if t1.memtable.dom().len() >= t.capacity {
        lemma_flush_keeps(t1, k2);
    }
}

/// After a delete of `k`, a read of `k` gives nothing.
pub proof fn lemma_delete_then_get(t: TreeView, k: Seq<u8>)
    ensures
        t.delete(k).get(k) == None::<Seq<u8>>,
{
}

/// A delete of `k` changes no read of another key.
pub proof fn lemma_delete_keeps_other_keys(t: TreeView, k: Seq<u8>, k2: Seq<u8>)
    requires
        k2 != k,
    ensures
        t.delete(k).latest(k2) == t.latest(k2),
        t.delete(k).get(k2) == t.get(k2),
{
}

/// A write to the tree: a put or a delete.
pub enum Write {
    Put { key: Seq<u8>, value: Seq<u8> },
    Delete { key: Seq<u8> },
}

impl TreeView {
    /// The tree after one write.
    pub open spec fn apply(self, w: Write) -> TreeView {
        match w {
            Write::Put { key, value } => self.put(key, value),
            Write::Delete { key } => self.delete(key),
        }
    }

    /// The tree after a sequence of writes, first to last.
    pub open spec fn apply_all(self, ws: Seq<Write>) -> TreeView
        decreases ws.len(),
    {
        if ws.len() == 0 {
            self
        } else {
            self.apply_all(ws.drop_last()).apply(ws.last())
        }
    }
}

/// What a read of `k` gives after the writes `ws`, when it gave `before`
/// ahead of them: the last write to `k` decides (a put of a non-empty value
/// gives that value; a delete or a put of an empty value gives nothing); with
/// no write to `k`, `before` stands.
pub open spec fn read_after(ws: Seq<Write>, k: Seq<u8>, before: Option<Seq<u8>>) -> Option<Seq<u8>>
    decreases ws.len(),
{
    if ws.len() == 0 {
        before
    } else {
        match ws.last() {
            Write::Put { key, value } => if key == k {
                if value.len() > 0 {
                    Some(value)
                } else {
                    None
                }
            } else {
                read_after(ws.drop_last(), k, before)
            },
            Write::Delete { key } => if key == k {
                None
            } else {
                read_after(ws.drop_last(), k, before)
            },
        }
    }
}

/// Reads follow the map model: after any sequence of puts and deletes, with
/// whatever flushes and compactions they set off, a read of every key gives
/// what the last write to it says (nothing for a deleted key that was not
/// put again), or what it gave before when there was no write to it.
pub proof fn lemma_reads_follow_writes(t: TreeView, ws: Seq<Write>, k: Seq<u8>)
    requires
        t.levels.len() > 0,
    ensures
        t.apply_all(ws).get(k) == read_after(ws, k, t.get(k)),
        t.apply_all(ws).levels.len() == t.levels.len(),
    decreases ws.len(),
{
    if ws.len() > 0 {
        let p = ws.drop_last();
        lemma_reads_follow_writes(t, p, k);
        let tp = t.apply_all(p);
        match ws.last() {
            Write::Put { key, value } => {
                lemma_put_levels(tp, key, value);
                if key == k {
                    lemma_put_then_get(tp, key, value);
                } else {
                    lemma_put_keeps_other_keys(tp, key, value, k);
                }
            },
            Write::Delete { key } => {
                if key != k {
                    lemma_delete_keeps_other_keys(tp, key, k);
                }
            },
        }
    }
}

/// The levels before level `n` that hold a table.
pub open spec fn active_set(levels: Seq<Seq<KvMap>>, n: int) -> Set<int> {
    Set::new(|i: int| 0 <= i < n && levels[i].len() > 0)
}

/// `count_active` counts the levels that hold a table: it is the number of
/// positions `i < n` with `levels[i]` non-empty, so at most `n`, and at most
/// the number of tables.
pub proof fn lemma_count_active_counts(levels: Seq<Seq<KvMap>>, n: int)
    requires
        0 <= n <= levels.len(),
    ensures
        active_set(levels, n).finite(),
        count_active(levels, n) == active_set(levels, n).len(),
        count_active(levels, n) <= n,
        count_active(levels, n) <= count_tables(levels, n),
    decreases n,
{
    if n == 0 {
        assert(active_set(levels, n) =~= Set::<int>::empty());
    } else {
        lemma_count_active_counts(levels, n - 1);
        let prev = active_set(levels, n - 1);
        if levels[n - 1].len() > 0 {
            assert(active_set(levels, n) =~= prev.insert(n - 1));
            assert(!prev.contains(n - 1));
        } else {
            assert(active_set(levels, n) =~= prev);
        }
    }
}

/// The tables of the levels before `m` are at least those before `n <= m`.
pub proof fn lemma_count_tables_prefix(levels: Seq<Seq<KvMap>>, n: int, m: int)
    requires
        0 <= n <= m <= levels.len(),
    ensures
        count_tables(levels, n) <= count_tables(levels, m),
    decreases m - n,
{
    if n < m {
        lemma_count_tables_prefix(levels, n, m - 1);
    }
}

/// LSM Tree combining memtable and SSTable levels.
pub struct LsmTree {
    memtable: MemTable,
    levels: Vec<Vec<SSTable>>,
    compactor: Compactor,
}

/// The maps of the tables of each level.
pub open spec fn levels_view(levels: Seq<Vec<SSTable>>) -> Seq<Seq<KvMap>> {
    levels.map_values(|l: Vec<SSTable>| table_maps(l@))
}

/// Every table of every level is well formed.
pub open spec fn levels_wf(levels: Seq<Vec<SSTable>>) -> bool {
    forall|i: int| 0 <= i < levels.len() ==> all_wf(#[trigger] levels[i]@)
}

/// A level holds as many entries as its tables' maps have keys.
proof fn lemma_total_entries_is_level_size(ts: Seq<SSTable>)
    requires
        all_wf(ts),
    ensures
        total_entries(ts) == level_size(table_maps(ts)),
    decreases ts.len(),
{
    if ts.len() > 0 {
        let p = ts.drop_last();
        assert(all_wf(p)) by {
            assert forall|i: int| 0 <= i < p.len() implies (#[trigger] p[i]).wf() by {
                assert(p[i] == ts[i]);
            }
        }
        lemma_total_entries_is_level_size(p);
        assert(table_maps(ts).drop_last() =~= table_maps(p));
        assert(ts.last().wf());
        lemma_run_map_len(ts.last().entries_spec());
    }
}

/// The capacity of the levels below the last is small.
proof fn lemma_level_capacity_small(level: usize)
    requires
        level < 7,
    ensures
        level_capacity(4, level) == pow(4, (level + 1) as nat),
        level_capacity(4, level) <= 16384,
        (level as u32) < u32::MAX,
{
    reveal_with_fuel(vstd::arithmetic::power::pow, 8);
    assert((level as u32) as nat == level as nat);
}

impl View for LsmTree {
    type V = TreeView;

    /// The tree as maps.
    closed spec fn view(&self) -> TreeView {
        TreeView {
            memtable: self.memtable@,
            capacity: self.memtable.size_limit_spec(),
            levels: levels_view(self.levels@),
        }
    }
}

impl LsmTree {
    /// The memtable is sorted, there are seven levels of well-formed tables,
    /// and the compactor uses a size ratio of 4.
    pub closed spec fn wf(&self) -> bool {
        &&& self.memtable.wf()
        &&& self.levels@.len() == 7
        &&& levels_wf(self.levels@)
        &&& self.compactor.ratio_spec() == 4
    }

    /// The number of entries in the memtable.
    pub closed spec fn memtable_len_spec(&self) -> nat {
        self.memtable.entries_spec().len()
    }

    /// The view has seven levels and the memtable's map has one key per entry.
    pub proof fn lemma_view_shape(&self)
        requires
            self.wf(),
        ensures
            self@.levels.len() == 7,
            self@.memtable.dom().finite(),
            self@.memtable.dom().len() == self.memtable_len_spec(),
    {
        self.memtable.lemma_len();
    }

    /// Create a new LSM tree with the given memtable capacity.
    pub fn new(memtable_capacity: usize) -> (r: LsmTree)
        ensures
            r.wf(),
            r@.memtable == Map::<Seq<u8>, Seq<u8>>::empty(),
            r@.capacity == memtable_capacity,
            r@.levels == Seq::new(7, |i: int| Seq::<KvMap>::empty()),
            forall|k: Seq<u8>| r@.get(k) == None::<Seq<u8>>,
    {
        let compactor = Compactor::new(CompactionStrategy::Leveled, 4);
        let mut levels: Vec<Vec<SSTable>> = Vec::new();
        let mut i: usize = 0;
        while i < 7
            invariant
                i <= 7,
                levels@.len() == i,
                forall|j: int| 0 <= j < i ==> (#[trigger] levels@[j])@ == Seq::<SSTable>::empty(),
            decreases 7 - i,
        {
            levels.push(Vec::new());
            i = i + 1;
        }
        let r = LsmTree { memtable: MemTable::new(memtable_capacity), levels, compactor };
        proof {
            assert(r.memtable@ =~= Map::<Seq<u8>, Seq<u8>>::empty());
            assert(levels_view(r.levels@) =~= Seq::new(7, |i: int| Seq::<KvMap>::empty())) by {
                assert forall|j: int| 0 <= j < 7 implies levels_view(r.levels@)[j] =~= Seq::<KvMap>::empty() by {
                    assert(r.levels@[j]@ == Seq::<SSTable>::empty());
                }
            }
            assert forall|k: Seq<u8>| r@.get(k) == None::<Seq<u8>> by {
                lemma_find_from_empty(r@.levels, 0, k);
            }
            assert forall|j: int| 0 <= j < r.levels@.len() implies all_wf(#[trigger] r.levels@[j]@) by {
                assert(r.levels@[j]@ == Seq::<SSTable>::empty());
            }
        }
        r
    }

    /// Put a key-value pair: into the memtable, which is flushed to level 0
    /// (and compacted from there) once it holds as many entries as its
    /// capacity.
    pub fn put(&mut self, key: &[u8], value: &[u8])
        requires
            old(self).wf(),
        ensures
            final(self).wf(),
            final(self)@ == old(self)@.put(key@, value@),
    {
        self.memtable.put(key, value);
        proof {
            self.memtable.lemma_len();
        }
        if self.memtable.is_full() {
            self.flush();
        }
    }

    /// Delete a key (inserts tombstone).
    pub fn delete(&mut self, key: &[u8])
        requires
            old(self).wf(),
        ensures
            final(self).wf(),
            final(self)@ == old(self)@.delete(key@),
    {
        let tombstone: Vec<u8> = Vec::new();
        self.memtable.put(key, tombstone.as_slice());
        proof {
            assert(tombstone@ =~= Seq::<u8>::empty());
        }
    }

    /// Get a value by key: the newest stored version, from the memtable, then
    /// level 0 to the deepest, newest table first within a level; a tombstone
    /// or no version gives `None`.
    pub fn get(&self, key: &[u8]) -> (r: Option<Vec<u8>>)
        requires
            self.wf(),
        ensures
            match r {
                Some(v) => self@.get(key@) == Some(v@),
                None => self@.get(key@) == None::<Seq<u8>>,
            },
    {
        // Check memtable first
        if let Some(val) = self.memtable.get(key) {
            if val.len() == 0 {
                return None;  // Tombstone
            }
            return Some(vstd::slice::slice_to_vec(val));
        }
        let ghost ls = self@.levels;
        // Check SSTables from level 0 to deepest
        let mut i: usize = 0;
        while i < self.levels.len()
            invariant
                self.wf(),
                ls == self@.levels,
                i <= self.levels@.len(),
                !self@.memtable.contains_key(key@),
                find_from(ls, 0, key@) == find_from(ls, i as int, key@),
            decreases self.levels@.len() - i,
        {
            let level = &self.levels[i];
            proof {
                assert(all_wf(level@));
                assert(ls[i as int] == table_maps(level@));
            }
            // Check in reverse order (newest first)
            let mut j: usize = level.len();
            proof {
                assert(level@.take(j as int) =~= level@);
            }
            while j > 0
                invariant
                    self.wf(),
                    ls == self@.levels,
                    i < self.levels@.len(),
                    *level == self.levels@[i as int],
                    all_wf(level@),
                    j <= level@.len(),
                    !self@.memtable.contains_key(key@),
                    find_from(ls, 0, key@) == find_from(ls, i as int, key@),
                    find_in_level(ls[i as int], key@) == find_in_level(
                        table_maps(level@.take(j as int)),
                        key@,
                    ),
                decreases j,
            {
                let table = &level[j - 1];
                proof {
                    assert(level@.take(j as int).last() == level@[j - 1]);
                    assert(table_maps(level@.take(j as int)).drop_last() =~= table_maps(
                        level@.take(j - 1),
                    ));
                    assert(table_maps(level@.take(j as int)).last() == level@[j - 1]@);
                    assert(level@[j - 1].wf());
                }
                if let Some(val) = table.get(key) {
                    if val.len() == 0 {
                        return None;  // Tombstone
                    }
                    return Some(vstd::slice::slice_to_vec(val));
                }
                j = j - 1;
            }
            proof {
                assert(table_maps(level@.take(0)) =~= Seq::<KvMap>::empty());
            }
            i = i + 1;
        }
        None
    }

    /// Flush the memtable to L0.
    fn flush(&mut self)
        requires
            old(self).wf(),
        ensures
            final(self).wf(),
            final(self)@ == old(self)@.flush(),
    {
        proof {
            self.memtable.lemma_len();
        }
        if let Some(sst) = self.compactor.flush_memtable(&mut self.memtable) {
            let ghost old_levels = self.levels@;
            let mut level0: Vec<SSTable> = Vec::new();
            self.levels.set_and_swap(0, &mut level0);
            let ghost l0 = level0@;
            level0.push(sst);
            self.levels.set(0, level0);
            proof {
                assert(self.levels@ == old_levels.update(0, self.levels@[0]));
                assert(self.levels@[0]@ == l0.push(sst));
                assert(table_maps(l0.push(sst)) =~= table_maps(l0).push(sst@));
                assert(levels_view(self.levels@) =~= levels_view(old_levels).update(
                    0,
                    levels_view(old_levels)[0].push(sst@),
                ));
                assert forall|i: int| 0 <= i < self.levels@.len() implies all_wf(#[trigger] self.levels@[i]@) by {
                    if i == 0 {
                        assert forall|q: int| 0 <= q < self.levels@[0]@.len() implies (#[trigger] self.levels@[0]@[q]).wf() by {
                            if q < l0.len() {
                                assert(self.levels@[0]@[q] == l0[q]);
                                assert(all_wf(old_levels[0]@));
                            }
                        }
                    } else {
                        assert(self.levels@[i] == old_levels[i]);
                    }
                }
                assert(self.memtable@ =~= Map::<Seq<u8>, Seq<u8>>::empty());
            }
            self.maybe_compact(0);
        } else {
            proof {
                assert(old(self)@.memtable.dom().len() == 0);
            }
        }
    }

    /// Whether no level after `level` holds a table.
    fn deeper_levels_empty(&self, level: usize) -> (r: bool)
        requires
            self.wf(),
            level < 7,
        ensures
            r == deeper_empty(self@.levels, level as int),
    {
        let mut j: usize = level + 1;
        while j < self.levels.len()
            invariant
                self.wf(),
                level < j <= self.levels@.len(),
                forall|q: int| level < q < j ==> (#[trigger] self@.levels[q]).len() == 0,
            decreases self.levels@.len() - j,
        {
            proof {
                assert(self@.levels[j as int].len() == self.levels@[j as int]@.len());
            }
            if !self.levels[j].is_empty() {
                return false;
            }
            j = j + 1;
        }
        true
    }

    /// Check if compaction is needed and perform it. A level is compacted
    /// into the next one; tombstones are dropped only when no deeper level
    /// holds a table.
    fn maybe_compact(&mut self, level: usize)
        requires
            old(self).wf(),
            level < 7,
        ensures
            final(self).wf(),
            final(self)@ == (TreeView {
                levels: compact_from(old(self)@.levels, level as int),
                ..old(self)@
            }),
        decreases 7 - level,
    {
        if level >= self.levels.len() - 1 {
            return;
        }
        proof {
            lemma_level_capacity_small(level);
            assert(all_wf(self.levels@[level as int]@));
            lemma_total_entries_is_level_size(self.levels@[level as int]@);
        }
        if self.compactor.needs_compaction(self.levels[level].as_slice(), level) {
            let ghost old_levels = self.levels@;
            // Tombstones may be dropped only when no deeper level holds an
            // older version that they would uncover.
            let drop = self.deeper_levels_empty(level);
            let mut tables: Vec<SSTable> = Vec::new();
            self.levels.set_and_swap(level, &mut tables);
            let ghost mid_levels = self.levels@;
            let merged = if drop {
                self.compactor.compact(tables, level + 1)
            } else {
                SSTable::new(level + 1, merge_all(tables.as_slice()))
            };
            let mut next: Vec<SSTable> = Vec::new();
            self.levels.set_and_swap(level + 1, &mut next);
            let ghost next_old = next@;
            next.push(merged);
            self.levels.set(level + 1, next);
            proof {
                let i = level as int;
                assert(table_maps(next_old.push(merged)) =~= table_maps(next_old).push(merged@));
                assert(tables@ == old_levels[i]@);
                assert(merged@ == compacted(levels_view(old_levels)[i], deeper_empty(levels_view(old_levels), i)));
                assert(mid_levels.len() == old_levels.len());
                assert(mid_levels[i]@ == Seq::<SSTable>::empty());
                assert(forall|j: int| 0 <= j < mid_levels.len() && j != i ==> mid_levels[j] == old_levels[j]);
                assert(next_old == old_levels[i + 1]@);
                assert(self.levels@ == mid_levels.update(i + 1, self.levels@[i + 1]));
                assert(self.levels@[i + 1]@ == next_old.push(merged));
                let lv = levels_view(self.levels@);
                let cs = compact_step(levels_view(old_levels), i);
                assert(lv.len() == cs.len());
                assert forall|j: int| 0 <= j < lv.len() implies lv[j] == cs[j] by {
                    if j == i {
                        assert(lv[j] =~= Seq::<KvMap>::empty());
                    } else if j == i + 1 {
                        assert(lv[j] == table_maps(next_old.push(merged)));
                    } else {
                        assert(self.levels@[j] == old_levels[j]);
                    }
                }
                assert(lv =~= cs);
                assert forall|j: int| 0 <= j < self.levels@.len() implies all_wf(#[trigger] self.levels@[j]@) by {
                    if j == i + 1 {
                        assert forall|q: int| 0 <= q < self.levels@[j]@.len() implies (#[trigger] self.levels@[j]@[q]).wf() by {
                            if q < next_old.len() {
                                assert(self.levels@[j]@[q] == next_old[q]);
                                assert(all_wf(old_levels[j]@));
                            }
                        }
                    } else if j == i {
                        assert(self.levels@[j]@ == Seq::<SSTable>::empty());
                    } else {
                        assert(self.levels@[j] == old_levels[j]);
                    }
                }
            }
            self.maybe_compact(level + 1);
        }
    }

    /// Number of SSTables across all levels.
    pub fn table_count(&self) -> (r: usize)
        requires
            self.wf(),
            self@.table_count() <= usize::MAX,
        ensures
            r == self@.table_count(),
    {
        let mut total: usize = 0;
        let mut i: usize = 0;
        while i < self.levels.len()
            invariant
                self.wf(),
                self@.table_count() <= usize::MAX,
                i <= self.levels@.len(),
                total == count_tables(self@.levels, i as int),
            decreases self.levels@.len() - i,
        {
            proof {
                lemma_count_tables_prefix(self@.levels, i + 1, self.levels@.len() as int);
                assert(self@.levels[i as int].len() == self.levels@[i as int]@.len());
            }
            total = total + self.levels[i].len();
            i = i + 1;
        }
        total
    }

    /// Number of levels with data.
    pub fn active_levels(&self) -> (r: usize)
        requires
            self.wf(),
        ensures
            r == self@.active_levels(),
            r == active_set(self@.levels, self@.levels.len() as int).len(),
    {
        let mut count: usize = 0;
        let mut i: usize = 0;
        while i < self.levels.len()
            invariant
                self.wf(),
                i <= self.levels@.len(),
                count == count_active(self@.levels, i as int),
                count <= i,
            decreases self.levels@.len() - i,
        {
            proof {
                assert(self@.levels[i as int].len() == self.levels@[i as int]@.len());
            }
            if !self.levels[i].is_empty() {
                count = count + 1;
            }
            i = i + 1;
        }
        proof {
            lemma_count_active_counts(self@.levels, self@.levels.len() as int);
        }
        count
    }

    /// Memtable size.
    pub fn memtable_len(&self) -> (r: usize)
        requires
            self.wf(),
        ensures
            r == self@.memtable.dom().len(),
    {
        proof {
            self.memtable.lemma_len();
        }
        self.memtable.len()
    }
}

} // verus!
