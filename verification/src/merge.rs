//! Merge iteration across multiple SSTables.

use vstd::prelude::*;
use crate::order::{compare_keys, key_lt, lemma_key_lt_total, lemma_key_lt_transitive, KeyOrder};
use crate::run::{
    copy_entry, lemma_run_map_push, lemma_run_map_take_succ, merge_maps, run_map, strictly_sorted,
};
use crate::sstable::{all_wf, table_maps, SSTable};

verus! {

/// Merging two sorted runs, the entry of `newer` winning where both hold a
/// key: the result is sorted and stands for the older map overridden by the
/// newer one.
fn merge_sorted(older: &[(Vec<u8>, Vec<u8>)], newer: &[(Vec<u8>, Vec<u8>)]) -> (r: Vec<
    (Vec<u8>, Vec<u8>),
>)
    requires
        strictly_sorted(older@),
        strictly_sorted(newer@),
    ensures
        strictly_sorted(r@),
        run_map(r@) == run_map(older@).union_prefer_right(run_map(newer@)),
{
    let mut result: Vec<(Vec<u8>, Vec<u8>)> = Vec::new();
    let mut i: usize = 0;
    let mut j: usize = 0;
    proof {
        assert(older@.take(0) =~= Seq::<(Vec<u8>, Vec<u8>)>::empty());
        assert(newer@.take(0) =~= Seq::<(Vec<u8>, Vec<u8>)>::empty());
        assert(run_map(result@) =~= Map::empty());
        assert(run_map(older@.take(0)) =~= Map::empty());
        assert(run_map(newer@.take(0)) =~= Map::empty());
        assert(run_map(result@) =~= run_map(older@.take(0)).union_prefer_right(
            run_map(newer@.take(0)),
        ));
    }
    while i < older.len() || j < newer.len()
        invariant
            strictly_sorted(older@),
            strictly_sorted(newer@),
            i <= older@.len(),
            j <= newer@.len(),
            strictly_sorted(result@),
            run_map(result@) == run_map(older@.take(i as int)).union_prefer_right(
                run_map(newer@.take(j as int)),
            ),
            forall|q: int|
                0 <= q < result@.len() ==> (i < older@.len() ==> key_lt(
                    #[trigger] result@[q].0@,
                    older@[i as int].0@,
                )) && (j < newer@.len() ==> key_lt(result@[q].0@, newer@[j as int].0@)),
        decreases older@.len() - i + newer@.len() - j,
    {
        let ghost a = run_map(older@.take(i as int));
        let ghost b = run_map(newer@.take(j as int));
        let ghost prev = result@;
        // Which side gives the next entry: 0 older, 1 both (newer wins), 2 newer.
        let step: u8 = if i < older.len() && j < newer.len() {
            match compare_keys(older[i].0.as_slice(), newer[j].0.as_slice()) {
                KeyOrder::Less => 0,
                KeyOrder::Equal => 1,
                KeyOrder::Greater => 2,
            }
        } else if i < older.len() {
            0
        } else {
            2
        };
        if step == 0 {
            let e = copy_entry(&older[i]);
            proof {
                let k = older@[i as int].0@;
                // the key is not yet in the newer part taken so far
                if b.contains_key(k) {
                    assert(run_map(result@).contains_key(k));
                    let q = choose|q: int| 0 <= q < result@.len() && result@[q].0@ == k;
                    crate::order::lemma_key_lt_irreflexive(k);
                }
                assert forall|x: int, y: int|
                    0 <= x < y < result@.push(e).len() implies key_lt(
                    result@.push(e)[x].0@,
                    result@.push(e)[y].0@,
                ) by {
                    if y < result@.len() {
                        assert(result@.push(e)[x] == result@[x]);
                        assert(result@.push(e)[y] == result@[y]);
                    } else {
                        assert(result@.push(e)[x] == result@[x]);
                    }
                }
                lemma_run_map_push(result@, e);
                lemma_run_map_take_succ(older@, i as int);
                assert(a.insert(k, e.1@).union_prefer_right(b) =~= a.union_prefer_right(b).insert(k, e.1@));
                if j < newer@.len() && i < older@.len() {
                    lemma_key_lt_total(k, newer@[j as int].0@);
                }
            }
            result.push(e);
            proof {
                assert forall|q: int|
                    0 <= q < result@.len() implies (i + 1 < older@.len() ==> key_lt(
                    #[trigger] result@[q].0@,
                    older@[i + 1].0@,
                )) && (j < newer@.len() ==> key_lt(result@[q].0@, newer@[j as int].0@)) by {
                    if i + 1 < older@.len() {
                        assert(key_lt(older@[i as int].0@, older@[i + 1].0@));
                        if q < prev.len() {
                            assert(result@[q] == prev[q]);
                            lemma_key_lt_transitive(
                                result@[q].0@,
                                older@[i as int].0@,
                                older@[i + 1].0@,
                            );
                        }
                    }
                    if q < prev.len() {
                        assert(result@[q] == prev[q]);
                    }
                }
            }
            i = i + 1;
        } else if step == 1 {
            let e = copy_entry(&newer[j]);
            proof {
                let k = newer@[j as int].0@;
                assert(older@[i as int].0@ == k);
                assert forall|x: int, y: int|
                    0 <= x < y < result@.push(e).len() implies key_lt(
                    result@.push(e)[x].0@,
                    result@.push(e)[y].0@,
                ) by {
                    if y < result@.len() {
                        assert(result@.push(e)[x] == result@[x]);
                        assert(result@.push(e)[y] == result@[y]);
                    } else {
                        assert(result@.push(e)[x] == result@[x]);
                    }
                }
                lemma_run_map_push(result@, e);
                lemma_run_map_take_succ(older@, i as int);
                lemma_run_map_take_succ(newer@, j as int);
                assert(a.insert(k, older@[i as int].1@).union_prefer_right(b.insert(k, e.1@))
                    =~= a.union_prefer_right(b).insert(k, e.1@));
            }
            result.push(e);
            proof {
                assert forall|q: int|
                    0 <= q < result@.len() implies (i + 1 < older@.len() ==> key_lt(
                    #[trigger] result@[q].0@,
                    older@[i + 1].0@,
                )) && (j + 1 < newer@.len() ==> key_lt(result@[q].0@, newer@[j + 1].0@)) by {
                    if i + 1 < older@.len() {
                        assert(key_lt(older@[i as int].0@, older@[i + 1].0@));
                        if q < prev.len() {
                            assert(result@[q] == prev[q]);
                            lemma_key_lt_transitive(
                                result@[q].0@,
                                older@[i as int].0@,
                                older@[i + 1].0@,
                            );
                        }
                    }
                    if j + 1 < newer@.len() {
                        assert(key_lt(newer@[j as int].0@, newer@[j + 1].0@));
                        if q < prev.len() {
                            assert(result@[q] == prev[q]);
                            lemma_key_lt_transitive(
                                result@[q].0@,
                                newer@[j as int].0@,
                                newer@[j + 1].0@,
                            );
                        }
                    }
                }
            }
            i = i + 1;
            j = j + 1;
        } else {
            let e = copy_entry(&newer[j]);
            proof {
                let k = newer@[j as int].0@;
                if i < older@.len() {
                    lemma_key_lt_total(older@[i as int].0@, k);
                }
                assert forall|x: int, y: int|
                    0 <= x < y < result@.push(e).len() implies key_lt(
                    result@.push(e)[x].0@,
                    result@.push(e)[y].0@,
                ) by {
                    if y < result@.len() {
                        assert(result@.push(e)[x] == result@[x]);
                        assert(result@.push(e)[y] == result@[y]);
                    } else {
                        assert(result@.push(e)[x] == result@[x]);
                    }
                }
                lemma_run_map_push(result@, e);
                lemma_run_map_take_succ(newer@, j as int);
                assert(a.union_prefer_right(b.insert(k, e.1@)) =~= a.union_prefer_right(b).insert(k, e.1@));
            }
            result.push(e);
            proof {
                assert forall|q: int|
                    0 <= q < result@.len() implies (i < older@.len() ==> key_lt(
                    #[trigger] result@[q].0@,
                    older@[i as int].0@,
                )) && (j + 1 < newer@.len() ==> key_lt(result@[q].0@, newer@[j + 1].0@)) by {
                    if j + 1 < newer@.len() {
                        assert(key_lt(newer@[j as int].0@, newer@[j + 1].0@));
                        if q < prev.len() {
                            assert(result@[q] == prev[q]);
                            lemma_key_lt_transitive(
                                result@[q].0@,
                                newer@[j as int].0@,
                                newer@[j + 1].0@,
                            );
                        }
                    }
                    if q < prev.len() {
                        assert(result@[q] == prev[q]);
                    }
                }
            }
            j = j + 1;
        }
    }
    proof {
        assert(older@.take(i as int) =~= older@);
        assert(newer@.take(j as int) =~= newer@);
    }
    result
}

/// Merges the entries of `tables`, oldest first, into one sorted run in which
/// the newest entry of each key wins.
pub(crate) fn merge_all(tables: &[SSTable]) -> (r: Vec<(Vec<u8>, Vec<u8>)>)
    requires
        all_wf(tables@),
    ensures
        strictly_sorted(r@),
        run_map(r@) == merge_maps(table_maps(tables@)),
{
    let mut acc: Vec<(Vec<u8>, Vec<u8>)> = Vec::new();
    let mut t: usize = 0;
    proof {
        assert(table_maps(tables@.take(0)) =~= Seq::<Map<Seq<u8>, Seq<u8>>>::empty());
        assert(run_map(acc@) =~= Map::empty());
    }
    while t < tables.len()
        invariant
            all_wf(tables@),
            t <= tables@.len(),
            strictly_sorted(acc@),
            run_map(acc@) == merge_maps(table_maps(tables@.take(t as int))),
        decreases tables@.len() - t,
    {
        assert(tables@[t as int].wf());
        let merged = merge_sorted(acc.as_slice(), tables[t].entries());
        proof {
            let before = table_maps(tables@.take(t as int));
            let after = table_maps(tables@.take(t + 1));
            assert(after.drop_last() =~= before);
            assert(after.last() == tables@[t as int]@);
        }
        acc = merged;
        t = t + 1;
    }
    proof {
        assert(tables@.take(t as int) =~= tables@);
    }
    acc
}

/// Merge iterator that combines entries from multiple SSTables,
/// resolving duplicates by preferring newer entries (later in the list).
pub struct MergeIterator {
    /// All entries from all SSTables, sorted.
    entries: Vec<(Vec<u8>, Vec<u8>)>,
    index: usize,
}

impl MergeIterator {
    /// The merged entries, in key order.
    pub closed spec fn entries_spec(&self) -> Seq<(Vec<u8>, Vec<u8>)> {
        self.entries@
    }

    /// The position of the current entry.
    pub closed spec fn index_spec(&self) -> nat {
        self.index as nat
    }

    /// The entries are sorted and the position is at most one past the last.
    pub open spec fn wf(&self) -> bool {
        strictly_sorted(self.entries_spec()) && self.index_spec() <= self.entries_spec().len()
    }

    /// Create a new merge iterator over multiple SSTables.
    /// SSTables should be ordered from oldest to newest.
    pub fn new(tables: &[SSTable]) -> (r: MergeIterator)
        requires
            all_wf(tables@),
        ensures
            r.wf(),
            r.index_spec() == 0,
            run_map(r.entries_spec()) == merge_maps(table_maps(tables@)),
    {
        MergeIterator { entries: merge_all(tables), index: 0 }
    }

    /// Seek to a specific key: the position becomes that of the first entry
    /// whose key is not below `key`.
    pub fn seek(&mut self, key: &[u8])
        requires
            old(self).wf(),
        ensures
            final(self).wf(),
            final(self).entries_spec() == old(self).entries_spec(),
            forall|j: int|
                0 <= j < final(self).index_spec() ==> key_lt(
                    #[trigger] final(self).entries_spec()[j].0@,
                    key@,
                ),
            forall|j: int|
                final(self).index_spec() <= j < final(self).entries_spec().len() ==> !key_lt(
                    #[trigger] final(self).entries_spec()[j].0@,
                    key@,
                ),
    {
        let mut lo: usize = 0;
        let mut hi: usize = self.entries.len();
        while lo < hi
            invariant
                strictly_sorted(self.entries@),
                lo <= hi <= self.entries@.len(),
                forall|j: int| 0 <= j < lo ==> key_lt(#[trigger] self.entries@[j].0@, key@),
                forall|j: int|
                    hi <= j < self.entries@.len() ==> !key_lt(#[trigger] self.entries@[j].0@, key@),
            decreases hi - lo,
        {
            let mid = lo + (hi - lo) / 2;
            let c = compare_keys(self.entries[mid].0.as_slice(), key);
            proof {
                crate::order::lemma_key_lt_irreflexive(key@);
                lemma_key_lt_total(self.entries@[mid as int].0@, key@);
                crate::order::lemma_key_lt_asymmetric(self.entries@[mid as int].0@, key@);
            }
            if matches!(c, KeyOrder::Less) {
                proof {
                    assert forall|j: int| 0 <= j < mid + 1 implies key_lt(
                        #[trigger] self.entries@[j].0@,
                        key@,
                    ) by {
                        if j < mid {
                            assert(key_lt(self.entries@[j].0@, self.entries@[mid as int].0@));
                            lemma_key_lt_transitive(
                                self.entries@[j].0@,
                                self.entries@[mid as int].0@,
                                key@,
                            );
                        }
                    }
                }
                lo = mid + 1;
            } else {
                proof {
                    assert forall|j: int| mid <= j < self.entries@.len() implies !key_lt(
                        #[trigger] self.entries@[j].0@,
                        key@,
                    ) by {
                        if j > mid {
                            assert(key_lt(self.entries@[mid as int].0@, self.entries@[j].0@));
                            if key_lt(self.entries@[j].0@, key@) {
                                lemma_key_lt_transitive(
                                    self.entries@[mid as int].0@,
                                    self.entries@[j].0@,
                                    key@,
                                );
                            }
                        }
                    }
                }
                hi = mid;
            }
        }
        self.index = lo;
    }

    /// Get the current entry.
    pub fn current(&self) -> (r: Option<(&[u8], &[u8])>)
        requires
            self.wf(),
        ensures
            match r {
                Some((k, v)) => {
                    &&& self.index_spec() < self.entries_spec().len()
                    &&& k@ == self.entries_spec()[self.index_spec() as int].0@
                    &&& v@ == self.entries_spec()[self.index_spec() as int].1@
                },
                None => self.index_spec() == self.entries_spec().len(),
            },
    {
        if self.index < self.entries.len() {
            Some((self.entries[self.index].0.as_slice(), self.entries[self.index].1.as_slice()))
        } else {
            None
        }
    }

    /// Hand out a copy of the current entry and move past it; `None` once
    /// every entry has been handed out.
    pub fn next(&mut self) -> (r: Option<(Vec<u8>, Vec<u8>)>)
        requires
            old(self).wf(),
        ensures
            final(self).wf(),
            final(self).entries_spec() == old(self).entries_spec(),
            match r {
                Some(e) => {
                    &&& old(self).index_spec() < old(self).entries_spec().len()
                    &&& final(self).index_spec() == old(self).index_spec() + 1
                    &&& e.0@ == old(self).entries_spec()[old(self).index_spec() as int].0@
                    &&& e.1@ == old(self).entries_spec()[old(self).index_spec() as int].1@
                },
                None => {
                    &&& old(self).index_spec() == old(self).entries_spec().len()
                    &&& final(self).index_spec() == old(self).index_spec()
                },
            },
    {
        if self.index < self.entries.len() {
            let item = copy_entry(&self.entries[self.index]);
            self.index = self.index + 1;
            Some(item)
        } else {
            None
        }
    }
}

/// Merging two tables with `merge_two_tables` and with a merge iterator over
/// `[older, newer]` gives the same map.
pub proof fn lemma_two_table_merges_agree(older: Map<Seq<u8>, Seq<u8>>, newer: Map<Seq<u8>, Seq<u8>>)
    ensures
        merge_maps(seq![older, newer]) == older.union_prefer_right(newer),
{
    let ms = seq![older, newer];
    assert(ms.drop_last() =~= seq![older]);
    assert(seq![older].drop_last() =~= Seq::<Map<Seq<u8>, Seq<u8>>>::empty());
    assert(merge_maps(Seq::<Map<Seq<u8>, Seq<u8>>>::empty()) == Map::<Seq<u8>, Seq<u8>>::empty());
    assert(Map::<Seq<u8>, Seq<u8>>::empty().union_prefer_right(older) =~= older);
    assert(merge_maps(seq![older]) == older);
    assert(ms.last() == newer);
    assert(merge_maps(ms) == merge_maps(ms.drop_last()).union_prefer_right(ms.last()));
}

/// Merge two SSTables into a single sorted entry list: the entry of `newer`
/// wins where both hold a key.
pub fn merge_two_tables(older: &SSTable, newer: &SSTable) -> (r: Vec<(Vec<u8>, Vec<u8>)>)
    requires
        older.wf(),
        newer.wf(),
    ensures
        strictly_sorted(r@),
        run_map(r@) == older@.union_prefer_right(newer@),
{
    merge_sorted(older.entries(), newer.entries())
}

} // verus!
