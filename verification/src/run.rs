//! Sorted runs of key-value entries: the shape shared by the memtable, the
//! tables and every merge result.

use vstd::prelude::*;
use crate::order::{
    compare_keys, key_lt, lemma_key_lt_irreflexive, lemma_key_lt_total, lemma_key_lt_transitive, KeyOrder,
};

verus! {

/// Keys strictly increase along the run (so no key occurs twice).
pub open spec fn strictly_sorted(s: Seq<(Vec<u8>, Vec<u8>)>) -> bool {
    forall|i: int, j: int|
        #![trigger s[i], s[j]]
        0 <= i < j < s.len() ==> key_lt(s[i].0@, s[j].0@)
}

/// A position of the run that holds key `k`, where there is one.
pub open spec fn position_of(s: Seq<(Vec<u8>, Vec<u8>)>, k: Seq<u8>) -> int {
    choose|i: int| 0 <= i < s.len() && s[i].0@ == k
}

/// The key-value map that a run of entries with distinct keys stands for.
pub open spec fn run_map(s: Seq<(Vec<u8>, Vec<u8>)>) -> Map<Seq<u8>, Seq<u8>> {
    Map::new(
        |k: Seq<u8>| exists|i: int| 0 <= i < s.len() && s[i].0@ == k,
        |k: Seq<u8>| s[position_of(s, k)].1@,
    )
}

/// The keys of a run, in order.
pub open spec fn run_keys(s: Seq<(Vec<u8>, Vec<u8>)>) -> Seq<Seq<u8>> {
    s.map_values(|e: (Vec<u8>, Vec<u8>)| e.0@)
}

/// Two different positions of a sorted run hold different keys.
pub proof fn lemma_sorted_distinct(s: Seq<(Vec<u8>, Vec<u8>)>, i: int, j: int)
    requires
        strictly_sorted(s),
        0 <= i < s.len(),
        0 <= j < s.len(),
        i != j,
    ensures
        s[i].0@ != s[j].0@,
{
    if i < j {
        assert(key_lt(s[i].0@, s[j].0@));
        lemma_key_lt_irreflexive(s[i].0@);
    } else {
        assert(key_lt(s[j].0@, s[i].0@));
        lemma_key_lt_irreflexive(s[j].0@);
    }
}

/// The map of a sorted run holds, for each entry, that entry's value.
pub proof fn lemma_run_map_at(s: Seq<(Vec<u8>, Vec<u8>)>, i: int)
    requires
        strictly_sorted(s),
        0 <= i < s.len(),
    ensures
        run_map(s).contains_key(s[i].0@),
        run_map(s)[s[i].0@] == s[i].1@,
{
    let k = s[i].0@;
    assert(exists|j: int| 0 <= j < s.len() && s[j].0@ == k);
    assert(run_map(s).contains_key(k));
    let c = position_of(s, k);
    assert(run_map(s)[k] == s[c].1@);
    if c != i {
        lemma_sorted_distinct(s, c, i);
    }
}

/// A key is in the map of a run exactly when some entry holds it.
pub proof fn lemma_run_map_contains(s: Seq<(Vec<u8>, Vec<u8>)>, k: Seq<u8>)
    ensures
        run_map(s).contains_key(k) <==> exists|i: int| 0 <= i < s.len() && s[i].0@ == k,
{
}

/// Every prefix of a sorted run is sorted.
pub proof fn lemma_sorted_take(s: Seq<(Vec<u8>, Vec<u8>)>, n: int)
    requires
        strictly_sorted(s),
        0 <= n <= s.len(),
    ensures
        strictly_sorted(s.take(n)),
{
    let t = s.take(n);
    assert forall|i: int, j: int| 0 <= i < j < t.len() implies key_lt(t[i].0@, t[j].0@) by {
        assert(t[i] == s[i]);
        assert(t[j] == s[j]);
    }
}

/// Appending an entry to a sorted run adds exactly that entry to its map.
pub proof fn lemma_run_map_push(s: Seq<(Vec<u8>, Vec<u8>)>, e: (Vec<u8>, Vec<u8>))
    requires
        strictly_sorted(s.push(e)),
    ensures
        run_map(s.push(e)) == run_map(s).insert(e.0@, e.1@),
{
    let t = s.push(e);
    let n = s.len() as int;
    assert(t[n] == e);
    assert forall|i: int, j: int| 0 <= i < j < s.len() implies key_lt(s[i].0@, s[j].0@) by {
        assert(t[i] == s[i]);
        assert(t[j] == s[j]);
    }
    assert forall|k: Seq<u8>| #[trigger] run_map(t).contains_key(k) <==> run_map(s).insert(e.0@, e.1@).contains_key(k) by {
        if run_map(t).contains_key(k) {
            let i = choose|i: int| 0 <= i < t.len() && t[i].0@ == k;
            if i < n {
                assert(s[i] == t[i]);
            }
        }
        if run_map(s).contains_key(k) {
            let i = choose|i: int| 0 <= i < s.len() && s[i].0@ == k;
            assert(t[i] == s[i]);
        }
        if k == e.0@ {
            assert(t[n].0@ == k);
        }
    }
    assert forall|k: Seq<u8>| #[trigger] run_map(t).contains_key(k) implies run_map(t)[k] == run_map(s).insert(e.0@, e.1@)[k] by {
        let i = choose|i: int| 0 <= i < t.len() && t[i].0@ == k;
        lemma_run_map_at(t, i);
        if i < n {
            assert(t[i] == s[i]);
            lemma_run_map_at(s, i);
            lemma_sorted_distinct(t, i, n);
        }
    }
    assert(run_map(t) =~= run_map(s).insert(e.0@, e.1@));
}

/// Inserting an entry at position `p` of a run, where the result is still
/// sorted, adds exactly that entry to its map.
pub proof fn lemma_run_map_insert(s: Seq<(Vec<u8>, Vec<u8>)>, p: int, e: (Vec<u8>, Vec<u8>))
    requires
        0 <= p <= s.len(),
        strictly_sorted(s.insert(p, e)),
    ensures
        strictly_sorted(s),
        run_map(s.insert(p, e)) == run_map(s).insert(e.0@, e.1@),
{
    let t = s.insert(p, e);
    assert(t[p] == e);
    assert forall|q: int| 0 <= q < s.len() implies #[trigger] s[q] == t[if q < p { q } else { q + 1 }] by {
    }
    assert forall|i: int, j: int| 0 <= i < j < s.len() implies key_lt(s[i].0@, s[j].0@) by {
        let ii = if i < p { i } else { i + 1 };
        let jj = if j < p { j } else { j + 1 };
        assert(s[i] == t[ii]);
        assert(s[j] == t[jj]);
    }
    assert forall|k: Seq<u8>| #[trigger] run_map(t).contains_key(k) <==> run_map(s).insert(e.0@, e.1@).contains_key(k) by {
        if run_map(t).contains_key(k) {
            let q = choose|q: int| 0 <= q < t.len() && t[q].0@ == k;
            if q < p {
                assert(s[q] == t[q]);
            } else if q > p {
                assert(s[q - 1] == t[q]);
            }
        }
        if run_map(s).contains_key(k) {
            let q = choose|q: int| 0 <= q < s.len() && s[q].0@ == k;
            let qq = if q < p { q } else { q + 1 };
            assert(t[qq] == s[q]);
        }
    }
    assert forall|k: Seq<u8>| #[trigger] run_map(t).contains_key(k) implies run_map(t)[k] == run_map(s).insert(e.0@, e.1@)[k] by {
        let q = choose|q: int| 0 <= q < t.len() && t[q].0@ == k;
        lemma_run_map_at(t, q);
        if q != p {
            lemma_sorted_distinct(t, q, p);
            let q2 = if q < p { q } else { q - 1 };
            assert(s[q2] == t[q]);
            lemma_run_map_at(s, q2);
        }
    }
    assert(run_map(t) =~= run_map(s).insert(e.0@, e.1@));
}

/// Replacing the entry at position `p` by one with the same key changes only
/// that key's value in the map.
pub proof fn lemma_run_map_update(s: Seq<(Vec<u8>, Vec<u8>)>, p: int, e: (Vec<u8>, Vec<u8>))
    requires
        0 <= p < s.len(),
        strictly_sorted(s),
        e.0@ == s[p].0@,
    ensures
        strictly_sorted(s.update(p, e)),
        run_map(s.update(p, e)) == run_map(s).insert(e.0@, e.1@),
{
    let t = s.update(p, e);
    assert forall|i: int, j: int| 0 <= i < j < t.len() implies key_lt(t[i].0@, t[j].0@) by {
        assert(t[i].0@ == s[i].0@);
        assert(t[j].0@ == s[j].0@);
    }
    assert forall|k: Seq<u8>| #[trigger] run_map(t).contains_key(k) <==> run_map(s).insert(e.0@, e.1@).contains_key(k) by {
        if run_map(t).contains_key(k) {
            let q = choose|q: int| 0 <= q < t.len() && t[q].0@ == k;
            assert(s[q].0@ == k);
        }
        if run_map(s).contains_key(k) {
            let q = choose|q: int| 0 <= q < s.len() && s[q].0@ == k;
            assert(t[q].0@ == k);
        }
        if k == e.0@ {
            assert(t[p].0@ == k);
        }
    }
    assert forall|k: Seq<u8>| #[trigger] run_map(t).contains_key(k) implies run_map(t)[k] == run_map(s).insert(e.0@, e.1@)[k] by {
        let q = choose|q: int| 0 <= q < t.len() && t[q].0@ == k;
        lemma_run_map_at(t, q);
        if q != p {
            lemma_sorted_distinct(s, q, p);
            lemma_run_map_at(s, q);
        }
    }
    assert(run_map(t) =~= run_map(s).insert(e.0@, e.1@));
}

/// A sorted run has as many keys in its map as it has entries.
pub proof fn lemma_run_map_len(s: Seq<(Vec<u8>, Vec<u8>)>)
    requires
        strictly_sorted(s),
    ensures
        run_map(s).dom().finite(),
        run_map(s).dom().len() == s.len(),
    decreases s.len(),
{
    if s.len() == 0 {
        assert(run_map(s).dom() =~= Set::empty());
    } else {
        let p = s.drop_last();
        let e = s.last();
        assert(p.push(e) =~= s);
        lemma_sorted_take(s, s.len() - 1);
        assert(p =~= s.take(s.len() - 1));
        lemma_run_map_len(p);
        lemma_run_map_push(p, e);
        if run_map(p).contains_key(e.0@) {
            let i = choose|i: int| 0 <= i < p.len() && p[i].0@ == e.0@;
            assert(s[i] == p[i]);
            lemma_sorted_distinct(s, i, s.len() - 1);
        }
    }
}

/// The last entry of a non-empty sorted run holds its largest key.
pub proof fn lemma_sorted_last_is_max(s: Seq<(Vec<u8>, Vec<u8>)>, k: Seq<u8>)
    requires
        strictly_sorted(s),
        s.len() > 0,
        run_map(s).contains_key(k),
    ensures
        k == s.last().0@ || key_lt(k, s.last().0@),
{
    let i = choose|i: int| 0 <= i < s.len() && s[i].0@ == k;
    if i < s.len() - 1 {
        assert(key_lt(s[i].0@, s[s.len() - 1].0@));
    }
}

/// A sorted run is determined by its map: two sorted runs that stand for the
/// same map hold the same keys and values at the same positions.
pub proof fn lemma_sorted_run_determined_by_map(s: Seq<(Vec<u8>, Vec<u8>)>, t: Seq<(Vec<u8>, Vec<u8>)>)
    requires
        strictly_sorted(s),
        strictly_sorted(t),
        run_map(s) == run_map(t),
    ensures
        s.len() == t.len(),
        forall|i: int| 0 <= i < s.len() ==> s[i].0@ == t[i].0@ && s[i].1@ == t[i].1@,
    decreases s.len(),
{
    lemma_run_map_len(s);
    lemma_run_map_len(t);
    if s.len() > 0 {
        let ks = s.last().0@;
        let kt = t.last().0@;
        lemma_run_map_at(s, s.len() - 1);
        lemma_run_map_at(t, t.len() - 1);
        lemma_sorted_last_is_max(s, kt);
        lemma_sorted_last_is_max(t, ks);
        crate::order::lemma_key_lt_asymmetric(ks, kt);
        assert(ks == kt);
        let sp = s.drop_last();
        let tp = t.drop_last();
        assert(sp.push(s.last()) =~= s);
        assert(tp.push(t.last()) =~= t);
        lemma_sorted_take(s, s.len() - 1);
        lemma_sorted_take(t, t.len() - 1);
        assert(sp =~= s.take(s.len() - 1));
        assert(tp =~= t.take(t.len() - 1));
        lemma_run_map_push(sp, s.last());
        lemma_run_map_push(tp, t.last());
        assert(!run_map(sp).contains_key(ks)) by {
            if run_map(sp).contains_key(ks) {
                let i = choose|i: int| 0 <= i < sp.len() && sp[i].0@ == ks;
                assert(s[i] == sp[i]);
                lemma_sorted_distinct(s, i, s.len() - 1);
            }
        }
        assert(!run_map(tp).contains_key(kt)) by {
            if run_map(tp).contains_key(kt) {
                let i = choose|i: int| 0 <= i < tp.len() && tp[i].0@ == kt;
                assert(t[i] == tp[i]);
                lemma_sorted_distinct(t, i, t.len() - 1);
            }
        }
        assert(run_map(sp) =~= run_map(s).remove(ks));
        assert(run_map(tp) =~= run_map(t).remove(kt));
        lemma_sorted_run_determined_by_map(sp, tp);
        assert forall|i: int| 0 <= i < s.len() implies s[i].0@ == t[i].0@ && s[i].1@ == t[i].1@ by {
            if i < s.len() - 1 {
                assert(s[i] == sp[i]);
                assert(t[i] == tp[i]);
            }
        }
    }
}

/// Binary search for `key` in a sorted run: `Ok` with the position of the
/// entry holding it, or `Err` with the position where it would be inserted.
pub(crate) fn search_run(entries: &Vec<(Vec<u8>, Vec<u8>)>, key: &[u8]) -> (r: Result<usize, usize>)
    requires
        strictly_sorted(entries@),
    ensures
        match r {
            Ok(i) => i < entries@.len() && entries@[i as int].0@ == key@,
            Err(i) => {
                &&& i <= entries@.len()
                &&& forall|j: int| 0 <= j < i ==> key_lt(#[trigger] entries@[j].0@, key@)
                &&& forall|j: int| i <= j < entries@.len() ==> key_lt(key@, #[trigger] entries@[j].0@)
            },
        },
{
    let mut lo: usize = 0;
    let mut hi: usize = entries.len();
    while lo < hi
        invariant
            strictly_sorted(entries@),
            lo <= hi <= entries@.len(),
            forall|j: int| 0 <= j < lo ==> key_lt(#[trigger] entries@[j].0@, key@),
            forall|j: int| hi <= j < entries@.len() ==> key_lt(key@, #[trigger] entries@[j].0@),
        decreases hi - lo,
    {
        let mid = lo + (hi - lo) / 2;
        let c = compare_keys(entries[mid].0.as_slice(), key);
        match c {
            KeyOrder::Equal => {
                return Ok(mid);
            },
            KeyOrder::Less => {
                proof {
                    assert forall|j: int| 0 <= j < mid + 1 implies key_lt(#[trigger] entries@[j].0@, key@) by {
                        if j < mid {
                            assert(key_lt(entries@[j].0@, entries@[mid as int].0@));
                            lemma_key_lt_transitive(entries@[j].0@, entries@[mid as int].0@, key@);
                        }
                    }
                }
                lo = mid + 1;
            },
            KeyOrder::Greater => {
                proof {
                    lemma_key_lt_total(entries@[mid as int].0@, key@);
                    assert forall|j: int| mid <= j < entries@.len() implies key_lt(key@, #[trigger] entries@[j].0@) by {
                        if j > mid {
                            assert(key_lt(entries@[mid as int].0@, entries@[j].0@));
                            lemma_key_lt_transitive(key@, entries@[mid as int].0@, entries@[j].0@);
                        }
                    }
                }
                hi = mid;
            },
        }
    }
    Err(lo)
}

/// After a search, the map of the run holds `key` exactly when the search
/// found it, with the value of the found entry.
pub proof fn lemma_search_result(s: Seq<(Vec<u8>, Vec<u8>)>, key: Seq<u8>, r: Result<usize, usize>)
    requires
        strictly_sorted(s),
        match r {
            Ok(i) => i < s.len() && s[i as int].0@ == key,
            Err(i) => {
                &&& i <= s.len()
                &&& forall|j: int| 0 <= j < i ==> key_lt(#[trigger] s[j].0@, key)
                &&& forall|j: int| i <= j < s.len() ==> key_lt(key, #[trigger] s[j].0@)
            },
        },
    ensures
        match r {
            Ok(i) => run_map(s).contains_key(key) && run_map(s)[key] == s[i as int].1@,
            Err(_) => !run_map(s).contains_key(key),
        },
{
    match r {
        Ok(i) => {
            lemma_run_map_at(s, i as int);
        },
        Err(i) => {
            if run_map(s).contains_key(key) {
                let j = choose|j: int| 0 <= j < s.len() && s[j].0@ == key;
                lemma_key_lt_irreflexive(key);
                if j < i {
                    assert(key_lt(s[j].0@, key));
                } else {
                    assert(key_lt(key, s[j].0@));
                }
            }
        },
    }
}

} // verus!

verus! {

/// The map that a sequence of maps, oldest first, stands for when each
/// later map overrides the earlier ones.
pub open spec fn merge_maps(ms: Seq<Map<Seq<u8>, Seq<u8>>>) -> Map<Seq<u8>, Seq<u8>>
    decreases ms.len(),
{
    if ms.len() == 0 {
        Map::empty()
    } else {
        merge_maps(ms.drop_last()).union_prefer_right(ms.last())
    }
}

/// Entries whose value is empty are tombstones: they stand for a deleted key.
/// This is the map without them.
pub open spec fn drop_tombstones(m: Map<Seq<u8>, Seq<u8>>) -> Map<Seq<u8>, Seq<u8>> {
    Map::new(|k: Seq<u8>| m.contains_key(k) && m[k].len() > 0, |k: Seq<u8>| m[k])
}

/// The first `n + 1` entries are the first `n` and then entry `n`.
pub proof fn lemma_take_succ(s: Seq<(Vec<u8>, Vec<u8>)>, n: int)
    requires
        0 <= n < s.len(),
    ensures
        s.take(n + 1) == s.take(n).push(s[n]),
{
    assert(s.take(n + 1) =~= s.take(n).push(s[n]));
}

/// The map of the first `n + 1` entries of a sorted run is that of the first
/// `n` with entry `n` added.
pub proof fn lemma_run_map_take_succ(s: Seq<(Vec<u8>, Vec<u8>)>, n: int)
    requires
        0 <= n < s.len(),
        strictly_sorted(s),
    ensures
        run_map(s.take(n + 1)) == run_map(s.take(n)).insert(s[n].0@, s[n].1@),
{
    lemma_take_succ(s, n);
    lemma_sorted_take(s, n + 1);
    lemma_run_map_push(s.take(n), s[n]);
}

/// A copy of an entry.
pub(crate) fn copy_entry(e: &(Vec<u8>, Vec<u8>)) -> (r: (Vec<u8>, Vec<u8>))
    ensures
        r.0@ == e.0@,
        r.1@ == e.1@,
{
    (vstd::slice::slice_to_vec(e.0.as_slice()), vstd::slice::slice_to_vec(e.1.as_slice()))
}

} // verus!
