//! Sorted string table (SSTable) representation.

use vstd::prelude::*;
use crate::bloom::{bit_is_set, hash_index, one_percent_bits, BloomFilter};
use crate::order::{compare_keys, key_le, key_lt, KeyOrder};
use crate::run::{lemma_search_result, run_map, search_run, strictly_sorted};

verus! {

/// Bit `idx` is one that some hash function picks for the key of some entry
/// of `s`, in a filter of `num_bits` bits with `num_hashes` hash functions.
pub open spec fn picked_by_some_key(
    s: Seq<(Vec<u8>, Vec<u8>)>,
    num_bits: nat,
    num_hashes: nat,
    idx: nat,
) -> bool {
    exists|j: int, h: nat|
        0 <= j < s.len() && h < num_hashes && idx == #[trigger] hash_index(s[j].0@, h, num_bits)
}

/// `k` lies between `start` and `end`, both included.
pub open spec fn in_range(k: Seq<u8>, start: Seq<u8>, end: Seq<u8>) -> bool {
    key_le(start, k) && key_le(k, end)
}

/// The entries of `s` whose keys lie between `start` and `end`, in order.
pub open spec fn range_spec(s: Seq<(Vec<u8>, Vec<u8>)>, start: Seq<u8>, end: Seq<u8>) -> Seq<
    (Seq<u8>, Seq<u8>),
>
    decreases s.len(),
{
    if s.len() == 0 {
        Seq::empty()
    } else {
        let r = range_spec(s.drop_last(), start, end);
        if in_range(s.last().0@, start, end) {
            r.push((s.last().0@, s.last().1@))
        } else {
            r
        }
    }
}

/// What a range scan over the entries `s` gives, in terms of the key order:
/// an entry's pair is in the result exactly when its whole key `k` has
/// `start <= k <= end`; every pair of the result is such an entry's; and
/// over a sorted run the result keeps the run's (strictly increasing) order.
pub proof fn lemma_range_members(s: Seq<(Vec<u8>, Vec<u8>)>, start: Seq<u8>, end: Seq<u8>)
    ensures
        forall|i: int|
            0 <= i < s.len() ==> (range_spec(s, start, end).contains((s[i].0@, s[i].1@)) <==> (
            !key_lt(#[trigger] s[i].0@, start) && !key_lt(end, s[i].0@))),
        forall|j: int|
            0 <= j < range_spec(s, start, end).len() ==> {
                let p = #[trigger] range_spec(s, start, end)[j];
                &&& !key_lt(p.0, start)
                &&& !key_lt(end, p.0)
                &&& exists|i: int| 0 <= i < s.len() && p == (s[i].0@, s[i].1@)
            },
        strictly_sorted(s) ==> forall|a: int, b: int|
            0 <= a < b < range_spec(s, start, end).len() ==> key_lt(
                (#[trigger] range_spec(s, start, end)[a]).0,
                (#[trigger] range_spec(s, start, end)[b]).0,
            ),
    decreases s.len(),
{
    if s.len() > 0 {
        let p = s.drop_last();
        let e = s.last();
        let n = s.len() - 1;
        lemma_range_members(p, start, end);
        let rp = range_spec(p, start, end);
        let rs = range_spec(s, start, end);
        let inr = in_range(e.0@, start, end);
        assert(inr == (!key_lt(e.0@, start) && !key_lt(end, e.0@)));
        if inr {
            assert(rs == rp.push((e.0@, e.1@)));
        } else {
            assert(rs == rp);
        }
        assert forall|i: int|
            0 <= i < s.len() implies (rs.contains((s[i].0@, s[i].1@)) <==> (!key_lt(
            #[trigger] s[i].0@,
            start,
        ) && !key_lt(end, s[i].0@))) by {
            if i < n {
                assert(s[i] == p[i]);
                if inr && (s[i].0@, s[i].1@) == (e.0@, e.1@) {
                    assert(rs[rp.len() as int] == (e.0@, e.1@));
                }
                if rp.contains((s[i].0@, s[i].1@)) {
                    let j = choose|j: int| 0 <= j < rp.len() && rp[j] == (s[i].0@, s[i].1@);
                    assert(rs[j] == rp[j]);
                }
                if rs.contains((s[i].0@, s[i].1@)) {
                    let j = choose|j: int| 0 <= j < rs.len() && rs[j] == (s[i].0@, s[i].1@);
                    if j < rp.len() {
                        assert(rp[j] == rs[j]);
                    }
                }
            } else {
                if inr {
                    assert(rs[rp.len() as int] == (e.0@, e.1@));
                }
                if rs.contains((e.0@, e.1@)) {
                    let j = choose|j: int| 0 <= j < rs.len() && rs[j] == (e.0@, e.1@);
                    if j < rp.len() {
                        assert(rp[j] == rs[j]);
                        let q = rp[j];
                        assert(exists|i2: int| 0 <= i2 < p.len() && q == (p[i2].0@, p[i2].1@));
                    }
                }
            }
        }
        assert forall|j: int| 0 <= j < rs.len() implies {
            let q = #[trigger] rs[j];
            &&& !key_lt(q.0, start)
            &&& !key_lt(end, q.0)
            &&& exists|i: int| 0 <= i < s.len() && q == (s[i].0@, s[i].1@)
        } by {
            if j < rp.len() {
                assert(rs[j] == rp[j]);
                let q = rp[j];
                let i2 = choose|i2: int| 0 <= i2 < p.len() && q == (p[i2].0@, p[i2].1@);
                assert(s[i2] == p[i2]);
            } else {
                assert(rs[j] == (s[n].0@, s[n].1@));
            }
        }
        if strictly_sorted(s) {
            crate::run::lemma_sorted_take(s, n);
            assert(p =~= s.take(n));
            assert forall|a: int, b: int| 0 <= a < b < rs.len() implies key_lt(
                (#[trigger] rs[a]).0,
                (#[trigger] rs[b]).0,
            ) by {
                assert(rs[a] == rp[a]);
                if b < rp.len() {
                    assert(rs[b] == rp[b]);
                } else {
                    let q = rp[a];
                    let i2 = choose|i2: int| 0 <= i2 < p.len() && q == (p[i2].0@, p[i2].1@);
                    assert(s[i2] == p[i2]);
                    assert(key_lt(s[i2].0@, s[n].0@));
                }
            }
        }
    }
}

/// The byte strings that a sequence of borrowed pairs holds.
pub open spec fn pairs_view<'a>(r: Seq<(&'a [u8], &'a [u8])>) -> Seq<(Seq<u8>, Seq<u8>)> {
    r.map_values(|p: (&'a [u8], &'a [u8])| (p.0@, p.1@))
}

/// The maps of a sequence of tables, in the same order.
pub open spec fn table_maps(ts: Seq<SSTable>) -> Seq<Map<Seq<u8>, Seq<u8>>> {
    ts.map_values(|t: SSTable| t@)
}

/// Every table of the sequence is well formed.
pub open spec fn all_wf(ts: Seq<SSTable>) -> bool {
    forall|i: int| 0 <= i < ts.len() ==> (#[trigger] ts[i]).wf()
}

/// An SSTable is an immutable sorted list of key-value pairs.
#[derive(Debug, Clone)]
pub struct SSTable {
    /// Level this SSTable belongs to.
    level: usize,
    /// Sorted entries.
    entries: Vec<(Vec<u8>, Vec<u8>)>,
    /// Bloom filter for fast negative lookups.
    bloom: BloomFilter,
}

impl View for SSTable {
    type V = Map<Seq<u8>, Seq<u8>>;

    /// The key-value map the table holds.
    open spec fn view(&self) -> Map<Seq<u8>, Seq<u8>> {
        run_map(self.entries_spec())
    }
}

impl SSTable {
    /// The entries, in key order.
    pub closed spec fn entries_spec(&self) -> Seq<(Vec<u8>, Vec<u8>)> {
        self.entries@
    }

    /// The level recorded in the table.
    pub closed spec fn level_spec(&self) -> usize {
        self.level
    }

    /// The table's bloom filter.
    pub closed spec fn bloom_spec(&self) -> BloomFilter {
        self.bloom
    }

    /// The entries are sorted by key, each key once, and the bloom filter
    /// answers "maybe" for every key of the table.
    pub open spec fn wf(&self) -> bool {
        &&& strictly_sorted(self.entries_spec())
        &&& self.bloom_spec().usable()
        &&& forall|i: int|
            0 <= i < self.entries_spec().len() ==> self.bloom_spec().contains_spec(
                #[trigger] self.entries_spec()[i].0@,
            )
    }

    /// The table is the one built from `entries` at `level`: it holds those
    /// entries, records that level, and its bloom filter is sized for
    /// `max(entries.len(), 100)` keys at a one-in-a-hundred false-positive rate
    /// and has exactly the bits that the table's keys pick set.
    pub open spec fn built_from(&self, level: usize, entries: Seq<(Vec<u8>, Vec<u8>)>) -> bool {
        &&& self.wf()
        &&& self.entries_spec() == entries
        &&& self.level_spec() == level
        &&& self.bloom_spec().num_bits_spec() == one_percent_bits(
            if entries.len() > 100 {
                entries.len()
            } else {
                100
            },
        )
        &&& self.bloom_spec().num_hashes_spec() == 7
        &&& forall|idx: nat|
            #[trigger] bit_is_set(self.bloom_spec().bits_spec(), idx) <==> picked_by_some_key(
                entries,
                self.bloom_spec().num_bits_spec(),
                7,
                idx,
            )
    }

    /// Create a new SSTable from sorted entries at the given level. A table
    /// is a map, so each key appears once: the entries strictly increase by
    /// key (with a repeated key, the binary search of a lookup would pick one
    /// of its values unpredictably).
    pub fn new(level: usize, entries: Vec<(Vec<u8>, Vec<u8>)>) -> (r: SSTable)
        requires
            strictly_sorted(entries@),
        ensures
            r.built_from(level, entries@),
    {
        let expected = if entries.len() > 100 { entries.len() } else { 100 };
        let mut bloom = BloomFilter::for_one_percent(expected);
        proof {
            let n = expected as nat;
            assert(n * 41479685467187368 >= 41479685467187368) by (nonlinear_arith)
                requires
                    n >= 1,
            ;
            assert(one_percent_bits(n) > 0);
        }
        let ghost nb = bloom.num_bits_spec();
        let mut i: usize = 0;
        while i < entries.len()
            invariant
                i <= entries@.len(),
                bloom.usable(),
                bloom.num_bits_spec() == nb,
                nb > 0,
                bloom.num_hashes_spec() == 7,
                forall|idx: nat|
                    #[trigger] bit_is_set(bloom.bits_spec(), idx) <==> picked_by_some_key(
                        entries@.take(i as int),
                        nb,
                        7,
                        idx,
                    ),
            decreases entries@.len() - i,
        {
            let ghost before = bloom;
            bloom.insert(entries[i].0.as_slice());
            proof {
                let s = entries@.take(i + 1);
                let p = entries@.take(i as int);
                assert forall|idx: nat|
                    #[trigger] bit_is_set(bloom.bits_spec(), idx) <==> picked_by_some_key(
                        s,
                        nb,
                        7,
                        idx,
                    ) by {
                    if bit_is_set(bloom.bits_spec(), idx) {
                        if bit_is_set(before.bits_spec(), idx) {
                            let (j, h) = choose|j: int, h: nat|
                                0 <= j < p.len() && h < 7 && idx == #[trigger] hash_index(
                                    p[j].0@,
                                    h,
                                    nb,
                                );
                            assert(s[j] == p[j]);
                            assert(idx == hash_index(s[j].0@, h, nb));
                        } else {
                            let h = choose|h: nat|
                                h < 7 && idx == hash_index(entries@[i as int].0@, h, nb);
                            assert(s[i as int] == entries@[i as int]);
                            assert(idx == hash_index(s[i as int].0@, h, nb));
                        }
                    }
                    if picked_by_some_key(s, nb, 7, idx) {
                        let (j, h) = choose|j: int, h: nat|
                            0 <= j < s.len() && h < 7 && idx == #[trigger] hash_index(
                                s[j].0@,
                                h,
                                nb,
                            );
                        if j < i {
                            assert(p[j] == s[j]);
                            assert(idx == hash_index(p[j].0@, h, nb));
                            assert(bit_is_set(before.bits_spec(), idx));
                        } else {
                            assert(s[j] == entries@[i as int]);
                        }
                    }
                }
            }
            i = i + 1;
        }
        proof {
            assert(entries@.take(i as int) =~= entries@);
            assert forall|j: int|
                0 <= j < entries@.len() implies bloom.contains_spec(#[trigger] entries@[j].0@) by {
                assert forall|h: nat| h < bloom.num_hashes_spec() implies #[trigger] bit_is_set(
                    bloom.bits_spec(),
                    hash_index(entries@[j].0@, h, bloom.num_bits_spec()),
                ) by {
                    let idx = hash_index(entries@[j].0@, h, nb);
                    assert(picked_by_some_key(entries@, nb, 7, idx));
                }
            }
        }
        SSTable { level, entries, bloom }
    }

    /// Get the level of this SSTable.
    pub fn level(&self) -> (r: usize)
        ensures
            r == self.level_spec(),
    {
        self.level
    }

    /// Look up a key in the SSTable. The bloom filter answers first; it never
    /// turns away a key of the table, so the answer is the table's.
    pub fn get(&self, key: &[u8]) -> (r: Option<&[u8]>)
        requires
            self.wf(),
        ensures
            match r {
                Some(v) => self@.contains_key(key@) && v@ == self@[key@],
                None => !self@.contains_key(key@),
            },
    {
        if !self.bloom.might_contain(key) {
            proof {
                if self@.contains_key(key@) {
                    let j = choose|j: int| 0 <= j < self.entries@.len() && self.entries@[j].0@ == key@;
                    assert(self.bloom.contains_spec(self.entries@[j].0@));
                }
            }
            return None;
        }
        let found = search_run(&self.entries, key);
        proof {
            lemma_search_result(self.entries@, key@, found);
        }
        match found {
            Ok(idx) => Some(self.entries[idx].1.as_slice()),
            Err(_) => None,
        }
    }

    /// Check if the SSTable might contain a key (via bloom filter). It is
    /// never false for a key that the table holds.
    pub fn might_contain(&self, key: &[u8]) -> (r: bool)
        requires
            self.wf(),
        ensures
            r == self.bloom_spec().contains_spec(key@),
            self@.contains_key(key@) ==> r,
    {
        proof {
            if self@.contains_key(key@) {
                let j = choose|j: int| 0 <= j < self.entries@.len() && self.entries@[j].0@ == key@;
                assert(self.bloom.contains_spec(self.entries@[j].0@));
            }
        }
        self.bloom.might_contain(key)
    }

    /// Get all entries.
    pub fn entries(&self) -> (r: &[(Vec<u8>, Vec<u8>)])
        ensures
            r@ == self.entries_spec(),
    {
        self.entries.as_slice()
    }

    /// Number of entries in this SSTable.
    pub fn len(&self) -> (r: usize)
        ensures
            r == self.entries_spec().len(),
    {
        self.entries.len()
    }

    /// Is this SSTable empty?
    pub fn is_empty(&self) -> (r: bool)
        ensures
            r == (self.entries_spec().len() == 0),
    {
        self.entries.is_empty()
    }

    /// Get the smallest key in the SSTable.
    pub fn min_key(&self) -> (r: Option<&[u8]>)
        ensures
            match r {
                Some(k) => self.entries_spec().len() > 0 && k@ == self.entries_spec()[0].0@,
                None => self.entries_spec().len() == 0,
            },
    {
        if self.entries.len() == 0 {
            None
        } else {
            Some(self.entries[0].0.as_slice())
        }
    }

    /// Get the largest key in the SSTable.
    pub fn max_key(&self) -> (r: Option<&[u8]>)
        ensures
            match r {
                Some(k) => self.entries_spec().len() > 0 && k@ == self.entries_spec().last().0@,
                None => self.entries_spec().len() == 0,
            },
    {
        let n = self.entries.len();
        if n == 0 {
            None
        } else {
            Some(self.entries[n - 1].0.as_slice())
        }
    }

    /// Check if a key range overlaps with this SSTable: the table is not empty,
    /// its smallest key is at most `max_key` and its largest at least `min_key`.
    pub fn overlaps(&self, min_key: &[u8], max_key: &[u8]) -> (r: bool)
        ensures
            r == (self.entries_spec().len() > 0 && key_le(self.entries_spec()[0].0@, max_key@)
                && key_le(min_key@, self.entries_spec().last().0@)),
    {
        match (self.min_key(), self.max_key()) {
            (Some(my_min), Some(my_max)) => {
                let lo = compare_keys(my_min, max_key);
                let hi = compare_keys(my_max, min_key);
                proof {
                    crate::order::lemma_key_lt_irreflexive(my_min@);
                    crate::order::lemma_key_lt_asymmetric(my_min@, max_key@);
                    crate::order::lemma_key_lt_irreflexive(my_max@);
                    crate::order::lemma_key_lt_asymmetric(my_max@, min_key@);
                    crate::order::lemma_key_lt_total(my_min@, max_key@);
                    crate::order::lemma_key_lt_total(my_max@, min_key@);
                }
                !matches!(lo, KeyOrder::Greater) && !matches!(hi, KeyOrder::Less)
            },
            _ => false,
        }
    }

    /// The entries whose keys lie between `start` and `end`, both included,
    /// in key order.
    pub fn range(&self, start: &[u8], end: &[u8]) -> (r: Vec<(&[u8], &[u8])>)
        ensures
            pairs_view(r@) == range_spec(self.entries_spec(), start@, end@),
            forall|i: int|
                0 <= i < self.entries_spec().len() ==> (pairs_view(r@).contains(
                    (self.entries_spec()[i].0@, self.entries_spec()[i].1@),
                ) <==> (!key_lt(#[trigger] self.entries_spec()[i].0@, start@) && !key_lt(
                    end@,
                    self.entries_spec()[i].0@,
                ))),
            forall|j: int|
                0 <= j < r@.len() ==> !key_lt((#[trigger] r@[j]).0@, start@) && !key_lt(
                    end@,
                    r@[j].0@,
                ),
    {
        let mut out: Vec<(&[u8], &[u8])> = Vec::new();
        let mut i: usize = 0;
        while i < self.entries.len()
            invariant
                i <= self.entries@.len(),
                pairs_view(out@) == range_spec(self.entries@.take(i as int), start@, end@),
            decreases self.entries@.len() - i,
        {
            let k = self.entries[i].0.as_slice();
            let v = self.entries[i].1.as_slice();
            let lo = compare_keys(k, start);
            let hi = compare_keys(k, end);
            proof {
                let s = self.entries@.take(i + 1);
                assert(s.drop_last() =~= self.entries@.take(i as int));
                assert(s.last() == self.entries@[i as int]);
                crate::order::lemma_key_lt_irreflexive(k@);
                crate::order::lemma_key_lt_asymmetric(k@, start@);
                crate::order::lemma_key_lt_asymmetric(k@, end@);
                crate::order::lemma_key_lt_total(k@, start@);
                crate::order::lemma_key_lt_total(k@, end@);
            }
            if !matches!(lo, KeyOrder::Less) && !matches!(hi, KeyOrder::Greater) {
                out.push((k, v));
                proof {
                    assert(pairs_view(out@) =~= range_spec(self.entries@.take(i as int), start@, end@).push((k@, v@)));
                }
            }
            i = i + 1;
        }
        proof {
            assert(self.entries@.take(i as int) =~= self.entries@);
            lemma_range_members(self.entries@, start@, end@);
            assert forall|j: int| 0 <= j < out@.len() implies !key_lt((#[trigger] out@[j]).0@, start@)
                && !key_lt(end@, out@[j].0@) by {
                assert(pairs_view(out@)[j] == (out@[j].0@, out@[j].1@));
            }
        }
        out
    }
}

} // verus!
