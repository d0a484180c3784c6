//! In-memory sorted key-value store (memtable).

use vstd::prelude::*;
use crate::run::{
    lemma_run_map_insert, lemma_run_map_len, lemma_run_map_update, lemma_search_result, run_map,
    search_run, strictly_sorted,
};
use crate::order::key_lt;

verus! {

/// A sorted in-memory table backed by a Vec of key-value pairs.
#[derive(Debug, Clone)]
pub struct MemTable {
    entries: Vec<(Vec<u8>, Vec<u8>)>,
    size_limit: usize,
}

impl View for MemTable {
    type V = Map<Seq<u8>, Seq<u8>>;

    /// The key-value map the memtable holds.
    open spec fn view(&self) -> Map<Seq<u8>, Seq<u8>> {
        run_map(self.entries_spec())
    }
}

impl MemTable {
    /// The entries, in key order.
    pub closed spec fn entries_spec(&self) -> Seq<(Vec<u8>, Vec<u8>)> {
        self.entries@
    }

    /// The number of entries at which the memtable counts as full.
    pub closed spec fn size_limit_spec(&self) -> nat {
        self.size_limit as nat
    }

    /// The entries are sorted by key, each key once.
    pub open spec fn wf(&self) -> bool {
        strictly_sorted(self.entries_spec())
    }

    /// The memtable has one entry per key of its map.
    pub proof fn lemma_len(&self)
        requires
            self.wf(),
        ensures
            self@.dom().finite(),
            self@.dom().len() == self.entries_spec().len(),
    {
        lemma_run_map_len(self.entries_spec());
    }

    /// Create a new memtable with a size limit (number of entries).
    pub fn new(size_limit: usize) -> (r: MemTable)
        ensures
            r.wf(),
            r.entries_spec() == Seq::<(Vec<u8>, Vec<u8>)>::empty(),
            r.size_limit_spec() == size_limit,
    {
        MemTable { entries: Vec::new(), size_limit }
    }

    /// Put a key-value pair into the memtable, replacing the value of an
    /// entry with the same key.
    pub fn put(&mut self, key: &[u8], value: &[u8])
        requires
            old(self).wf(),
        ensures
            final(self).wf(),
            final(self)@ == old(self)@.insert(key@, value@),
            final(self).size_limit_spec() == old(self).size_limit_spec(),
    {
        match search_run(&self.entries, key) {
            Ok(idx) => {
                let mut slot: (Vec<u8>, Vec<u8>) = (Vec::new(), Vec::new());
                self.entries.set_and_swap(idx, &mut slot);
                let new_entry = (slot.0, vstd::slice::slice_to_vec(value));
                proof {
                    lemma_run_map_update(old(self).entries@, idx as int, new_entry);
                }
                self.entries.set(idx, new_entry);
                proof {
                    assert(self.entries@ == old(self).entries@.update(idx as int, new_entry));
                }
            },
            Err(idx) => {
                let new_entry = (vstd::slice::slice_to_vec(key), vstd::slice::slice_to_vec(value));
                proof {
                    let s = self.entries@;
                    let t = s.insert(idx as int, new_entry);
                    assert forall|i: int, j: int| 0 <= i < j < t.len() implies key_lt(
                        t[i].0@,
                        t[j].0@,
                    ) by {
                        if j < idx {
                            assert(t[i] == s[i] && t[j] == s[j]);
                        } else if j == idx {
                            assert(t[i] == s[i]);
                        } else if i < idx {
                            assert(t[i] == s[i] && t[j] == s[j - 1]);
                            crate::order::lemma_key_lt_transitive(s[i].0@, key@, s[j - 1].0@);
                        } else if i == idx {
                            assert(t[j] == s[j - 1]);
                        } else {
                            assert(t[i] == s[i - 1] && t[j] == s[j - 1]);
                        }
                    }
                    lemma_run_map_insert(s, idx as int, new_entry);
                }
                self.entries.insert(idx, new_entry);
            },
        }
    }

    /// Delete a key by inserting a tombstone marker (an empty value).
    pub fn delete(&mut self, key: &[u8])
        requires
            old(self).wf(),
        ensures
            final(self).wf(),
            final(self)@ == old(self)@.insert(key@, Seq::empty()),
            final(self).size_limit_spec() == old(self).size_limit_spec(),
    {
        let tombstone: Vec<u8> = Vec::new();
        self.put(key, tombstone.as_slice());
    }

    /// Get a value by key.
    pub fn get(&self, key: &[u8]) -> (r: Option<&[u8]>)
        requires
            self.wf(),
        ensures
            match r {
                Some(v) => self@.contains_key(key@) && v@ == self@[key@],
                None => !self@.contains_key(key@),
            },
    {
        let found = search_run(&self.entries, key);
        proof {
            lemma_search_result(self.entries@, key@, found);
        }
        match found {
            Ok(idx) => Some(self.entries[idx].1.as_slice()),
            Err(_) => None,
        }
    }

    /// Check if the memtable is full and should be flushed.
    pub fn is_full(&self) -> (r: bool)
        ensures
            r == (self.entries_spec().len() >= self.size_limit_spec()),
    {
        self.entries.len() >= self.size_limit
    }

    /// Number of entries in the memtable.
    pub fn len(&self) -> (r: usize)
        ensures
            r == self.entries_spec().len(),
    {
        self.entries.len()
    }

    /// Is the memtable empty?
    pub fn is_empty(&self) -> (r: bool)
        ensures
            r == (self.entries_spec().len() == 0),
    {
        self.entries.is_empty()
    }

    /// Drain all entries from the memtable, leaving it empty.
    pub fn drain(&mut self) -> (r: Vec<(Vec<u8>, Vec<u8>)>)
        requires
            old(self).wf(),
        ensures
            r@ == old(self).entries_spec(),
            strictly_sorted(r@),
            final(self).wf(),
            final(self).entries_spec() == Seq::<(Vec<u8>, Vec<u8>)>::empty(),
            final(self).size_limit_spec() == old(self).size_limit_spec(),
    {
        let mut taken: Vec<(Vec<u8>, Vec<u8>)> = Vec::new();
        std::mem::swap(&mut taken, &mut self.entries);
        taken
    }

    /// Get all entries in sorted order.
    pub fn entries(&self) -> (r: &[(Vec<u8>, Vec<u8>)])
        ensures
            r@ == self.entries_spec(),
    {
        self.entries.as_slice()
    }

    /// Check if a key exists in the memtable.
    pub fn contains(&self, key: &[u8]) -> (r: bool)
        requires
            self.wf(),
        ensures
            r == self@.contains_key(key@),
    {
        let found = search_run(&self.entries, key);
        proof {
            lemma_search_result(self.entries@, key@, found);
        }
        found.is_ok()
    }
}

} // verus!
