//! The in-memory engine: an ordered table of live entries.

use vstd::prelude::*;
use crate::engine::StorageEngine;
use crate::entry::{copy_opt_bytes, Entry, Key, Sequence, Value};
use crate::error::Result;
use crate::scan::{lemma_live_pairs_scan, Scan};
use crate::sorted::{lemma_lookup_position, live};
use crate::table::Table;

verus! {

/// A storage engine that keeps every entry in memory. It never fails, and a
/// delete removes the entry outright: there is nothing older that a
/// tombstone would have to shadow.
#[derive(Debug)]
pub struct MemoryEngine {
    table: Table,
    seq: Sequence,
}

impl MemoryEngine {
    /// For each live key, the sequence of the mutation that wrote its
    /// current value.
    pub closed spec fn versions(&self) -> Map<Seq<u8>, u64> {
        Map::new(
            |k: Seq<u8>| self.table.map().contains_key(k),
            |k: Seq<u8>| self.table.map()[k].seq,
        )
    }

    /// An engine without entries, before its first mutation.
    pub fn new() -> (e: MemoryEngine)
        ensures
            e.wf(),
            e.contents() == Map::<Seq<u8>, Seq<u8>>::empty(),
            e.versions() == Map::<Seq<u8>, u64>::empty(),
            e.sequence() == 0,
    {
        let e = MemoryEngine { table: Table::new(), seq: Sequence::zero() };
        assert(e.contents() =~= Map::<Seq<u8>, Seq<u8>>::empty());
        assert(e.versions() =~= Map::<Seq<u8>, u64>::empty());
        e
    }

    /// The number of live entries.
    pub fn len(&self) -> (n: usize)
        requires
            self.wf(),
        ensures
            n == self.contents().dom().len(),
            self.contents().dom().finite(),
    {
        proof {
            self.lemma_count();
        }
        self.table.len()
    }

    /// Whether the engine holds no entry.
    pub fn is_empty(&self) -> (r: bool)
        requires
            self.wf(),
        ensures
            r == (self.contents() == Map::<Seq<u8>, Seq<u8>>::empty()),
    {
        proof {
            self.lemma_count();
            if self.table@.len() == 0 {
                assert(self.contents() =~= Map::<Seq<u8>, Seq<u8>>::empty());
            } else {
                crate::sorted::lemma_lookup_at(self.table@, 0);
                assert(self.contents().contains_key(self.table@[0].key));
            }
        }
        self.table.is_empty()
    }

    /// The sequence of the mutation that wrote the current value of `key`.
    pub fn version_of(&self, key: &[u8]) -> (r: Option<Sequence>)
        requires
            self.wf(),
        ensures
            r is Some <==> self.contents().contains_key(key@),
            r is Some <==> self.versions().contains_key(key@),
            r matches Some(s) ==> s.0 == self.versions()[key@] && 0 < s.0 <= self.sequence(),
    {
        match self.table.find(key) {
            Some(e) => {
                proof {
                    let i = lemma_lookup_position(self.table@, key@);
                }
                Some(e.seq)
            },
            None => None,
        }
    }

    /// The table has one entry per live key.
    proof fn lemma_count(&self)
        requires
            self.wf(),
        ensures
            self.contents().dom().finite(),
            self.contents().dom().len() == self.table@.len(),
    {
        lemma_key_count(self.table@);
        assert(self.contents().dom() =~= self.table.map().dom()) by {
            assert forall|k: Seq<u8>| self.table.map().contains_key(k) implies self.contents().contains_key(
                k,
            ) by {
                let i = lemma_lookup_position(self.table@, k);
            }
        }
    }
}

/// A sorted sequence has as many entries as its map has keys.
proof fn lemma_key_count(s: Seq<crate::entry::EntryView>)
    requires
        crate::sorted::sorted(s),
    ensures
        crate::sorted::to_map(s).dom().finite(),
        crate::sorted::to_map(s).dom().len() == s.len(),
    decreases s.len(),
{
    if s.len() == 0 {
        crate::sorted::lemma_empty_map();
        assert(s =~= Seq::empty());
    } else {
        let p = s.len() - 1;
        let t = s.remove(p);
        crate::sorted::lemma_remove_at(s, p);
        crate::sorted::lemma_lookup_at(s, p);
        lemma_key_count(t);
        assert(crate::sorted::to_map(s).dom() =~= crate::sorted::to_map(t).dom().insert(s[p].key));
    }
}

impl StorageEngine for MemoryEngine {
    closed spec fn wf(&self) -> bool {
        &&& self.table.wf()
        &&& forall|i: int|
            0 <= i < self.table@.len() ==> (#[trigger] self.table@[i]).value is Some && 0
                < self.table@[i].seq <= self.seq.0
    }

    closed spec fn contents(&self) -> Map<Seq<u8>, Seq<u8>> {
        live(self.table.map())
    }

    closed spec fn sequence(&self) -> u64 {
        self.seq.0
    }

    fn last_sequence(&self) -> (s: Sequence) {
        self.seq
    }

    fn get(&self, key: &[u8]) -> (r: Result<Option<Value>>)
        ensures
            r is Ok,
    {
        match self.table.find(key) {
            Some(e) => {
                proof {
                    let i = lemma_lookup_position(self.table@, key@);
                }
                Ok(copy_opt_bytes(&e.value))
            },
            None => Ok(None),
        }
    }

    fn put(&mut self, key: Key, value: Value) -> (r: Result<()>)
        ensures
            r is Ok,
            final(self).versions() == old(self).versions().insert(
                key@,
                (old(self).sequence() + 1) as u64,
            ),
    {
        let seq = self.seq.next();
        let ghost before = self.table;
        let e = Entry::live(key, value, seq);
        self.table.upsert(e);
        self.seq = seq;
        proof {
            assert forall|i: int| 0 <= i < self.table@.len() implies (#[trigger] self.table@[i]).value is Some
                && 0 < self.table@[i].seq <= self.seq.0 by {
                crate::sorted::lemma_lookup_at(self.table@, i);
                let k = self.table@[i].key;
                if k != key@ {
                    let j = lemma_lookup_position(before@, k);
                }
            }
            assert(self.contents() =~= old(self).contents().insert(key@, value@));
            assert(self.versions() =~= old(self).versions().insert(key@, seq.0));
        }
        Ok(())
    }

    fn delete(&mut self, key: &[u8]) -> (r: Result<()>)
        ensures
            r is Ok,
            final(self).versions() == old(self).versions().remove(key@),
    {
        let seq = self.seq.next();
        let ghost before = self.table;
        let _ = self.table.remove(key);
        self.seq = seq;
        proof {
            assert forall|i: int| 0 <= i < self.table@.len() implies (#[trigger] self.table@[i]).value is Some
                && 0 < self.table@[i].seq <= self.seq.0 by {
                crate::sorted::lemma_lookup_at(self.table@, i);
                let j = lemma_lookup_position(before@, self.table@[i].key);
            }
            assert(self.contents() =~= old(self).contents().remove(key@));
            assert(self.versions() =~= old(self).versions().remove(key@));
        }
        Ok(())
    }

    fn scan(&self, start: &[u8], end: &[u8]) -> (r: Result<Scan>)
        ensures
            r is Ok,
    {
        let part = self.table.range(start, end);
        proof {
            lemma_live_pairs_scan(part@, self.table.map(), start@, end@);
        }
        Ok(Scan::over(part))
    }
}

} // verus!
