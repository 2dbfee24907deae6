//! The mutable buffer of a log-structured store: the table that takes every
//! new mutation until it is sealed and flushed.

use vstd::prelude::*;
use vstd::slice::slice_to_vec;
use crate::entry::{Entry, EntryView, Key, Sequence, Value};
use crate::sorted::{lookup, sorted, to_map, within};
use crate::table::Table;

verus! {

/// The size of a buffer after `bytes` more bytes were written into it; the
/// count stops at the largest `usize`.
pub open spec fn charged(written: nat, bytes: nat) -> nat {
    if written + bytes > usize::MAX {
        usize::MAX as nat
    } else {
        written + bytes
    }
}

/// Adds two sizes, stopping at the largest `usize`.
fn add_capped(a: usize, b: usize) -> (r: usize)
    ensures
        r == charged(a as nat, b as nat),
{
    if a > usize::MAX - b {
        usize::MAX
    } else {
        a + b
    }
}

/// An ordered buffer of the latest mutation of each key, deletions
/// included, that counts the bytes written into it.
#[derive(Debug)]
pub struct MemTable {
    table: Table,
    written: usize,
}

impl View for MemTable {
    type V = Seq<EntryView>;

    closed spec fn view(&self) -> Seq<EntryView> {
        self.table@
    }
}

impl MemTable {
    /// The buffer's invariant: its entries ascend strictly by key.
    pub open spec fn wf(&self) -> bool {
        sorted(self@)
    }

    /// The buffer as a map from each key to its latest mutation.
    pub open spec fn map(&self) -> Map<Seq<u8>, EntryView> {
        to_map(self@)
    }

    /// The bytes of keys and values written into the buffer since it was
    /// opened, overwritten ones included.
    pub closed spec fn written(&self) -> nat {
        self.written as nat
    }

    /// An empty buffer.
    pub fn new() -> (m: MemTable)
        ensures
            m.wf(),
            m@ == Seq::<EntryView>::empty(),
            m.written() == 0,
    {
        MemTable { table: Table::new(), written: 0 }
    }

    /// Records the mutation that `e` stands for.
    pub fn record(&mut self, e: Entry)
        requires
            old(self).wf(),
        ensures
            final(self).wf(),
            final(self).map() == old(self).map().insert(e@.key, e@),
            final(self).written() == charged(
                old(self).written(),
                e@.key.len() + (match e@.value {
                    Some(v) => v.len(),
                    None => 0,
                }),
            ),
    {
        let bytes = match &e.value {
            Some(v) => add_capped(e.key.len(), v.len()),
            None => e.key.len(),
        };
        self.written = add_capped(self.written, bytes);
        self.table.upsert(e);
    }

    /// Records that `value` was written under `key` at sequence `seq`.
    pub fn put(&mut self, key: Key, value: Value, seq: Sequence)
        requires
            old(self).wf(),
        ensures
            final(self).wf(),
            final(self).map() == old(self).map().insert(
                key@,
                EntryView { key: key@, value: Some(value@), seq: seq.0 },
            ),
            final(self).written() == charged(old(self).written(), key@.len() + value@.len()),
    {
        let bytes = add_capped(key.len(), value.len());
        self.written = add_capped(self.written, bytes);
        self.table.upsert(Entry::live(key, value, seq));
    }

    /// Records that `key` was deleted at sequence `seq`, by a tombstone that
    /// shadows every older value of the key.
    pub fn delete(&mut self, key: &[u8], seq: Sequence)
        requires
            old(self).wf(),
        ensures
            final(self).wf(),
            final(self).map() == old(self).map().insert(
                key@,
                EntryView { key: key@, value: None, seq: seq.0 },
            ),
            final(self).written() == charged(old(self).written(), key@.len()),
    {
        self.written = add_capped(self.written, key.len());
        self.table.upsert(Entry::tombstone(slice_to_vec(key), seq));
    }

    /// The latest mutation of `key` in this buffer, if it holds one.
    pub fn find(&self, key: &[u8]) -> (r: Option<&Entry>)
        requires
            self.wf(),
        ensures
            match r {
                Some(e) => lookup(self@, key@) == Some(e@),
                None => lookup(self@, key@) is None,
            },
    {
        self.table.find(key)
    }

    /// The number of keys in the buffer.
    pub fn len(&self) -> (n: usize)
        ensures
            n == self@.len(),
    {
        self.table.len()
    }

    /// The bytes written into the buffer since it was opened.
    pub fn approximate_size(&self) -> (n: usize)
        ensures
            n == self.written(),
    {
        self.written
    }

    /// Whether the buffer has reached `threshold` bytes and is due to be
    /// sealed.
    pub fn is_full(&self, threshold: usize) -> (r: bool)
        ensures
            r == (self.written() >= threshold),
    {
        self.written >= threshold
    }

    /// A copy of the mutations whose keys lie between `start` (inclusive)
    /// and `end` (exclusive).
    pub fn range(&self, start: &[u8], end: &[u8]) -> (r: Table)
        requires
            self.wf(),
        ensures
            r.wf(),
            r.map() == within(self.map(), start@, end@),
    {
        self.table.range(start, end)
    }

    /// Seals the buffer: gives it up for the immutable table of its entries.
    pub fn seal(self) -> (t: Table)
        ensures
            t@ == self@,
    {
        self.table
    }
}

} // verus!
