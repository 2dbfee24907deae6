//! The data model: keys, values, sequence numbers and versioned entries.

use vstd::prelude::*;

verus! {

/// A key: an arbitrary byte string with no implied encoding.
pub type Key = Vec<u8>;

/// A value: an arbitrary byte string, opaque to the engine.
pub type Value = Vec<u8>;

/// The position of a mutation in the total order of all mutations applied to
/// one engine. Of two mutations of the same key, the one with the higher
/// sequence is the more recent.
#[derive(Debug, Clone, Copy, PartialEq, Eq, Structural)]
pub struct Sequence(pub u64);

impl Sequence {
    /// The sequence that precedes every mutation.
    pub fn zero() -> (r: Sequence)
        ensures
            r.0 == 0,
    {
        Sequence(0)
    }

    /// The sequence that directly follows this one.
    pub fn next(self) -> (r: Sequence)
        requires
            self.0 < u64::MAX,
        ensures
            r.0 == self.0 + 1,
    {
        Sequence(self.0 + 1)
    }

    /// Whether this sequence was assigned after `other`.
    pub fn is_newer_than(self, other: Sequence) -> (r: bool)
        ensures
            r == (self.0 > other.0),
    {
        self.0 > other.0
    }
}

/// What an [`Entry`] stands for: a key, the value written under it or `None`
/// for a tombstone, and the sequence of the mutation that produced it.
pub ghost struct EntryView {
    pub key: Seq<u8>,
    pub value: Option<Seq<u8>>,
    pub seq: u64,
}

/// The unit that an engine holds in memory or persists: the latest mutation
/// of one key. A `value` of `None` is a tombstone, which records a deletion
/// so that it can shadow older values of the key.
#[derive(Debug)]
pub struct Entry {
    pub key: Key,
    pub value: Option<Value>,
    pub seq: Sequence,
}

/// The mathematical value of an optional byte string.
pub open spec fn opt_view(v: Option<Vec<u8>>) -> Option<Seq<u8>> {
    match v {
        Some(x) => Some(x@),
        None => None,
    }
}

impl View for Entry {
    type V = EntryView;

    open spec fn view(&self) -> EntryView {
        EntryView { key: self.key@, value: opt_view(self.value), seq: self.seq.0 }
    }
}

/// Copies a byte string.
pub fn copy_bytes(b: &Vec<u8>) -> (r: Vec<u8>)
    ensures
        r@ == b@,
{
    let r = b.clone();
    assert(r@ =~= b@);
    r
}

/// Copies an optional byte string.
pub fn copy_opt_bytes(b: &Option<Vec<u8>>) -> (r: Option<Vec<u8>>)
    ensures
        opt_view(r) == opt_view(*b),
{
    match b {
        Some(x) => Some(copy_bytes(x)),
        None => None,
    }
}

impl Entry {
    /// An entry that records `value` written under `key`.
    pub fn live(key: Key, value: Value, seq: Sequence) -> (r: Entry)
        ensures
            r@ == (EntryView { key: key@, value: Some(value@), seq: seq.0 }),
    {
        Entry { key, value: Some(value), seq }
    }

    /// An entry that records the deletion of `key`.
    pub fn tombstone(key: Key, seq: Sequence) -> (r: Entry)
        ensures
            r@ == (EntryView { key: key@, value: None, seq: seq.0 }),
    {
        Entry { key, value: None, seq }
    }

    /// Whether this entry records a deletion.
    pub fn is_tombstone(&self) -> (r: bool)
        ensures
            r == (self@.value is None),
    {
        self.value.is_none()
    }
}

impl Clone for Entry {
    fn clone(&self) -> (r: Self)
        ensures
            r@ == self@,
    {
        Entry { key: copy_bytes(&self.key), value: copy_opt_bytes(&self.value), seq: self.seq }
    }
}

} // verus!
