//! The contract that every storage engine satisfies.
//!
//! Callers depend on this contract alone. An engine is described by the map
//! from each key to its current value and by the sequence of its latest
//! mutation; every operation says what it returns and how it changes the two.

use vstd::prelude::*;
use crate::entry::{opt_view, Key, Sequence, Value};
use crate::error::Result;
use crate::scan::{is_scan_of, Scan};

verus! {

/// What a lookup of `k` in `m` finds: the value, or `None` where `m` has no
/// entry for `k`.
pub open spec fn value_at(m: Map<Seq<u8>, Seq<u8>>, k: Seq<u8>) -> Option<Seq<u8>> {
    if m.contains_key(k) {
        Some(m[k])
    } else {
        None
    }
}

/// A key-value store over byte strings with ordered range scans.
///
/// An operation fails only on a storage-layer fault, and a failed mutation
/// leaves the contents as they were. Absence of a key is never a failure.
pub trait StorageEngine: Send + Sync + 'static {
    /// The engine's invariant. Constructors establish it and every operation
    /// keeps it.
    spec fn wf(&self) -> bool;

    /// The visible state: the map from each live key to its current value.
    spec fn contents(&self) -> Map<Seq<u8>, Seq<u8>>;

    /// The sequence assigned to the latest mutation, zero before the first.
    spec fn sequence(&self) -> u64;

    /// The sequence assigned to the latest mutation. Mutations need it to be
    /// below `u64::MAX`.
    fn last_sequence(&self) -> (s: Sequence)
        requires
            self.wf(),
        ensures
            s.0 == self.sequence(),
    ;

    /// Looks up the current value of `key`. A key without a live entry gives
    /// `Ok(None)`.
    fn get(&self, key: &[u8]) -> (r: Result<Option<Value>>)
        requires
            self.wf(),
        ensures
            r matches Ok(v) ==> opt_view(v) == value_at(self.contents(), key@),
            r matches Err(e) ==> e.is_storage_fault(),
    ;

    /// Writes `value` under `key`, replacing any earlier value, and assigns
    /// the mutation the next sequence, which is above every sequence assigned
    /// before.
    fn put(&mut self, key: Key, value: Value) -> (r: Result<()>)
        requires
            old(self).wf(),
            old(self).sequence() < u64::MAX,
        ensures
            final(self).wf(),
            r is Ok ==> final(self).contents() == old(self).contents().insert(key@, value@),
            r is Ok ==> final(self).sequence() == old(self).sequence() + 1,
            r matches Err(e) ==> e.is_storage_fault(),
            r is Err ==> final(self).contents() == old(self).contents(),
            r is Err ==> final(self).sequence() == old(self).sequence(),
    ;

    /// Removes `key` and assigns the mutation the next sequence. Deleting a
    /// key that has no entry succeeds and changes nothing that a reader can
    /// see.
    fn delete(&mut self, key: &[u8]) -> (r: Result<()>)
        requires
            old(self).wf(),
            old(self).sequence() < u64::MAX,
        ensures
            final(self).wf(),
            r is Ok ==> final(self).contents() == old(self).contents().remove(key@),
            r is Ok ==> final(self).sequence() == old(self).sequence() + 1,
            r matches Err(e) ==> e.is_storage_fault(),
            r is Err ==> final(self).contents() == old(self).contents(),
            r is Err ==> final(self).sequence() == old(self).sequence(),
    ;

    /// Scans the entries with `start <= key < end` in ascending key order, as
    /// a snapshot of the contents at the time of the call. An interval with
    /// `start >= end` gives an empty scan.
    fn scan(&self, start: &[u8], end: &[u8]) -> (r: Result<Scan>)
        requires
            self.wf(),
        ensures
            r matches Ok(s) ==> is_scan_of(s@, self.contents(), start@, end@),
            r matches Err(e) ==> e.is_storage_fault(),
    ;
}

} // verus!
