//! Mutations as values: what a write-ahead log records and what recovery
//! replays.

use vstd::prelude::*;
use crate::engine::StorageEngine;
use crate::entry::{EntryView, Key, Value};
use crate::error::Result;

verus! {

/// One change to an engine's contents.
#[derive(Debug)]
pub enum Mutation {
    /// Write `value` under `key`.
    Put { key: Key, value: Value },
    /// Remove `key`.
    Delete { key: Key },
}

/// What a [`Mutation`] stands for.
pub ghost enum MutationView {
    Put { key: Seq<u8>, value: Seq<u8> },
    Delete { key: Seq<u8> },
}

impl MutationView {
    /// The key that the mutation changes.
    pub open spec fn key(self) -> Seq<u8> {
        match self {
            MutationView::Put { key, .. } => key,
            MutationView::Delete { key } => key,
        }
    }
}

impl View for Mutation {
    type V = MutationView;

    open spec fn view(&self) -> MutationView {
        match self {
            Mutation::Put { key, value } => MutationView::Put { key: key@, value: value@ },
            Mutation::Delete { key } => MutationView::Delete { key: key@ },
        }
    }
}

/// The mathematical values of a sequence of mutations.
pub open spec fn mutation_views(log: Seq<Mutation>) -> Seq<MutationView> {
    log.map_values(|m: Mutation| m@)
}

/// The mutation that an entry records: a write of its value, or the deletion
/// that a tombstone stands for.
pub open spec fn as_mutation(e: EntryView) -> MutationView {
    match e.value {
        Some(v) => MutationView::Put { key: e.key, value: v },
        None => MutationView::Delete { key: e.key },
    }
}

/// The mutations that the entries of a log record, first to last.
pub open spec fn mutations_of(log: Seq<EntryView>) -> Seq<MutationView> {
    log.map_values(|e: EntryView| as_mutation(e))
}

/// The contents after one mutation.
pub open spec fn apply(m: Map<Seq<u8>, Seq<u8>>, op: MutationView) -> Map<Seq<u8>, Seq<u8>> {
    match op {
        MutationView::Put { key, value } => m.insert(key, value),
        MutationView::Delete { key } => m.remove(key),
    }
}

/// The contents after a sequence of mutations, applied first to last.
pub open spec fn replay(m: Map<Seq<u8>, Seq<u8>>, ops: Seq<MutationView>) -> Map<Seq<u8>, Seq<u8>>
    decreases ops.len(),
{
    if ops.len() == 0 {
        m
    } else {
        apply(replay(m, ops.drop_last()), ops.last())
    }
}

/// Applies one mutation to an engine.
pub fn apply_to<E: StorageEngine>(engine: &mut E, op: Mutation) -> (r: Result<()>)
    requires
        old(engine).wf(),
        old(engine).sequence() < u64::MAX,
    ensures
        final(engine).wf(),
        r is Ok ==> final(engine).contents() == apply(old(engine).contents(), op@),
        r is Ok ==> final(engine).sequence() == old(engine).sequence() + 1,
        r matches Err(e) ==> e.is_storage_fault(),
        r is Err ==> final(engine).contents() == old(engine).contents(),
        r is Err ==> final(engine).sequence() == old(engine).sequence(),
{
    match op {
        Mutation::Put { key, value } => engine.put(key, value),
        Mutation::Delete { key } => engine.delete(key.as_slice()),
    }
}

/// Applies the mutations of `log` to an engine, first to last, and stops at
/// the first that fails. Returns how many were applied: all of them, or those
/// before the failure.
pub fn replay_into<E: StorageEngine>(engine: &mut E, log: Vec<Mutation>) -> (r: (usize, Result<()>))
    requires
        old(engine).wf(),
        old(engine).sequence() + log@.len() <= u64::MAX,
    ensures
        final(engine).wf(),
        r.0 <= log@.len(),
        final(engine).contents() == replay(
            old(engine).contents(),
            mutation_views(log@).take(r.0 as int),
        ),
        final(engine).sequence() == old(engine).sequence() + r.0,
        r.1 is Ok ==> r.0 == log@.len(),
        r.1 matches Err(e) ==> e.is_storage_fault() && r.0 < log@.len(),
{
    let ghost ops = mutation_views(log@);
    let total = log.len();
    let mut rest = log;
    let mut pending: Vec<Mutation> = Vec::new();
    // reverse the log so that mutations can be taken from its front by value
    while rest.len() > 0
        invariant
            rest@.len() + pending@.len() == total,
            total == ops.len(),
            forall|i: int| 0 <= i < rest@.len() ==> (#[trigger] rest@[i])@ == ops[i],
            forall|i: int|
                0 <= i < pending@.len() ==> (#[trigger] pending@[i])@ == ops[total - 1 - i],
        decreases rest@.len(),
    {
        let m = rest.pop().unwrap();
        pending.push(m);
    }
    let mut done: usize = 0;
    assert(ops.take(0) =~= Seq::<MutationView>::empty());
    while pending.len() > 0
        invariant
            engine.wf(),
            done + pending@.len() == total,
            total == ops.len(),
            total == log@.len(),
            ops == mutation_views(log@),
            forall|i: int|
                0 <= i < pending@.len() ==> (#[trigger] pending@[i])@ == ops[total - 1 - i],
            engine.contents() == replay(old(engine).contents(), ops.take(done as int)),
            engine.sequence() == old(engine).sequence() + done,
            old(engine).sequence() + total <= u64::MAX,
        decreases pending@.len(),
    {
        let m = pending.pop().unwrap();
        assert(m@ == ops[done as int]);
        let r = apply_to(engine, m);
        if r.is_err() {
            return (done, r);
        }
        proof {
            let next = ops.take(done as int + 1);
            assert(next.drop_last() =~= ops.take(done as int));
            assert(next.last() == ops[done as int]);
        }
        done += 1;
    }
    (done, Ok(()))
}

} // verus!
