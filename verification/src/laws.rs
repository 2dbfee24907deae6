//! What holds of every engine that satisfies the contract, stated over the
//! contents that the contract speaks of.

use vstd::prelude::*;
use crate::codec::encodable;
use crate::engine::value_at;
use crate::entry::EntryView;
use crate::mutation::{apply, replay, MutationView};
use crate::order::{in_range, key_lt, lemma_empty_interval};
use crate::scan::{is_scan_of, lemma_scan_determined};
use crate::wal::{
    all_encodable, lemma_log_push, lemma_log_roundtrip, lemma_torn_tail_is_dropped, log_bytes,
    parsed_log, record_bytes,
};

verus! {

/// A key that no mutation in an engine's history has written is absent: a
/// lookup finds nothing, whatever else was written or deleted.
pub proof fn law_unwritten_key_is_absent(history: Seq<MutationView>, k: Seq<u8>)
    requires
        forall|i: int|
            0 <= i < history.len() ==> !(#[trigger] history[i] is Put && history[i].key() == k),
    ensures
        value_at(replay(Map::empty(), history), k) is None,
    decreases history.len(),
{
    if history.len() > 0 {
        let earlier = history.drop_last();
        assert forall|i: int| 0 <= i < earlier.len() implies !(#[trigger] earlier[i] is Put
            && earlier[i].key() == k) by {
            assert(earlier[i] == history[i]);
        }
        law_unwritten_key_is_absent(earlier, k);
        assert(!(history[history.len() - 1] is Put && history[history.len() - 1].key() == k));
    }
}

/// A lookup in an engine that has never been written to finds nothing.
pub proof fn law_fresh_engine_is_empty(k: Seq<u8>)
    ensures
        value_at(Map::empty(), k) is None,
{
}

/// Of two writes to the same key the later one wins.
pub proof fn law_last_write_wins(m: Map<Seq<u8>, Seq<u8>>, k: Seq<u8>, v1: Seq<u8>, v2: Seq<u8>)
    ensures
        value_at(m.insert(k, v1).insert(k, v2), k) == Some(v2),
{
}

/// A written value is read back for as long as no later mutation touches its
/// key.
pub proof fn law_write_is_read_back(
    m: Map<Seq<u8>, Seq<u8>>,
    k: Seq<u8>,
    v: Seq<u8>,
    later: Seq<MutationView>,
)
    requires
        forall|i: int| 0 <= i < later.len() ==> (#[trigger] later[i]).key() != k,
    ensures
        value_at(replay(m.insert(k, v), later), k) == Some(v),
    decreases later.len(),
{
    if later.len() > 0 {
        let earlier = later.drop_last();
        assert forall|i: int| 0 <= i < earlier.len() implies (#[trigger] earlier[i]).key() != k by {
            assert(earlier[i] == later[i]);
        }
        law_write_is_read_back(m, k, v, earlier);
        assert(later[later.len() - 1].key() != k);
    }
}

/// After a delete the key is absent.
pub proof fn law_delete_hides_key(m: Map<Seq<u8>, Seq<u8>>, k: Seq<u8>)
    ensures
        value_at(m.remove(k), k) is None,
{
}

/// Deleting a key that has no entry changes nothing.
pub proof fn law_delete_of_absent_key_is_noop(m: Map<Seq<u8>, Seq<u8>>, k: Seq<u8>)
    requires
        !m.contains_key(k),
    ensures
        m.remove(k) == m,
{
    assert(m.remove(k) =~= m);
}

/// A delete touches no other key.
pub proof fn law_delete_keeps_other_keys(m: Map<Seq<u8>, Seq<u8>>, k: Seq<u8>, other: Seq<u8>)
    requires
        other != k,
    ensures
        value_at(m.remove(k), other) == value_at(m, other),
{
}

/// A write touches no other key.
pub proof fn law_put_keeps_other_keys(
    m: Map<Seq<u8>, Seq<u8>>,
    k: Seq<u8>,
    v: Seq<u8>,
    other: Seq<u8>,
)
    requires
        other != k,
    ensures
        value_at(m.insert(k, v), other) == value_at(m, other),
{
}

/// Repeating a delete leaves the contents as the first delete left them.
pub proof fn law_delete_is_idempotent(m: Map<Seq<u8>, Seq<u8>>, k: Seq<u8>)
    ensures
        m.remove(k).remove(k) == m.remove(k),
{
    assert(m.remove(k).remove(k) =~= m.remove(k));
}

/// Repeating a write of the same value leaves the contents as the first
/// write left them.
pub proof fn law_put_is_idempotent(m: Map<Seq<u8>, Seq<u8>>, k: Seq<u8>, v: Seq<u8>)
    ensures
        m.insert(k, v).insert(k, v) == m.insert(k, v),
{
    assert(m.insert(k, v).insert(k, v) =~= m.insert(k, v));
}

/// Repeating any mutation leaves the contents as the first application left
/// them.
pub proof fn law_mutation_is_idempotent(m: Map<Seq<u8>, Seq<u8>>, op: MutationView)
    ensures
        apply(apply(m, op), op) == apply(m, op),
{
    match op {
        MutationView::Put { key, value } => law_put_is_idempotent(m, key, value),
        MutationView::Delete { key } => law_delete_is_idempotent(m, key),
    }
}

/// A scan ascends strictly by key, stays inside its interval, and yields
/// exactly the current values: each pair is what a lookup of its key finds.
pub proof fn law_scan_is_sorted_and_bounded(
    s: Seq<(Seq<u8>, Seq<u8>)>,
    m: Map<Seq<u8>, Seq<u8>>,
    start: Seq<u8>,
    end: Seq<u8>,
    i: int,
    j: int,
)
    requires
        is_scan_of(s, m, start, end),
        0 <= i < j < s.len(),
    ensures
        key_lt(s[i].0, s[j].0),
        in_range(s[i].0, start, end),
        in_range(s[j].0, start, end),
        value_at(m, s[i].0) == Some(s[i].1),
        value_at(m, s[j].0) == Some(s[j].1),
{
}

/// A scan holds no deleted key.
pub proof fn law_scan_omits_deleted_key(
    s: Seq<(Seq<u8>, Seq<u8>)>,
    m: Map<Seq<u8>, Seq<u8>>,
    k: Seq<u8>,
    start: Seq<u8>,
    end: Seq<u8>,
    i: int,
)
    requires
        is_scan_of(s, m.remove(k), start, end),
        0 <= i < s.len(),
    ensures
        s[i].0 != k,
{
}

/// A scan misses no live key of its interval.
pub proof fn law_scan_is_complete(
    s: Seq<(Seq<u8>, Seq<u8>)>,
    m: Map<Seq<u8>, Seq<u8>>,
    start: Seq<u8>,
    end: Seq<u8>,
    k: Seq<u8>,
)
    requires
        is_scan_of(s, m, start, end),
        m.contains_key(k),
        in_range(k, start, end),
    ensures
        s.contains((k, m[k])),
{
    let i = choose|i: int| 0 <= i < s.len() && #[trigger] s[i] == (k, m[k]);
    assert(s[i] == (k, m[k]));
}

/// A scan over an interval whose start is not below its end is empty.
pub proof fn law_scan_of_empty_interval(
    s: Seq<(Seq<u8>, Seq<u8>)>,
    m: Map<Seq<u8>, Seq<u8>>,
    start: Seq<u8>,
    end: Seq<u8>,
)
    requires
        is_scan_of(s, m, start, end),
        !key_lt(start, end),
    ensures
        s.len() == 0,
{
    if s.len() > 0 {
        lemma_empty_interval(s[0].0, start, end);
    }
}

/// A scan is determined by the contents and the interval: two scans of the
/// same contents over the same interval yield the same pairs in the same
/// order.
pub proof fn law_scan_is_determined(
    a: Seq<(Seq<u8>, Seq<u8>)>,
    b: Seq<(Seq<u8>, Seq<u8>)>,
    m: Map<Seq<u8>, Seq<u8>>,
    start: Seq<u8>,
    end: Seq<u8>,
)
    requires
        is_scan_of(a, m, start, end),
        is_scan_of(b, m, start, end),
    ensures
        a == b,
{
    lemma_scan_determined(a, b, m, start, end);
}

/// Replaying one log after another is replaying the two as one.
pub proof fn law_replay_continues(
    m: Map<Seq<u8>, Seq<u8>>,
    first: Seq<MutationView>,
    second: Seq<MutationView>,
)
    ensures
        replay(m, first + second) == replay(replay(m, first), second),
    decreases second.len(),
{
    if second.len() == 0 {
        assert(first + second =~= first);
    } else {
        assert((first + second).drop_last() =~= first + second.drop_last());
        assert((first + second).last() == second.last());
        law_replay_continues(m, first, second.drop_last());
    }
}

/// A logged write is there after the log was replayed, whatever was logged
/// before it, as long as nothing logged after it touches its key.
pub proof fn law_replayed_write_is_present(
    m: Map<Seq<u8>, Seq<u8>>,
    earlier: Seq<MutationView>,
    k: Seq<u8>,
    v: Seq<u8>,
    later: Seq<MutationView>,
)
    requires
        forall|i: int| 0 <= i < later.len() ==> (#[trigger] later[i]).key() != k,
    ensures
        value_at(replay(m, earlier.push(MutationView::Put { key: k, value: v }) + later), k) == Some(v),
{
    let written = earlier.push(MutationView::Put { key: k, value: v });
    law_replay_continues(m, written, later);
    assert(written.drop_last() =~= earlier);
    assert(replay(m, written) == replay(m, earlier).insert(k, v));
    law_write_is_read_back(replay(m, earlier), k, v, later);
}

/// A crash in the middle of appending a record to the write-ahead log loses
/// nothing that was logged before and is never taken for corruption: reading
/// the log gives the records that were written whole. The record that was
/// being appended is among them only if its last byte reached the log.
pub proof fn law_crash_keeps_logged_records(logged: Seq<EntryView>, pending: EntryView, n: int)
    requires
        all_encodable(logged),
        encodable(pending),
        0 <= n <= record_bytes(pending).len(),
    ensures
        parsed_log(log_bytes(logged) + record_bytes(pending).take(n)) == Some(
            if n == record_bytes(pending).len() {
                logged.push(pending)
            } else {
                logged
            },
        ),
{
    if n < record_bytes(pending).len() {
        lemma_torn_tail_is_dropped(logged, pending, n);
    } else {
        let all = logged.push(pending);
        assert(record_bytes(pending).take(n) =~= record_bytes(pending));
        lemma_log_push(logged, pending);
        assert forall|i: int| 0 <= i < all.len() implies encodable(#[trigger] all[i]) by {
            if i < logged.len() {
                assert(all[i] == logged[i]);
            }
        }
        lemma_log_roundtrip(all);
    }
}

} // verus!
