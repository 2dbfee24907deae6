//! The log-structured engine: a mutable buffer in front of immutable sorted
//! runs.
//!
//! Every mutation lands in the active buffer. A full buffer is sealed and a
//! fresh one takes its place; sealed buffers are flushed into sorted runs,
//! oldest first; compaction merges runs into fewer, larger ones. Reads probe
//! the tables newest to oldest and stop at the first hit, so that newer data
//! shadows older data, and a tombstone hides every older value of its key.
//!
//! The engine holds its runs as tables. Writing them to a device, and reading
//! them back, is the caller's part: none of the operations here changes what
//! a reader sees except `put` and `delete`, so a caller may persist the runs
//! after any of them.

use vstd::prelude::*;
use vstd::slice::slice_to_vec;
use crate::engine::StorageEngine;
use crate::entry::{copy_opt_bytes, Entry, EntryView, Key, Sequence, Value};
use crate::error::{KvError, Result};
use crate::layers::{
    bounded, lemma_front_empty, lemma_merged_within, lemma_newest_concat, lemma_newest_front,
    lemma_newest_prefix, lemma_replace_reading, lemma_replace_stacked,
    lemma_stacked_front_write, lemma_visible_is_merged, merged, newest, reading, stacked,
    stands_for, visible,
};
use crate::memtable::{charged, MemTable};
use crate::mutation::{apply, as_mutation, mutations_of, replay};
use crate::merge::{all_wf, merge, table_views};
use crate::scan::{lemma_live_pairs_scan, Scan};
use crate::sorted::{alive, lemma_map_is_lookup, live, lookup, newer_than, sorted, to_map, within};
use crate::table::{views, Table};

verus! {

/// When compaction is due.
#[derive(Debug, Clone, Copy, PartialEq, Eq, Structural)]
pub enum CompactionTrigger {
    /// Once there are this many runs.
    RunCount(usize),
    /// Once the runs hold this many entries between them.
    TotalEntries(usize),
}

/// The number of entries in all tables of `ls` together.
pub open spec fn entry_total(ls: Seq<Seq<EntryView>>) -> nat
    decreases ls.len(),
{
    if ls.len() == 0 {
        0
    } else {
        entry_total(ls.drop_last()) + ls.last().len()
    }
}

/// Whether `tables` hold at least `n` entries between them.
fn holds_at_least(tables: &Vec<Table>, n: usize) -> (r: bool)
    ensures
        r == (entry_total(table_views(tables@)) >= n),
{
    let ghost ls = table_views(tables@);
    let mut room: usize = n;
    let mut i: usize = 0;
    assert(ls.take(0) =~= Seq::<Seq<EntryView>>::empty());
    while i < tables.len()
        invariant
            i <= tables@.len(),
            ls == table_views(tables@),
            room <= n,
            room > 0 ==> entry_total(ls.take(i as int)) == n - room,
            room == 0 ==> entry_total(ls.take(i as int)) >= n,
        decreases tables@.len() - i,
    {
        proof {
            assert(ls.take(i as int + 1).drop_last() =~= ls.take(i as int));
            assert(ls.take(i as int + 1).last() == tables@[i as int]@);
        }
        let len = tables[i].len();
        room = if len >= room {
            0
        } else {
            room - len
        };
        i += 1;
    }
    assert(ls.take(tables@.len() as int) =~= ls);
    room == 0
}

/// The thresholds that steer a log-structured engine.
#[derive(Debug, Clone, Copy, PartialEq, Eq, Structural)]
pub struct LsmOptions {
    /// The active buffer is sealed once this many bytes were written into it.
    pub memtable_size_threshold: usize,
    /// At most this many sealed buffers wait to be flushed; a writer that
    /// would exceed the limit flushes the oldest first.
    pub max_sealed: usize,
    /// When compaction is due.
    pub compaction_trigger: CompactionTrigger,
}

/// A storage engine that buffers mutations in memory and keeps older data in
/// immutable sorted runs.
#[derive(Debug)]
pub struct LsmEngine {
    options: LsmOptions,
    active: MemTable,
    /// Sealed buffers that wait to be flushed, newest first.
    sealed: Vec<Table>,
    /// Sorted runs, newest first.
    runs: Vec<Table>,
    seq: Sequence,
}

/// The first hit for `key` among `tables`, probed front to back.
fn probe<'a>(tables: &'a Vec<Table>, key: &[u8]) -> (r: Option<&'a Entry>)
    requires
        all_wf(tables@),
    ensures
        match r {
            Some(e) => newest(table_views(tables@), key@) == Some(e@),
            None => newest(table_views(tables@), key@) is None,
        },
{
    let ghost ls = table_views(tables@);
    let n = tables.len();
    let mut i: usize = 0;
    assert(ls.take(0) =~= Seq::<Seq<EntryView>>::empty());
    while i < n
        invariant
            i <= n,
            n == tables@.len(),
            ls == table_views(tables@),
            all_wf(tables@),
            newest(ls.take(i as int), key@) is None,
        decreases n - i,
    {
        assert(tables@[i as int].wf());
        assert(ls[i as int] == tables@[i as int]@);
        proof {
            assert(ls.take(i as int + 1).drop_last() =~= ls.take(i as int));
            assert(ls.take(i as int + 1).last() == ls[i as int]);
        }
        match tables[i].find(key) {
            Some(e) => {
                proof {
                    lemma_newest_prefix(ls, i as int + 1, key@);
                }
                return Some(e);
            },
            None => {},
        }
        i += 1;
    }
    assert(ls.take(n as int) =~= ls);
    None
}

/// Appends to `parts` a copy of each table of `tables` cut to the interval
/// from `start` to `end`.
fn gather(tables: &Vec<Table>, parts: &mut Vec<Table>, start: &[u8], end: &[u8])
    requires
        all_wf(tables@),
        all_wf(old(parts)@),
    ensures
        all_wf(final(parts)@),
        final(parts)@.len() == old(parts)@.len() + tables@.len(),
        forall|i: int| 0 <= i < old(parts)@.len() ==> #[trigger] final(parts)@[i] == old(parts)@[i],
        forall|i: int|
            0 <= i < tables@.len() ==> (#[trigger] final(parts)@[old(parts)@.len() + i]).map() == within(
                tables@[i].map(),
                start@,
                end@,
            ),
{
    let n = tables.len();
    let ghost base = parts@.len();
    let mut i: usize = 0;
    while i < n
        invariant
            i <= n,
            n == tables@.len(),
            base == old(parts)@.len(),
            all_wf(tables@),
            all_wf(parts@),
            parts@.len() == base + i,
            forall|x: int| 0 <= x < base ==> #[trigger] parts@[x] == old(parts)@[x],
            forall|x: int|
                0 <= x < i ==> (#[trigger] parts@[base + x]).map() == within(
                    tables@[x].map(),
                    start@,
                    end@,
                ),
        decreases n - i,
    {
        assert(tables@[i as int].wf());
        let part = tables[i].range(start, end);
        let ghost before = parts@;
        parts.push(part);
        proof {
            assert forall|x: int| 0 <= x < parts@.len() implies (#[trigger] parts@[x]).wf() by {
                if x < before.len() {
                    assert(parts@[x] == before[x]);
                }
            }
            assert forall|x: int| 0 <= x < i + 1 implies (#[trigger] parts@[base + x]).map() == within(
                tables@[x].map(),
                start@,
                end@,
            ) by {
                if x < i {
                    assert(parts@[base + x] == before[base + x]);
                }
            }
        }
        i += 1;
    }
}

/// Whether `runs`, newest first, can be the runs of an engine whose latest
/// sequence is `bound`: every run is sorted, no sequence is above `bound`,
/// and where two runs share a key the newer run holds it at the higher
/// sequence.
fn check_stack(runs: &Vec<Table>, bound: Sequence) -> (r: bool)
    ensures
        r == (all_wf(runs@) && stacked(table_views(runs@)) && bounded(table_views(runs@), bound.0)),
{
    let ghost ls = table_views(runs@);
    let n = runs.len();
    let mut i: usize = 0;
    while i < n
        invariant
            i <= n,
            n == runs@.len(),
            ls == table_views(runs@),
            forall|x: int| 0 <= x < i ==> (#[trigger] runs@[x]).wf(),
            forall|x: int, j: int| 0 <= x < i && 0 <= j < ls[x].len() ==> (#[trigger] ls[x][j]).seq <= bound.0,
        decreases n - i,
    {
        assert(ls[i as int] == runs@[i as int]@);
        if !runs[i].is_sorted() {
            return false;
        }
        if !runs[i].sequences_at_most(bound) {
            proof {
                if bounded(ls, bound.0) {
                    assert forall|j: int| 0 <= j < runs@[i as int]@.len() implies (
                    #[trigger] runs@[i as int]@[j]).seq <= bound.0 by {
                        assert(ls[i as int][j].seq <= bound.0);
                    }
                }
            }
            return false;
        }
        assert forall|x: int, j: int| 0 <= x < i + 1 && 0 <= j < ls[x].len() implies (
        #[trigger] ls[x][j]).seq <= bound.0 by {
            if x == i {
                assert(runs@[i as int]@[j].seq <= bound.0);
            }
        }
        i += 1;
    }
    let mut a: usize = 0;
    while a < n
        invariant
            a <= n,
            n == runs@.len(),
            ls == table_views(runs@),
            all_wf(runs@),
            bounded(ls, bound.0),
            forall|x: int, y: int| 0 <= x < a && x < y < n ==> newer_than(#[trigger] ls[x], #[trigger] ls[y]),
        decreases n - a,
    {
        let mut b: usize = a + 1;
        while b < n
            invariant
                a < n,
                a < b <= n,
                n == runs@.len(),
                ls == table_views(runs@),
                all_wf(runs@),
                forall|y: int| a < y < b ==> newer_than(ls[a as int], #[trigger] ls[y]),
            decreases n - b,
        {
            assert(ls[a as int] == runs@[a as int]@);
            assert(ls[b as int] == runs@[b as int]@);
            if !runs[a].is_newer_than(&runs[b]) {
                proof {
                    let k = choose|k: Seq<u8>|
                        (#[trigger] lookup(ls[a as int], k)) is Some && (#[trigger] lookup(
                            ls[b as int],
                            k,
                        )) is Some && !(lookup(ls[a as int], k)->Some_0.seq > lookup(
                            ls[b as int],
                            k,
                        )->Some_0.seq);
                    assert(lookup(ls[a as int], k) is Some && lookup(ls[b as int], k) is Some);
                }
                return false;
            }
            b += 1;
        }
        a += 1;
    }
    proof {
        assert forall|i: int, j: int, k: Seq<u8>|
            0 <= i < j < ls.len() && (#[trigger] lookup(ls[i], k)) is Some && (#[trigger] lookup(
                ls[j],
                k,
            )) is Some implies lookup(ls[i], k)->Some_0.seq > lookup(ls[j], k)->Some_0.seq by {
            assert(newer_than(ls[i], ls[j]));
        }
    }
    true
}

/// The bytes that an entry adds to the buffer it is written into.
pub open spec fn entry_size(e: EntryView) -> nat {
    e.key.len() + (match e.value {
        Some(v) => v.len(),
        None => 0,
    })
}

/// The sequences of `log` ascend strictly and are all above `durable`.
pub open spec fn ascending_from(log: Seq<EntryView>, durable: u64) -> bool {
    &&& forall|i: int| 0 <= i < log.len() ==> (#[trigger] log[i]).seq > durable
    &&& forall|i: int, j: int| 0 <= i < j < log.len() ==> (#[trigger] log[i]).seq < (#[trigger] log[j]).seq
}

/// The latest sequence after the mutations of `log` were applied on top of
/// `durable`.
pub open spec fn sequence_after(log: Seq<EntryView>, durable: u64) -> u64 {
    if log.len() == 0 {
        durable
    } else {
        log.last().seq
    }
}

/// Whether an engine can be recovered from `runs`, newest first, the latest
/// durable sequence and the entries of the write-ahead log: the runs are
/// sorted, hold no sequence above `durable`, and where two of them share a
/// key the newer holds it at the higher sequence; the log's sequences
/// ascend strictly above `durable`.
pub open spec fn recoverable(runs: Seq<Table>, durable: u64, log: Seq<EntryView>) -> bool {
    &&& all_wf(runs)
    &&& stacked(table_views(runs))
    &&& bounded(table_views(runs), durable)
    &&& ascending_from(log, durable)
}

impl LsmEngine {
    /// The entries of the active buffer.
    pub closed spec fn active_table(&self) -> Seq<EntryView> {
        self.active@
    }

    /// The sealed buffers that wait to be flushed, newest first.
    pub closed spec fn sealed_tables(&self) -> Seq<Seq<EntryView>> {
        table_views(self.sealed@)
    }

    /// The sorted runs, newest first.
    pub closed spec fn run_tables(&self) -> Seq<Seq<EntryView>> {
        table_views(self.runs@)
    }

    /// The immutable tables, newest first: the sealed buffers, then the runs.
    pub open spec fn behind(&self) -> Seq<Seq<EntryView>> {
        self.sealed_tables() + self.run_tables()
    }

    /// The tables that a read consults, newest first: the active buffer, the
    /// sealed buffers, the runs.
    pub open spec fn layers(&self) -> Seq<Seq<EntryView>> {
        seq![self.active_table()] + self.sealed_tables() + self.run_tables()
    }

    /// The thresholds the engine was opened with.
    pub closed spec fn options(&self) -> LsmOptions {
        self.options
    }

    /// The number of sealed buffers that wait to be flushed.
    pub open spec fn sealed_count(&self) -> nat {
        self.sealed_tables().len()
    }

    /// The number of sorted runs.
    pub open spec fn run_count(&self) -> nat {
        self.run_tables().len()
    }

    /// What applying the mutation that `e` records makes of this engine:
    /// `post` holds `e` in its active buffer, or, where the write filled the
    /// buffer, in the newest sealed table behind a fresh buffer, with the
    /// oldest sealed buffer flushed if more would wait than may.
    pub open spec fn with_mutation(&self, post: &LsmEngine, e: EntryView) -> bool {
        let written = charged(self.buffered(), entry_size(e));
        let table = to_map(self.active_table()).insert(e.key, e);
        &&& post.options() == self.options()
        &&& if written >= self.options().memtable_size_threshold {
            &&& post.active_table() == Seq::<EntryView>::empty()
            &&& post.buffered() == 0
            &&& post.behind().len() == self.behind().len() + 1
            &&& sorted(post.behind()[0])
            &&& to_map(post.behind()[0]) == table
            &&& post.behind().skip(1) == self.behind()
            &&& post.sealed_count() == (if self.sealed_count() < self.options().max_sealed {
                self.sealed_count() + 1
            } else {
                self.options().max_sealed as nat
            })
        } else {
            &&& sorted(post.active_table())
            &&& to_map(post.active_table()) == table
            &&& post.buffered() == written
            &&& post.sealed_tables() == self.sealed_tables()
            &&& post.run_tables() == self.run_tables()
        }
    }

    /// The bytes written into the active buffer since it was opened.
    pub closed spec fn buffered(&self) -> nat {
        self.active.written()
    }

    /// The invariant but for the limit on sealed buffers, which a writer
    /// exceeds for a moment while it seals the active buffer.
    closed spec fn wf_tables(&self) -> bool {
        &&& self.active.wf()
        &&& all_wf(self.sealed@)
        &&& all_wf(self.runs@)
        &&& stacked(self.layers())
        &&& bounded(self.layers(), self.seq.0)
    }

    /// Two engines whose stacks read alike have the same contents.
    proof fn lemma_same_contents(&self, other: &LsmEngine)
        requires
            forall|k: Seq<u8>|
                reading(#[trigger] newest(self.layers(), k)) == reading(newest(other.layers(), k)),
        ensures
            self.contents() == other.contents(),
    {
        assert forall|k: Seq<u8>| self.contents().contains_key(k) == other.contents().contains_key(
            k,
        ) && (self.contents().contains_key(k) ==> self.contents()[k] == other.contents()[k]) by {
            assert(reading(newest(self.layers(), k)) == reading(newest(other.layers(), k)));
        }
        assert(self.contents() =~= other.contents());
    }

    /// An engine without entries, before its first mutation.
    pub fn new(options: LsmOptions) -> (e: LsmEngine)
        ensures
            e.wf(),
            e.contents() == Map::<Seq<u8>, Seq<u8>>::empty(),
            e.sequence() == 0,
            e.options() == options,
            e.active_table() == Seq::<EntryView>::empty(),
            e.sealed_tables() == Seq::<Seq<EntryView>>::empty(),
            e.run_tables() == Seq::<Seq<EntryView>>::empty(),
            e.buffered() == 0,
    {
        let e = LsmEngine {
            options,
            active: MemTable::new(),
            sealed: Vec::new(),
            runs: Vec::new(),
            seq: Sequence::zero(),
        };
        proof {
            let empty = Seq::<EntryView>::empty();
            assert(e.layers() =~= seq![empty]);
            assert forall|k: Seq<u8>| newest(e.layers(), k) is None by {
                crate::layers::lemma_single(empty, k);
            }
            assert(e.contents() =~= Map::<Seq<u8>, Seq<u8>>::empty());
            assert forall|k: Seq<u8>| lookup(empty, k) is None by {}
            assert(e.sealed_tables() =~= Seq::<Seq<EntryView>>::empty());
            assert(e.run_tables() =~= Seq::<Seq<EntryView>>::empty());
        }
        e
    }

    /// Restores an engine after a restart: loads `runs`, newest first, as
    /// they were last persisted together with the latest durable sequence,
    /// and replays the entries of the write-ahead log into a fresh buffer.
    /// Every logged mutation keeps its sequence. Fails with `Corruption`
    /// unless runs, sequence and log fit together.
    pub fn recover(options: LsmOptions, runs: Vec<Table>, durable: Sequence, log: &Vec<Entry>) -> (r:
        Result<LsmEngine>)
        ensures
            match r {
                Ok(e) => {
                    &&& recoverable(runs@, durable.0, views(log@))
                    &&& e.wf()
                    &&& e.options() == options
                    &&& e.sequence() == sequence_after(views(log@), durable.0)
                    &&& e.contents() == replay(
                        live(merged(table_views(runs@))),
                        mutations_of(views(log@)),
                    )
                },
                Err(e) => e is Corruption && !recoverable(runs@, durable.0, views(log@)),
            },
    {
        if !check_stack(&runs, durable) {
            return Err(KvError::Corruption("sorted runs do not fit together".to_string()));
        }
        let ghost rs = table_views(runs@);
        let ghost lv = views(log@);
        let ghost base = live(merged(rs));
        let mut e = LsmEngine {
            options,
            active: MemTable::new(),
            sealed: Vec::new(),
            runs,
            seq: durable,
        };
        proof {
            assert(e.layers() =~= seq![Seq::<EntryView>::empty()] + rs);
            lemma_front_empty(rs, durable.0);
            lemma_visible_is_merged(rs);
            assert(lv.take(0) =~= Seq::<EntryView>::empty());
            assert(mutations_of(lv.take(0)) =~= Seq::empty());
        }
        let n = log.len();
        let mut i: usize = 0;
        while i < n
            invariant
                i <= n,
                n == log@.len(),
                lv == views(log@),
                e.wf(),
                e.options == options,
                e.seq.0 == sequence_after(lv.take(i as int), durable.0),
                e.contents() == replay(base, mutations_of(lv.take(i as int))),
                ascending_from(lv.take(i as int), durable.0),
            decreases n - i,
        {
            let entry = log[i].clone();
            let ghost done = lv.take(i as int);
            let ghost next = lv.take(i as int + 1);
            assert(entry@ == lv[i as int]);
            proof {
                assert(next.drop_last() =~= done);
                assert(next.last() == lv[i as int]);
                assert(mutations_of(next).drop_last() =~= mutations_of(done));
                assert(mutations_of(next).last() == as_mutation(lv[i as int]));
                if i > 0 {
                    assert(done.last() == lv[i - 1]);
                }
            }
            if !entry.seq.is_newer_than(e.seq) {
                proof {
                    if ascending_from(lv, durable.0) {
                        assert(lv[i as int].seq > durable.0);
                        if i > 0 {
                            assert(lv[i - 1].seq < lv[i as int].seq);
                        }
                    }
                }
                return Err(KvError::Corruption("log sequences do not ascend".to_string()));
            }
            e.install(entry);
            proof {
                assert forall|x: int| 0 <= x < next.len() implies (#[trigger] next[x]).seq > durable.0 by {
                    if x < i {
                        assert(next[x] == done[x]);
                    }
                }
                assert forall|x: int, y: int| 0 <= x < y < next.len() implies (#[trigger] next[x]).seq < (
                #[trigger] next[y]).seq by {
                    assert(next[x] == done[x]);
                    if y < i {
                        assert(next[y] == done[y]);
                    } else if x < i - 1 {
                        assert(done[x].seq < done[i - 1].seq);
                    }
                }
            }
            i += 1;
        }
        assert(lv.take(n as int) =~= lv);
        Ok(e)
    }

    /// Applies the mutation that `e` records, at the sequence that `e`
    /// carries, and rotates the buffers if the active one is full.
    fn install(&mut self, e: Entry)
        requires
            old(self).wf(),
            e@.seq > old(self).seq.0,
        ensures
            final(self).wf(),
            final(self).contents() == apply(old(self).contents(), as_mutation(e@)),
            final(self).seq.0 == e@.seq,
            final(self).options == old(self).options,
            old(self).with_mutation(final(self), e@),
    {
        let ghost before = *self;
        let ghost rest = table_views(self.sealed@) + table_views(self.runs@);
        let ghost ev = e@;
        self.seq = e.seq;
        self.active.record(e);
        proof {
            assert(before.layers() =~= seq![before.active@] + rest);
            assert(self.layers() =~= seq![self.active@] + rest);
            lemma_stacked_front_write(before.active@, self.active@, rest, ev, before.seq.0);
            assert forall|k: Seq<u8>| newest(self.layers(), k) == (if k == ev.key {
                Some(ev)
            } else {
                newest(before.layers(), k)
            }) by {
                lemma_newest_front(before.active@, rest, k);
                lemma_newest_front(self.active@, rest, k);
                lemma_map_is_lookup(before.active@, k);
                lemma_map_is_lookup(self.active@, k);
            }
            assert(self.contents() =~= apply(before.contents(), as_mutation(ev)));
        }
        let ghost mid = *self;
        self.rotate();
        proof {
            assert(mid.behind() == before.behind());
            if mid.buffered() >= before.options.memtable_size_threshold {
                let stack = seq![mid.active_table()] + mid.behind();
                assert(self.behind() == stack);
                assert(stack[0] == mid.active_table());
                assert(stack.skip(1) =~= before.behind());
            }
        }
    }

    /// The number of sealed buffers that wait to be flushed.
    pub fn pending_flushes(&self) -> (n: usize)
        ensures
            n == self.sealed_count(),
    {
        self.sealed.len()
    }

    /// The number of sorted runs.
    pub fn runs_len(&self) -> (n: usize)
        ensures
            n == self.run_count(),
    {
        self.runs.len()
    }

    /// The bytes written into the active buffer since it was opened.
    pub fn buffered_bytes(&self) -> (n: usize)
        ensures
            n == self.buffered(),
    {
        self.active.approximate_size()
    }

    /// The number of entries in all runs together, tombstones and
    /// superseded entries included.
    pub open spec fn run_entries(&self) -> nat {
        entry_total(self.run_tables())
    }

    /// Whether compaction is due: there are at least two runs to merge, and
    /// the configured trigger is reached.
    pub fn needs_compaction(&self) -> (r: bool)
        ensures
            r == (self.run_count() >= 2 && match self.options().compaction_trigger {
                CompactionTrigger::RunCount(n) => self.run_count() >= n,
                CompactionTrigger::TotalEntries(n) => self.run_entries() >= n,
            }),
    {
        if self.runs.len() < 2 {
            return false;
        }
        match self.options.compaction_trigger {
            CompactionTrigger::RunCount(n) => self.runs.len() >= n,
            CompactionTrigger::TotalEntries(n) => holds_at_least(&self.runs, n),
        }
    }

    /// Moves the oldest sealed buffer to the front of the runs. The stack of
    /// tables stays as it is: the buffer only changes its role.
    fn flush_oldest(&mut self)
        requires
            old(self).wf_tables(),
            old(self).sealed@.len() > 0,
        ensures
            final(self).wf_tables(),
            final(self).layers() == old(self).layers(),
            final(self).seq == old(self).seq,
            final(self).options == old(self).options,
            final(self).active == old(self).active,
            final(self).sealed_tables() == old(self).sealed_tables().drop_last(),
            final(self).run_tables() == seq![old(self).sealed_tables().last()] + old(self).run_tables(),
    {
        let ghost before = self.layers();
        let ghost old_sealed = self.sealed@;
        let ghost old_runs = self.runs@;
        let t = self.sealed.pop().unwrap();
        self.runs.insert(0, t);
        proof {
            assert(self.sealed@ =~= old_sealed.drop_last());
            assert(self.runs@ =~= seq![t] + old_runs);
            assert(table_views(self.sealed@) + table_views(self.runs@) =~= table_views(old_sealed)
                + table_views(old_runs));
            assert(self.layers() =~= before);
            assert(table_views(self.sealed@) =~= table_views(old_sealed).drop_last());
            assert(table_views(self.runs@) =~= seq![table_views(old_sealed).last()] + table_views(
                old_runs,
            ));
            assert forall|i: int| 0 <= i < self.sealed@.len() implies (#[trigger] self.sealed@[i]).wf() by {
                assert(self.sealed@[i] == old_sealed[i]);
            }
            assert forall|i: int| 0 <= i < self.runs@.len() implies (#[trigger] self.runs@[i]).wf() by {
                if i > 0 {
                    assert(self.runs@[i] == old_runs[i - 1]);
                } else {
                    assert(self.runs@[i] == old_sealed[old_sealed.len() - 1]);
                }
            }
        }
    }

    /// Seals the active buffer: it becomes the newest sealed buffer, and a
    /// fresh buffer takes its place.
    fn seal_active(&mut self)
        requires
            old(self).wf_tables(),
        ensures
            final(self).wf_tables(),
            final(self).contents() == old(self).contents(),
            final(self).seq == old(self).seq,
            final(self).options == old(self).options,
            final(self).active_table() == Seq::<EntryView>::empty(),
            final(self).buffered() == 0,
            final(self).sealed_tables() == seq![old(self).active_table()] + old(self).sealed_tables(),
            final(self).run_tables() == old(self).run_tables(),
    {
        let ghost before = *self;
        let mut full = MemTable::new();
        std::mem::swap(&mut self.active, &mut full);
        let ghost old_sealed = self.sealed@;
        let t = full.seal();
        self.sealed.insert(0, t);
        proof {
            assert(self.sealed@ =~= seq![t] + old_sealed);
            assert(table_views(self.sealed@) =~= seq![t@] + table_views(old_sealed));
            assert(self.layers() =~= seq![Seq::<EntryView>::empty()] + before.layers());
            lemma_front_empty(before.layers(), self.seq.0);
            assert forall|i: int| 0 <= i < self.sealed@.len() implies (#[trigger] self.sealed@[i]).wf() by {
                if i > 0 {
                    assert(self.sealed@[i] == old_sealed[i - 1]);
                }
            }
        }
    }

    /// Seals the active buffer if it is full, and flushes sealed buffers,
    /// oldest first, until no more than the configured number wait.
    fn rotate(&mut self)
        requires
            old(self).wf_tables(),
            old(self).sealed@.len() <= old(self).options.max_sealed,
        ensures
            final(self).wf(),
            final(self).contents() == old(self).contents(),
            final(self).seq == old(self).seq,
            final(self).options == old(self).options,
            if old(self).buffered() >= old(self).options.memtable_size_threshold {
                &&& final(self).active_table() == Seq::<EntryView>::empty()
                &&& final(self).buffered() == 0
                &&& final(self).behind() == seq![old(self).active_table()] + old(self).behind()
                &&& final(self).sealed_count() == (if old(self).sealed_count() < old(
                    self,
                ).options.max_sealed {
                    old(self).sealed_count() + 1
                } else {
                    old(self).options.max_sealed as nat
                })
            } else {
                &&& final(self).active_table() == old(self).active_table()
                &&& final(self).buffered() == old(self).buffered()
                &&& final(self).sealed_tables() == old(self).sealed_tables()
                &&& final(self).run_tables() == old(self).run_tables()
            },
    {
        if self.active.is_full(self.options.memtable_size_threshold) {
            let ghost stack = seq![self.active_table()] + self.behind();
            self.seal_active();
            assert(self.behind() =~= stack);
            while self.sealed.len() > self.options.max_sealed
                invariant
                    self.wf_tables(),
                    self.contents() == old(self).contents(),
                    self.seq == old(self).seq,
                    self.options == old(self).options,
                    self.active_table() == Seq::<EntryView>::empty(),
                    self.buffered() == 0,
                    self.behind() == stack,
                    self.sealed@.len() <= old(self).sealed@.len() + 1,
                    self.sealed@.len() < old(self).sealed@.len() + 1 ==> self.sealed@.len()
                        >= self.options.max_sealed,
                decreases self.sealed@.len(),
            {
                let ghost sealed = self.sealed_tables();
                let ghost runs = self.run_tables();
                self.flush_oldest();
                assert(self.behind() =~= sealed + runs);
            }
        }
    }

    /// Flushes the oldest sealed buffer into a new run, the newest of the
    /// runs. Returns whether a buffer was waiting.
    pub fn flush(&mut self) -> (flushed: bool)
        requires
            old(self).wf(),
        ensures
            final(self).wf(),
            final(self).contents() == old(self).contents(),
            final(self).sequence() == old(self).sequence(),
            final(self).options() == old(self).options(),
            final(self).buffered() == old(self).buffered(),
            final(self).active_table() == old(self).active_table(),
            flushed == (old(self).sealed_count() > 0),
            flushed ==> final(self).sealed_tables() == old(self).sealed_tables().drop_last()
                && final(self).run_tables() == seq![old(self).sealed_tables().last()] + old(
                self,
            ).run_tables(),
            !flushed ==> final(self).sealed_tables() == old(self).sealed_tables()
                && final(self).run_tables() == old(self).run_tables(),
    {
        if self.sealed.len() > 0 {
            self.flush_oldest();
            true
        } else {
            false
        }
    }

    /// Merges the runs from position `lo` up to `hi`, counted from the newest
    /// run, into one run that takes their place. For each key the merged run
    /// keeps the entry of highest sequence. Tombstones are dropped only
    /// where the merged run is the oldest: while an older run remains, a
    /// tombstone may still have a value to shadow. Returns `false` and
    /// changes nothing unless `lo < hi` and `hi` is at most the number of
    /// runs.
    pub fn compact(&mut self, lo: usize, hi: usize) -> (done: bool)
        requires
            old(self).wf(),
        ensures
            final(self).wf(),
            final(self).contents() == old(self).contents(),
            final(self).sequence() == old(self).sequence(),
            final(self).options() == old(self).options(),
            final(self).active_table() == old(self).active_table(),
            final(self).sealed_tables() == old(self).sealed_tables(),
            final(self).buffered() == old(self).buffered(),
            done == (lo < hi && hi <= old(self).run_count()),
            done ==> {
                &&& final(self).run_count() == old(self).run_count() - (hi - lo) + 1
                &&& final(self).run_tables().take(lo as int) == old(self).run_tables().take(lo as int)
                &&& final(self).run_tables().skip(lo + 1) == old(self).run_tables().skip(hi as int)
                &&& sorted(final(self).run_tables()[lo as int])
                &&& stands_for(
                    final(self).run_tables()[lo as int],
                    old(self).run_tables().subrange(lo as int, hi as int),
                    hi == old(self).run_count(),
                )
            },
            !done ==> final(self).run_tables() == old(self).run_tables(),
    {
        if !(lo < hi && hi <= self.runs.len()) {
            return false;
        }
        let ghost before = *self;
        let ghost old_runs = self.runs@;
        let ghost front = seq![self.active@] + table_views(self.sealed@);
        let ghost a = front + table_views(old_runs.subrange(0, lo as int));
        let ghost b = table_views(old_runs.subrange(lo as int, hi as int));
        let ghost c = table_views(old_runs.subrange(hi as int, old_runs.len() as int));
        proof {
            assert(old_runs =~= old_runs.subrange(0, lo as int) + old_runs.subrange(lo as int, hi as int)
                + old_runs.subrange(hi as int, old_runs.len() as int));
            assert(table_views(old_runs) =~= table_views(old_runs.subrange(0, lo as int)) + b + c);
            assert(self.layers() =~= a + b + c);
        }
        let mut tail = self.runs.split_off(hi);
        let mid = self.runs.split_off(lo);
        assert(mid@ =~= old_runs.subrange(lo as int, hi as int));
        assert(tail@ =~= old_runs.subrange(hi as int, old_runs.len() as int));
        assert(self.runs@ =~= old_runs.subrange(0, lo as int));
        assert forall|i: int| 0 <= i < mid@.len() implies (#[trigger] mid@[i]).wf() by {
            assert(mid@[i] == old_runs[lo + i]);
        }
        let all = merge(&mid);
        let purged = tail.len() == 0;
        let run = if purged {
            all.without_tombstones()
        } else {
            all
        };
        let ghost m = run@;
        let ghost kept = self.runs@;
        let ghost old_tail = tail@;
        self.runs.push(run);
        self.runs.append(&mut tail);
        proof {
            assert(self.runs@ =~= kept + seq![run] + old_tail);
            assert(table_views(self.runs@) =~= table_views(kept) + seq![m] + table_views(old_tail));
            assert(self.layers() =~= a + seq![m] + c);
            lemma_replace_stacked(a, b, c, m, purged, self.seq.0);
            assert forall|i: int| 0 <= i < self.runs@.len() implies (#[trigger] self.runs@[i]).wf() by {
                if i < lo {
                    assert(self.runs@[i] == old_runs[i]);
                } else if i > lo {
                    assert(self.runs@[i] == old_runs[i + (hi - lo) - 1]);
                }
            }
            assert forall|k: Seq<u8>|
                reading(#[trigger] newest(self.layers(), k)) == reading(
                    newest(before.layers(), k),
                ) by {
                lemma_replace_reading(a, b, c, m, purged, k);
            }
            self.lemma_same_contents(&before);
            let after = table_views(self.runs@);
            let prior = table_views(old_runs);
            assert(after[lo as int] == m);
            assert(after.take(lo as int) =~= prior.take(lo as int));
            assert(after.skip(lo + 1) =~= prior.skip(hi as int));
            assert(prior.subrange(lo as int, hi as int) =~= b);
        }
        true
    }

    /// Merges all runs into one and drops the tombstones. Returns whether
    /// there was a run to compact.
    pub fn compact_all(&mut self) -> (done: bool)
        requires
            old(self).wf(),
        ensures
            final(self).wf(),
            final(self).contents() == old(self).contents(),
            final(self).sequence() == old(self).sequence(),
            final(self).options() == old(self).options(),
            final(self).active_table() == old(self).active_table(),
            final(self).sealed_tables() == old(self).sealed_tables(),
            final(self).buffered() == old(self).buffered(),
            done == (old(self).run_count() > 0),
            done ==> {
                &&& final(self).run_count() == 1
                &&& sorted(final(self).run_tables()[0])
                &&& to_map(final(self).run_tables()[0]) == alive(merged(old(self).run_tables()))
            },
            !done ==> final(self).run_count() == 0,
    {
        let n = self.runs.len();
        let ghost prior = self.run_tables();
        assert(prior.subrange(0, n as int) =~= prior);
        self.compact(0, n)
    }

    /// Seals the active buffer, if anything was written into it, and
    /// flushes every sealed buffer, so that all entries are in runs.
    pub fn flush_all(&mut self)
        requires
            old(self).wf(),
        ensures
            final(self).wf(),
            final(self).contents() == old(self).contents(),
            final(self).sequence() == old(self).sequence(),
            final(self).options() == old(self).options(),
            final(self).active_table() == Seq::<EntryView>::empty(),
            final(self).sealed_tables() == Seq::<Seq<EntryView>>::empty(),
            final(self).buffered() == 0,
            final(self).run_tables() == (if old(self).active_table().len() > 0 || old(self).buffered()
                > 0 {
                seq![old(self).active_table()] + old(self).behind()
            } else {
                old(self).behind()
            }),
    {
        let ghost target = if self.active_table().len() > 0 || self.buffered() > 0 {
            seq![self.active_table()] + self.behind()
        } else {
            self.behind()
        };
        if self.active.len() > 0 || self.active.approximate_size() > 0 {
            self.seal_active();
        } else {
            assert(self.active_table() =~= Seq::<EntryView>::empty());
        }
        assert(self.behind() =~= target);
        while self.sealed.len() > 0
            invariant
                self.wf_tables(),
                self.contents() == old(self).contents(),
                self.seq == old(self).seq,
                self.options == old(self).options,
                self.active_table() == Seq::<EntryView>::empty(),
                self.buffered() == 0,
                self.behind() == target,
            decreases self.sealed@.len(),
        {
            let ghost sealed = self.sealed_tables();
            let ghost runs = self.run_tables();
            self.flush_oldest();
            assert(self.behind() =~= sealed + runs);
        }
        assert(self.sealed_tables() =~= Seq::<Seq<EntryView>>::empty());
        assert(self.behind() =~= self.run_tables());
    }

    /// The sorted runs, newest first, for the caller to persist.
    pub fn runs(&self) -> (r: &Vec<Table>)
        ensures
            table_views(r@) == self.run_tables(),
            self.wf() ==> all_wf(r@),
    {
        &self.runs
    }
}

impl StorageEngine for LsmEngine {
    closed spec fn wf(&self) -> bool {
        &&& self.wf_tables()
        &&& self.sealed@.len() <= self.options.max_sealed
    }

    open spec fn contents(&self) -> Map<Seq<u8>, Seq<u8>> {
        live(visible(self.layers()))
    }

    closed spec fn sequence(&self) -> u64 {
        self.seq.0
    }

    fn last_sequence(&self) -> (s: Sequence) {
        self.seq
    }

    fn get(&self, key: &[u8]) -> (r: Result<Option<Value>>)
        ensures
            r is Ok,
    {
        let ghost sealed = table_views(self.sealed@);
        let ghost runs = table_views(self.runs@);
        proof {
            lemma_newest_concat(seq![self.active@] + sealed, runs, key@);
            lemma_newest_front(self.active@, sealed, key@);
        }
        let hit = match self.active.find(key) {
            Some(e) => Some(e),
            None => match probe(&self.sealed, key) {
                Some(e) => Some(e),
                None => probe(&self.runs, key),
            },
        };
        match hit {
            Some(e) => Ok(copy_opt_bytes(&e.value)),
            None => Ok(None),
        }
    }

    fn put(&mut self, key: Key, value: Value) -> (r: Result<()>)
        ensures
            r is Ok,
            old(self).with_mutation(
                final(self),
                EntryView { key: key@, value: Some(value@), seq: (old(self).sequence() + 1) as u64 },
            ),
    {
        let seq = self.seq.next();
        self.install(Entry::live(key, value, seq));
        Ok(())
    }

    fn delete(&mut self, key: &[u8]) -> (r: Result<()>)
        ensures
            r is Ok,
            old(self).with_mutation(
                final(self),
                EntryView { key: key@, value: None, seq: (old(self).sequence() + 1) as u64 },
            ),
    {
        let seq = self.seq.next();
        self.install(Entry::tombstone(slice_to_vec(key), seq));
        Ok(())
    }

    fn scan(&self, start: &[u8], end: &[u8]) -> (r: Result<Scan>)
        ensures
            r is Ok,
    {
        let mut parts: Vec<Table> = Vec::new();
        parts.push(self.active.range(start, end));
        gather(&self.sealed, &mut parts, start, end);
        gather(&self.runs, &mut parts, start, end);
        let all = merge(&parts);
        proof {
            let ls = self.layers();
            let ps = table_views(parts@);
            let s = self.sealed@.len() as int;
            assert forall|i: int| 0 <= i < ls.len() implies to_map(#[trigger] ps[i]) == within(
                to_map(ls[i]),
                start@,
                end@,
            ) by {
                assert(ps[i] == parts@[i]@);
                if i == 0 {
                    assert(ls[0] == self.active@);
                } else if i < 1 + s {
                    assert(ls[i] == self.sealed@[i - 1]@);
                    assert(parts@[1 + (i - 1)].map() == within(self.sealed@[i - 1].map(), start@, end@));
                } else {
                    assert(ls[i] == self.runs@[i - 1 - s]@);
                    assert(parts@[1 + s + (i - 1 - s)].map() == within(
                        self.runs@[i - 1 - s].map(),
                        start@,
                        end@,
                    ));
                }
            }
            lemma_merged_within(ps, ls, start@, end@);
            lemma_visible_is_merged(ls);
            lemma_live_pairs_scan(all@, merged(ls), start@, end@);
        }
        Ok(Scan::over(all))
    }
}

} // verus!
