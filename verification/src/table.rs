//! An ordered table of entries: the in-memory structure behind every engine.
//!
//! A table keeps at most one entry per key, in strictly ascending key order,
//! so that point lookups are binary searches and range scans are contiguous
//! slices.

use vstd::prelude::*;
use crate::entry::{Entry, EntryView, Sequence};
use crate::order::{
    compare_keys, in_range, key_le, key_less, key_lt, lemma_empty_interval,
    lemma_le_lt_transitive, lemma_lt_asymmetric, lemma_lt_total, lemma_lt_transitive, KeyOrder,
};
use crate::sorted::{
    alive, lemma_absent_at, lemma_empty_map, lemma_insert_at, lemma_lookup_at, lemma_remove_at,
    lemma_replace_at, lemma_subrange_within, lookup, newer_than, sorted, to_map, within,
};

verus! {

/// The mathematical values of a sequence of entries.
pub open spec fn views(v: Seq<Entry>) -> Seq<EntryView> {
    v.map_values(|e: Entry| e@)
}

/// Whether the keys of `entries` ascend strictly.
fn ascending(entries: &Vec<Entry>) -> (r: bool)
    ensures
        r == sorted(views(entries@)),
{
    let ghost s = views(entries@);
    let n = entries.len();
    if n == 0 {
        return true;
    }
    let mut i: usize = 1;
    while i < n
        invariant
            1 <= i <= n,
            n == entries@.len(),
            s == views(entries@),
            forall|x: int, y: int| 0 <= x < y < i ==> key_lt(#[trigger] s[x].key, #[trigger] s[y].key),
        decreases n - i,
    {
        assert(s[i - 1] == entries@[i - 1]@);
        assert(s[i as int] == entries@[i as int]@);
        if !key_less(entries[i - 1].key.as_slice(), entries[i].key.as_slice()) {
            assert(s.len() == n);
            assert(!key_lt(s[i - 1].key, s[i as int].key));
            return false;
        }
        assert forall|x: int, y: int| 0 <= x < y < i + 1 implies key_lt(
            #[trigger] s[x].key,
            #[trigger] s[y].key,
        ) by {
            if y == i && x < i - 1 {
                lemma_lt_transitive(s[x].key, s[i - 1].key, s[i as int].key);
            }
        }
        i += 1;
    }
    true
}

/// Entries in strictly ascending key order, one per key.
#[derive(Debug)]
pub struct Table {
    entries: Vec<Entry>,
}

impl View for Table {
    type V = Seq<EntryView>;

    closed spec fn view(&self) -> Seq<EntryView> {
        views(self.entries@)
    }
}

impl Table {
    /// The table's invariant: its entries ascend strictly by key.
    pub open spec fn wf(&self) -> bool {
        sorted(self@)
    }

    /// The table as a map from each key to its entry.
    pub open spec fn map(&self) -> Map<Seq<u8>, EntryView> {
        to_map(self@)
    }

    /// A table without entries.
    pub fn new() -> (t: Table)
        ensures
            t.wf(),
            t@ == Seq::<EntryView>::empty(),
            t.map() == Map::<Seq<u8>, EntryView>::empty(),
    {
        let t = Table { entries: Vec::new() };
        proof {
            lemma_empty_map();
            assert(t@ =~= Seq::<EntryView>::empty());
        }
        t
    }

    /// Makes a table of `entries` if their keys ascend strictly, and gives
    /// `None` if they do not.
    pub fn from_entries(entries: Vec<Entry>) -> (r: Option<Table>)
        ensures
            r is Some <==> sorted(views(entries@)),
            r matches Some(t) ==> t@ == views(entries@) && t.wf(),
    {
        if ascending(&entries) {
            Some(Table { entries })
        } else {
            None
        }
    }

    /// Whether the table keeps its invariant.
    pub fn is_sorted(&self) -> (r: bool)
        ensures
            r == self.wf(),
    {
        ascending(&self.entries)
    }

    /// Whether no entry of the table has a sequence above `bound`.
    pub fn sequences_at_most(&self, bound: Sequence) -> (r: bool)
        ensures
            r == (forall|j: int| 0 <= j < self@.len() ==> (#[trigger] self@[j]).seq <= bound.0),
    {
        let n = self.entries.len();
        let mut i: usize = 0;
        while i < n
            invariant
                i <= n,
                n == self.entries@.len(),
                n == self@.len(),
                forall|j: int| 0 <= j < i ==> (#[trigger] self@[j]).seq <= bound.0,
            decreases n - i,
        {
            assert(self.entries@[i as int]@ == self@[i as int]);
            if self.entries[i].seq.0 > bound.0 {
                return false;
            }
            i += 1;
        }
        true
    }

    /// Whether this table holds every key that it shares with `older` at a
    /// higher sequence.
    pub fn is_newer_than(&self, older: &Table) -> (r: bool)
        requires
            self.wf(),
            older.wf(),
        ensures
            r == newer_than(self@, older@),
    {
        let n = self.entries.len();
        let mut i: usize = 0;
        while i < n
            invariant
                i <= n,
                n == self.entries@.len(),
                n == self@.len(),
                self.wf(),
                older.wf(),
                forall|j: int|
                    0 <= j < i && lookup(older@, (#[trigger] self@[j]).key) is Some ==> self@[j].seq
                        > lookup(older@, self@[j].key)->Some_0.seq,
            decreases n - i,
        {
            assert(self.entries@[i as int]@ == self@[i as int]);
            let e = &self.entries[i];
            match older.find(e.key.as_slice()) {
                Some(o) => {
                    if !e.seq.is_newer_than(o.seq) {
                        proof {
                            lemma_lookup_at(self@, i as int);
                        }
                        return false;
                    }
                },
                None => {},
            }
            i += 1;
        }
        proof {
            assert forall|k: Seq<u8>| (#[trigger] lookup(self@, k)) is Some && (#[trigger] lookup(
                older@,
                k,
            )) is Some implies lookup(self@, k)->Some_0.seq > lookup(older@, k)->Some_0.seq by {
                let j = crate::sorted::index_of(self@, k);
                assert(self@[j].key == k);
            }
        }
        true
    }

    /// The least key of the table, if it has an entry.
    pub fn first_key(&self) -> (r: Option<&Vec<u8>>)
        ensures
            match r {
                Some(k) => self@.len() > 0 && k@ == self@[0].key,
                None => self@.len() == 0,
            },
    {
        if self.entries.len() == 0 {
            None
        } else {
            assert(self.entries@[0]@ == self@[0]);
            Some(&self.entries[0].key)
        }
    }

    /// The greatest key of the table, if it has an entry.
    pub fn last_key(&self) -> (r: Option<&Vec<u8>>)
        ensures
            match r {
                Some(k) => self@.len() > 0 && k@ == self@.last().key,
                None => self@.len() == 0,
            },
    {
        let n = self.entries.len();
        if n == 0 {
            None
        } else {
            assert(self.entries@[n - 1]@ == self@[n - 1]);
            Some(&self.entries[n - 1].key)
        }
    }

    /// The number of entries.
    pub fn len(&self) -> (n: usize)
        ensures
            n == self@.len(),
    {
        self.entries.len()
    }

    /// Whether the table holds no entry.
    pub fn is_empty(&self) -> (r: bool)
        ensures
            r == (self@.len() == 0),
    {
        self.entries.len() == 0
    }

    /// The entry at position `i` in ascending key order.
    pub fn entry(&self, i: usize) -> (e: &Entry)
        requires
            i < self@.len(),
        ensures
            e@ == self@[i as int],
    {
        &self.entries[i]
    }

    /// The position of the first entry whose key is not below `key`, or the
    /// number of entries if every key is below it.
    pub fn lower_bound(&self, key: &[u8]) -> (p: usize)
        requires
            self.wf(),
        ensures
            p <= self@.len(),
            forall|j: int| 0 <= j < p ==> key_lt(#[trigger] self@[j].key, key@),
            forall|j: int| p <= j < self@.len() ==> key_le(key@, #[trigger] self@[j].key),
    {
        let mut lo: usize = 0;
        let mut hi: usize = self.entries.len();
        while lo < hi
            invariant
                self.wf(),
                lo <= hi <= self@.len(),
                self@.len() == self.entries@.len(),
                forall|j: int| 0 <= j < lo ==> key_lt(#[trigger] self@[j].key, key@),
                forall|j: int| hi <= j < self@.len() ==> key_le(key@, #[trigger] self@[j].key),
            decreases hi - lo,
        {
            let mid: usize = lo + (hi - lo) / 2;
            let ghost pivot = self@[mid as int].key;
            assert(self.entries@[mid as int]@ == self@[mid as int]);
            if key_less(self.entries[mid].key.as_slice(), key) {
                assert forall|j: int| 0 <= j < mid + 1 implies key_lt(
                    #[trigger] self@[j].key,
                    key@,
                ) by {
                    if j < mid {
                        lemma_lt_transitive(self@[j].key, pivot, key@);
                    }
                }
                lo = mid + 1;
            } else {
                assert forall|j: int| mid <= j < self@.len() implies key_le(
                    key@,
                    #[trigger] self@[j].key,
                ) by {
                    if j > mid && key_lt(self@[j].key, key@) {
                        lemma_lt_transitive(pivot, self@[j].key, key@);
                    }
                }
                hi = mid;
            }
        }
        lo
    }

    /// The entry stored under `key`, if there is one.
    pub fn find(&self, key: &[u8]) -> (r: Option<&Entry>)
        requires
            self.wf(),
        ensures
            match r {
                Some(e) => lookup(self@, key@) == Some(e@),
                None => lookup(self@, key@) is None,
            },
            r is Some <==> self.map().contains_key(key@),
            r matches Some(e) ==> self.map()[key@] == e@,
    {
        let p = self.lower_bound(key);
        if p < self.entries.len() {
            assert(self.entries@[p as int]@ == self@[p as int]);
            match compare_keys(self.entries[p].key.as_slice(), key) {
                KeyOrder::Equal => {
                    proof {
                        lemma_lookup_at(self@, p as int);
                    }
                    return Some(&self.entries[p]);
                },
                _ => {},
            }
        }
        proof {
            self.lemma_gap(p as int, key@);
        }
        None
    }

    /// Where `lower_bound` stops short of `key`, the table does not hold it.
    proof fn lemma_gap(&self, p: int, key: Seq<u8>)
        requires
            self.wf(),
            0 <= p <= self@.len(),
            forall|j: int| 0 <= j < p ==> key_lt(#[trigger] self@[j].key, key),
            forall|j: int| p <= j < self@.len() ==> key_le(key, #[trigger] self@[j].key),
            p < self@.len() ==> self@[p].key != key,
        ensures
            forall|j: int| p <= j < self@.len() ==> key_lt(key, #[trigger] self@[j].key),
            lookup(self@, key) is None,
            !self.map().contains_key(key),
    {
        assert forall|j: int| p <= j < self@.len() implies key_lt(key, #[trigger] self@[j].key) by {
            lemma_lt_total(key, self@[p].key);
            if j > p {
                lemma_lt_transitive(key, self@[p].key, self@[j].key);
            }
        }
        lemma_absent_at(self@, p, key);
    }

    /// Stores `e` under its key, replacing the entry that was there.
    pub fn upsert(&mut self, e: Entry)
        requires
            old(self).wf(),
        ensures
            final(self).wf(),
            final(self).map() == old(self).map().insert(e@.key, e@),
            final(self)@.len() == old(self)@.len() + (if old(self).map().contains_key(e@.key) {
                0int
            } else {
                1int
            }),
    {
        let p = self.lower_bound(e.key.as_slice());
        let ghost before = self@;
        let mut found = false;
        if p < self.entries.len() {
            assert(self.entries@[p as int]@ == self@[p as int]);
            found = match compare_keys(self.entries[p].key.as_slice(), e.key.as_slice()) {
                KeyOrder::Equal => true,
                _ => false,
            };
        }
        if found {
            proof {
                lemma_replace_at(before, p as int, e@);
                lemma_lookup_at(before, p as int);
            }
            self.entries.set(p, e);
            assert(self@ =~= before.update(p as int, e@));
        } else {
            proof {
                self.lemma_gap(p as int, e@.key);
                lemma_insert_at(before, p as int, e@);
            }
            self.entries.insert(p, e);
            assert(self@ =~= before.insert(p as int, e@));
        }
    }

    /// Takes the entry stored under `key` out of the table and returns it.
    pub fn remove(&mut self, key: &[u8]) -> (r: Option<Entry>)
        requires
            old(self).wf(),
        ensures
            final(self).wf(),
            final(self).map() == old(self).map().remove(key@),
            match r {
                Some(e) => lookup(old(self)@, key@) == Some(e@),
                None => lookup(old(self)@, key@) is None && final(self)@ == old(self)@,
            },
    {
        let p = self.lower_bound(key);
        let ghost before = self@;
        if p < self.entries.len() {
            assert(self.entries@[p as int]@ == self@[p as int]);
            match compare_keys(self.entries[p].key.as_slice(), key) {
                KeyOrder::Equal => {
                    proof {
                        lemma_lookup_at(before, p as int);
                        lemma_remove_at(before, p as int);
                    }
                    let e = self.entries.remove(p);
                    assert(self@ =~= before.remove(p as int));
                    return Some(e);
                },
                _ => {},
            }
        }
        proof {
            self.lemma_gap(p as int, key@);
            assert(self.map() =~= self.map().remove(key@));
        }
        None
    }

    /// Gives up the table for its entries, in ascending key order.
    pub fn into_entries(self) -> (v: Vec<Entry>)
        ensures
            views(v@) == self@,
    {
        self.entries
    }

    /// Appends `e`, whose key must be above every key in the table.
    pub fn push_last(&mut self, e: Entry)
        requires
            old(self).wf(),
            forall|j: int| 0 <= j < old(self)@.len() ==> key_lt(#[trigger] old(self)@[j].key, e@.key),
        ensures
            final(self).wf(),
            final(self)@ == old(self)@.push(e@),
            final(self).map() == old(self).map().insert(e@.key, e@),
    {
        let ghost before = self@;
        proof {
            lemma_insert_at(before, before.len() as int, e@);
            assert(before.insert(before.len() as int, e@) =~= before.push(e@));
        }
        self.entries.push(e);
        assert(self@ =~= before.push(e@));
    }

    /// A copy of the entries whose keys lie between `start` (inclusive) and
    /// `end` (exclusive), in ascending order.
    pub fn range(&self, start: &[u8], end: &[u8]) -> (r: Table)
        requires
            self.wf(),
        ensures
            r.wf(),
            r.map() == within(self.map(), start@, end@),
    {
        let lo = self.lower_bound(start);
        let hi = self.lower_bound(end);
        let mut out = Table { entries: Vec::new() };
        if hi <= lo {
            proof {
                lemma_empty_map();
                assert(out@ =~= Seq::<EntryView>::empty());
                if hi < lo {
                    self.lemma_crossed(hi as int, lo as int, start@, end@);
                    lemma_lt_asymmetric(end@, start@);
                    assert forall|k: Seq<u8>| !in_range(k, start@, end@) by {
                        lemma_empty_interval(k, start@, end@);
                    }
                    assert(within(self.map(), start@, end@) =~= Map::<Seq<u8>, EntryView>::empty());
                } else {
                    lemma_subrange_within(self@, lo as int, hi as int, start@, end@);
                    assert(self@.subrange(lo as int, hi as int) =~= Seq::<EntryView>::empty());
                }
            }
            return out;
        }
        proof {
            lemma_subrange_within(self@, lo as int, hi as int, start@, end@);
            assert(out@ =~= self@.subrange(lo as int, lo as int));
        }
        let mut i: usize = lo;
        while i < hi
            invariant
                lo <= i <= hi <= self.entries@.len(),
                self@.len() == self.entries@.len(),
                out@ == self@.subrange(lo as int, i as int),
            decreases hi - i,
        {
            let c = self.entries[i].clone();
            assert(self.entries@[i as int]@ == self@[i as int]);
            let ghost prev = out.entries@;
            out.entries.push(c);
            assert(out@ =~= self@.subrange(lo as int, i as int + 1)) by {
                assert(out.entries@ == prev.push(c));
                assert(views(prev) == self@.subrange(lo as int, i as int));
                assert(views(prev).len() == prev.len());
                assert(out@.len() == out.entries@.len());
                assert forall|j: int| 0 <= j < out@.len() implies out@[j] == self@.subrange(
                    lo as int,
                    i as int + 1,
                )[j] by {
                    if j < prev.len() {
                        assert(out.entries@[j] == prev[j]);
                        assert(views(prev)[j] == prev[j]@);
                    }
                }
            }
            i += 1;
        }
        out
    }

    /// A copy of the table without its tombstones.
    pub fn without_tombstones(&self) -> (r: Table)
        requires
            self.wf(),
        ensures
            r.wf(),
            r.map() == alive(self.map()),
    {
        let mut out = Table::new();
        let n = self.entries.len();
        let mut i: usize = 0;
        proof {
            assert(self@.take(0) =~= Seq::<EntryView>::empty());
            lemma_empty_map();
            assert(alive(to_map(self@.take(0))) =~= Map::<Seq<u8>, EntryView>::empty());
        }
        while i < n
            invariant
                i <= n,
                n == self.entries@.len(),
                n == self@.len(),
                self.wf(),
                out.wf(),
                out.map() == alive(to_map(self@.take(i as int))),
            decreases n - i,
        {
            let ghost seen = self@.take(i as int);
            let ghost e = self@[i as int];
            assert(self.entries@[i as int]@ == e);
            proof {
                assert forall|x: int, y: int| 0 <= x < y < seen.len() implies key_lt(
                    #[trigger] seen[x].key,
                    #[trigger] seen[y].key,
                ) by {
                    assert(seen[x] == self@[x] && seen[y] == self@[y]);
                }
                assert forall|j: int| 0 <= j < seen.len() implies key_lt(#[trigger] seen[j].key, e.key) by {
                    assert(seen[j] == self@[j]);
                }
                lemma_insert_at(seen, i as int, e);
                lemma_absent_at(seen, i as int, e.key);
                assert(seen.insert(i as int, e) =~= self@.take(i as int + 1));
                assert forall|x: int| 0 <= x < out@.len() implies key_lt(
                    #[trigger] out@[x].key,
                    e.key,
                ) by {
                    lemma_lookup_at(out@, x);
                    assert(to_map(seen).contains_key(out@[x].key));
                    let j = crate::sorted::lemma_lookup_position(seen, out@[x].key);
                }
            }
            if !self.entries[i].is_tombstone() {
                out.push_last(self.entries[i].clone());
                assert(out.map() =~= alive(to_map(self@.take(i as int + 1))));
            } else {
                assert(out.map() =~= alive(to_map(self@.take(i as int + 1))));
            }
            i += 1;
        }
        assert(self@.take(n as int) =~= self@);
        out
    }

    /// What holds when the lower bound of `end` lies before that of `start`.
    proof fn lemma_crossed(&self, hi: int, lo: int, start: Seq<u8>, end: Seq<u8>)
        requires
            self.wf(),
            0 <= hi < lo <= self@.len(),
            forall|j: int| 0 <= j < lo ==> key_lt(#[trigger] self@[j].key, start),
            forall|j: int| hi <= j < self@.len() ==> key_le(end, #[trigger] self@[j].key),
        ensures
            key_lt(end, start),
    {
        let k = self@[hi].key;
        assert(key_lt(k, start));
        assert(key_le(end, k));
        lemma_le_lt_transitive(end, k, start);
    }
}

} // verus!
