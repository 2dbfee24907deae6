//! The result of a range scan: a finite, ordered sequence of key-value pairs
//! that is produced once and consumed from the front.

use vstd::prelude::*;
use crate::entry::{EntryView, Key, Value};
use crate::order::{in_range, key_lt};
use crate::sorted::{lemma_lookup_at, lemma_lookup_position, live, sorted, to_map, within};
use crate::table::{views, Table};

verus! {

/// `s` is the scan of `m` over the half-open interval from `start` to `end`:
/// its keys ascend strictly, every pair of it is an entry of `m` inside the
/// interval, and every entry of `m` inside the interval is among its pairs.
pub open spec fn is_scan_of(
    s: Seq<(Seq<u8>, Seq<u8>)>,
    m: Map<Seq<u8>, Seq<u8>>,
    start: Seq<u8>,
    end: Seq<u8>,
) -> bool {
    &&& forall|i: int, j: int| 0 <= i < j < s.len() ==> key_lt(#[trigger] s[i].0, #[trigger] s[j].0)
    &&& forall|i: int|
        0 <= i < s.len() ==> {
            &&& in_range((#[trigger] s[i]).0, start, end)
            &&& m.contains_key(s[i].0)
            &&& m[s[i].0] == s[i].1
        }
    &&& forall|k: Seq<u8>|
        #[trigger] m.contains_key(k) && in_range(k, start, end) ==> exists|i: int|
            0 <= i < s.len() && #[trigger] s[i] == (k, m[k])
}

/// The key-value pairs of the entries of `s` that carry a value, in the
/// order of `s`.
pub open spec fn live_pairs(s: Seq<EntryView>) -> Seq<(Seq<u8>, Seq<u8>)>
    decreases s.len(),
{
    if s.len() == 0 {
        Seq::empty()
    } else {
        let rest = live_pairs(s.drop_first());
        match s[0].value {
            Some(v) => seq![(s[0].key, v)] + rest,
            None => rest,
        }
    }
}

/// The key-value pair of an entry that carries a value.
pub open spec fn pair_of(e: EntryView) -> (Seq<u8>, Seq<u8>) {
    (e.key, e.value->Some_0)
}

/// `x` is the pair of some entry of `s` that carries a value.
pub open spec fn came_from(s: Seq<EntryView>, x: (Seq<u8>, Seq<u8>)) -> bool {
    exists|j: int| 0 <= j < s.len() && (#[trigger] s[j]).value is Some && pair_of(s[j]) == x
}

/// A sorted sequence stays sorted without its first entry.
proof fn lemma_sorted_tail(s: Seq<EntryView>)
    requires
        sorted(s),
        s.len() > 0,
    ensures
        sorted(s.drop_first()),
{
    let t = s.drop_first();
    assert forall|i: int, j: int| 0 <= i < j < t.len() implies key_lt(
        #[trigger] t[i].key,
        #[trigger] t[j].key,
    ) by {
        assert(t[i] == s[i + 1] && t[j] == s[j + 1]);
    }
}

/// Every pair of `live_pairs(s)` is the pair of a live entry of `s`.
pub proof fn lemma_live_pairs_sound(s: Seq<EntryView>, i: int)
    requires
        0 <= i < live_pairs(s).len(),
    ensures
        came_from(s, live_pairs(s)[i]),
    decreases s.len(),
{
    let t = s.drop_first();
    let q = live_pairs(t);
    if s[0].value is Some && i == 0 {
        assert(s[0].value is Some && pair_of(s[0]) == live_pairs(s)[i]);
    } else {
        let qi: int = if s[0].value is Some { i - 1 } else { i };
        assert(live_pairs(s)[i] == q[qi]);
        lemma_live_pairs_sound(t, qi);
        let j = choose|j: int| 0 <= j < t.len() && (#[trigger] t[j]).value is Some && pair_of(t[j]) == q[qi];
        assert(s[j + 1] == t[j]);
    }
}

/// Every live entry of `s` has its pair in `live_pairs(s)`.
pub proof fn lemma_live_pairs_complete(s: Seq<EntryView>, j: int)
    requires
        0 <= j < s.len(),
        s[j].value is Some,
    ensures
        live_pairs(s).contains(pair_of(s[j])),
    decreases s.len(),
{
    let t = s.drop_first();
    let q = live_pairs(t);
    let p = live_pairs(s);
    if j == 0 {
        assert(p[0] == pair_of(s[0]));
    } else {
        assert(t[j - 1] == s[j]);
        lemma_live_pairs_complete(t, j - 1);
        let i = choose|i: int| 0 <= i < q.len() && q[i] == pair_of(s[j]);
        let pi: int = if s[0].value is Some { i + 1 } else { i };
        assert(p[pi] == q[i]);
    }
}

/// The keys of `live_pairs(s)` ascend strictly where those of `s` do.
pub proof fn lemma_live_pairs_sorted(s: Seq<EntryView>, i: int, j: int)
    requires
        sorted(s),
        0 <= i < j < live_pairs(s).len(),
    ensures
        key_lt(live_pairs(s)[i].0, live_pairs(s)[j].0),
    decreases s.len(),
{
    let t = s.drop_first();
    let q = live_pairs(t);
    let p = live_pairs(s);
    lemma_sorted_tail(s);
    if s[0].value is Some {
        assert(p[j] == q[j - 1]);
        if i == 0 {
            lemma_live_pairs_sound(t, j - 1);
            let x = choose|x: int|
                0 <= x < t.len() && (#[trigger] t[x]).value is Some && pair_of(t[x]) == q[j - 1];
            assert(t[x] == s[x + 1]);
            assert(key_lt(s[0].key, s[x + 1].key));
        } else {
            assert(p[i] == q[i - 1]);
            lemma_live_pairs_sorted(t, i - 1, j - 1);
        }
    } else {
        lemma_live_pairs_sorted(t, i, j);
    }
}

/// The live pairs of a sorted sequence that stands for the part of `m`
/// within an interval are the scan of the live part of `m` over it.
pub proof fn lemma_live_pairs_scan(
    s: Seq<EntryView>,
    m: Map<Seq<u8>, EntryView>,
    start: Seq<u8>,
    end: Seq<u8>,
)
    requires
        sorted(s),
        to_map(s) == within(m, start, end),
    ensures
        is_scan_of(live_pairs(s), live(m), start, end),
{
    let p = live_pairs(s);
    let lm = live(m);
    assert forall|i: int, j: int| 0 <= i < j < p.len() implies key_lt(
        #[trigger] p[i].0,
        #[trigger] p[j].0,
    ) by {
        lemma_live_pairs_sorted(s, i, j);
    }
    assert forall|i: int| 0 <= i < p.len() implies {
        &&& in_range((#[trigger] p[i]).0, start, end)
        &&& lm.contains_key(p[i].0)
        &&& lm[p[i].0] == p[i].1
    } by {
        lemma_live_pairs_sound(s, i);
        let j = choose|j: int| 0 <= j < s.len() && (#[trigger] s[j]).value is Some && pair_of(s[j]) == p[i];
        lemma_lookup_at(s, j);
        assert(within(m, start, end).contains_key(s[j].key));
    }
    assert forall|k: Seq<u8>| #[trigger] lm.contains_key(k) && in_range(k, start, end) implies exists|
        i: int,
    |
        0 <= i < p.len() && #[trigger] p[i] == (k, lm[k]) by {
        assert(within(m, start, end).contains_key(k));
        let j = lemma_lookup_position(s, k);
        assert(s[j] == m[k]);
        lemma_live_pairs_complete(s, j);
        let i = choose|i: int| 0 <= i < p.len() && p[i] == pair_of(s[j]);
        assert(p[i] == (k, lm[k]));
    }
}

/// Two scans of the same map over the same interval are the same sequence.
pub proof fn lemma_scan_determined(
    a: Seq<(Seq<u8>, Seq<u8>)>,
    b: Seq<(Seq<u8>, Seq<u8>)>,
    m: Map<Seq<u8>, Seq<u8>>,
    start: Seq<u8>,
    end: Seq<u8>,
)
    requires
        is_scan_of(a, m, start, end),
        is_scan_of(b, m, start, end),
    ensures
        a == b,
{
    let ea = Seq::new(a.len(), |i: int| EntryView { key: a[i].0, value: Some(a[i].1), seq: 0 });
    let eb = Seq::new(b.len(), |i: int| EntryView { key: b[i].0, value: Some(b[i].1), seq: 0 });
    assert(sorted(ea));
    assert(sorted(eb));
    assert forall|k: Seq<u8>| to_map(ea).contains_key(k) <==> to_map(eb).contains_key(k) by {
        if to_map(ea).contains_key(k) {
            let i = lemma_lookup_position(ea, k);
            assert(a[i].0 == k);
            assert(m.contains_key(k));
            let j = choose|j: int| 0 <= j < b.len() && #[trigger] b[j] == (k, m[k]);
            assert(eb[j].key == k);
        }
        if to_map(eb).contains_key(k) {
            let i = lemma_lookup_position(eb, k);
            assert(b[i].0 == k);
            assert(m.contains_key(k));
            let j = choose|j: int| 0 <= j < a.len() && #[trigger] a[j] == (k, m[k]);
            assert(ea[j].key == k);
        }
    }
    assert forall|k: Seq<u8>| to_map(ea).contains_key(k) implies to_map(ea)[k] == to_map(eb)[k] by {
        let i = lemma_lookup_position(ea, k);
        let j = lemma_lookup_position(eb, k);
        assert(a[i].0 == k && b[j].0 == k);
    }
    assert(to_map(ea) =~= to_map(eb));
    crate::sorted::lemma_sorted_determined(ea, eb);
    assert(a.len() == b.len());
    assert forall|i: int| 0 <= i < a.len() implies a[i] == b[i] by {
        assert(ea[i] == eb[i]);
    }
    assert(a =~= b);
}

/// The mathematical value of a key-value pair.
pub open spec fn pair_view(p: (Key, Value)) -> (Seq<u8>, Seq<u8>) {
    (p.0@, p.1@)
}

/// The pairs of a range scan that have not been taken yet, in ascending key
/// order. A scan owns its pairs: it is a snapshot that later mutations of the
/// engine do not touch.
#[derive(Debug)]
pub struct Scan {
    /// The pairs still to come, the next one last.
    rest: Vec<(Key, Value)>,
}

impl View for Scan {
    type V = Seq<(Seq<u8>, Seq<u8>)>;

    closed spec fn view(&self) -> Seq<(Seq<u8>, Seq<u8>)> {
        Seq::new(self.rest@.len(), |i: int| pair_view(self.rest@[self.rest@.len() - 1 - i]))
    }
}

impl Scan {
    /// A scan that yields nothing.
    pub fn empty() -> (s: Scan)
        ensures
            s@ == Seq::<(Seq<u8>, Seq<u8>)>::empty(),
    {
        let s = Scan { rest: Vec::new() };
        assert(s@ =~= Seq::<(Seq<u8>, Seq<u8>)>::empty());
        s
    }

    /// A scan over the entries of `table` that carry a value; tombstones are
    /// left out.
    pub fn over(table: Table) -> (s: Scan)
        ensures
            s@ == live_pairs(table@),
    {
        let ghost all = table@;
        let mut entries = table.into_entries();
        let mut rest: Vec<(Key, Value)> = Vec::new();
        let mut out = Scan { rest };
        assert(out@ =~= live_pairs(all.skip(all.len() as int))) by {
            assert(all.skip(all.len() as int).len() == 0);
        }
        while entries.len() > 0
            invariant
                views(entries@) == all.take(entries@.len() as int),
                entries@.len() <= all.len(),
                out@ == live_pairs(all.skip(entries@.len() as int)),
            decreases entries@.len(),
        {
            let ghost n = entries@.len() as int;
            let ghost before = out@;
            assert(views(entries@)[n - 1] == entries@[n - 1]@);
            let e = entries.pop().unwrap();
            assert(e@ == all[n - 1]);
            assert(views(entries@) =~= all.take(n - 1));
            proof {
                let tail = all.skip(n - 1);
                assert(tail[0] == all[n - 1]);
                assert(tail.drop_first() =~= all.skip(n));
            }
            match e.value {
                Some(v) => {
                    let ghost old_rest = out.rest@;
                    out.rest.push((e.key, v));
                    assert(out@ =~= seq![(e@.key, v@)] + before) by {
                        assert(out.rest@ == old_rest.push((e.key, v)));
                        assert forall|i: int| 1 <= i < out@.len() implies out@[i] == before[i - 1] by {
                            assert(out.rest@[out.rest@.len() - 1 - i] == old_rest[old_rest.len() - 1 - (i
                                - 1)]);
                        }
                    }
                },
                None => {},
            }
        }
        assert(all.skip(0) =~= all);
        out
    }

    /// The number of pairs still to come.
    pub fn remaining(&self) -> (n: usize)
        ensures
            n == self@.len(),
    {
        self.rest.len()
    }

    /// Takes the next pair, the one with the least key, or returns `None`
    /// once the scan is exhausted.
    pub fn next(&mut self) -> (r: Option<(Key, Value)>)
        ensures
            match r {
                Some(p) => old(self)@.len() > 0 && pair_view(p) == old(self)@[0] && final(self)@
                    == old(self)@.drop_first(),
                None => old(self)@.len() == 0 && final(self)@ == old(self)@,
            },
    {
        let ghost before = self@;
        let ghost old_rest = self.rest@;
        let r = self.rest.pop();
        proof {
            if r is Some {
                assert(self.rest@ == old_rest.drop_last());
                assert(self@ =~= before.drop_first());
            } else {
                assert(self@ =~= before);
            }
        }
        r
    }

    /// Takes all the pairs still to come, in ascending key order.
    pub fn collect(self) -> (v: Vec<(Key, Value)>)
        ensures
            v@.map_values(|p: (Key, Value)| pair_view(p)) == self@,
    {
        let ghost all = self@;
        let mut s = self;
        let mut v: Vec<(Key, Value)> = Vec::new();
        while s.rest.len() > 0
            invariant
                v@.map_values(|p: (Key, Value)| pair_view(p)) + s@ == all,
            decreases s@.len(),
        {
            let ghost before = s@;
            let ghost done = v@.map_values(|p: (Key, Value)| pair_view(p));
            let r = s.next();
            let p = r.unwrap();
            v.push(p);
            assert(v@.map_values(|p: (Key, Value)| pair_view(p)) =~= done.push(before[0]));
            assert(done.push(before[0]) + before.drop_first() =~= done + before);
        }
        assert(v@.map_values(|p: (Key, Value)| pair_view(p)) + s@ =~= v@.map_values(
            |p: (Key, Value)| pair_view(p),
        ));
        v
    }
}

} // verus!
