//! Stacks of sorted tables, newest first, and the single table that a stack
//! stands for.
//!
//! A log-structured store answers from several tables at once: the mutable
//! buffer, buffers waiting to be flushed, and the runs on disk. Where a key
//! occurs in more than one of them, the entry with the highest sequence is
//! the current one.

use vstd::prelude::*;
use crate::entry::EntryView;
use crate::order::in_range;
use crate::sorted::{alive, lemma_lookup_at, lemma_map_is_lookup, lookup, sorted, to_map, within};

verus! {

/// The entry for `k` with the highest sequence among the tables of `ls`.
/// Where two tables hold `k` at the same sequence, the one nearer the front
/// wins.
pub open spec fn best(ls: Seq<Seq<EntryView>>, k: Seq<u8>) -> Option<EntryView>
    decreases ls.len(),
{
    if ls.len() == 0 {
        None
    } else {
        prefer(best(ls.drop_last(), k), lookup(ls.last(), k))
    }
}

/// Of an entry found earlier and one found later, the later one only where
/// its sequence is higher.
pub open spec fn prefer(earlier: Option<EntryView>, later: Option<EntryView>) -> Option<EntryView> {
    match (earlier, later) {
        (None, _) => later,
        (Some(_), None) => earlier,
        (Some(a), Some(b)) => if b.seq > a.seq {
            later
        } else {
            earlier
        },
    }
}

/// The entry for `k` in the first table of `ls` that holds `k`: what a read
/// finds that probes the tables front to back and stops at the first hit.
pub open spec fn newest(ls: Seq<Seq<EntryView>>, k: Seq<u8>) -> Option<EntryView>
    decreases ls.len(),
{
    if ls.len() == 0 {
        None
    } else {
        match newest(ls.drop_last(), k) {
            Some(e) => Some(e),
            None => lookup(ls.last(), k),
        }
    }
}

/// The single table that the stack `ls` stands for: each key with its entry
/// of highest sequence.
pub open spec fn merged(ls: Seq<Seq<EntryView>>) -> Map<Seq<u8>, EntryView> {
    Map::new(|k: Seq<u8>| best(ls, k) is Some, |k: Seq<u8>| best(ls, k)->Some_0)
}

/// Tables nearer the front hold the more recent mutations: where two tables
/// hold the same key, the one nearer the front has the higher sequence.
pub open spec fn stacked(ls: Seq<Seq<EntryView>>) -> bool {
    forall|i: int, j: int, k: Seq<u8>|
        0 <= i < j < ls.len() && (#[trigger] lookup(ls[i], k)) is Some && (#[trigger] lookup(
            ls[j],
            k,
        )) is Some ==> lookup(ls[i], k)->Some_0.seq > lookup(ls[j], k)->Some_0.seq
}

/// No entry of the stack has a sequence above `bound`.
pub open spec fn bounded(ls: Seq<Seq<EntryView>>, bound: u64) -> bool {
    forall|i: int, j: int|
        0 <= i < ls.len() && 0 <= j < ls[i].len() ==> (#[trigger] ls[i][j]).seq <= bound
}

/// The best entry for a key comes from one of the tables, and no table holds
/// the key at a higher sequence.
pub proof fn lemma_best_source(ls: Seq<Seq<EntryView>>, k: Seq<u8>) -> (i: int)
    requires
        best(ls, k) is Some,
    ensures
        0 <= i < ls.len(),
        lookup(ls[i], k) == best(ls, k),
    decreases ls.len(),
{
    let init = ls.drop_last();
    if best(ls, k) == lookup(ls.last(), k) {
        ls.len() - 1
    } else {
        let i = lemma_best_source(init, k);
        assert(init[i] == ls[i]);
        i
    }
}

/// A key that some table holds has a best entry, at a sequence at least as
/// high as in that table.
pub proof fn lemma_best_dominates(ls: Seq<Seq<EntryView>>, k: Seq<u8>, i: int)
    requires
        0 <= i < ls.len(),
        lookup(ls[i], k) is Some,
    ensures
        best(ls, k) is Some,
        best(ls, k)->Some_0.seq >= lookup(ls[i], k)->Some_0.seq,
    decreases ls.len(),
{
    let init = ls.drop_last();
    if i < ls.len() - 1 {
        assert(init[i] == ls[i]);
        lemma_best_dominates(init, k, i);
    }
}

/// A key that no table holds has no best entry.
pub proof fn lemma_best_absent(ls: Seq<Seq<EntryView>>, k: Seq<u8>)
    requires
        forall|i: int| 0 <= i < ls.len() ==> lookup(#[trigger] ls[i], k) is None,
    ensures
        best(ls, k) is None,
    decreases ls.len(),
{
    if ls.len() > 0 {
        let init = ls.drop_last();
        assert forall|i: int| 0 <= i < init.len() implies lookup(#[trigger] init[i], k) is None by {
            assert(init[i] == ls[i]);
        }
        lemma_best_absent(init, k);
        assert(lookup(ls[ls.len() - 1], k) is None);
    }
}

/// What the first hit finds comes from one of the tables, and no table
/// before it holds the key.
pub proof fn lemma_newest_source(ls: Seq<Seq<EntryView>>, k: Seq<u8>) -> (i: int)
    requires
        newest(ls, k) is Some,
    ensures
        0 <= i < ls.len(),
        lookup(ls[i], k) == newest(ls, k),
        forall|j: int| 0 <= j < i ==> lookup(#[trigger] ls[j], k) is None,
    decreases ls.len(),
{
    let init = ls.drop_last();
    if newest(init, k) is Some {
        let i = lemma_newest_source(init, k);
        assert(init[i] == ls[i]);
        assert forall|j: int| 0 <= j < i implies lookup(#[trigger] ls[j], k) is None by {
            assert(init[j] == ls[j]);
        }
        i
    } else {
        lemma_newest_none(init, k);
        assert forall|j: int| 0 <= j < ls.len() - 1 implies lookup(#[trigger] ls[j], k) is None by {
            assert(init[j] == ls[j]);
        }
        ls.len() - 1
    }
}

/// Where the first hit finds nothing, no table holds the key.
pub proof fn lemma_newest_none(ls: Seq<Seq<EntryView>>, k: Seq<u8>)
    requires
        newest(ls, k) is None,
    ensures
        forall|i: int| 0 <= i < ls.len() ==> lookup(#[trigger] ls[i], k) is None,
    decreases ls.len(),
{
    if ls.len() > 0 {
        let init = ls.drop_last();
        lemma_newest_none(init, k);
        assert forall|i: int| 0 <= i < ls.len() implies lookup(#[trigger] ls[i], k) is None by {
            if i < ls.len() - 1 {
                assert(init[i] == ls[i]);
            }
        }
    }
}

/// A stack stays stacked without its last table.
pub proof fn lemma_stacked_init(ls: Seq<Seq<EntryView>>)
    requires
        stacked(ls),
        ls.len() > 0,
    ensures
        stacked(ls.drop_last()),
{
    let init = ls.drop_last();
    assert forall|i: int, j: int, k: Seq<u8>|
        0 <= i < j < init.len() && (#[trigger] lookup(init[i], k)) is Some && (#[trigger] lookup(
            init[j],
            k,
        )) is Some implies lookup(init[i], k)->Some_0.seq > lookup(init[j], k)->Some_0.seq by {
        assert(init[i] == ls[i] && init[j] == ls[j]);
    }
}

/// In a stacked stack, the first hit is the entry of highest sequence:
/// probing front to back and merging by sequence agree.
pub proof fn lemma_best_is_newest(ls: Seq<Seq<EntryView>>, k: Seq<u8>)
    requires
        stacked(ls),
    ensures
        best(ls, k) == newest(ls, k),
    decreases ls.len(),
{
    if ls.len() > 0 {
        let init = ls.drop_last();
        lemma_stacked_init(ls);
        lemma_best_is_newest(init, k);
        if newest(init, k) is Some && lookup(ls.last(), k) is Some {
            let i = lemma_newest_source(init, k);
            assert(init[i] == ls[i]);
            assert(lookup(ls[i], k) is Some);
            assert(lookup(ls[ls.len() - 1], k) is Some);
        }
    }
}

/// Once a prefix of the stack has a hit, the whole stack has the same hit.
pub proof fn lemma_newest_prefix(ls: Seq<Seq<EntryView>>, n: int, k: Seq<u8>)
    requires
        0 <= n <= ls.len(),
        newest(ls.take(n), k) is Some,
    ensures
        newest(ls, k) == newest(ls.take(n), k),
    decreases ls.len() - n,
{
    if n < ls.len() {
        assert(ls.take(n + 1).drop_last() =~= ls.take(n));
        lemma_newest_prefix(ls, n + 1, k);
    } else {
        assert(ls.take(n) =~= ls);
    }
}

/// The first hit in two stacks laid end to end is the first hit of the front
/// stack, or else that of the back stack.
pub proof fn lemma_newest_concat(a: Seq<Seq<EntryView>>, b: Seq<Seq<EntryView>>, k: Seq<u8>)
    ensures
        newest(a + b, k) == (match newest(a, k) {
            Some(e) => Some(e),
            None => newest(b, k),
        }),
    decreases b.len(),
{
    if b.len() == 0 {
        assert(a + b =~= a);
    } else {
        assert((a + b).drop_last() =~= a + b.drop_last());
        assert((a + b).last() == b.last());
        lemma_newest_concat(a, b.drop_last(), k);
    }
}

/// Cutting every table of a stack to an interval cuts the merged table to
/// that interval.
pub proof fn lemma_merged_within(
    parts: Seq<Seq<EntryView>>,
    ls: Seq<Seq<EntryView>>,
    start: Seq<u8>,
    end: Seq<u8>,
)
    requires
        parts.len() == ls.len(),
        forall|i: int|
            0 <= i < ls.len() ==> to_map(#[trigger] parts[i]) == within(to_map(ls[i]), start, end),
    ensures
        merged(parts) == within(merged(ls), start, end),
{
    assert forall|k: Seq<u8>| best(parts, k) == (if in_range(k, start, end) {
        best(ls, k)
    } else {
        None
    }) by {
        lemma_best_within(parts, ls, start, end, k);
    }
    assert(merged(parts) =~= within(merged(ls), start, end));
}

/// For one key: the best entry among tables cut to an interval is the best
/// entry among the whole tables where the key lies in the interval, and none
/// where it does not.
pub proof fn lemma_best_within(
    parts: Seq<Seq<EntryView>>,
    ls: Seq<Seq<EntryView>>,
    start: Seq<u8>,
    end: Seq<u8>,
    k: Seq<u8>,
)
    requires
        parts.len() == ls.len(),
        forall|i: int|
            0 <= i < ls.len() ==> to_map(#[trigger] parts[i]) == within(to_map(ls[i]), start, end),
    ensures
        best(parts, k) == (if in_range(k, start, end) {
            best(ls, k)
        } else {
            None
        }),
    decreases ls.len(),
{
    if ls.len() > 0 {
        let pi = parts.drop_last();
        let li = ls.drop_last();
        assert forall|i: int| 0 <= i < li.len() implies to_map(#[trigger] pi[i]) == within(
            to_map(li[i]),
            start,
            end,
        ) by {
            assert(pi[i] == parts[i] && li[i] == ls[i]);
        }
        lemma_best_within(pi, li, start, end, k);
        let n = ls.len() - 1;
        assert(to_map(parts[n]) == within(to_map(ls[n]), start, end));
        crate::sorted::lemma_map_is_lookup(parts[n], k);
        crate::sorted::lemma_map_is_lookup(ls[n], k);
        assert(to_map(parts[n]).contains_key(k) == within(to_map(ls[n]), start, end).contains_key(k));
        if to_map(parts[n]).contains_key(k) {
            assert(to_map(parts[n])[k] == within(to_map(ls[n]), start, end)[k]);
        }
    }
}

/// What a stack shows for each key: the entry of the first table that holds
/// the key. A tombstone is an entry like any other here.
pub open spec fn visible(ls: Seq<Seq<EntryView>>) -> Map<Seq<u8>, EntryView> {
    Map::new(|k: Seq<u8>| newest(ls, k) is Some, |k: Seq<u8>| newest(ls, k)->Some_0)
}

/// What a reader sees of an entry: its value, and nothing of a tombstone or
/// of no entry at all.
pub open spec fn reading(e: Option<EntryView>) -> Option<Seq<u8>> {
    match e {
        Some(x) => x.value,
        None => None,
    }
}

/// An entry that a lookup finds is an entry of the sequence, under the key
/// that was looked up.
pub proof fn lemma_lookup_member(s: Seq<EntryView>, k: Seq<u8>) -> (i: int)
    requires
        lookup(s, k) is Some,
    ensures
        0 <= i < s.len(),
        s[i] == lookup(s, k)->Some_0,
        s[i].key == k,
{
    crate::sorted::index_of(s, k)
}

/// The first hit of a stack of one table is what a lookup finds in the table,
/// and so is its best entry.
pub proof fn lemma_single(m: Seq<EntryView>, k: Seq<u8>)
    ensures
        newest(seq![m], k) == lookup(m, k),
        best(seq![m], k) == lookup(m, k),
{
    let none = Seq::<Seq<EntryView>>::empty();
    assert(seq![m].drop_last() =~= none);
    assert(seq![m].last() == m);
    assert(newest(none, k) is None);
    assert(best(none, k) is None);
}

/// The first hit of a stack is the hit in its first table, or else the first
/// hit of the tables behind it.
pub proof fn lemma_newest_front(first: Seq<EntryView>, rest: Seq<Seq<EntryView>>, k: Seq<u8>)
    ensures
        newest(seq![first] + rest, k) == (match lookup(first, k) {
            Some(e) => Some(e),
            None => newest(rest, k),
        }),
{
    lemma_newest_concat(seq![first], rest, k);
    lemma_single(first, k);
}

/// In a stacked stack, what the stack shows is its merged table.
pub proof fn lemma_visible_is_merged(ls: Seq<Seq<EntryView>>)
    requires
        stacked(ls),
    ensures
        visible(ls) == merged(ls),
{
    assert forall|k: Seq<u8>| best(ls, k) == newest(ls, k) by {
        lemma_best_is_newest(ls, k);
    }
    assert(visible(ls) =~= merged(ls));
}

/// A contiguous part of a stacked stack is stacked.
pub proof fn lemma_stacked_part(a: Seq<Seq<EntryView>>, b: Seq<Seq<EntryView>>, c: Seq<Seq<EntryView>>)
    requires
        stacked(a + b + c),
    ensures
        stacked(b),
{
    let ls = a + b + c;
    assert forall|i: int, j: int, k: Seq<u8>|
        0 <= i < j < b.len() && (#[trigger] lookup(b[i], k)) is Some && (#[trigger] lookup(
            b[j],
            k,
        )) is Some implies lookup(b[i], k)->Some_0.seq > lookup(b[j], k)->Some_0.seq by {
        assert(ls[a.len() + i] == b[i]);
        assert(ls[a.len() + j] == b[j]);
        assert(lookup(ls[a.len() + i], k) is Some);
        assert(lookup(ls[a.len() + j], k) is Some);
    }
}

/// Writing an entry with a sequence above every other into the front table
/// keeps the stack stacked, and the new sequence bounds it.
pub proof fn lemma_stacked_front_write(
    a: Seq<EntryView>,
    a2: Seq<EntryView>,
    rest: Seq<Seq<EntryView>>,
    e: EntryView,
    bound: u64,
)
    requires
        sorted(a2),
        to_map(a2) == to_map(a).insert(e.key, e),
        stacked(seq![a] + rest),
        bounded(seq![a] + rest, bound),
        e.seq > bound,
    ensures
        stacked(seq![a2] + rest),
        bounded(seq![a2] + rest, e.seq),
{
    let old_ls = seq![a] + rest;
    let new_ls = seq![a2] + rest;
    assert forall|i: int, j: int, k: Seq<u8>|
        0 <= i < j < new_ls.len() && (#[trigger] lookup(new_ls[i], k)) is Some && (#[trigger] lookup(
            new_ls[j],
            k,
        )) is Some implies lookup(new_ls[i], k)->Some_0.seq > lookup(new_ls[j], k)->Some_0.seq by {
        assert(new_ls[j] == old_ls[j]);
        if i > 0 {
            assert(new_ls[i] == old_ls[i]);
        } else {
            lemma_map_is_lookup(a2, k);
            lemma_map_is_lookup(a, k);
            if k == e.key {
                let x = lemma_lookup_member(old_ls[j], k);
                assert(old_ls[j][x].seq <= bound);
            } else {
                assert(to_map(a).contains_key(k));
                assert(old_ls[0] == a);
                assert(lookup(old_ls[0], k) is Some);
                assert(lookup(old_ls[j], k) is Some);
            }
        }
    }
    assert forall|i: int, j: int| 0 <= i < new_ls.len() && 0 <= j < new_ls[i].len() implies (
    #[trigger] new_ls[i][j]).seq <= e.seq by {
        if i > 0 {
            assert(new_ls[i] == old_ls[i]);
            assert(old_ls[i][j].seq <= bound);
        } else {
            lemma_lookup_at(a2, j);
            let k = a2[j].key;
            if k != e.key {
                assert(to_map(a).contains_key(k));
                let x = crate::sorted::lemma_lookup_position(a, k);
                assert(old_ls[0][x].seq <= bound);
            }
        }
    }
}

/// Putting an empty table in front of a stack changes neither what it shows
/// nor that it is stacked and bounded.
pub proof fn lemma_front_empty(ls: Seq<Seq<EntryView>>, bound: u64)
    requires
        stacked(ls),
        bounded(ls, bound),
    ensures
        stacked(seq![Seq::<EntryView>::empty()] + ls),
        bounded(seq![Seq::<EntryView>::empty()] + ls, bound),
        visible(seq![Seq::<EntryView>::empty()] + ls) == visible(ls),
{
    let empty = Seq::<EntryView>::empty();
    let new_ls = seq![empty] + ls;
    assert forall|k: Seq<u8>| lookup(empty, k) is None by {}
    assert forall|i: int, j: int, k: Seq<u8>|
        0 <= i < j < new_ls.len() && (#[trigger] lookup(new_ls[i], k)) is Some && (#[trigger] lookup(
            new_ls[j],
            k,
        )) is Some implies lookup(new_ls[i], k)->Some_0.seq > lookup(new_ls[j], k)->Some_0.seq by {
        if i > 0 {
            assert(new_ls[i] == ls[i - 1] && new_ls[j] == ls[j - 1]);
            assert(lookup(ls[i - 1], k) is Some);
            assert(lookup(ls[j - 1], k) is Some);
        }
    }
    assert forall|i: int, j: int| 0 <= i < new_ls.len() && 0 <= j < new_ls[i].len() implies (
    #[trigger] new_ls[i][j]).seq <= bound by {
        if i > 0 {
            assert(new_ls[i] == ls[i - 1]);
            assert(ls[i - 1][j].seq <= bound);
        }
    }
    assert forall|k: Seq<u8>| newest(new_ls, k) == newest(ls, k) by {
        lemma_newest_front(empty, ls, k);
    }
    assert(visible(new_ls) =~= visible(ls));
}

/// `m` holds the merged entries of the stack `b`, all of them or, where
/// `purged` is set, all but the tombstones.
pub open spec fn stands_for(m: Seq<EntryView>, b: Seq<Seq<EntryView>>, purged: bool) -> bool {
    to_map(m) == (if purged {
        alive(merged(b))
    } else {
        merged(b)
    })
}

/// Replacing a contiguous part of a stacked stack by its merged table keeps
/// the stack stacked and bounded.
pub proof fn lemma_replace_stacked(
    a: Seq<Seq<EntryView>>,
    b: Seq<Seq<EntryView>>,
    c: Seq<Seq<EntryView>>,
    m: Seq<EntryView>,
    purged: bool,
    bound: u64,
)
    requires
        stacked(a + b + c),
        bounded(a + b + c, bound),
        sorted(m),
        stands_for(m, b, purged),
    ensures
        stacked(a + seq![m] + c),
        bounded(a + seq![m] + c, bound),
{
    let old_ls = a + b + c;
    let new_ls = a + seq![m] + c;
    let shift = b.len() - 1;
    // where an entry of the new stack sits in the old one
    assert forall|i: int, k: Seq<u8>| 0 <= i < new_ls.len() && lookup(new_ls[i], k) is Some implies exists|
        x: int,
    |
        0 <= x < old_ls.len() && #[trigger] lookup(old_ls[x], k) == lookup(new_ls[i], k) && (i < a.len()
            ==> x == i) && (i == a.len() ==> a.len() <= x < a.len() + b.len()) && (i > a.len() ==> x
            == i + shift) by {
        if i < a.len() {
            assert(old_ls[i] == new_ls[i]);
        } else if i == a.len() {
            lemma_map_is_lookup(m, k);
            assert(merged(b).contains_key(k));
            let y = lemma_best_source(b, k);
            assert(old_ls[a.len() + y] == b[y]);
            assert(lookup(old_ls[a.len() + y], k) == lookup(new_ls[i], k));
        } else {
            assert(old_ls[i + shift] == new_ls[i]);
        }
    }
    assert forall|i: int, j: int, k: Seq<u8>|
        0 <= i < j < new_ls.len() && (#[trigger] lookup(new_ls[i], k)) is Some && (#[trigger] lookup(
            new_ls[j],
            k,
        )) is Some implies lookup(new_ls[i], k)->Some_0.seq > lookup(new_ls[j], k)->Some_0.seq by {
        let x = choose|x: int|
            0 <= x < old_ls.len() && #[trigger] lookup(old_ls[x], k) == lookup(new_ls[i], k) && (i
                < a.len() ==> x == i) && (i == a.len() ==> a.len() <= x < a.len() + b.len()) && (i
                > a.len() ==> x == i + shift);
        let y = choose|y: int|
            0 <= y < old_ls.len() && #[trigger] lookup(old_ls[y], k) == lookup(new_ls[j], k) && (j
                < a.len() ==> y == j) && (j == a.len() ==> a.len() <= y < a.len() + b.len()) && (j
                > a.len() ==> y == j + shift);
        assert(x < y);
    }
    assert forall|i: int, j: int| 0 <= i < new_ls.len() && 0 <= j < new_ls[i].len() implies (
    #[trigger] new_ls[i][j]).seq <= bound by {
        if i < a.len() {
            assert(old_ls[i] == new_ls[i]);
            assert(old_ls[i][j].seq <= bound);
        } else if i == a.len() {
            lemma_lookup_at(m, j);
            let k = m[j].key;
            assert(merged(b).contains_key(k));
            let y = lemma_best_source(b, k);
            let x = lemma_lookup_member(b[y], k);
            assert(old_ls[a.len() + y] == b[y]);
            assert(old_ls[a.len() + y][x].seq <= bound);
        } else {
            assert(old_ls[i + shift] == new_ls[i]);
            assert(old_ls[i + shift][j].seq <= bound);
        }
    }
}

/// Replacing a contiguous part of a stacked stack by its merged table does
/// not change what a reader sees. Tombstones may be left out of the merged
/// table where no table lies behind the part.
pub proof fn lemma_replace_reading(
    a: Seq<Seq<EntryView>>,
    b: Seq<Seq<EntryView>>,
    c: Seq<Seq<EntryView>>,
    m: Seq<EntryView>,
    purged: bool,
    k: Seq<u8>,
)
    requires
        stacked(a + b + c),
        stands_for(m, b, purged),
        purged ==> c.len() == 0,
    ensures
        reading(newest(a + seq![m] + c, k)) == reading(newest(a + b + c, k)),
{
    lemma_newest_concat(a + b, c, k);
    lemma_newest_concat(a, b, k);
    lemma_newest_concat(a + seq![m], c, k);
    lemma_newest_concat(a, seq![m], k);
    lemma_single(m, k);
    lemma_stacked_part(a, b, c);
    lemma_best_is_newest(b, k);
    lemma_map_is_lookup(m, k);
}

} // verus!
