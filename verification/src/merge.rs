//! The k-way merge of sorted tables: one pass over all inputs at once that
//! yields, in ascending key order, the entry of highest sequence for each
//! key. Compaction and range scans over several tables both rest on it.

use vstd::prelude::*;
use crate::entry::EntryView;
use crate::layers::{best, lemma_best_source, merged};
use crate::order::{
    key_equal, key_le, key_less, key_lt, lemma_lt_irreflexive, lemma_lt_total,
    lemma_lt_transitive,
};
use crate::sorted::{
    has_key, lemma_absent_at, lemma_lookup_at, lemma_lookup_position, lookup, sorted, to_map,
};
use crate::table::Table;

verus! {

/// The mathematical values of a sequence of tables.
pub open spec fn table_views(ts: Seq<Table>) -> Seq<Seq<EntryView>> {
    ts.map_values(|t: Table| t@)
}

/// Every table of `ts` keeps its invariant.
pub open spec fn all_wf(ts: Seq<Table>) -> bool {
    forall|i: int| 0 <= i < ts.len() ==> (#[trigger] ts[i]).wf()
}

/// There is one cursor per table, none past its table's end.
spec fn cursors_ok(ls: Seq<Seq<EntryView>>, pos: Seq<usize>) -> bool {
    &&& pos.len() == ls.len()
    &&& forall|i: int| 0 <= i < ls.len() ==> #[trigger] pos[i] <= ls[i].len()
}

/// The cursor of table `i` has not reached the table's end.
spec fn has_head(ls: Seq<Seq<EntryView>>, pos: Seq<usize>, i: int) -> bool {
    0 <= i < ls.len() && pos[i] < ls[i].len()
}

/// The entry under the cursor of table `i`.
spec fn head(ls: Seq<Seq<EntryView>>, pos: Seq<usize>, i: int) -> EntryView {
    ls[i][pos[i] as int]
}

/// Every entry that a cursor has passed has a key below `m`.
spec fn passed_below(ls: Seq<Seq<EntryView>>, pos: Seq<usize>, m: Seq<u8>) -> bool {
    forall|i: int, j: int| 0 <= i < ls.len() && 0 <= j < pos[i] ==> key_lt((#[trigger] ls[i][j]).key, m)
}

/// No head has a key below `m`.
spec fn heads_not_below(ls: Seq<Seq<EntryView>>, pos: Seq<usize>, m: Seq<u8>) -> bool {
    forall|i: int| has_head(ls, pos, i) ==> key_le(m, (#[trigger] head(ls, pos, i)).key)
}

/// The entries that the cursors have yet to pass, counted over all tables.
spec fn remaining(ls: Seq<Seq<EntryView>>, pos: Seq<usize>) -> int
    decreases ls.len(),
{
    if ls.len() == 0 {
        0
    } else {
        remaining(ls.drop_last(), pos.drop_last()) + (ls.last().len() - pos.last())
    }
}

proof fn lemma_remaining_nonnegative(ls: Seq<Seq<EntryView>>, pos: Seq<usize>)
    requires
        cursors_ok(ls, pos),
    ensures
        remaining(ls, pos) >= 0,
    decreases ls.len(),
{
    if ls.len() > 0 {
        assert(pos[ls.len() - 1] <= ls[ls.len() - 1].len());
        assert forall|i: int| 0 <= i < ls.drop_last().len() implies #[trigger] pos.drop_last()[i]
            <= ls.drop_last()[i].len() by {
            assert(pos[i] <= ls[i].len());
        }
        lemma_remaining_nonnegative(ls.drop_last(), pos.drop_last());
    }
}

/// Moving cursors forward, one of them for real, leaves fewer entries to
/// pass.
proof fn lemma_remaining_shrinks(
    ls: Seq<Seq<EntryView>>,
    before: Seq<usize>,
    after: Seq<usize>,
    p: int,
)
    requires
        before.len() == ls.len(),
        after.len() == ls.len(),
        forall|i: int| 0 <= i < ls.len() ==> #[trigger] before[i] <= after[i],
        0 <= p < ls.len(),
        before[p] < after[p],
    ensures
        remaining(ls, after) < remaining(ls, before),
    decreases ls.len(),
{
    let n = ls.len() - 1;
    assert(before[n] <= after[n]);
    if p < n {
        assert forall|i: int| 0 <= i < n implies #[trigger] before.drop_last()[i] <= after.drop_last()[i] by {
            assert(before[i] <= after[i]);
        }
        lemma_remaining_shrinks(ls.drop_last(), before.drop_last(), after.drop_last(), p);
    } else {
        lemma_remaining_monotone(ls.drop_last(), before.drop_last(), after.drop_last());
    }
}

proof fn lemma_remaining_monotone(ls: Seq<Seq<EntryView>>, before: Seq<usize>, after: Seq<usize>)
    requires
        before.len() == ls.len(),
        after.len() == ls.len(),
        forall|i: int| 0 <= i < ls.len() ==> #[trigger] before[i] <= after[i],
    ensures
        remaining(ls, after) <= remaining(ls, before),
    decreases ls.len(),
{
    if ls.len() > 0 {
        let n = ls.len() - 1;
        assert(before[n] <= after[n]);
        assert forall|i: int| 0 <= i < n implies #[trigger] before.drop_last()[i] <= after.drop_last()[i] by {
            assert(before[i] <= after[i]);
        }
        lemma_remaining_monotone(ls.drop_last(), before.drop_last(), after.drop_last());
    }
}

/// Where the entries before a cursor are below `m` and the entry under it is
/// not, the table holds `m` exactly if the entry under the cursor has it.
proof fn lemma_head_lookup(l: Seq<EntryView>, p: int, m: Seq<u8>)
    requires
        sorted(l),
        0 <= p <= l.len(),
        forall|j: int| 0 <= j < p ==> key_lt((#[trigger] l[j]).key, m),
        p < l.len() ==> key_le(m, l[p].key),
    ensures
        lookup(l, m) == (if p < l.len() && l[p].key == m {
            Some(l[p])
        } else {
            None
        }),
{
    if p < l.len() && l[p].key == m {
        lemma_lookup_at(l, p);
    } else {
        assert forall|j: int| p <= j < l.len() implies key_lt(m, #[trigger] l[j].key) by {
            lemma_lt_total(m, l[p].key);
            if j > p {
                lemma_lt_transitive(m, l[p].key, l[j].key);
            }
        }
        assert forall|j: int| 0 <= j < p implies key_lt(#[trigger] l[j].key, m) by {
            assert(key_lt(l[j].key, m));
        }
        lemma_absent_at(l, p, m);
    }
}

/// The table whose head has the least key, the first of them where several
/// share it; `None` once every cursor is at its table's end.
fn least_head(tables: &Vec<Table>, pos: &Vec<usize>) -> (r: Option<usize>)
    requires
        cursors_ok(table_views(tables@), pos@),
    ensures
        match r {
            None => forall|i: int| 0 <= i < tables@.len() ==> #[trigger] pos@[i] == tables@[i]@.len(),
            Some(p) => has_head(table_views(tables@), pos@, p as int) && heads_not_below(
                table_views(tables@),
                pos@,
                head(table_views(tables@), pos@, p as int).key,
            ),
        },
{
    let ghost ls = table_views(tables@);
    let n = tables.len();
    let mut pick: Option<usize> = None;
    let mut i: usize = 0;
    while i < n
        invariant
            i <= n,
            n == tables@.len(),
            ls == table_views(tables@),
            cursors_ok(ls, pos@),
            match pick {
                None => forall|x: int| 0 <= x < i ==> #[trigger] pos@[x] == ls[x].len(),
                Some(p) => p < i && has_head(ls, pos@, p as int) && forall|x: int|
                    0 <= x < i && has_head(ls, pos@, x) ==> key_le(
                        head(ls, pos@, p as int).key,
                        (#[trigger] head(ls, pos@, x)).key,
                    ),
            },
        decreases n - i,
    {
        assert(ls[i as int] == tables@[i as int]@);
        assert(pos@[i as int] <= ls[i as int].len());
        if pos[i] < tables[i].len() {
            let here = tables[i].entry(pos[i]);
            match pick {
                None => {
                    proof {
                        lemma_lt_irreflexive(here@.key);
                    }
                    pick = Some(i);
                },
                Some(p) => {
                    assert(ls[p as int] == tables@[p as int]@);
                    let least = tables[p].entry(pos[p]);
                    if key_less(here.key.as_slice(), least.key.as_slice()) {
                        proof {
                            lemma_lt_irreflexive(here@.key);
                            assert forall|x: int| 0 <= x < i + 1 && has_head(ls, pos@, x) implies key_le(
                                here@.key,
                                (#[trigger] head(ls, pos@, x)).key,
                            ) by {
                                if x < i && key_lt(head(ls, pos@, x).key, here@.key) {
                                    lemma_lt_transitive(head(ls, pos@, x).key, here@.key, least@.key);
                                }
                            }
                        }
                        pick = Some(i);
                    }
                },
            }
        }
        i += 1;
    }
    pick
}

/// Among the heads that share the key of the head of table `p`, the one
/// with the highest sequence, the first of them where several share it.
fn newest_head(tables: &Vec<Table>, pos: &Vec<usize>, p: usize) -> (w: usize)
    requires
        all_wf(tables@),
        cursors_ok(table_views(tables@), pos@),
        has_head(table_views(tables@), pos@, p as int),
        heads_not_below(table_views(tables@), pos@, head(table_views(tables@), pos@, p as int).key),
        passed_below(table_views(tables@), pos@, head(table_views(tables@), pos@, p as int).key),
    ensures
        has_head(table_views(tables@), pos@, w as int),
        head(table_views(tables@), pos@, w as int).key == head(
            table_views(tables@),
            pos@,
            p as int,
        ).key,
        best(table_views(tables@), head(table_views(tables@), pos@, p as int).key) == Some(
            head(table_views(tables@), pos@, w as int),
        ),
{
    let ghost ls = table_views(tables@);
    let ghost m = head(ls, pos@, p as int).key;
    let n = tables.len();
    assert(ls[p as int] == tables@[p as int]@);
    let target = tables[p].entry(pos[p]);
    let mut win: Option<usize> = None;
    let mut i: usize = 0;
    assert(ls.take(0) =~= Seq::<Seq<EntryView>>::empty());
    while i < n
        invariant
            i <= n,
            n == tables@.len(),
            ls == table_views(tables@),
            all_wf(tables@),
            cursors_ok(ls, pos@),
            has_head(ls, pos@, p as int),
            m == head(ls, pos@, p as int).key,
            target@ == head(ls, pos@, p as int),
            heads_not_below(ls, pos@, m),
            passed_below(ls, pos@, m),
            match win {
                None => best(ls.take(i as int), m) is None,
                Some(w) => w < i && has_head(ls, pos@, w as int) && head(ls, pos@, w as int).key == m
                    && best(ls.take(i as int), m) == Some(head(ls, pos@, w as int)),
            },
            i > p ==> win is Some,
        decreases n - i,
    {
        let ghost l = ls[i as int];
        assert(l == tables@[i as int]@);
        assert(tables@[i as int].wf());
        assert(pos@[i as int] <= l.len());
        proof {
            assert(ls.take(i as int + 1).drop_last() =~= ls.take(i as int));
            assert(ls.take(i as int + 1).last() == l);
            assert forall|j: int| 0 <= j < pos@[i as int] implies key_lt((#[trigger] l[j]).key, m) by {
                assert(key_lt(ls[i as int][j].key, m));
            }
            if has_head(ls, pos@, i as int) {
                assert(key_le(m, head(ls, pos@, i as int).key));
            }
            lemma_head_lookup(l, pos@[i as int] as int, m);
        }
        if pos[i] < tables[i].len() {
            let here = tables[i].entry(pos[i]);
            if key_equal(here.key.as_slice(), target.key.as_slice()) {
                match win {
                    None => {
                        win = Some(i);
                    },
                    Some(w) => {
                        assert(ls[w as int] == tables@[w as int]@);
                        let held = tables[w].entry(pos[w]);
                        if here.seq.is_newer_than(held.seq) {
                            win = Some(i);
                        }
                    },
                }
            }
        }
        i += 1;
    }
    assert(ls.take(n as int) =~= ls);
    win.unwrap()
}

/// Moves every cursor whose head has the key `key` one entry on.
fn advance_past(tables: &Vec<Table>, pos: &mut Vec<usize>, key: &[u8])
    requires
        cursors_ok(table_views(tables@), old(pos)@),
    ensures
        cursors_ok(table_views(tables@), final(pos)@),
        forall|i: int|
            0 <= i < tables@.len() ==> #[trigger] final(pos)@[i] == (if has_head(
                table_views(tables@),
                old(pos)@,
                i,
            ) && head(table_views(tables@), old(pos)@, i).key == key@ {
                old(pos)@[i] + 1
            } else {
                old(pos)@[i] as int
            }),
{
    let ghost ls = table_views(tables@);
    let n = tables.len();
    let mut i: usize = 0;
    while i < n
        invariant
            i <= n,
            n == tables@.len(),
            ls == table_views(tables@),
            cursors_ok(ls, old(pos)@),
            pos@.len() == n,
            forall|x: int| i <= x < n ==> #[trigger] pos@[x] == old(pos)@[x],
            forall|x: int|
                0 <= x < i ==> #[trigger] pos@[x] == (if has_head(ls, old(pos)@, x) && head(
                    ls,
                    old(pos)@,
                    x,
                ).key == key@ {
                    old(pos)@[x] + 1
                } else {
                    old(pos)@[x] as int
                }),
        decreases n - i,
    {
        assert(ls[i as int] == tables@[i as int]@);
        assert(old(pos)@[i as int] <= ls[i as int].len());
        let at = pos[i];
        if at < tables[i].len() {
            if key_equal(tables[i].entry(at).key.as_slice(), key) {
                pos.set(i, at + 1);
            }
        }
        i += 1;
    }
    assert forall|x: int| 0 <= x < ls.len() implies #[trigger] pos@[x] <= ls[x].len() by {
        assert(old(pos)@[x] <= ls[x].len());
    }
}

/// Merges sorted tables into one: the result holds every key that some input
/// holds, with the entry of highest sequence among the inputs that hold it.
/// Where two inputs hold a key at the same sequence, the entry of the input
/// nearer the front is taken.
pub fn merge(tables: &Vec<Table>) -> (out: Table)
    requires
        all_wf(tables@),
    ensures
        out.wf(),
        out.map() == merged(table_views(tables@)),
{
    let ghost ls = table_views(tables@);
    let n = tables.len();
    let mut pos: Vec<usize> = Vec::new();
    while pos.len() < n
        invariant
            pos@.len() <= n,
            forall|i: int| 0 <= i < pos@.len() ==> #[trigger] pos@[i] == 0,
        decreases n - pos@.len(),
    {
        pos.push(0);
    }
    let mut out = Table::new();
    let mut next = least_head(tables, &pos);
    while next.is_some()
        invariant
            n == tables@.len(),
            ls == table_views(tables@),
            all_wf(tables@),
            cursors_ok(ls, pos@),
            out.wf(),
            forall|i: int, j: int|
                0 <= i < ls.len() && 0 <= j < pos@[i] ==> has_key(out@, (#[trigger] ls[i][j]).key),
            forall|i: int|
                has_head(ls, pos@, i) && out@.len() > 0 ==> key_lt(
                    out@.last().key,
                    (#[trigger] head(ls, pos@, i)).key,
                ),
            forall|x: int| 0 <= x < out@.len() ==> best(ls, (#[trigger] out@[x]).key) == Some(out@[x]),
            match next {
                None => forall|i: int| 0 <= i < ls.len() ==> #[trigger] pos@[i] == ls[i].len(),
                Some(p) => has_head(ls, pos@, p as int) && heads_not_below(
                    ls,
                    pos@,
                    head(ls, pos@, p as int).key,
                ),
            },
        decreases remaining(ls, pos@),
    {
        let p = next.unwrap();
        let ghost m = head(ls, pos@, p as int).key;
        let ghost before = pos@;
        let ghost done = out@;
        proof {
            // everything already written is below the least head
            assert forall|x: int| 0 <= x < done.len() implies key_lt((#[trigger] done[x]).key, m) by {
                assert(key_lt(done.last().key, head(ls, pos@, p as int).key));
                if x < done.len() - 1 {
                    lemma_lt_transitive(done[x].key, done.last().key, m);
                }
            }
            assert forall|i: int, j: int| 0 <= i < ls.len() && 0 <= j < pos@[i] implies key_lt(
                (#[trigger] ls[i][j]).key,
                m,
            ) by {
                assert(has_key(done, ls[i][j].key));
                let x = crate::sorted::index_of(done, ls[i][j].key);
                assert(key_lt(done[x].key, m));
            }
        }
        let w = newest_head(tables, &pos, p);
        assert(ls[w as int] == tables@[w as int]@);
        let e = tables[w].entry(pos[w]).clone();
        assert(e@ == head(ls, before, w as int));
        advance_past(tables, &mut pos, e.key.as_slice());
        out.push_last(e);
        proof {
            assert(out@.last() == e@);
            lemma_lookup_at(out@, out@.len() - 1);
            assert forall|i: int, j: int| 0 <= i < ls.len() && 0 <= j < pos@[i] implies has_key(
                out@,
                (#[trigger] ls[i][j]).key,
            ) by {
                if j < before[i] {
                    assert(has_key(done, ls[i][j].key));
                    let x = crate::sorted::index_of(done, ls[i][j].key);
                    assert(out@[x] == done[x]);
                } else {
                    assert(ls[i][j] == head(ls, before, i));
                }
            }
            assert forall|i: int| has_head(ls, pos@, i) && out@.len() > 0 implies key_lt(
                out@.last().key,
                (#[trigger] head(ls, pos@, i)).key,
            ) by {
                assert(tables@[i].wf());
                assert(ls[i] == tables@[i]@);
                if pos@[i] == before[i] {
                    assert(has_head(ls, before, i));
                    assert(key_le(m, head(ls, before, i).key));
                    lemma_lt_total(m, head(ls, before, i).key);
                } else {
                    assert(key_lt(ls[i][before[i] as int].key, ls[i][pos@[i] as int].key));
                }
            }
            assert forall|x: int| 0 <= x < out@.len() implies best(ls, (#[trigger] out@[x]).key) == Some(
                out@[x],
            ) by {
                if x < done.len() {
                    assert(out@[x] == done[x]);
                }
            }
            assert(pos@[p as int] == before[p as int] + 1);
            lemma_remaining_shrinks(ls, before, pos@, p as int);
            lemma_remaining_nonnegative(ls, pos@);
        }
        next = least_head(tables, &pos);
    }
    proof {
        assert forall|k: Seq<u8>| to_map(out@).contains_key(k) <==> merged(ls).contains_key(k) by {
            if to_map(out@).contains_key(k) {
                let x = lemma_lookup_position(out@, k);
            }
            if merged(ls).contains_key(k) {
                let i = lemma_best_source(ls, k);
                assert(ls[i] == tables@[i]@);
                let j = crate::sorted::index_of(ls[i], k);
                assert(pos@[i] == ls[i].len());
                assert(has_key(out@, ls[i][j].key));
            }
        }
        assert forall|k: Seq<u8>| to_map(out@).contains_key(k) implies to_map(out@)[k] == merged(ls)[k] by {
            let x = lemma_lookup_position(out@, k);
        }
        assert(out.map() =~= merged(ls));
    }
    out
}

} // verus!
