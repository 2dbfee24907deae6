//! Sequences of entries in strictly ascending key order, and the map from
//! keys to entries that such a sequence stands for.

use vstd::prelude::*;
use crate::entry::EntryView;
use crate::order::{in_range, key_le, key_lt, lemma_lt_asymmetric, lemma_lt_irreflexive};

verus! {

/// The keys of `s` ascend strictly, so no key occurs twice.
pub open spec fn sorted(s: Seq<EntryView>) -> bool {
    forall|i: int, j: int| 0 <= i < j < s.len() ==> key_lt(#[trigger] s[i].key, #[trigger] s[j].key)
}

/// Some entry of `s` has the key `k`.
pub open spec fn has_key(s: Seq<EntryView>, k: Seq<u8>) -> bool {
    exists|i: int| 0 <= i < s.len() && #[trigger] s[i].key == k
}

/// The position of an entry of `s` with the key `k`.
pub open spec fn index_of(s: Seq<EntryView>, k: Seq<u8>) -> int {
    choose|i: int| 0 <= i < s.len() && #[trigger] s[i].key == k
}

/// The entry of `s` with the key `k`, if there is one.
pub open spec fn lookup(s: Seq<EntryView>, k: Seq<u8>) -> Option<EntryView> {
    if has_key(s, k) {
        Some(s[index_of(s, k)])
    } else {
        None
    }
}

/// Every key that `a` shares with `b` has the higher sequence in `a`.
pub open spec fn newer_than(a: Seq<EntryView>, b: Seq<EntryView>) -> bool {
    forall|k: Seq<u8>|
        (#[trigger] lookup(a, k)) is Some && (#[trigger] lookup(b, k)) is Some ==> lookup(
            a,
            k,
        )->Some_0.seq > lookup(b, k)->Some_0.seq
}

/// The map from each key of `s` to its entry.
pub open spec fn to_map(s: Seq<EntryView>) -> Map<Seq<u8>, EntryView> {
    Map::new(|k: Seq<u8>| has_key(s, k), |k: Seq<u8>| s[index_of(s, k)])
}

/// The entries of `m` that carry a value, as a map from key to value:
/// tombstones hide their key.
pub open spec fn live(m: Map<Seq<u8>, EntryView>) -> Map<Seq<u8>, Seq<u8>> {
    Map::new(
        |k: Seq<u8>| m.contains_key(k) && m[k].value is Some,
        |k: Seq<u8>| m[k].value->Some_0,
    )
}

/// The entries of `m` that carry a value: `m` without its tombstones.
pub open spec fn alive(m: Map<Seq<u8>, EntryView>) -> Map<Seq<u8>, EntryView> {
    Map::new(|k: Seq<u8>| m.contains_key(k) && m[k].value is Some, |k: Seq<u8>| m[k])
}

/// The part of `m` whose keys lie between `start` (inclusive) and `end`
/// (exclusive).
pub open spec fn within<V>(m: Map<Seq<u8>, V>, start: Seq<u8>, end: Seq<u8>) -> Map<Seq<u8>, V> {
    Map::new(|k: Seq<u8>| m.contains_key(k) && in_range(k, start, end), |k: Seq<u8>| m[k])
}

/// In a sorted sequence, two positions with the same key are the same
/// position.
pub proof fn lemma_sorted_unique(s: Seq<EntryView>, i: int, j: int)
    requires
        sorted(s),
        0 <= i < s.len(),
        0 <= j < s.len(),
        s[i].key == s[j].key,
    ensures
        i == j,
{
    lemma_lt_irreflexive(s[i].key);
}

/// In a sorted sequence, the entry at position `i` is the one that its key
/// looks up.
pub proof fn lemma_lookup_at(s: Seq<EntryView>, i: int)
    requires
        sorted(s),
        0 <= i < s.len(),
    ensures
        has_key(s, s[i].key),
        index_of(s, s[i].key) == i,
        lookup(s, s[i].key) == Some(s[i]),
        to_map(s).contains_key(s[i].key),
        to_map(s)[s[i].key] == s[i],
{
    lemma_sorted_unique(s, i, index_of(s, s[i].key));
}

/// A key that the map of a sequence holds sits at some position of it.
pub proof fn lemma_lookup_position(s: Seq<EntryView>, k: Seq<u8>) -> (i: int)
    requires
        to_map(s).contains_key(k),
    ensures
        0 <= i < s.len(),
        s[i].key == k,
        to_map(s)[k] == s[i],
        lookup(s, k) == Some(s[i]),
{
    index_of(s, k)
}

/// The map of a sequence is what `lookup` finds in it.
pub proof fn lemma_map_is_lookup(s: Seq<EntryView>, k: Seq<u8>)
    ensures
        to_map(s).contains_key(k) <==> lookup(s, k) is Some,
        to_map(s).contains_key(k) ==> lookup(s, k) == Some(to_map(s)[k]),
{
}

/// The empty sequence is sorted and stands for the empty map.
pub proof fn lemma_empty_map()
    ensures
        sorted(Seq::<EntryView>::empty()),
        to_map(Seq::<EntryView>::empty()) == Map::<Seq<u8>, EntryView>::empty(),
{
    assert(to_map(Seq::<EntryView>::empty()) =~= Map::<Seq<u8>, EntryView>::empty());
}

/// Placing an entry with a new key at its ordered position keeps the
/// sequence sorted and inserts the entry into its map.
pub proof fn lemma_insert_at(s: Seq<EntryView>, p: int, e: EntryView)
    requires
        sorted(s),
        0 <= p <= s.len(),
        forall|j: int| 0 <= j < p ==> key_lt(#[trigger] s[j].key, e.key),
        forall|j: int| p <= j < s.len() ==> key_lt(e.key, #[trigger] s[j].key),
    ensures
        sorted(s.insert(p, e)),
        to_map(s.insert(p, e)) == to_map(s).insert(e.key, e),
{
    let t = s.insert(p, e);
    assert forall|i: int, j: int| 0 <= i < j < t.len() implies key_lt(
        #[trigger] t[i].key,
        #[trigger] t[j].key,
    ) by {
        if i < p && j > p {
            assert(t[i] == s[i] && t[j] == s[j - 1]);
        }
    }
    assert forall|k: Seq<u8>| to_map(t).contains_key(k) <==> to_map(s).insert(e.key, e).contains_key(k) by {
        if to_map(t).contains_key(k) {
            let i = lemma_lookup_position(t, k);
            if i < p {
                assert(s[i].key == k);
            } else if i > p {
                assert(s[i - 1].key == k);
            }
        }
        if to_map(s).contains_key(k) {
            let i = lemma_lookup_position(s, k);
            if i < p {
                assert(t[i].key == k);
            } else {
                assert(t[i + 1].key == k);
            }
        }
        if k == e.key {
            assert(t[p].key == k);
        }
    }
    assert forall|k: Seq<u8>| to_map(t).contains_key(k) implies to_map(t)[k] == to_map(s).insert(e.key, e)[k] by {
        let i = lemma_lookup_position(t, k);
        lemma_lt_irreflexive(e.key);
        if i < p {
            assert(t[i] == s[i]);
            lemma_lookup_at(s, i);
        } else if i > p {
            assert(t[i] == s[i - 1]);
            lemma_lookup_at(s, i - 1);
        }
    }
    assert(to_map(t) =~= to_map(s).insert(e.key, e));
}

/// Replacing an entry by one with the same key keeps the sequence sorted
/// and overwrites the entry in its map.
pub proof fn lemma_replace_at(s: Seq<EntryView>, p: int, e: EntryView)
    requires
        sorted(s),
        0 <= p < s.len(),
        s[p].key == e.key,
    ensures
        sorted(s.update(p, e)),
        to_map(s.update(p, e)) == to_map(s).insert(e.key, e),
{
    let t = s.update(p, e);
    assert forall|i: int, j: int| 0 <= i < j < t.len() implies key_lt(
        #[trigger] t[i].key,
        #[trigger] t[j].key,
    ) by {
        assert(t[i].key == s[i].key && t[j].key == s[j].key);
    }
    assert forall|k: Seq<u8>| to_map(t).contains_key(k) <==> to_map(s).insert(e.key, e).contains_key(k) by {
        if to_map(t).contains_key(k) {
            let i = lemma_lookup_position(t, k);
            assert(s[i].key == k);
        }
        if to_map(s).contains_key(k) {
            let i = lemma_lookup_position(s, k);
            assert(t[i].key == k);
        }
        if k == e.key {
            assert(t[p].key == k);
        }
    }
    assert forall|k: Seq<u8>| to_map(t).contains_key(k) implies to_map(t)[k] == to_map(s).insert(e.key, e)[k] by {
        let i = lemma_lookup_position(t, k);
        if i != p {
            assert(t[i] == s[i]);
            lemma_lookup_at(s, i);
            if k == e.key {
                lemma_sorted_unique(s, i, p);
            }
        }
    }
    assert(to_map(t) =~= to_map(s).insert(e.key, e));
}

/// Taking an entry out keeps the sequence sorted and removes its key from
/// the map.
pub proof fn lemma_remove_at(s: Seq<EntryView>, p: int)
    requires
        sorted(s),
        0 <= p < s.len(),
    ensures
        sorted(s.remove(p)),
        to_map(s.remove(p)) == to_map(s).remove(s[p].key),
{
    let t = s.remove(p);
    assert forall|i: int, j: int| 0 <= i < j < t.len() implies key_lt(
        #[trigger] t[i].key,
        #[trigger] t[j].key,
    ) by {
        let si = if i < p { i } else { i + 1 };
        let sj = if j < p { j } else { j + 1 };
        assert(t[i] == s[si] && t[j] == s[sj]);
    }
    let m = to_map(s).remove(s[p].key);
    assert forall|k: Seq<u8>| to_map(t).contains_key(k) <==> m.contains_key(k) by {
        if to_map(t).contains_key(k) {
            let i = lemma_lookup_position(t, k);
            let si = if i < p { i } else { i + 1 };
            assert(s[si].key == k);
            if k == s[p].key {
                lemma_sorted_unique(s, si, p);
            }
        }
        if m.contains_key(k) {
            let i = lemma_lookup_position(s, k);
            let ti = if i < p { i } else { i - 1 };
            assert(t[ti].key == k);
        }
    }
    assert forall|k: Seq<u8>| to_map(t).contains_key(k) implies to_map(t)[k] == m[k] by {
        let i = lemma_lookup_position(t, k);
        let si = if i < p { i } else { i + 1 };
        assert(t[i] == s[si]);
        lemma_lookup_at(s, si);
        if k == s[p].key {
            lemma_sorted_unique(s, si, p);
        }
    }
    assert(to_map(t) =~= m);
}

/// A key that falls strictly between two neighbours of a sorted sequence, or
/// before its first or after its last entry, is not in its map.
pub proof fn lemma_absent_at(s: Seq<EntryView>, p: int, k: Seq<u8>)
    requires
        sorted(s),
        0 <= p <= s.len(),
        forall|j: int| 0 <= j < p ==> key_lt(#[trigger] s[j].key, k),
        forall|j: int| p <= j < s.len() ==> key_lt(k, #[trigger] s[j].key),
    ensures
        !has_key(s, k),
        !to_map(s).contains_key(k),
        lookup(s, k) is None,
{
    if has_key(s, k) {
        let i = index_of(s, k);
        lemma_lt_irreflexive(k);
    }
}

/// A contiguous piece of a sorted sequence, cut where the keys cross
/// `start` and `end`, is sorted and stands for the part of the map within
/// those bounds.
pub proof fn lemma_subrange_within(s: Seq<EntryView>, lo: int, hi: int, start: Seq<u8>, end: Seq<u8>)
    requires
        sorted(s),
        0 <= lo <= hi <= s.len(),
        forall|j: int| 0 <= j < lo ==> key_lt(#[trigger] s[j].key, start),
        forall|j: int| lo <= j < s.len() ==> key_le(start, #[trigger] s[j].key),
        forall|j: int| 0 <= j < hi ==> key_lt(#[trigger] s[j].key, end),
        forall|j: int| hi <= j < s.len() ==> key_le(end, #[trigger] s[j].key),
    ensures
        sorted(s.subrange(lo, hi)),
        to_map(s.subrange(lo, hi)) == within(to_map(s), start, end),
{
    let t = s.subrange(lo, hi);
    assert forall|i: int, j: int| 0 <= i < j < t.len() implies key_lt(
        #[trigger] t[i].key,
        #[trigger] t[j].key,
    ) by {
        assert(t[i] == s[lo + i] && t[j] == s[lo + j]);
    }
    let m = within(to_map(s), start, end);
    assert forall|k: Seq<u8>| to_map(t).contains_key(k) <==> m.contains_key(k) by {
        if to_map(t).contains_key(k) {
            let i = lemma_lookup_position(t, k);
            assert(s[lo + i].key == k);
        }
        if m.contains_key(k) {
            let i = lemma_lookup_position(s, k);
            assert(t[i - lo].key == k);
        }
    }
    assert forall|k: Seq<u8>| to_map(t).contains_key(k) implies to_map(t)[k] == m[k] by {
        let i = lemma_lookup_position(t, k);
        lemma_lookup_at(s, lo + i);
    }
    assert(to_map(t) =~= m);
}

/// A sorted sequence is determined by its map: two sorted sequences over the
/// same map are the same sequence.
pub proof fn lemma_sorted_determined(a: Seq<EntryView>, b: Seq<EntryView>)
    requires
        sorted(a),
        sorted(b),
        to_map(a) == to_map(b),
    ensures
        a == b,
    decreases a.len(),
{
    if a.len() == 0 {
        if b.len() > 0 {
            lemma_lookup_at(b, 0);
            let i = lemma_lookup_position(a, b[0].key);
        }
        assert(a =~= b);
    } else {
        lemma_lookup_at(a, 0);
        let j = lemma_lookup_position(b, a[0].key);
        lemma_lookup_at(b, 0);
        let i = lemma_lookup_position(a, b[0].key);
        // both heads are the least key of the common map
        if j > 0 {
            if i > 0 {
                lemma_lt_asymmetric(a[0].key, b[0].key);
                assert(key_lt(a[0].key, a[i].key));
                assert(key_lt(b[0].key, b[j].key));
            }
        }
        assert(j == 0) by {
            if j > 0 && i == 0 {
                lemma_sorted_unique(b, 0, j);
            }
        }
        lemma_lookup_at(b, 0);
        assert(a[0] == b[0]);
        lemma_remove_at(a, 0);
        lemma_remove_at(b, 0);
        lemma_sorted_determined(a.remove(0), b.remove(0));
        assert(a =~= seq![a[0]] + a.remove(0));
        assert(b =~= seq![b[0]] + b.remove(0));
    }
}

} // verus!
