//! Sorted tables on disk: the immutable files that flushed buffers and
//! compacted runs are kept in.
//!
//! A file holds the number of its entries, the entries in ascending key
//! order, and a checksum over all that precedes it:
//!
//! ```text
//! count (8, LE) | entry ... entry | checksum (4, LE)
//! ```
//!
//! Its key range is that of its first and last entry.

use vstd::prelude::*;
use vstd::bytes::{
    lemma_auto_spec_u32_to_from_le_bytes, lemma_auto_spec_u64_to_from_le_bytes,
    spec_u32_from_le_bytes, spec_u32_to_le_bytes, spec_u64_from_le_bytes, spec_u64_to_le_bytes,
    u32_from_le_bytes, u32_to_le_bytes, u64_from_le_bytes, u64_to_le_bytes,
};
use vstd::slice::slice_subrange;
use crate::codec::{
    checksum, CHECKSUM_LEN, checksum_of, decode_entry, encodable, encode_entry, entry_bytes,
    lemma_parse_entry_bytes, parse_entry, Decoded, Parsed,
};
use crate::entry::{Entry, EntryView};
use crate::error::{KvError, Result};
use crate::sorted::sorted;
use crate::table::{views, Table};
use crate::wal::all_encodable;

verus! {

/// The length of the entry count at the head of a file.
pub const COUNT_LEN: usize = 8;

/// The bytes of the entries of `s`, first to last.
pub open spec fn entries_bytes(s: Seq<EntryView>) -> Seq<u8>
    decreases s.len(),
{
    if s.len() == 0 {
        Seq::empty()
    } else {
        entry_bytes(s[0]) + entries_bytes(s.drop_first())
    }
}

/// The bytes of a file before its checksum.
pub open spec fn table_body(s: Seq<EntryView>) -> Seq<u8> {
    spec_u64_to_le_bytes(s.len() as u64) + entries_bytes(s)
}

/// The bytes of the file that holds the entries of `s`.
pub open spec fn table_bytes(s: Seq<EntryView>) -> Seq<u8> {
    table_body(s) + spec_u32_to_le_bytes(checksum_of(table_body(s)))
}

/// Reads `left` entries of `bytes` from position `at` on and appends them to
/// `acc`. Gives the entries and the position behind the last of them, or
/// `None` where the bytes hold fewer entries.
pub open spec fn parse_entries(bytes: Seq<u8>, at: int, left: nat, acc: Seq<EntryView>) -> Option<
    (Seq<EntryView>, int),
>
    decreases left,
{
    if left == 0 {
        Some((acc, at))
    } else if at < 0 || at > bytes.len() {
        None
    } else {
        match parse_entry(bytes.skip(at)) {
            Parsed::Whole { entry, used } => parse_entries(
                bytes,
                at + used,
                (left - 1) as nat,
                acc.push(entry),
            ),
            _ => None,
        }
    }
}

/// Reads a file. Gives its entries where the bytes are a count, that many
/// entries in strictly ascending key order, and the checksum of all that,
/// and `None` otherwise.
pub open spec fn parse_table(bytes: Seq<u8>) -> Option<Seq<EntryView>> {
    if bytes.len() < COUNT_LEN + CHECKSUM_LEN {
        None
    } else {
        let count = spec_u64_from_le_bytes(bytes.subrange(0, COUNT_LEN as int));
        match parse_entries(bytes, COUNT_LEN as int, count as nat, Seq::empty()) {
            None => None,
            Some((s, end)) => {
                if end + CHECKSUM_LEN != bytes.len() {
                    None
                } else if spec_u32_from_le_bytes(bytes.subrange(end, end + CHECKSUM_LEN)) != checksum_of(
                    bytes.subrange(0, end),
                ) {
                    None
                } else if !sorted(s) {
                    None
                } else {
                    Some(s)
                }
            },
        }
    }
}

/// Appending an entry appends its bytes.
pub proof fn lemma_entries_push(s: Seq<EntryView>, e: EntryView)
    ensures
        entries_bytes(s.push(e)) == entries_bytes(s) + entry_bytes(e),
    decreases s.len(),
{
    if s.len() == 0 {
        assert(s.push(e).drop_first() =~= Seq::<EntryView>::empty());
        assert(s.push(e)[0] == e);
        assert(entries_bytes(Seq::<EntryView>::empty()) =~= Seq::<u8>::empty());
        assert(entries_bytes(s) =~= Seq::<u8>::empty());
        assert(entries_bytes(s.push(e)) =~= entries_bytes(s) + entry_bytes(e));
    } else {
        assert(s.push(e).drop_first() =~= s.drop_first().push(e));
        lemma_entries_push(s.drop_first(), e);
        assert(entries_bytes(s.push(e)) =~= entries_bytes(s) + entry_bytes(e));
    }
}

/// Reading passes over entries one by one: where the bytes from `at` on are
/// the entries of `s` followed by `tail`, reading as many entries as `s` has
/// gives them back and ends where `tail` begins.
pub proof fn lemma_parse_entries_steps(
    bytes: Seq<u8>,
    at: int,
    acc: Seq<EntryView>,
    s: Seq<EntryView>,
    tail: Seq<u8>,
)
    requires
        0 <= at <= bytes.len(),
        bytes.skip(at) == entries_bytes(s) + tail,
        all_encodable(s),
    ensures
        parse_entries(bytes, at, s.len(), acc) == Some((acc + s, at + entries_bytes(s).len())),
    decreases s.len(),
{
    if s.len() == 0 {
        assert(acc + s =~= acc);
    } else {
        let e = s[0];
        let rest = s.drop_first();
        let used = entry_bytes(e).len() as int;
        assert(encodable(e));
        assert(bytes.skip(at) =~= entry_bytes(e) + (entries_bytes(rest) + tail));
        lemma_parse_entry_bytes(e, entries_bytes(rest) + tail);
        assert(bytes.skip(at + used) =~= entries_bytes(rest) + tail) by {
            assert(bytes.skip(at + used) =~= bytes.skip(at).skip(used));
        }
        assert forall|i: int| 0 <= i < rest.len() implies encodable(#[trigger] rest[i]) by {
            assert(rest[i] == s[i + 1]);
        }
        lemma_parse_entries_steps(bytes, at + used, acc.push(e), rest, tail);
        assert(acc.push(e) + rest =~= acc + s);
    }
}

/// Reading the file of a sorted table gives back its entries.
pub proof fn lemma_table_roundtrip(s: Seq<EntryView>)
    requires
        sorted(s),
        all_encodable(s),
        s.len() <= u64::MAX,
    ensures
        parse_table(table_bytes(s)) == Some(s),
{
    lemma_auto_spec_u64_to_from_le_bytes();
    lemma_auto_spec_u32_to_from_le_bytes();
    let crc = spec_u32_to_le_bytes(checksum_of(table_body(s)));
    let bytes = table_bytes(s);
    let end = table_body(s).len() as int;
    assert(bytes.subrange(0, COUNT_LEN as int) =~= spec_u64_to_le_bytes(s.len() as u64));
    assert(bytes.skip(COUNT_LEN as int) =~= entries_bytes(s) + crc);
    lemma_parse_entries_steps(bytes, COUNT_LEN as int, Seq::empty(), s, crc);
    assert(Seq::<EntryView>::empty() + s =~= s);
    assert(bytes.subrange(0, end) =~= table_body(s));
    assert(bytes.subrange(end, end + CHECKSUM_LEN) =~= crc);
}

/// The bytes of the file that holds `table`.
pub fn encode_table(table: &Table) -> (out: Vec<u8>)
    ensures
        out@ == table_bytes(table@),
        all_encodable(table@),
        table@.len() <= u64::MAX,
{
    let ghost s = table@;
    let n = table.len();
    let mut out = u64_to_le_bytes(n as u64);
    let mut i: usize = 0;
    assert(s.take(0) =~= Seq::<EntryView>::empty());
    assert(out@ =~= spec_u64_to_le_bytes(n as u64) + entries_bytes(s.take(0)));
    while i < n
        invariant
            i <= n,
            n == s.len(),
            s == table@,
            out@ == spec_u64_to_le_bytes(n as u64) + entries_bytes(s.take(i as int)),
            all_encodable(s.take(i as int)),
        decreases n - i,
    {
        let ghost done = s.take(i as int);
        encode_entry(table.entry(i), &mut out);
        proof {
            lemma_entries_push(done, s[i as int]);
            assert(s.take(i as int + 1) =~= done.push(s[i as int]));
            assert forall|x: int| 0 <= x < i + 1 implies encodable(#[trigger] s.take(i as int + 1)[x]) by {
                if x < i {
                    assert(s.take(i as int + 1)[x] == done[x]);
                }
            }
        }
        i += 1;
    }
    assert(s.take(n as int) =~= s);
    let end = out.len();
    let c = checksum(out.as_slice(), 0, end);
    assert(out@.subrange(0, end as int) =~= table_body(s));
    let mut b = u32_to_le_bytes(c);
    out.append(&mut b);
    out
}

/// Reads the file of a sorted table. Fails with `Corruption` unless the
/// bytes are a count, that many entries in strictly ascending key order, and
/// the matching checksum, with nothing left over.
pub fn decode_table(bytes: &[u8]) -> (r: Result<Table>)
    ensures
        match parse_table(bytes@) {
            Some(s) => r matches Ok(t) && t@ == s && t.wf(),
            None => r matches Err(e) && e is Corruption,
        },
{
    let len = bytes.len();
    if len < COUNT_LEN + CHECKSUM_LEN {
        return Err(KvError::Corruption("sorted table is too short".to_string()));
    }
    let count = u64_from_le_bytes(slice_subrange(bytes, 0, COUNT_LEN));
    let mut entries: Vec<Entry> = Vec::new();
    let mut at: usize = COUNT_LEN;
    let mut i: u64 = 0;
    assert(views(entries@) =~= Seq::<EntryView>::empty());
    while i < count
        invariant
            i <= count,
            at <= len,
            len == bytes@.len(),
            len >= COUNT_LEN + CHECKSUM_LEN,
            count == spec_u64_from_le_bytes(bytes@.subrange(0, COUNT_LEN as int)),
            parse_entries(bytes@, COUNT_LEN as int, count as nat, Seq::empty()) == parse_entries(
                bytes@,
                at as int,
                (count - i) as nat,
                views(entries@),
            ),
        decreases count - i,
    {
        match decode_entry(bytes, at) {
            Decoded::Whole { entry, next } => {
                let ghost before = views(entries@);
                entries.push(entry);
                assert(views(entries@) =~= before.push(entry@));
                at = next;
            },
            Decoded::Short => {
                assert(parse_entry(bytes@.skip(at as int)) == Parsed::Short);
                return Err(KvError::Corruption("sorted table holds too few entries".to_string()));
            },
            Decoded::Bad => {
                assert(parse_entry(bytes@.skip(at as int)) == Parsed::Bad);
                return Err(KvError::Corruption("sorted table holds a malformed entry".to_string()));
            },
        }
        i += 1;
    }
    if len - at != CHECKSUM_LEN {
        return Err(KvError::Corruption("sorted table has the wrong length".to_string()));
    }
    let stored = u32_from_le_bytes(slice_subrange(bytes, at, at + CHECKSUM_LEN));
    if stored != checksum(bytes, 0, at) {
        return Err(KvError::Corruption("sorted table checksum mismatch".to_string()));
    }
    match Table::from_entries(entries) {
        Some(t) => Ok(t),
        None => Err(KvError::Corruption("sorted table is out of order".to_string())),
    }
}

} // verus!
