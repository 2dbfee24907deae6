//! The write-ahead log: the mutations of the active buffer, appended one
//! record at a time before they are acknowledged.
//!
//! A record is an entry followed by the checksum of the entry's bytes. A
//! crash may cut the last record short. Reading a log therefore stops without
//! complaint at a record that the log ends in the middle of, and reports
//! corruption only for a record that is whole and wrong.

use vstd::prelude::*;
use vstd::bytes::{
    lemma_auto_spec_u32_to_from_le_bytes, spec_u32_from_le_bytes, spec_u32_to_le_bytes,
    u32_from_le_bytes, u32_to_le_bytes,
};
use vstd::slice::slice_subrange;
use crate::codec::{
    checksum, CHECKSUM_LEN, checksum_of, decode_entry, encodable, encode_entry, entry_bytes,
    HEADER_LEN, lemma_entry_len, lemma_parse_entry_bytes, lemma_parse_entry_prefix, parse_entry,
    Decoded, Parsed,
};
use crate::entry::{Entry, EntryView};
use crate::error::{KvError, Result};
use crate::table::views;

verus! {

/// The bytes of one record: an entry and the checksum of its bytes.
pub open spec fn record_bytes(e: EntryView) -> Seq<u8> {
    entry_bytes(e) + spec_u32_to_le_bytes(checksum_of(entry_bytes(e)))
}

/// The bytes of a log that holds the records of `s`, first to last.
pub open spec fn log_bytes(s: Seq<EntryView>) -> Seq<u8>
    decreases s.len(),
{
    if s.len() == 0 {
        Seq::empty()
    } else {
        record_bytes(s[0]) + log_bytes(s.drop_first())
    }
}

/// Every entry of `s` has lengths that fit a header.
pub open spec fn all_encodable(s: Seq<EntryView>) -> bool {
    forall|i: int| 0 <= i < s.len() ==> encodable(#[trigger] s[i])
}

/// Reads the records of `bytes` from position `at` on and appends their
/// entries to `acc`. Gives `None` where a whole record is wrong: its bytes
/// begin no entry, or its checksum does not match. A record that the bytes
/// end in the middle of ends the log.
pub open spec fn parse_log(bytes: Seq<u8>, at: int, acc: Seq<EntryView>) -> Option<Seq<EntryView>>
    decreases bytes.len() - at,
{
    if at < 0 || at >= bytes.len() {
        Some(acc)
    } else {
        match parse_entry(bytes.skip(at)) {
            Parsed::Short => Some(acc),
            Parsed::Bad => None,
            Parsed::Whole { entry, used } => {
                if at + used + CHECKSUM_LEN > bytes.len() {
                    Some(acc)
                } else if spec_u32_from_le_bytes(bytes.subrange(at + used, at + used + CHECKSUM_LEN))
                    != checksum_of(bytes.subrange(at, at + used)) {
                    None
                } else {
                    parse_log(bytes, at + used + CHECKSUM_LEN, acc.push(entry))
                }
            },
        }
    }
}

/// What reading a log from its beginning gives.
pub open spec fn parsed_log(bytes: Seq<u8>) -> Option<Seq<EntryView>> {
    parse_log(bytes, 0, Seq::empty())
}

/// A record is four bytes longer than its entry.
pub proof fn lemma_record_len(e: EntryView)
    ensures
        record_bytes(e).len() == entry_bytes(e).len() + CHECKSUM_LEN,
        record_bytes(e).len() >= HEADER_LEN + CHECKSUM_LEN,
{
    lemma_auto_spec_u32_to_from_le_bytes();
    lemma_entry_len(e);
}

/// Appending an entry to a log appends its record to the log's bytes.
pub proof fn lemma_log_push(s: Seq<EntryView>, e: EntryView)
    ensures
        log_bytes(s.push(e)) == log_bytes(s) + record_bytes(e),
    decreases s.len(),
{
    if s.len() == 0 {
        assert(s.push(e).drop_first() =~= Seq::<EntryView>::empty());
        assert(s.push(e)[0] == e);
        assert(log_bytes(Seq::<EntryView>::empty()) =~= Seq::<u8>::empty());
        assert(log_bytes(s) =~= Seq::<u8>::empty());
        assert(log_bytes(s.push(e)) =~= log_bytes(s) + record_bytes(e));
    } else {
        assert(s.push(e).drop_first() =~= s.drop_first().push(e));
        lemma_log_push(s.drop_first(), e);
        assert(log_bytes(s.push(e)) =~= log_bytes(s) + record_bytes(e));
    }
}

/// Reading passes over the records of a log one by one: where the bytes from
/// `at` on are the log of `s` followed by `tail`, reading from `at` comes to
/// reading `tail` with the entries of `s` collected.
pub proof fn lemma_parse_log_steps(
    bytes: Seq<u8>,
    at: int,
    acc: Seq<EntryView>,
    s: Seq<EntryView>,
    tail: Seq<u8>,
)
    requires
        0 <= at <= bytes.len(),
        bytes.skip(at) == log_bytes(s) + tail,
        all_encodable(s),
    ensures
        parse_log(bytes, at, acc) == parse_log(bytes, at + log_bytes(s).len(), acc + s),
    decreases s.len(),
{
    if s.len() == 0 {
        assert(acc + s =~= acc);
    } else {
        let e = s[0];
        let rest = s.drop_first();
        let crc = spec_u32_to_le_bytes(checksum_of(entry_bytes(e)));
        let used = entry_bytes(e).len() as int;
        lemma_record_len(e);
        lemma_auto_spec_u32_to_from_le_bytes();
        assert(encodable(e));
        assert(bytes.skip(at) =~= entry_bytes(e) + (crc + log_bytes(rest) + tail));
        lemma_parse_entry_bytes(e, crc + log_bytes(rest) + tail);
        assert(bytes.skip(at).len() >= used + CHECKSUM_LEN);
        assert(bytes.subrange(at, at + used) =~= entry_bytes(e)) by {
            assert(bytes.subrange(at, at + used) =~= bytes.skip(at).subrange(0, used));
        }
        assert(bytes.subrange(at + used, at + used + CHECKSUM_LEN) =~= crc) by {
            assert(bytes.subrange(at + used, at + used + CHECKSUM_LEN) =~= bytes.skip(at).subrange(
                used,
                used + CHECKSUM_LEN,
            ));
        }
        let next = at + used + CHECKSUM_LEN;
        assert(bytes.skip(next) =~= log_bytes(rest) + tail) by {
            assert(bytes.skip(next) =~= bytes.skip(at).skip(used + CHECKSUM_LEN));
        }
        assert forall|i: int| 0 <= i < rest.len() implies encodable(#[trigger] rest[i]) by {
            assert(rest[i] == s[i + 1]);
        }
        lemma_parse_log_steps(bytes, next, acc.push(e), rest, tail);
        assert(acc.push(e) + rest =~= acc + s);
        assert(log_bytes(s).len() == record_bytes(e).len() + log_bytes(rest).len());
    }
}

/// Reading a log that was written whole gives back its entries.
pub proof fn lemma_log_roundtrip(s: Seq<EntryView>)
    requires
        all_encodable(s),
    ensures
        parsed_log(log_bytes(s)) == Some(s),
{
    let bytes = log_bytes(s);
    assert(bytes.skip(0) =~= bytes + Seq::<u8>::empty());
    lemma_parse_log_steps(bytes, 0, Seq::empty(), s, Seq::empty());
    assert(Seq::<EntryView>::empty() + s =~= s);
}

/// Reading a log whose last record was cut short gives the entries of the
/// records before it, and no error.
pub proof fn lemma_torn_tail_is_dropped(s: Seq<EntryView>, e: EntryView, n: int)
    requires
        all_encodable(s),
        encodable(e),
        0 <= n < record_bytes(e).len(),
    ensures
        parsed_log(log_bytes(s) + record_bytes(e).take(n)) == Some(s),
{
    let tail = record_bytes(e).take(n);
    let bytes = log_bytes(s) + tail;
    let at = log_bytes(s).len() as int;
    let used = entry_bytes(e).len() as int;
    assert(bytes.skip(0) =~= bytes);
    lemma_parse_log_steps(bytes, 0, Seq::empty(), s, tail);
    assert(Seq::<EntryView>::empty() + s =~= s);
    lemma_record_len(e);
    assert(bytes.skip(at) =~= tail);
    if n > 0 {
        if n < used {
            assert(tail =~= entry_bytes(e).take(n));
            lemma_parse_entry_prefix(e, n);
        } else {
            let crc = spec_u32_to_le_bytes(checksum_of(entry_bytes(e)));
            assert(tail =~= entry_bytes(e) + crc.take(n - used));
            lemma_parse_entry_bytes(e, crc.take(n - used));
        }
    }
}

/// Appends the record of `e` to `out`.
pub fn append_record(e: &Entry, out: &mut Vec<u8>)
    ensures
        final(out)@ == old(out)@ + record_bytes(e@),
        encodable(e@),
{
    let ghost start = out@;
    let from = out.len();
    encode_entry(e, out);
    let to = out.len();
    let c = checksum(out.as_slice(), from, to);
    assert(out@.subrange(from as int, to as int) =~= entry_bytes(e@));
    let mut b = u32_to_le_bytes(c);
    out.append(&mut b);
    assert(out@ =~= start + record_bytes(e@));
}

/// The bytes of a log that holds the records of `entries`, first to last.
pub fn encode_log(entries: &Vec<Entry>) -> (out: Vec<u8>)
    ensures
        out@ == log_bytes(views(entries@)),
        all_encodable(views(entries@)),
{
    let ghost s = views(entries@);
    let mut out: Vec<u8> = Vec::new();
    let mut i: usize = 0;
    assert(s.take(0) =~= Seq::<EntryView>::empty());
    while i < entries.len()
        invariant
            i <= entries@.len(),
            s == views(entries@),
            out@ == log_bytes(s.take(i as int)),
            all_encodable(s.take(i as int)),
        decreases entries@.len() - i,
    {
        let ghost done = s.take(i as int);
        assert(s[i as int] == entries@[i as int]@);
        append_record(&entries[i], &mut out);
        proof {
            lemma_log_push(done, s[i as int]);
            assert(s.take(i as int + 1) =~= done.push(s[i as int]));
            assert forall|x: int| 0 <= x < i + 1 implies encodable(#[trigger] s.take(i as int + 1)[x]) by {
                if x < i {
                    assert(s.take(i as int + 1)[x] == done[x]);
                }
            }
        }
        i += 1;
    }
    assert(s.take(entries@.len() as int) =~= s);
    out
}

/// Reads a log. Gives the entries of its whole records, first to last, and
/// leaves out a last record that the log ends in the middle of. Fails with
/// `Corruption` where a whole record is wrong.
pub fn decode_log(bytes: &[u8]) -> (r: Result<Vec<Entry>>)
    ensures
        match parsed_log(bytes@) {
            Some(s) => r matches Ok(v) && views(v@) == s,
            None => r matches Err(e) && e is Corruption,
        },
{
    let mut out: Vec<Entry> = Vec::new();
    let mut at: usize = 0;
    let len = bytes.len();
    assert(views(out@) =~= Seq::<EntryView>::empty());
    while at < len
        invariant
            at <= len,
            len == bytes@.len(),
            parsed_log(bytes@) == parse_log(bytes@, at as int, views(out@)),
        decreases len - at,
    {
        match decode_entry(bytes, at) {
            Decoded::Short => {
                return Ok(out);
            },
            Decoded::Bad => {
                return Err(KvError::Corruption("malformed log record".to_string()));
            },
            Decoded::Whole { entry, next } => {
                if len - next < CHECKSUM_LEN {
                    return Ok(out);
                }
                let stored = u32_from_le_bytes(slice_subrange(bytes, next, next + CHECKSUM_LEN));
                if stored != checksum(bytes, at, next) {
                    return Err(KvError::Corruption("log record checksum mismatch".to_string()));
                }
                let ghost before = views(out@);
                out.push(entry);
                assert(views(out@) =~= before.push(entry@));
                at = next + CHECKSUM_LEN;
            },
        }
    }
    Ok(out)
}

} // verus!
