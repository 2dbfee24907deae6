//! How entries are laid out in bytes, for the write-ahead log and for sorted
//! tables on disk.
//!
//! An entry is a header of fixed length followed by its key and its value:
//!
//! ```text
//! kind (1) | sequence (8, LE) | key length (8, LE) | value length (8, LE) | key | value
//! ```
//!
//! where kind 1 is a value and kind 0 a tombstone, whose value length is 0.

use vstd::prelude::*;
use vstd::bytes::{
    lemma_auto_spec_u64_to_from_le_bytes, spec_u32_from_le_bytes, spec_u32_to_le_bytes,
    spec_u64_from_le_bytes, spec_u64_to_le_bytes, u32_from_le_bytes, u32_to_le_bytes,
    u64_from_le_bytes, u64_to_le_bytes,
};
use vstd::slice::{slice_subrange, slice_to_vec};
use crate::entry::{Entry, EntryView, Sequence};

verus! {

/// The length of an entry's header.
pub const HEADER_LEN: usize = 25;

/// The length of a checksum.
pub const CHECKSUM_LEN: usize = 4;

/// The checksum after one more byte.
pub open spec fn checksum_step(c: u32, b: u8) -> u32 {
    ((c * 31 + b + 1) % 0x1_0000_0000) as u32
}

/// The checksum of a byte string: a polynomial hash over its bytes, first to
/// last, modulo 2^32.
pub open spec fn checksum_of(bytes: Seq<u8>) -> u32
    decreases bytes.len(),
{
    if bytes.len() == 0 {
        0
    } else {
        checksum_step(checksum_of(bytes.drop_last()), bytes.last())
    }
}

/// Computes the checksum of the bytes of `bytes` from `from` up to `to`.
pub fn checksum(bytes: &[u8], from: usize, to: usize) -> (c: u32)
    requires
        from <= to <= bytes@.len(),
    ensures
        c == checksum_of(bytes@.subrange(from as int, to as int)),
{
    let mut c: u32 = 0;
    let mut i: usize = from;
    assert(bytes@.subrange(from as int, from as int) =~= Seq::<u8>::empty());
    while i < to
        invariant
            from <= i <= to <= bytes@.len(),
            c == checksum_of(bytes@.subrange(from as int, i as int)),
        decreases to - i,
    {
        proof {
            let next = bytes@.subrange(from as int, i as int + 1);
            assert(next.drop_last() =~= bytes@.subrange(from as int, i as int));
            assert(next.last() == bytes@[i as int]);
        }
        let wide: u64 = (c as u64) * 31 + (bytes[i] as u64) + 1;
        c = (wide % 0x1_0000_0000) as u32;
        i += 1;
    }
    c
}

/// The bytes of an entry.
pub open spec fn entry_bytes(e: EntryView) -> Seq<u8> {
    let kind: u8 = if e.value is Some { 1 } else { 0 };
    let value = if e.value is Some { e.value->Some_0 } else { Seq::<u8>::empty() };
    seq![kind] + spec_u64_to_le_bytes(e.seq) + spec_u64_to_le_bytes(e.key.len() as u64)
        + spec_u64_to_le_bytes(value.len() as u64) + e.key + value
}

/// Whether the lengths of key and value fit the header's fields. They do for
/// every entry that is held in memory.
pub open spec fn encodable(e: EntryView) -> bool {
    &&& e.key.len() <= u64::MAX
    &&& e.value is Some ==> e.value->Some_0.len() <= u64::MAX
}

/// What the front of a byte string holds.
pub ghost enum Parsed {
    /// A whole entry, which takes up `used` bytes.
    Whole { entry: EntryView, used: int },
    /// The beginning of an entry that the bytes end in the middle of.
    Short,
    /// Bytes that begin no entry.
    Bad,
}

/// Reads the entry at the front of `bytes`.
pub open spec fn parse_entry(bytes: Seq<u8>) -> Parsed {
    if bytes.len() < HEADER_LEN {
        Parsed::Short
    } else if bytes[0] > 1 {
        Parsed::Bad
    } else {
        let seq = spec_u64_from_le_bytes(bytes.subrange(1, 9));
        let klen = spec_u64_from_le_bytes(bytes.subrange(9, 17));
        let vlen = spec_u64_from_le_bytes(bytes.subrange(17, 25));
        if bytes[0] == 0 && vlen != 0 {
            Parsed::Bad
        } else if HEADER_LEN + klen + vlen > bytes.len() {
            Parsed::Short
        } else {
            let key = bytes.subrange(HEADER_LEN as int, HEADER_LEN + klen);
            let value = bytes.subrange(HEADER_LEN + klen, HEADER_LEN + klen + vlen);
            Parsed::Whole {
                entry: EntryView {
                    key,
                    value: if bytes[0] == 1 {
                        Some(value)
                    } else {
                        None
                    },
                    seq,
                },
                used: HEADER_LEN + klen + vlen,
            }
        }
    }
}

/// An entry's bytes are its header, its key and its value.
pub proof fn lemma_entry_len(e: EntryView)
    ensures
        entry_bytes(e).len() == HEADER_LEN + e.key.len() + (if e.value is Some {
            e.value->Some_0.len()
        } else {
            0
        }),
{
    lemma_auto_spec_u64_to_from_le_bytes();
}

/// Reading the bytes of an entry gives the entry back, whatever follows them.
pub proof fn lemma_parse_entry_bytes(e: EntryView, rest: Seq<u8>)
    requires
        encodable(e),
    ensures
        parse_entry(entry_bytes(e) + rest) == (Parsed::Whole { entry: e, used: entry_bytes(e).len() as int }),
{
    lemma_auto_spec_u64_to_from_le_bytes();
    lemma_entry_len(e);
    let bytes = entry_bytes(e) + rest;
    let value = if e.value is Some { e.value->Some_0 } else { Seq::<u8>::empty() };
    let klen = e.key.len() as u64;
    let vlen = value.len() as u64;
    assert(bytes.subrange(1, 9) =~= spec_u64_to_le_bytes(e.seq));
    assert(bytes.subrange(9, 17) =~= spec_u64_to_le_bytes(klen));
    assert(bytes.subrange(17, 25) =~= spec_u64_to_le_bytes(vlen));
    assert(bytes.subrange(HEADER_LEN as int, HEADER_LEN + klen) =~= e.key);
    assert(bytes.subrange(HEADER_LEN + klen, HEADER_LEN + klen + vlen) =~= value);
}

/// A proper prefix of an entry's bytes reads as the beginning of an entry
/// that the bytes end in the middle of.
pub proof fn lemma_parse_entry_prefix(e: EntryView, n: int)
    requires
        encodable(e),
        0 <= n < entry_bytes(e).len(),
    ensures
        parse_entry(entry_bytes(e).take(n)) == Parsed::Short,
{
    lemma_auto_spec_u64_to_from_le_bytes();
    lemma_entry_len(e);
    let bytes = entry_bytes(e).take(n);
    let value = if e.value is Some { e.value->Some_0 } else { Seq::<u8>::empty() };
    if n >= HEADER_LEN {
        assert(bytes.subrange(1, 9) =~= spec_u64_to_le_bytes(e.seq));
        assert(bytes.subrange(9, 17) =~= spec_u64_to_le_bytes(e.key.len() as u64));
        assert(bytes.subrange(17, 25) =~= spec_u64_to_le_bytes(value.len() as u64));
    }
}

/// Appends the little-endian bytes of `x` to `out`.
fn put_u64(out: &mut Vec<u8>, x: u64)
    ensures
        final(out)@ == old(out)@ + spec_u64_to_le_bytes(x),
{
    let mut b = u64_to_le_bytes(x);
    out.append(&mut b);
}

/// Appends the little-endian bytes of `x` to `out`.
fn put_u32(out: &mut Vec<u8>, x: u32)
    ensures
        final(out)@ == old(out)@ + spec_u32_to_le_bytes(x),
{
    let mut b = u32_to_le_bytes(x);
    out.append(&mut b);
}

/// Appends a copy of `src` to `out`.
fn put_bytes(out: &mut Vec<u8>, src: &[u8])
    ensures
        final(out)@ == old(out)@ + src@,
{
    let mut i: usize = 0;
    while i < src.len()
        invariant
            i <= src@.len(),
            out@ == old(out)@ + src@.take(i as int),
        decreases src@.len() - i,
    {
        out.push(src[i]);
        assert(src@.take(i as int + 1) =~= src@.take(i as int).push(src@[i as int]));
        i += 1;
    }
    assert(src@.take(src@.len() as int) =~= src@);
}

/// Reads the little-endian number in the eight bytes of `bytes` that start
/// at `at`.
fn get_u64(bytes: &[u8], at: usize) -> (x: u64)
    requires
        at + 8 <= bytes@.len(),
    ensures
        x == spec_u64_from_le_bytes(bytes@.subrange(at as int, at + 8)),
{
    let len = bytes.len();
    assert(at + 8 <= len);
    u64_from_le_bytes(slice_subrange(bytes, at, at + 8))
}

/// Reads the little-endian number in the four bytes of `bytes` that start at
/// `at`.
fn get_u32(bytes: &[u8], at: usize) -> (x: u32)
    requires
        at + 4 <= bytes@.len(),
    ensures
        x == spec_u32_from_le_bytes(bytes@.subrange(at as int, at + 4)),
{
    let len = bytes.len();
    assert(at + 4 <= len);
    u32_from_le_bytes(slice_subrange(bytes, at, at + 4))
}

/// Appends the bytes of `e` to `out`.
pub fn encode_entry(e: &Entry, out: &mut Vec<u8>)
    ensures
        final(out)@ == old(out)@ + entry_bytes(e@),
        encodable(e@),
{
    let ghost start = out@;
    match &e.value {
        Some(v) => {
            out.push(1);
            put_u64(out, e.seq.0);
            put_u64(out, e.key.len() as u64);
            put_u64(out, v.len() as u64);
            put_bytes(out, e.key.as_slice());
            put_bytes(out, v.as_slice());
        },
        None => {
            out.push(0);
            put_u64(out, e.seq.0);
            put_u64(out, e.key.len() as u64);
            put_u64(out, 0);
            put_bytes(out, e.key.as_slice());
        },
    }
    assert(out@ =~= start + entry_bytes(e@));
}

/// What reading an entry from bytes gave.
#[derive(Debug)]
pub enum Decoded {
    /// A whole entry, and the position of the first byte behind it.
    Whole { entry: Entry, next: usize },
    /// The bytes end in the middle of an entry.
    Short,
    /// The bytes begin no entry.
    Bad,
}

/// Reads the entry that starts at position `at` of `bytes`.
pub fn decode_entry(bytes: &[u8], at: usize) -> (r: Decoded)
    requires
        at <= bytes@.len(),
    ensures
        match r {
            Decoded::Whole { entry, next } => parse_entry(bytes@.skip(at as int)) == (Parsed::Whole {
                entry: entry@,
                used: next - at,
            }) && at + HEADER_LEN <= next <= bytes@.len(),
            Decoded::Short => parse_entry(bytes@.skip(at as int)) == Parsed::Short,
            Decoded::Bad => parse_entry(bytes@.skip(at as int)) == Parsed::Bad,
        },
{
    let ghost tail = bytes@.skip(at as int);
    let left = bytes.len() - at;
    if left < HEADER_LEN {
        return Decoded::Short;
    }
    let kind = bytes[at];
    assert(tail[0] == kind);
    if kind > 1 {
        return Decoded::Bad;
    }
    let seq = get_u64(bytes, at + 1);
    let klen = get_u64(bytes, at + 9);
    let vlen = get_u64(bytes, at + 17);
    proof {
        assert(tail.subrange(1, 9) =~= bytes@.subrange(at + 1, at + 9));
        assert(tail.subrange(9, 17) =~= bytes@.subrange(at + 9, at + 17));
        assert(tail.subrange(17, 25) =~= bytes@.subrange(at + 17, at + 25));
    }
    if kind == 0 && vlen != 0 {
        return Decoded::Bad;
    }
    let room = (left - HEADER_LEN) as u64;
    if klen > room || vlen > room - klen {
        return Decoded::Short;
    }
    let key_at = at + HEADER_LEN;
    let value_at = key_at + klen as usize;
    let next = value_at + vlen as usize;
    let key = slice_to_vec(slice_subrange(bytes, key_at, value_at));
    let value = slice_to_vec(slice_subrange(bytes, value_at, next));
    proof {
        assert(tail.subrange(HEADER_LEN as int, HEADER_LEN + klen) =~= key@);
        assert(tail.subrange(HEADER_LEN + klen, HEADER_LEN + klen + vlen) =~= value@);
    }
    let entry = if kind == 1 {
        Entry::live(key, value, Sequence(seq))
    } else {
        Entry::tombstone(key, Sequence(seq))
    };
    Decoded::Whole { entry, next }
}

} // verus!
