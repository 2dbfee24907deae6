//! The manifest: the record of which sorted-table files are current, newest
//! first, and of the latest sequence that they hold durably.
//!
//! ```text
//! durable sequence (8, LE) | count (8, LE) | file number (8, LE) ... | checksum (4, LE)
//! ```

use vstd::prelude::*;
use vstd::bytes::{
    lemma_auto_spec_u32_to_from_le_bytes, lemma_auto_spec_u64_to_from_le_bytes,
    spec_u32_from_le_bytes, spec_u32_to_le_bytes, spec_u64_from_le_bytes, spec_u64_to_le_bytes,
    u32_from_le_bytes, u32_to_le_bytes, u64_from_le_bytes, u64_to_le_bytes,
};
use vstd::slice::slice_subrange;
use crate::codec::{checksum, CHECKSUM_LEN, checksum_of};
use crate::entry::Sequence;
use crate::error::{KvError, Result};

verus! {

/// The length of a manifest's fixed part: durable sequence and count.
pub const MANIFEST_HEAD_LEN: usize = 16;

/// The length of one file number.
pub const FILE_NUMBER_LEN: usize = 8;

/// The current sorted-table files, newest first, and the latest sequence
/// that is durable in them.
#[derive(Debug)]
pub struct Manifest {
    pub durable: Sequence,
    pub files: Vec<u64>,
}

/// What a [`Manifest`] stands for.
pub ghost struct ManifestView {
    pub durable: u64,
    pub files: Seq<u64>,
}

impl View for Manifest {
    type V = ManifestView;

    open spec fn view(&self) -> ManifestView {
        ManifestView { durable: self.durable.0, files: self.files@ }
    }
}

/// The bytes of the file numbers of `files`, first to last.
pub open spec fn numbers_bytes(files: Seq<u64>) -> Seq<u8>
    decreases files.len(),
{
    if files.len() == 0 {
        Seq::empty()
    } else {
        numbers_bytes(files.drop_last()) + spec_u64_to_le_bytes(files.last())
    }
}

/// The bytes of a manifest before its checksum.
pub open spec fn manifest_body(m: ManifestView) -> Seq<u8> {
    spec_u64_to_le_bytes(m.durable) + spec_u64_to_le_bytes(m.files.len() as u64) + numbers_bytes(
        m.files,
    )
}

/// The bytes of a manifest.
pub open spec fn manifest_bytes(m: ManifestView) -> Seq<u8> {
    manifest_body(m) + spec_u32_to_le_bytes(checksum_of(manifest_body(m)))
}

/// The file number at position `i` of a manifest's bytes.
pub open spec fn number_at(bytes: Seq<u8>, i: int) -> u64 {
    spec_u64_from_le_bytes(
        bytes.subrange(
            MANIFEST_HEAD_LEN + FILE_NUMBER_LEN * i,
            MANIFEST_HEAD_LEN + FILE_NUMBER_LEN * i + FILE_NUMBER_LEN,
        ),
    )
}

/// Reads a manifest. Gives it where the bytes are a sequence, a count, that
/// many file numbers and the checksum of all that, and `None` otherwise.
pub open spec fn parse_manifest(bytes: Seq<u8>) -> Option<ManifestView> {
    if bytes.len() < MANIFEST_HEAD_LEN + CHECKSUM_LEN {
        None
    } else {
        let durable = spec_u64_from_le_bytes(bytes.subrange(0, 8));
        let count = spec_u64_from_le_bytes(bytes.subrange(8, 16));
        let end = MANIFEST_HEAD_LEN + FILE_NUMBER_LEN * count;
        if end + CHECKSUM_LEN != bytes.len() {
            None
        } else if spec_u32_from_le_bytes(bytes.subrange(end, end + CHECKSUM_LEN)) != checksum_of(
            bytes.subrange(0, end),
        ) {
            None
        } else {
            Some(ManifestView { durable, files: Seq::new(count as nat, |i: int| number_at(bytes, i)) })
        }
    }
}

/// File numbers take eight bytes each, in order.
pub proof fn lemma_numbers_bytes(files: Seq<u64>)
    ensures
        numbers_bytes(files).len() == FILE_NUMBER_LEN * files.len(),
        forall|i: int|
            0 <= i < files.len() ==> #[trigger] numbers_bytes(files).subrange(
                FILE_NUMBER_LEN * i,
                FILE_NUMBER_LEN * i + FILE_NUMBER_LEN,
            ) == spec_u64_to_le_bytes(files[i]),
    decreases files.len(),
{
    lemma_auto_spec_u64_to_from_le_bytes();
    if files.len() > 0 {
        let init = files.drop_last();
        lemma_numbers_bytes(init);
        let all = numbers_bytes(files);
        assert forall|i: int| 0 <= i < files.len() implies #[trigger] all.subrange(
            FILE_NUMBER_LEN * i,
            FILE_NUMBER_LEN * i + FILE_NUMBER_LEN,
        ) == spec_u64_to_le_bytes(files[i]) by {
            if i < init.len() {
                assert(all.subrange(FILE_NUMBER_LEN * i, FILE_NUMBER_LEN * i + FILE_NUMBER_LEN)
                    =~= numbers_bytes(init).subrange(
                    FILE_NUMBER_LEN * i,
                    FILE_NUMBER_LEN * i + FILE_NUMBER_LEN,
                ));
                assert(init[i] == files[i]);
            } else {
                assert(all.subrange(FILE_NUMBER_LEN * i, FILE_NUMBER_LEN * i + FILE_NUMBER_LEN)
                    =~= spec_u64_to_le_bytes(files.last()));
            }
        }
    }
}

/// Reading the bytes of a manifest gives the manifest back.
pub proof fn lemma_manifest_roundtrip(m: ManifestView)
    requires
        m.files.len() <= u64::MAX,
    ensures
        parse_manifest(manifest_bytes(m)) == Some(m),
{
    lemma_auto_spec_u64_to_from_le_bytes();
    lemma_auto_spec_u32_to_from_le_bytes();
    lemma_numbers_bytes(m.files);
    let bytes = manifest_bytes(m);
    let body = manifest_body(m);
    let end = body.len() as int;
    assert(bytes.subrange(0, 8) =~= spec_u64_to_le_bytes(m.durable));
    assert(bytes.subrange(8, 16) =~= spec_u64_to_le_bytes(m.files.len() as u64));
    assert(bytes.subrange(0, end) =~= body);
    assert(bytes.subrange(end, end + CHECKSUM_LEN) =~= spec_u32_to_le_bytes(checksum_of(body)));
    let got = Seq::new(m.files.len(), |i: int| number_at(bytes, i));
    assert forall|i: int| 0 <= i < m.files.len() implies got[i] == m.files[i] by {
        assert(bytes.subrange(
            MANIFEST_HEAD_LEN + FILE_NUMBER_LEN * i,
            MANIFEST_HEAD_LEN + FILE_NUMBER_LEN * i + FILE_NUMBER_LEN,
        ) =~= numbers_bytes(m.files).subrange(
            FILE_NUMBER_LEN * i,
            FILE_NUMBER_LEN * i + FILE_NUMBER_LEN,
        ));
    }
    assert(got =~= m.files);
}

/// The bytes of `m`.
pub fn encode_manifest(m: &Manifest) -> (out: Vec<u8>)
    ensures
        out@ == manifest_bytes(m@),
{
    let ghost files = m.files@;
    let mut out = u64_to_le_bytes(m.durable.0);
    let mut count = u64_to_le_bytes(m.files.len() as u64);
    out.append(&mut count);
    let ghost head = out@;
    let mut i: usize = 0;
    assert(files.take(0) =~= Seq::<u64>::empty());
    assert(out@ =~= head + numbers_bytes(files.take(0)));
    while i < m.files.len()
        invariant
            i <= files.len(),
            files == m.files@,
            out@ == head + numbers_bytes(files.take(i as int)),
        decreases files.len() - i,
    {
        let mut b = u64_to_le_bytes(m.files[i]);
        out.append(&mut b);
        proof {
            let next = files.take(i as int + 1);
            assert(next.drop_last() =~= files.take(i as int));
            assert(next.last() == files[i as int]);
            assert(out@ =~= head + numbers_bytes(next));
        }
        i += 1;
    }
    assert(files.take(files.len() as int) =~= files);
    assert(out@ =~= manifest_body(m@));
    let end = out.len();
    let c = checksum(out.as_slice(), 0, end);
    assert(out@.subrange(0, end as int) =~= manifest_body(m@));
    let mut b = u32_to_le_bytes(c);
    out.append(&mut b);
    out
}

/// Reads a manifest. Fails with `Corruption` unless the bytes are a
/// sequence, a count, that many file numbers and the matching checksum, with
/// nothing left over.
pub fn decode_manifest(bytes: &[u8]) -> (r: Result<Manifest>)
    ensures
        match parse_manifest(bytes@) {
            Some(m) => r matches Ok(got) && got@ == m,
            None => r matches Err(e) && e is Corruption,
        },
{
    let len = bytes.len();
    if len < MANIFEST_HEAD_LEN + CHECKSUM_LEN {
        return Err(KvError::Corruption("manifest is too short".to_string()));
    }
    let durable = u64_from_le_bytes(slice_subrange(bytes, 0, 8));
    let count = u64_from_le_bytes(slice_subrange(bytes, 8, 16));
    let room = (len - MANIFEST_HEAD_LEN - CHECKSUM_LEN) as u64;
    if room % 8 != 0 || room / 8 != count {
        return Err(KvError::Corruption("manifest has the wrong length".to_string()));
    }
    let end = len - CHECKSUM_LEN;
    assert(end == MANIFEST_HEAD_LEN + FILE_NUMBER_LEN * count);
    let stored = u32_from_le_bytes(slice_subrange(bytes, end, end + CHECKSUM_LEN));
    if stored != checksum(bytes, 0, end) {
        return Err(KvError::Corruption("manifest checksum mismatch".to_string()));
    }
    let mut files: Vec<u64> = Vec::new();
    let mut i: usize = 0;
    let n = count as usize;
    while i < n
        invariant
            i <= n,
            n == count,
            len == bytes@.len(),
            len == MANIFEST_HEAD_LEN + FILE_NUMBER_LEN * n + CHECKSUM_LEN,
            files@.len() == i,
            forall|x: int| 0 <= x < i ==> files@[x] == number_at(bytes@, x),
        decreases n - i,
    {
        let at = MANIFEST_HEAD_LEN + FILE_NUMBER_LEN * i;
        let id = u64_from_le_bytes(slice_subrange(bytes, at, at + FILE_NUMBER_LEN));
        files.push(id);
        i += 1;
    }
    assert(files@ =~= Seq::new(count as nat, |i: int| number_at(bytes@, i)));
    Ok(Manifest { durable: Sequence(durable), files })
}

} // verus!
