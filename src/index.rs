use vstd::prelude::*;

use crate::bytes::{
    be_u32, be_u64, concat, lemma_concat_step, push_all, push_be_u32, push_be_u64,
};
use crate::fanout::{count_at_most, fanout, sorted_bytes};
use crate::offsets::{
    encode_offsets, large_offsets, offset_fields, offsets_encodable, LARGE_OFFSET_THRESHOLD,
};

verus! {

/// One object of the pack: its id, the CRC-32 of its packed data and its
/// byte offset in the pack.
#[derive(Clone, Copy, Debug)]
pub struct Entry {
    pub id: [u8; 20],
    pub crc32: u32,
    pub offset: u64,
}

/// The pack index format versions.
#[derive(Clone, Copy, Debug, PartialEq, Eq, Structural)]
pub enum Version {
    V1,
    V2,
}

impl Version {
    /// The number that the header carries for this version.
    pub fn number(self) -> (r: u32)
        ensures
            r == match self {
                Version::V1 => 1u32,
                Version::V2 => 2u32,
            },
    {
        match self {
            Version::V1 => 1,
            Version::V2 => 2,
        }
    }
}

/// A broken precondition of the encoder: the caller's contract, or a pack too
/// large for the format. None of these is an I/O failure.
#[derive(Clone, Copy, Debug, PartialEq, Eq, Structural)]
pub enum Violation {
    /// No entries: an index over no objects does not exist.
    Empty,
    /// Only version 2 can be written.
    UnsupportedVersion,
    /// More entries than a 32-bit count holds.
    TooManyEntries,
    /// The first bytes of the ids go down somewhere.
    Unsorted,
    /// More large offsets than 31 bits can index.
    TooManyLargeOffsets,
}

/// The first byte of each id, in entry order.
pub open spec fn first_bytes(entries: Seq<Entry>) -> Seq<u8> {
    entries.map_values(|e: Entry| e.id@[0])
}

/// The pack offset of each entry, in entry order.
pub open spec fn entry_offsets(entries: Seq<Entry>) -> Seq<u64> {
    entries.map_values(|e: Entry| e.offset)
}

/// The fan-out table over the entries' first bytes.
pub open spec fn fanout_table(entries: Seq<Entry>) -> Seq<u32> {
    Seq::new(256, |b: int| count_at_most(first_bytes(entries), b) as u32)
}

/// The signature and the version number.
pub open spec fn header_bytes() -> Seq<u8> {
    seq![0xffu8, 0x74u8, 0x4fu8, 0x63u8] + be_u32(2)
}

/// Each value as four big-endian bytes, one after the other.
pub open spec fn u32_section(s: Seq<u32>) -> Seq<u8> {
    concat(s.map_values(|v: u32| be_u32(v)))
}

/// Each value as eight big-endian bytes, one after the other.
pub open spec fn u64_section(s: Seq<u64>) -> Seq<u8> {
    concat(s.map_values(|v: u64| be_u64(v)))
}

/// All ids, one after the other.
pub open spec fn ids_section(entries: Seq<Entry>) -> Seq<u8> {
    concat(entries.map_values(|e: Entry| e.id@))
}

/// The CRC-32 values of all entries.
pub open spec fn crc32s(entries: Seq<Entry>) -> Seq<u32> {
    entries.map_values(|e: Entry| e.crc32)
}

/// Everything of the index that its own digest covers.
pub open spec fn index_body(entries: Seq<Entry>, pack_hash: Seq<u8>) -> Seq<u8> {
    header_bytes() + u32_section(fanout_table(entries)) + ids_section(entries) + u32_section(
        crc32s(entries),
    ) + u32_section(offset_fields(entry_offsets(entries))) + u64_section(
        large_offsets(entry_offsets(entries)),
    ) + pack_hash
}

/// The inputs meet every precondition of the encoder.
pub open spec fn encodable(entries: Seq<Entry>, version: Version) -> bool {
    &&& entries.len() > 0
    &&& version == Version::V2
    &&& entries.len() <= u32::MAX
    &&& sorted_bytes(first_bytes(entries))
    &&& offsets_encodable(entry_offsets(entries))
}

/// The SHA-1 digest of `data`.
pub uninterp spec fn sha1_of(data: Seq<u8>) -> Seq<u8>;

/// Relies on git_features::hash::hasher, Sha1::update and Sha1::digest: the
/// SHA-1 digest of the bytes, which depends on them alone.
#[verifier::external_body]
fn sha1_digest(data: &[u8]) -> (r: [u8; 20])
    ensures
        r@ == sha1_of(data@),
{
    let mut hasher = git_features::hash::hasher(git_hash::Kind::Sha1);
    hasher.update(data);
    hasher.digest()
}

/// Checks the encoder's preconditions in the order the encoder meets them.
pub fn check_preconditions(entries: &[Entry], version: Version) -> (r: Result<(), Violation>)
    ensures
        r is Ok <==> encodable(entries@, version),
        r == Err::<(), Violation>(Violation::Empty) <==> entries@.len() == 0,
        r == Err::<(), Violation>(Violation::UnsupportedVersion) <==> entries@.len() > 0
            && version != Version::V2,
        r == Err::<(), Violation>(Violation::TooManyEntries) <==> entries@.len() > 0 && version
            == Version::V2 && entries@.len() > u32::MAX,
        r == Err::<(), Violation>(Violation::Unsorted) <==> entries@.len() > 0 && version
            == Version::V2 && entries@.len() <= u32::MAX && !sorted_bytes(
            first_bytes(entries@),
        ),
        r == Err::<(), Violation>(Violation::TooManyLargeOffsets) <==> entries@.len() > 0
            && version == Version::V2 && entries@.len() <= u32::MAX && sorted_bytes(
            first_bytes(entries@),
        ) && !offsets_encodable(entry_offsets(entries@)),
{
    let ghost fb = first_bytes(entries@);
    let ghost offs = entry_offsets(entries@);
    if entries.len() == 0 {
        return Err(Violation::Empty);
    }
    if version != Version::V2 {
        return Err(Violation::UnsupportedVersion);
    }
    if entries.len() > u32::MAX as usize {
        return Err(Violation::TooManyEntries);
    }
    let mut i: usize = 1;
    while i < entries.len()
        invariant
            fb == first_bytes(entries@),
            version == Version::V2,
            entries@.len() <= u32::MAX,
            1 <= i <= entries@.len(),
            forall|a: int, b: int| 0 <= a <= b < i ==> fb[a] <= fb[b],
        decreases entries@.len() - i,
    {
        if entries[i - 1].id[0] > entries[i].id[0] {
            assert(fb[i - 1] > fb[i as int]);
            assert(!sorted_bytes(fb));
            return Err(Violation::Unsorted);
        }
        i = i + 1;
    }
    assert(sorted_bytes(fb));
    let mut large: usize = 0;
    let mut j: usize = 0;
    while j < entries.len()
        invariant
            offs == entry_offsets(entries@),
            0 <= j <= entries@.len(),
            large as int == large_offsets(offs.take(j as int)).len(),
            large <= j,
        decreases entries@.len() - j,
    {
        assert(offs.take(j + 1).drop_last() =~= offs.take(j as int));
        if entries[j].offset > LARGE_OFFSET_THRESHOLD {
            large = large + 1;
        }
        j = j + 1;
    }
    assert(offs.take(offs.len() as int) =~= offs);
    if large as u64 > LARGE_OFFSET_THRESHOLD {
        return Err(Violation::TooManyLargeOffsets);
    }
    Ok(())
}

/// Appends each value as four big-endian bytes.
fn push_u32_section(out: &mut Vec<u8>, values: &[u32])
    ensures
        final(out)@ == old(out)@ + u32_section(values@),
{
    let ghost parts = values@.map_values(|v: u32| be_u32(v));
    let mut i: usize = 0;
    while i < values.len()
        invariant
            parts == values@.map_values(|v: u32| be_u32(v)),
            0 <= i <= values@.len(),
            out@ == old(out)@ + concat(parts.take(i as int)),
        decreases values@.len() - i,
    {
        proof {
            lemma_concat_step(parts, i as int);
        }
        push_be_u32(out, values[i]);
        assert(out@ =~= old(out)@ + concat(parts.take(i + 1)));
        i = i + 1;
    }
    assert(parts.take(values@.len() as int) =~= parts);
}

/// Appends each value as eight big-endian bytes.
fn push_u64_section(out: &mut Vec<u8>, values: &[u64])
    ensures
        final(out)@ == old(out)@ + u64_section(values@),
{
    let ghost parts = values@.map_values(|v: u64| be_u64(v));
    let mut i: usize = 0;
    while i < values.len()
        invariant
            parts == values@.map_values(|v: u64| be_u64(v)),
            0 <= i <= values@.len(),
            out@ == old(out)@ + concat(parts.take(i as int)),
        decreases values@.len() - i,
    {
        proof {
            lemma_concat_step(parts, i as int);
        }
        push_be_u64(out, values[i]);
        assert(out@ =~= old(out)@ + concat(parts.take(i + 1)));
        i = i + 1;
    }
    assert(parts.take(values@.len() as int) =~= parts);
}

/// Encodes a version 2 pack index over the sorted entries of the pack whose
/// own trailing hash is `pack_hash`. Returns the bytes of the index, which
/// end in its digest, and that digest.
pub fn encode(entries: &[Entry], pack_hash: &[u8; 20], version: Version) -> (r: (
    Vec<u8>,
    [u8; 20],
))
    requires
        encodable(entries@, version),
    ensures
        r.1@ == sha1_of(index_body(entries@, pack_hash@)),
        r.0@ == index_body(entries@, pack_hash@) + r.1@,
{
    let ghost es = entries@;
    let mut out: Vec<u8> = Vec::new();
    out.push(0xff);
    out.push(0x74);
    out.push(0x4f);
    out.push(0x63);
    push_be_u32(&mut out, version.number());
    assert(out@ =~= header_bytes());

    let mut first: Vec<u8> = Vec::new();
    let mut crcs: Vec<u32> = Vec::new();
    let mut offsets: Vec<u64> = Vec::new();
    let mut i: usize = 0;
    while i < entries.len()
        invariant
            es == entries@,
            0 <= i <= es.len(),
            first@ =~= first_bytes(es).take(i as int),
            crcs@ =~= crc32s(es).take(i as int),
            offsets@ =~= entry_offsets(es).take(i as int),
        decreases es.len() - i,
    {
        first.push(entries[i].id[0]);
        crcs.push(entries[i].crc32);
        offsets.push(entries[i].offset);
        i = i + 1;
    }
    assert(first@ =~= first_bytes(es));
    assert(crcs@ =~= crc32s(es));
    assert(offsets@ =~= entry_offsets(es));

    let fan_out = fanout(first.as_slice());
    assert(fan_out@ =~= fanout_table(es));
    push_u32_section(&mut out, &fan_out);

    let ghost before_ids = out@;
    let ghost id_parts = es.map_values(|e: Entry| e.id@);
    let mut k: usize = 0;
    while k < entries.len()
        invariant
            es == entries@,
            id_parts == es.map_values(|e: Entry| e.id@),
            0 <= k <= es.len(),
            out@ == before_ids + concat(id_parts.take(k as int)),
        decreases es.len() - k,
    {
        proof {
            lemma_concat_step(id_parts, k as int);
        }
        push_all(&mut out, &entries[k].id);
        assert(out@ =~= before_ids + concat(id_parts.take(k + 1)));
        k = k + 1;
    }
    assert(id_parts.take(es.len() as int) =~= id_parts);

    push_u32_section(&mut out, crcs.as_slice());
    let (fields, offsets64) = encode_offsets(offsets.as_slice());
    push_u32_section(&mut out, fields.as_slice());
    push_u64_section(&mut out, offsets64.as_slice());
    push_all(&mut out, pack_hash);
    assert(out@ =~= index_body(es, pack_hash@));

    let digest = sha1_digest(out.as_slice());
    push_all(&mut out, &digest);
    (out, digest)
}

} // verus!
