use vstd::prelude::*;

use crate::bytes::{
    be_u32, be_u64, lemma_be_u32_round_trip, lemma_be_u64_round_trip, lemma_concat_chunk,
    lemma_concat_len, read_be_u32, read_be_u64,
};
use crate::index::{
    crc32s, entry_offsets, fanout_table, header_bytes, ids_section, index_body, sha1_of,
    u32_section, u64_section, Entry,
};
use crate::offsets::{
    large_offsets, lemma_large_offset_indirect, offset_fields, offsets_encodable, HIGH_BIT,
    LARGE_OFFSET_THRESHOLD,
};

verus! {

/// Where the ids start: after the header and the fan-out table.
pub open spec fn ids_start() -> int {
    1032int
}

/// The id of entry `i` of an index over `n` entries.
pub open spec fn decoded_id(b: Seq<u8>, n: int, i: int) -> Seq<u8> {
    b.subrange(ids_start() + 20 * i, ids_start() + 20 * i + 20)
}

/// The CRC-32 of entry `i` of an index over `n` entries.
pub open spec fn decoded_crc32(b: Seq<u8>, n: int, i: int) -> u32 {
    read_be_u32(b, ids_start() + 20 * n + 4 * i)
}

/// The pack offset of entry `i` of an index over `n` entries: the field
/// itself, or the large-offset entry that a field with the high bit names.
pub open spec fn decoded_offset(b: Seq<u8>, n: int, i: int) -> u64 {
    let field = read_be_u32(b, ids_start() + 24 * n + 4 * i);
    if field & HIGH_BIT == HIGH_BIT {
        read_be_u64(b, ids_start() + 28 * n + 8 * ((field & 0x7fff_ffffu32) as int))
    } else {
        field as u64
    }
}

/// The whole index file: its body followed by the body's digest.
pub open spec fn index_file(entries: Seq<Entry>, pack_hash: Seq<u8>) -> Seq<u8> {
    index_body(entries, pack_hash) + sha1_of(index_body(entries, pack_hash))
}

/// Each section of the file stands at its place: ids, CRC-32s, offset
/// fields and large offsets, one after the other behind the fan-out table.
proof fn lemma_layout(entries: Seq<Entry>, pack_hash: Seq<u8>)
    ensures
        ({
            let n = entries.len() as int;
            let offs = entry_offsets(entries);
            let full = index_file(entries, pack_hash);
            &&& full.len() >= 1032 + 28 * n + 8 * large_offsets(offs).len()
            &&& ids_section(entries).len() == 20 * n
            &&& u32_section(crc32s(entries)).len() == 4 * n
            &&& u32_section(offset_fields(offs)).len() == 4 * n
            &&& u64_section(large_offsets(offs)).len() == 8 * large_offsets(offs).len()
            &&& forall|x: int|
                0 <= x < 20 * n ==> full[1032 + x] == #[trigger] ids_section(entries)[x]
            &&& forall|x: int|
                0 <= x < 4 * n ==> full[1032 + 20 * n + x] == #[trigger] u32_section(
                    crc32s(entries),
                )[x]
            &&& forall|x: int|
                0 <= x < 4 * n ==> full[1032 + 24 * n + x] == #[trigger] u32_section(
                    offset_fields(offs),
                )[x]
            &&& forall|x: int|
                0 <= x < 8 * large_offsets(offs).len() ==> full[1032 + 28 * n + x]
                    == #[trigger] u64_section(large_offsets(offs))[x]
        }),
{
    let n = entries.len() as int;
    let offs = entry_offsets(entries);
    let large = large_offsets(offs);
    let h = header_bytes();
    let f = u32_section(fanout_table(entries));
    let ids = ids_section(entries);
    let c = u32_section(crc32s(entries));
    let o = u32_section(offset_fields(offs));
    let l = u64_section(large);
    let full = index_file(entries, pack_hash);
    lemma_concat_len(fanout_table(entries).map_values(|v: u32| be_u32(v)), 4);
    lemma_concat_len(entries.map_values(|e: Entry| e.id@), 20);
    lemma_concat_len(crc32s(entries).map_values(|v: u32| be_u32(v)), 4);
    lemma_concat_len(offset_fields(offs).map_values(|v: u32| be_u32(v)), 4);
    lemma_concat_len(large.map_values(|v: u64| be_u64(v)), 8);
    assert(h.len() == 8);
    assert(f.len() == 1024);
    let body = index_body(entries, pack_hash);
    let a2 = h + f + ids;
    let a3 = a2 + c;
    let a4 = a3 + o;
    let a5 = a4 + l;
    assert(body == a5 + pack_hash);
    assert forall|x: int| 0 <= x < a5.len() implies full[x] == a5[x] by {
        assert(full[x] == body[x]);
    }
    assert forall|x: int| 0 <= x < 20 * n implies full[1032 + x] == ids[x] by {
        assert(full[1032 + x] == a5[1032 + x]);
        assert(a5[1032 + x] == a4[1032 + x]);
        assert(a4[1032 + x] == a3[1032 + x]);
        assert(a3[1032 + x] == a2[1032 + x]);
    }
    assert forall|x: int| 0 <= x < 4 * n implies full[1032 + 20 * n + x] == c[x] by {
        assert(full[1032 + 20 * n + x] == a5[1032 + 20 * n + x]);
        assert(a5[1032 + 20 * n + x] == a4[1032 + 20 * n + x]);
        assert(a4[1032 + 20 * n + x] == a3[1032 + 20 * n + x]);
    }
    assert forall|x: int| 0 <= x < 4 * n implies full[1032 + 24 * n + x] == o[x] by {
        assert(full[1032 + 24 * n + x] == a5[1032 + 24 * n + x]);
        assert(a5[1032 + 24 * n + x] == a4[1032 + 24 * n + x]);
    }
    assert forall|x: int| 0 <= x < 8 * large.len() implies full[1032 + 28 * n + x] == l[x] by {
        assert(full[1032 + 28 * n + x] == a5[1032 + 28 * n + x]);
    }
}

proof fn lemma_decoded_id(entries: Seq<Entry>, pack_hash: Seq<u8>, i: int)
    requires
        0 <= i < entries.len(),
    ensures
        decoded_id(index_file(entries, pack_hash), entries.len() as int, i) == entries[i].id@,
{
    let n = entries.len() as int;
    let full = index_file(entries, pack_hash);
    let idparts = entries.map_values(|e: Entry| e.id@);
    lemma_layout(entries, pack_hash);
    lemma_concat_chunk(idparts, 20, i);
    assert(20 * i + 20 <= 20 * n) by (nonlinear_arith)
        requires
            0 <= i < n,
    ;
    assert forall|j: int| 0 <= j < 20 implies full[1032 + 20 * i + j] == entries[i].id@[j] by {
        assert(full[1032 + (20 * i + j)] == ids_section(entries)[20 * i + j]);
        assert(ids_section(entries)[20 * i + j] == idparts[i][j]);
    }
    assert(decoded_id(full, n, i) =~= entries[i].id@);
}

proof fn lemma_decoded_crc32(entries: Seq<Entry>, pack_hash: Seq<u8>, i: int)
    requires
        0 <= i < entries.len(),
    ensures
        decoded_crc32(index_file(entries, pack_hash), entries.len() as int, i)
            == entries[i].crc32,
{
    let n = entries.len() as int;
    let full = index_file(entries, pack_hash);
    let cparts = crc32s(entries).map_values(|v: u32| be_u32(v));
    let v = entries[i].crc32;
    lemma_layout(entries, pack_hash);
    lemma_concat_chunk(cparts, 4, i);
    assert(4 * i + 4 <= 4 * n) by (nonlinear_arith)
        requires
            0 <= i < n,
    ;
    let pos = 1032 + 20 * n + 4 * i;
    assert forall|j: int| 0 <= j < 4 implies full[pos + j] == be_u32(v)[j] by {
        assert(full[1032 + 20 * n + (4 * i + j)] == u32_section(crc32s(entries))[4 * i + j]);
        assert(u32_section(crc32s(entries))[4 * i + j] == cparts[i][j]);
    }
    assert(full.subrange(pos, pos + 4) =~= be_u32(v));
    lemma_be_u32_round_trip(v, full, pos);
}

proof fn lemma_decoded_offset(entries: Seq<Entry>, pack_hash: Seq<u8>, i: int)
    requires
        0 <= i < entries.len(),
        offsets_encodable(entry_offsets(entries)),
    ensures
        decoded_offset(index_file(entries, pack_hash), entries.len() as int, i)
            == entries[i].offset,
{
    let n = entries.len() as int;
    let full = index_file(entries, pack_hash);
    let offs = entry_offsets(entries);
    let large = large_offsets(offs);
    let m = large.len() as int;
    let oparts = offset_fields(offs).map_values(|v: u32| be_u32(v));
    let lparts = large.map_values(|v: u64| be_u64(v));
    let field = offset_fields(offs)[i];
    lemma_layout(entries, pack_hash);
    lemma_concat_chunk(oparts, 4, i);
    assert(4 * i + 4 <= 4 * n) by (nonlinear_arith)
        requires
            0 <= i < n,
    ;
    let pos = 1032 + 24 * n + 4 * i;
    assert forall|j: int| 0 <= j < 4 implies full[pos + j] == be_u32(field)[j] by {
        assert(full[1032 + 24 * n + (4 * i + j)] == u32_section(offset_fields(offs))[4 * i + j]);
        assert(u32_section(offset_fields(offs))[4 * i + j] == oparts[i][j]);
    }
    assert(full.subrange(pos, pos + 4) =~= be_u32(field));
    lemma_be_u32_round_trip(field, full, pos);
    assert(offs[i] == entries[i].offset);
    if offs[i] > LARGE_OFFSET_THRESHOLD {
        lemma_large_offset_indirect(offs, i);
        let k = (field & 0x7fff_ffffu32) as int;
        lemma_concat_chunk(lparts, 8, k);
        assert(8 * k + 8 <= 8 * m) by (nonlinear_arith)
            requires
                0 <= k < m,
        ;
        let lpos = 1032 + 28 * n + 8 * k;
        assert forall|j: int| 0 <= j < 8 implies full[lpos + j] == be_u64(large[k])[j] by {
            assert(full[1032 + 28 * n + (8 * k + j)] == u64_section(large)[8 * k + j]);
            assert(u64_section(large)[8 * k + j] == lparts[k][j]);
        }
        assert(full.subrange(lpos, lpos + 8) =~= be_u64(large[k]));
        lemma_be_u64_round_trip(large[k], full, lpos);
    } else {
        let v = offs[i] as u32;
        assert(field == v);
        assert(v <= 0x7fff_ffffu32 ==> v & 0x8000_0000u32 != 0x8000_0000u32) by (bit_vector);
    }
}

/// Decoding an encoded index gives back every entry's id, CRC-32 and offset,
/// in the order of the input.
pub proof fn lemma_round_trip(entries: Seq<Entry>, pack_hash: Seq<u8>)
    requires
        offsets_encodable(entry_offsets(entries)),
    ensures
        forall|i: int|
            0 <= i < entries.len() ==> {
                &&& decoded_id(index_file(entries, pack_hash), entries.len() as int, i)
                    == entries[i].id@
                &&& decoded_crc32(index_file(entries, pack_hash), entries.len() as int, i)
                    == entries[i].crc32
                &&& decoded_offset(index_file(entries, pack_hash), entries.len() as int, i)
                    == entries[i].offset
            },
{
    assert forall|i: int| 0 <= i < entries.len() implies {
        &&& decoded_id(index_file(entries, pack_hash), entries.len() as int, i)
            == entries[i].id@
        &&& decoded_crc32(index_file(entries, pack_hash), entries.len() as int, i)
            == entries[i].crc32
        &&& decoded_offset(index_file(entries, pack_hash), entries.len() as int, i)
            == entries[i].offset
    } by {
        lemma_decoded_id(entries, pack_hash, i);
        lemma_decoded_crc32(entries, pack_hash, i);
        lemma_decoded_offset(entries, pack_hash, i);
    }
}

} // verus!
