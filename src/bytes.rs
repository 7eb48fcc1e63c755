use vstd::prelude::*;

verus! {

/// The four big-endian bytes of `v`.
pub open spec fn be_u32(v: u32) -> Seq<u8> {
    seq![(v >> 24u32) as u8, (v >> 16u32) as u8, (v >> 8u32) as u8, v as u8]
}

/// The eight big-endian bytes of `v`.
pub open spec fn be_u64(v: u64) -> Seq<u8> {
    seq![
        (v >> 56u64) as u8,
        (v >> 48u64) as u8,
        (v >> 40u64) as u8,
        (v >> 32u64) as u8,
        (v >> 24u64) as u8,
        (v >> 16u64) as u8,
        (v >> 8u64) as u8,
        v as u8,
    ]
}

/// The big-endian 32-bit value at `pos`.
pub open spec fn read_be_u32(b: Seq<u8>, pos: int) -> u32 {
    ((b[pos] as u32) << 24u32) | ((b[pos + 1] as u32) << 16u32) | ((b[pos + 2] as u32) << 8u32)
        | (b[pos + 3] as u32)
}

/// The big-endian 64-bit value at `pos`.
pub open spec fn read_be_u64(b: Seq<u8>, pos: int) -> u64 {
    ((b[pos] as u64) << 56u64) | ((b[pos + 1] as u64) << 48u64) | ((b[pos + 2] as u64) << 40u64)
        | ((b[pos + 3] as u64) << 32u64) | ((b[pos + 4] as u64) << 24u64) | ((b[pos + 5] as u64)
        << 16u64) | ((b[pos + 6] as u64) << 8u64) | (b[pos + 7] as u64)
}

/// The parts written one after the other.
pub open spec fn concat(parts: Seq<Seq<u8>>) -> Seq<u8>
    decreases parts.len(),
{
    if parts.len() == 0 {
        Seq::empty()
    } else {
        concat(parts.drop_last()) + parts.last()
    }
}

/// Reading back four written bytes gives the value.
pub proof fn lemma_be_u32_round_trip(v: u32, b: Seq<u8>, pos: int)
    requires
        0 <= pos,
        pos + 4 <= b.len(),
        b.subrange(pos, pos + 4) == be_u32(v),
    ensures
        read_be_u32(b, pos) == v,
{
    let c = b.subrange(pos, pos + 4);
    assert(b[pos] == c[0] && b[pos + 1] == c[1] && b[pos + 2] == c[2] && b[pos + 3] == c[3]);
    assert(b[pos] == (v >> 24u32) as u8);
    assert(b[pos + 1] == (v >> 16u32) as u8);
    assert(b[pos + 2] == (v >> 8u32) as u8);
    assert(b[pos + 3] == v as u8);
    assert(((((v >> 24u32) as u8) as u32) << 24u32) | ((((v >> 16u32) as u8) as u32) << 16u32)
        | ((((v >> 8u32) as u8) as u32) << 8u32) | ((v as u8) as u32) == v) by (bit_vector);
}

/// Reading back eight written bytes gives the value.
pub proof fn lemma_be_u64_round_trip(v: u64, b: Seq<u8>, pos: int)
    requires
        0 <= pos,
        pos + 8 <= b.len(),
        b.subrange(pos, pos + 8) == be_u64(v),
    ensures
        read_be_u64(b, pos) == v,
{
    let c = b.subrange(pos, pos + 8);
    assert(b[pos] == c[0] && b[pos + 1] == c[1] && b[pos + 2] == c[2] && b[pos + 3] == c[3]);
    assert(b[pos + 4] == c[4] && b[pos + 5] == c[5] && b[pos + 6] == c[6] && b[pos + 7] == c[7]);
    assert(b[pos] == (v >> 56u64) as u8);
    assert(b[pos + 1] == (v >> 48u64) as u8);
    assert(b[pos + 2] == (v >> 40u64) as u8);
    assert(b[pos + 3] == (v >> 32u64) as u8);
    assert(b[pos + 4] == (v >> 24u64) as u8);
    assert(b[pos + 5] == (v >> 16u64) as u8);
    assert(b[pos + 6] == (v >> 8u64) as u8);
    assert(b[pos + 7] == v as u8);
    assert(((((v >> 56u64) as u8) as u64) << 56u64) | ((((v >> 48u64) as u8) as u64) << 48u64)
        | ((((v >> 40u64) as u8) as u64) << 40u64) | ((((v >> 32u64) as u8) as u64) << 32u64)
        | ((((v >> 24u64) as u8) as u64) << 24u64) | ((((v >> 16u64) as u8) as u64) << 16u64)
        | ((((v >> 8u64) as u8) as u64) << 8u64) | ((v as u8) as u64) == v) by (bit_vector);
}

/// Adding one more part to a prefix of the parts.
pub proof fn lemma_concat_step(parts: Seq<Seq<u8>>, i: int)
    requires
        0 <= i < parts.len(),
    ensures
        concat(parts.take(i + 1)) == concat(parts.take(i)) + parts[i],
{
    assert(parts.take(i + 1).drop_last() =~= parts.take(i));
}

/// Where every part is `w` bytes long, part `i` starts at byte `w * i`.
pub proof fn lemma_concat_chunk(parts: Seq<Seq<u8>>, w: int, i: int)
    requires
        0 <= w,
        0 <= i < parts.len(),
        forall|k: int| 0 <= k < parts.len() ==> (#[trigger] parts[k]).len() == w,
    ensures
        concat(parts).len() == w * parts.len(),
        forall|j: int| 0 <= j < w ==> concat(parts)[w * i + j] == parts[i][j],
    decreases parts.len(),
{
    lemma_concat_len(parts, w);
    let t = parts.drop_last();
    if i < parts.len() - 1 {
        lemma_concat_chunk(t, w, i);
        lemma_concat_len(t, w);
        assert(concat(parts) == concat(t) + parts.last());
        assert forall|j: int| 0 <= j < w implies concat(parts)[w * i + j] == parts[i][j] by {
            assert(w * i + j < w * t.len()) by (nonlinear_arith)
                requires
                    0 <= j < w,
                    i < t.len(),
            ;
            assert(concat(t)[w * i + j] == t[i][j]);
            assert(t[i] == parts[i]);
        }
    } else {
        lemma_concat_len(t, w);
        assert(w * i == w * t.len());
    }
}

/// Where every part is `w` bytes long, all of them take `w` bytes each.
pub proof fn lemma_concat_len(parts: Seq<Seq<u8>>, w: int)
    requires
        0 <= w,
        forall|k: int| 0 <= k < parts.len() ==> (#[trigger] parts[k]).len() == w,
    ensures
        concat(parts).len() == w * parts.len(),
    decreases parts.len(),
{
    if parts.len() > 0 {
        let t = parts.drop_last();
        lemma_concat_len(t, w);
        assert(w * parts.len() == w * t.len() + w) by (nonlinear_arith)
            requires
                parts.len() == t.len() + 1,
        ;
    }
}

/// Appends the four big-endian bytes of `v`.
pub fn push_be_u32(out: &mut Vec<u8>, v: u32)
    ensures
        final(out)@ == old(out)@ + be_u32(v),
{
    out.push((v >> 24u32) as u8);
    out.push((v >> 16u32) as u8);
    out.push((v >> 8u32) as u8);
    out.push(v as u8);
    assert(final(out)@ =~= old(out)@ + be_u32(v));
}

/// Appends the eight big-endian bytes of `v`.
pub fn push_be_u64(out: &mut Vec<u8>, v: u64)
    ensures
        final(out)@ == old(out)@ + be_u64(v),
{
    out.push((v >> 56u64) as u8);
    out.push((v >> 48u64) as u8);
    out.push((v >> 40u64) as u8);
    out.push((v >> 32u64) as u8);
    out.push((v >> 24u64) as u8);
    out.push((v >> 16u64) as u8);
    out.push((v >> 8u64) as u8);
    out.push(v as u8);
    assert(final(out)@ =~= old(out)@ + be_u64(v));
}

/// Appends all bytes of `src`.
pub fn push_all(out: &mut Vec<u8>, src: &[u8])
    ensures
        final(out)@ == old(out)@ + src@,
{
    let mut i: usize = 0;
    while i < src.len()
        invariant
            0 <= i <= src@.len(),
            out@ =~= old(out)@ + src@.take(i as int),
        decreases src@.len() - i,
    {
        out.push(src[i]);
        i = i + 1;
    }
    assert(src@.take(src@.len() as int) =~= src@);
}

} // verus!
