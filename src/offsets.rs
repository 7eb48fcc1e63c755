use vstd::prelude::*;

verus! {

/// Offsets above this value do not fit the 31 bits of a direct field.
pub const LARGE_OFFSET_THRESHOLD: u64 = 0x7fff_ffff;

/// Marks a field that holds an index into the large-offset table.
pub const HIGH_BIT: u32 = 0x8000_0000;

/// The large-offset table: the offsets above the threshold, in input order.
pub open spec fn large_offsets(s: Seq<u64>) -> Seq<u64>
    decreases s.len(),
{
    if s.len() == 0 {
        Seq::empty()
    } else if s.last() > LARGE_OFFSET_THRESHOLD {
        large_offsets(s.drop_last()).push(s.last())
    } else {
        large_offsets(s.drop_last())
    }
}

/// The 32-bit field of the offset at position `i`: the offset itself where it
/// fits, else the high bit over the length of the large table before it.
pub open spec fn offset_field(s: Seq<u64>, i: int) -> u32 {
    if s[i] > LARGE_OFFSET_THRESHOLD {
        (large_offsets(s.take(i)).len() as u32) | HIGH_BIT
    } else {
        s[i] as u32
    }
}

/// The fields of all offsets, in input order.
pub open spec fn offset_fields(s: Seq<u64>) -> Seq<u32> {
    Seq::new(s.len(), |i: int| offset_field(s, i))
}

/// The offsets can be encoded: the large table stays within 31 bits of index.
pub open spec fn offsets_encodable(s: Seq<u64>) -> bool {
    large_offsets(s).len() <= LARGE_OFFSET_THRESHOLD
}

proof fn lemma_large_step(s: Seq<u64>, i: int)
    requires
        0 <= i < s.len(),
    ensures
        large_offsets(s.take(i + 1)) == if s[i] > LARGE_OFFSET_THRESHOLD {
            large_offsets(s.take(i)).push(s[i])
        } else {
            large_offsets(s.take(i))
        },
{
    assert(s.take(i + 1).drop_last() =~= s.take(i));
}

/// The large table of a prefix is a prefix of the large table.
pub proof fn lemma_large_prefix(s: Seq<u64>, i: int)
    requires
        0 <= i <= s.len(),
    ensures
        large_offsets(s.take(i)).len() <= large_offsets(s).len(),
        forall|k: int|
            0 <= k < large_offsets(s.take(i)).len() ==> large_offsets(s.take(i))[k]
                == large_offsets(s)[k],
    decreases s.len(),
{
    if i == s.len() {
        assert(s.take(i) =~= s);
    } else {
        let t = s.drop_last();
        lemma_large_prefix(t, i);
        assert(t.take(i) =~= s.take(i));
    }
}

/// An offset that fits is written as it is and adds nothing to the large table.
pub proof fn lemma_small_offset_direct(s: Seq<u64>, i: int)
    requires
        0 <= i < s.len(),
        s[i] <= LARGE_OFFSET_THRESHOLD,
    ensures
        offset_field(s, i) as u64 == s[i],
        large_offsets(s.take(i + 1)) == large_offsets(s.take(i)),
{
    lemma_large_step(s, i);
}

/// An offset that does not fit is written as the high bit over an index whose
/// entry in the large table holds the offset.
pub proof fn lemma_large_offset_indirect(s: Seq<u64>, i: int)
    requires
        0 <= i < s.len(),
        s[i] > LARGE_OFFSET_THRESHOLD,
        offsets_encodable(s),
    ensures
        offset_field(s, i) & HIGH_BIT == HIGH_BIT,
        ((offset_field(s, i) & 0x7fff_ffff) as int) < large_offsets(s).len(),
        large_offsets(s)[(offset_field(s, i) & 0x7fff_ffff) as int] == s[i],
{
    lemma_large_step(s, i);
    lemma_large_prefix(s, i + 1);
    let k = large_offsets(s.take(i)).len();
    let kk = k as u32;
    assert(kk < 0x8000_0000u32);
    assert((kk | 0x8000_0000u32) & 0x8000_0000u32 == 0x8000_0000u32) by (bit_vector);
    assert(kk < 0x8000_0000u32 ==> (kk | 0x8000_0000u32) & 0x7fff_ffffu32 == kk) by (bit_vector);
    assert(large_offsets(s.take(i + 1))[k as int] == s[i]);
}

/// Encodes each offset into its 32-bit field, in input order, and collects
/// the large-offset table.
pub fn encode_offsets(offsets: &[u64]) -> (r: (Vec<u32>, Vec<u64>))
    requires
        offsets_encodable(offsets@),
    ensures
        r.0@ == offset_fields(offsets@),
        r.1@ == large_offsets(offsets@),
{
    let ghost s = offsets@;
    let mut fields: Vec<u32> = Vec::new();
    let mut offsets64: Vec<u64> = Vec::new();
    let mut i: usize = 0;
    while i < offsets.len()
        invariant
            s == offsets@,
            offsets_encodable(s),
            0 <= i <= s.len(),
            fields@ =~= offset_fields(s).take(i as int),
            offsets64@ == large_offsets(s.take(i as int)),
        decreases s.len() - i,
    {
        let offset = offsets[i];
        proof {
            lemma_large_step(s, i as int);
            lemma_large_prefix(s, i as int + 1);
        }
        let field: u32 = if offset > LARGE_OFFSET_THRESHOLD {
            let index = offsets64.len() as u32;
            offsets64.push(offset);
            index | HIGH_BIT
        } else {
            offset as u32
        };
        fields.push(field);
        i = i + 1;
    }
    assert(s.take(s.len() as int) =~= s);
    (fields, offsets64)
}

} // verus!
