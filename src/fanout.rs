use vstd::prelude::*;

verus! {

/// The first bytes are in non-decreasing order.
pub open spec fn sorted_bytes(s: Seq<u8>) -> bool {
    forall|i: int, j: int| 0 <= i <= j < s.len() ==> s[i] <= s[j]
}

/// How many of the bytes in `s` are at most `b`.
pub open spec fn count_at_most(s: Seq<u8>, b: int) -> nat
    decreases s.len(),
{
    if s.len() == 0 {
        0
    } else {
        count_at_most(s.drop_last(), b) + if s.last() as int <= b {
            1nat
        } else {
            0nat
        }
    }
}

/// Where every byte before `i` is at most `b` and every byte from `i` on is
/// above it, exactly `i` bytes are at most `b`.
pub proof fn lemma_count_at_split(s: Seq<u8>, b: int, i: int)
    requires
        0 <= i <= s.len(),
        forall|j: int| 0 <= j < i ==> s[j] as int <= b,
        forall|j: int| i <= j < s.len() ==> s[j] as int > b,
    ensures
        count_at_most(s, b) == i,
    decreases s.len(),
{
    if s.len() > 0 {
        let t = s.drop_last();
        if i == s.len() {
            lemma_count_at_split(t, b, i - 1);
        } else {
            lemma_count_at_split(t, b, i);
        }
    }
}

/// The cumulative table over 256 buckets: bucket `b` counts the bytes of `s`
/// that are at most `b`.
pub open spec fn is_fanout_of(table: Seq<u32>, s: Seq<u8>) -> bool {
    &&& table.len() == 256
    &&& forall|b: int| 0 <= b < 256 ==> table[b] as int == count_at_most(s, b)
}

/// Builds the fan-out table from the first bytes of the sorted ids, in one
/// forward pass of a cursor over them.
pub fn fanout(first_bytes: &[u8]) -> (fan_out: [u32; 256])
    requires
        first_bytes@.len() <= u32::MAX,
        sorted_bytes(first_bytes@),
    ensures
        is_fanout_of(fan_out@, first_bytes@),
{
    let ghost s = first_bytes@;
    let n: usize = first_bytes.len();
    let entries_len: u32 = n as u32;
    let mut fan_out: [u32; 256] = [0u32; 256];
    let mut cursor: usize = 0;
    let mut upper_bound: u32 = 0;
    let mut byte: usize = 0;
    while byte < 256
        invariant
            n == s.len(),
            s == first_bytes@,
            entries_len as int == n,
            n <= u32::MAX,
            sorted_bytes(s),
            0 <= byte <= 256,
            0 <= cursor <= n,
            upper_bound as int == cursor,
            forall|j: int| 0 <= j < cursor ==> (s[j] as int) < byte,
            byte < 256 ==> forall|j: int| cursor <= j < n ==> s[j] as int >= byte,
            fan_out@.len() == 256,
            forall|b: int| 0 <= b < byte ==> fan_out@[b] as int == count_at_most(s, b),
        decreases 256 - byte,
    {
        let value: u32;
        if cursor == n {
            proof {
                lemma_count_at_split(s, byte as int, n as int);
            }
            value = entries_len;
        } else {
            let first_byte = first_bytes[cursor];
            if (first_byte as usize) > byte {
                proof {
                    assert forall|j: int| cursor <= j < n implies s[j] as int > byte by {
                        assert(s[cursor as int] <= s[j]);
                    }
                    lemma_count_at_split(s, byte as int, cursor as int);
                }
                value = upper_bound;
            } else if byte == 255 {
                proof {
                    lemma_count_at_split(s, byte as int, n as int);
                }
                value = entries_len;
            } else {
                while cursor < n && first_bytes[cursor] as usize == byte
                    invariant
                        n == s.len(),
                        s == first_bytes@,
                        0 <= cursor <= n,
                        byte < 255,
                        forall|j: int| 0 <= j < cursor ==> s[j] as int <= byte,
                        forall|j: int| cursor <= j < n ==> s[j] as int >= byte,
                    decreases n - cursor,
                {
                    cursor = cursor + 1;
                }
                proof {
                    assert forall|j: int| cursor <= j < n implies s[j] as int > byte by {
                        assert(s[cursor as int] <= s[j]);
                    }
                    lemma_count_at_split(s, byte as int, cursor as int);
                }
                upper_bound = cursor as u32;
                value = upper_bound;
            }
        }
        fan_out[byte] = value;
        byte = byte + 1;
    }
    fan_out
}

/// The count only grows as the bound grows.
pub proof fn lemma_count_monotone(s: Seq<u8>, a: int, b: int)
    requires
        a <= b,
    ensures
        count_at_most(s, a) <= count_at_most(s, b),
    decreases s.len(),
{
    if s.len() > 0 {
        lemma_count_monotone(s.drop_last(), a, b);
    }
}

/// The last bucket of the fan-out table of a sequence holds its length.
pub proof fn lemma_fanout_last_is_total(table: Seq<u32>, s: Seq<u8>)
    requires
        is_fanout_of(table, s),
    ensures
        table[255] as int == s.len(),
{
    lemma_count_at_split(s, 255, s.len() as int);
}

/// The fan-out table never decreases from one bucket to a later one.
pub proof fn lemma_fanout_non_decreasing(table: Seq<u32>, s: Seq<u8>)
    requires
        is_fanout_of(table, s),
    ensures
        forall|a: int, b: int| 0 <= a <= b < 256 ==> table[a] <= table[b],
{
    assert forall|a: int, b: int| 0 <= a <= b < 256 implies table[a] <= table[b] by {
        lemma_count_monotone(s, a, b);
    }
}

} // verus!
