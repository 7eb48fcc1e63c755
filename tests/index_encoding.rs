use pack_index::fanout::fanout;
use pack_index::index::{check_preconditions, encode, Entry, Version, Violation};
use pack_index::offsets::{encode_offsets, HIGH_BIT, LARGE_OFFSET_THRESHOLD};
use pack_index::prompt::Options;

fn entry(first: u8, rest: u8, crc32: u32, offset: u64) -> Entry {
    let mut id = [rest; 20];
    id[0] = first;
    Entry { id, crc32, offset }
}

fn be32(b: &[u8], pos: usize) -> u32 {
    u32::from_be_bytes([b[pos], b[pos + 1], b[pos + 2], b[pos + 3]])
}

fn be64(b: &[u8], pos: usize) -> u64 {
    let mut a = [0u8; 8];
    a.copy_from_slice(&b[pos..pos + 8]);
    u64::from_be_bytes(a)
}

fn hex(b: &[u8]) -> String {
    b.iter().map(|x| format!("{:02x}", x)).collect()
}

#[test]
fn fanout_example_buckets() {
    let t = fanout(&[0x00, 0x00, 0x05, 0xFF]);
    assert_eq!(t[0x00], 2);
    assert_eq!(t[0x04], 2);
    assert_eq!(t[0x05], 3);
    assert_eq!(t[0xFE], 3);
    assert_eq!(t[0xFF], 4);
}

#[test]
fn fanout_last_bucket_is_total() {
    let bytes = [1u8, 1, 2, 200, 200, 200, 254];
    assert_eq!(fanout(&bytes)[255], 7);
    assert_eq!(fanout(&[0u8])[255], 1);
    assert_eq!(fanout(&[255u8, 255])[255], 2);
}

#[test]
fn fanout_non_decreasing_and_counts() {
    let bytes = [0u8, 3, 3, 7, 9, 9, 9, 128, 255];
    let t = fanout(&bytes);
    for b in 1..256 {
        assert!(t[b - 1] <= t[b]);
    }
    for b in 0..256usize {
        let count = bytes.iter().filter(|x| (**x as usize) <= b).count() as u32;
        assert_eq!(t[b], count);
    }
}

#[test]
fn fanout_of_nothing_is_all_zero() {
    let t = fanout(&[]);
    assert!(t.iter().all(|v| *v == 0));
}

#[test]
fn fanout_all_in_last_bucket() {
    let t = fanout(&[255u8, 255, 255]);
    assert_eq!(t[254], 0);
    assert_eq!(t[255], 3);
}

#[test]
fn small_offset_is_written_directly() {
    let (fields, large) = encode_offsets(&[5]);
    assert_eq!(fields, vec![5]);
    assert!(large.is_empty());
}

#[test]
fn threshold_offset_is_written_directly() {
    let (fields, large) = encode_offsets(&[LARGE_OFFSET_THRESHOLD]);
    assert_eq!(fields, vec![0x7fff_ffff]);
    assert!(large.is_empty());
}

#[test]
fn large_offset_goes_to_the_large_table() {
    let (fields, large) = encode_offsets(&[0x9000_0000]);
    assert_eq!(fields, vec![HIGH_BIT | 0]);
    assert_eq!(large, vec![0x9000_0000]);
}

#[test]
fn large_offsets_are_indexed_in_order() {
    let offsets = [1u64, 0x8000_0000, 7, 0x1_0000_0000, 0x7fff_ffff];
    let (fields, large) = encode_offsets(&offsets);
    assert_eq!(fields, vec![1, HIGH_BIT, 7, HIGH_BIT | 1, 0x7fff_ffff]);
    assert_eq!(large, vec![0x8000_0000, 0x1_0000_0000]);
    for (i, f) in fields.iter().enumerate() {
        if f & HIGH_BIT != 0 {
            assert_eq!(large[(f & 0x7fff_ffff) as usize], offsets[i]);
        } else {
            assert_eq!(*f as u64, offsets[i]);
        }
    }
}

#[test]
fn empty_entries_are_refused() {
    assert_eq!(check_preconditions(&[], Version::V2), Err(Violation::Empty));
}

#[test]
fn only_version_two_is_written() {
    let e = [entry(1, 1, 0, 0)];
    assert_eq!(check_preconditions(&e, Version::V1), Err(Violation::UnsupportedVersion));
    assert_eq!(check_preconditions(&e, Version::V2), Ok(()));
}

#[test]
fn unsorted_first_bytes_are_refused() {
    let e = [entry(0x05, 0, 0, 0), entry(0x01, 0, 0, 0)];
    assert_eq!(check_preconditions(&e, Version::V2), Err(Violation::Unsorted));
}

#[test]
fn equal_first_bytes_are_accepted() {
    let e = [entry(0x05, 0, 0, 0), entry(0x05, 1, 0, 0), entry(0x06, 0, 0, 0)];
    assert_eq!(check_preconditions(&e, Version::V2), Ok(()));
}

#[test]
fn version_numbers() {
    assert_eq!(Version::V1.number(), 1);
    assert_eq!(Version::V2.number(), 2);
}

#[test]
fn single_entry_index_layout() {
    let e = [entry(1, 1, 0xdead_beef, 5)];
    let (bytes, digest) = encode(&e, &[7u8; 20], Version::V2);
    assert_eq!(bytes.len(), 8 + 1024 + 20 + 4 + 4 + 20 + 20);
    assert_eq!(&bytes[0..4], &[0xff, b't', b'O', b'c']);
    assert_eq!(be32(&bytes, 4), 2);
    assert_eq!(be32(&bytes, 8), 0);
    assert_eq!(be32(&bytes, 8 + 4), 1);
    assert_eq!(be32(&bytes, 8 + 4 * 255), 1);
    assert_eq!(&bytes[1032..1052], &[1u8; 20]);
    assert_eq!(be32(&bytes, 1052), 0xdead_beef);
    assert_eq!(be32(&bytes, 1056), 5);
    assert_eq!(&bytes[1060..1080], &[7u8; 20]);
    assert_eq!(&bytes[1080..], &digest);
    assert_eq!(hex(&digest), "518cd3cb94eb7450c7f5c1fd9b30ffaea402f21a");
}

#[test]
fn index_round_trip() {
    let e = [
        entry(0, 0, 1, 12),
        entry(0, 1, 2, 0x9000_0000),
        entry(5, 5, 3, 0x7fff_ffff),
        entry(0xff, 0xff, 4, 0x1_0000_0000),
    ];
    assert_eq!(check_preconditions(&e, Version::V2), Ok(()));
    let (bytes, digest) = encode(&e, &[9u8; 20], Version::V2);
    let n = e.len();
    assert_eq!(bytes.len(), 1032 + 28 * n + 8 * 2 + 40);
    assert_eq!(be32(&bytes, 8 + 4 * 0x00), 2);
    assert_eq!(be32(&bytes, 8 + 4 * 0x05), 3);
    assert_eq!(be32(&bytes, 8 + 4 * 0xff), 4);
    for (i, x) in e.iter().enumerate() {
        assert_eq!(&bytes[1032 + 20 * i..1052 + 20 * i], &x.id);
        assert_eq!(be32(&bytes, 1032 + 20 * n + 4 * i), x.crc32);
        let field = be32(&bytes, 1032 + 24 * n + 4 * i);
        let offset = if field & HIGH_BIT != 0 {
            be64(&bytes, 1032 + 28 * n + 8 * (field & 0x7fff_ffff) as usize)
        } else {
            field as u64
        };
        assert_eq!(offset, x.offset);
    }
    assert_eq!(&bytes[bytes.len() - 20..], &digest);
    assert_eq!(hex(&digest), "51ea5ad278c9add298d1db4483b9e1859679beef");
}

#[test]
fn options_default_is_open() {
    let o = Options::default();
    assert!(!o.secret);
}
