use intentdb::codec::FormatError;
use intentdb::hnsw::Hnsw;
use intentdb::record::{decode_db, encode_db, IntentRecord};

fn rec(id: &str, text: &str, vector: Vec<u32>, timestamp: u64, tags: &[&str]) -> IntentRecord {
    IntentRecord {
        id: id.to_string(),
        text: text.to_string(),
        vector,
        timestamp,
        tags: tags.iter().map(|t| t.to_string()).collect(),
    }
}

fn l1(a: &Vec<u32>, b: &Vec<u32>) -> u64 {
    a.iter().zip(b.iter()).map(|(x, y)| (*x as i64 - *y as i64).unsigned_abs()).sum()
}

#[test]
fn db_roundtrip_keeps_every_field() {
    let records = vec![
        rec("a1", "hello world", vec![1, 2, 3], 100, &["x", "y"]),
        rec("b2", "日本語のテキスト", vec![], 0, &[]),
        rec("c3", "", vec![0x3f80_0000], u64::MAX, &["only"]),
    ];
    let bytes = encode_db(&records);
    let back = decode_db(&bytes).unwrap();
    assert_eq!(back, records);
}

#[test]
fn db_layout_is_little_endian_with_magic() {
    let records = vec![rec("ab", "t", vec![7], 9, &["g"])];
    let bytes = encode_db(&records);
    let expected: Vec<u8> = vec![
        b'I', b'D', b'B', b'2', 1, 0, 0, 0, // magic, count
        2, 0, b'a', b'b', // id
        1, 0, 0, 0, b't', // text
        1, 0, 0, 0, 7, 0, 0, 0, // vector
        9, 0, 0, 0, 0, 0, 0, 0, // timestamp
        1, 0, 1, 0, b'g', // tags
    ];
    assert_eq!(bytes, expected);
}

#[test]
fn empty_db_roundtrip() {
    let bytes = encode_db(&vec![]);
    assert_eq!(bytes, vec![b'I', b'D', b'B', b'2', 0, 0, 0, 0]);
    assert_eq!(decode_db(&bytes).unwrap(), vec![]);
}

#[test]
fn db_version_one_has_no_tags() {
    let bytes: Vec<u8> = vec![
        b'I', b'D', b'B', b'1', 1, 0, 0, 0, 1, 0, b'z', 2, 0, 0, 0, b'h', b'i', 0, 0, 0, 0, 5, 0, 0, 0, 0, 0, 0, 0,
    ];
    let back = decode_db(&bytes).unwrap();
    assert_eq!(back, vec![rec("z", "hi", vec![], 5, &[])]);
}

#[test]
fn db_errors() {
    assert_eq!(decode_db(&[b'I', b'D']), Err(FormatError::Truncated));
    assert_eq!(decode_db(b"XXXX\0\0\0\0"), Err(FormatError::BadMagic));
    assert_eq!(decode_db(&[b'I', b'D', b'B', b'2', 1, 0, 0, 0]), Err(FormatError::Truncated));
    assert_eq!(decode_db(&[b'I', b'D', b'B', b'2', 0x81, 0x96, 0x98, 0]), Err(FormatError::TooManyRecords(10_000_001)));
    assert_eq!(FormatError::TooManyRecords(10_000_001).message(), "record count too large: 10000001");
    let bad_utf8: Vec<u8> = vec![b'I', b'D', b'B', b'2', 1, 0, 0, 0, 1, 0, 0xff];
    assert_eq!(decode_db(&bad_utf8), Err(FormatError::InvalidUtf8));
    let big_text: Vec<u8> = vec![b'I', b'D', b'B', b'2', 1, 0, 0, 0, 0, 0, 0x01, 0x00, 0xa0, 0x00];
    assert_eq!(decode_db(&big_text), Err(FormatError::TextTooLarge(10_485_761)));
    assert_eq!(FormatError::TextTooLarge(10_485_761).message(), "text field too large: 10485761 bytes");
    let big_vec: Vec<u8> = vec![b'I', b'D', b'B', b'2', 1, 0, 0, 0, 0, 0, 0, 0, 0, 0, 0x01, 0x40, 0, 0];
    assert_eq!(decode_db(&big_vec), Err(FormatError::VectorTooLarge(16_385)));
    assert_eq!(FormatError::VectorTooLarge(16_385).message(), "vector dimension too large: 16385");
    let many_tags: Vec<u8> = vec![
        b'I', b'D', b'B', b'2', 1, 0, 0, 0, 0, 0, 0, 0, 0, 0, 0, 0, 0, 0, 0, 0, 0, 0, 0, 0, 0, 0, 0x01, 0x04,
    ];
    assert_eq!(decode_db(&many_tags), Err(FormatError::TooManyTags(1_025)));
    assert_eq!(FormatError::TooManyTags(1_025).message(), "tag count too large: 1025");
    let big_tag: Vec<u8> = vec![
        b'I', b'D', b'B', b'2', 1, 0, 0, 0, 0, 0, 0, 0, 0, 0, 0, 0, 0, 0, 0, 0, 0, 0, 0, 0, 0, 0, 1, 0, 0x01, 0x10,
    ];
    assert_eq!(decode_db(&big_tag), Err(FormatError::TagTooLarge(4_097)));
    assert_eq!(FormatError::TagTooLarge(4_097).message(), "tag too large: 4097 bytes");
}

fn sample_index() -> Hnsw {
    let items: Vec<(String, Vec<u32>, usize)> = vec![
        ("a".to_string(), vec![0, 0], 0),
        ("b".to_string(), vec![10, 0], 1),
        ("c".to_string(), vec![0, 10], 0),
        ("d".to_string(), vec![10, 10], 2),
        ("e".to_string(), vec![5, 5], 0),
    ];
    Hnsw::build(items, &l1)
}

#[test]
fn new_index_is_empty() {
    let h = Hnsw::new();
    assert_eq!(h.len(), 0);
    assert!(h.is_empty());
    assert!(h.search(&vec![1, 2], 5, 50, &l1).is_empty());
}

#[test]
fn search_finds_nearest_first() {
    let h = sample_index();
    assert_eq!(h.len(), 5);
    assert!(!h.is_empty());
    let r = h.search(&vec![9, 9], 3, 50, &l1);
    assert_eq!(r.len(), 3);
    assert_eq!(r[0], (2, "d".to_string()));
    for w in r.windows(2) {
        assert!(w[0].0 <= w[1].0);
    }
    let exact = h.search(&vec![5, 5], 1, 50, &l1);
    assert_eq!(exact, vec![(0, "e".to_string())]);
}

#[test]
fn search_returns_at_most_k() {
    let h = sample_index();
    assert_eq!(h.search(&vec![0, 0], 2, 10, &l1).len(), 2);
    assert_eq!(h.search(&vec![0, 0], 0, 10, &l1).len(), 0);
    assert_eq!(h.search(&vec![0, 0], 50, 10, &l1).len(), 5);
    assert_eq!(h.search(&vec![0, 0], 5, 1, &l1).len(), 5);
}

#[test]
fn insert_adds_one_node() {
    let mut h = sample_index();
    h.insert("f".to_string(), vec![100, 100], 3, &l1);
    assert_eq!(h.len(), 6);
    assert_eq!(h.id(5), "f");
    let r = h.search(&vec![99, 99], 1, 50, &l1);
    assert_eq!(r, vec![(2, "f".to_string())]);
}

#[test]
fn index_save_load_roundtrip() {
    let h = sample_index();
    let bytes = h.save();
    assert_eq!(&bytes[0..4], b"HNW1");
    let back = Hnsw::load(&bytes).unwrap();
    assert_eq!(back.len(), h.len());
    assert_eq!(back.save(), bytes);
    assert_eq!(back.search(&vec![9, 9], 3, 50, &l1), h.search(&vec![9, 9], 3, 50, &l1));
}

#[test]
fn index_load_errors() {
    assert_eq!(Hnsw::load(b"HN").err(), Some(FormatError::Truncated));
    assert_eq!(Hnsw::load(b"ABCD0000000000000000").err(), Some(FormatError::NotAnIndex));
    assert_eq!(FormatError::NotAnIndex.message(), "invalid HNSW file format");
    let h = sample_index();
    let mut bytes = h.save();
    bytes.truncate(bytes.len() - 1);
    assert_eq!(Hnsw::load(&bytes).err(), Some(FormatError::Truncated));
}

#[test]
fn index_load_refuses_dangling_entry_point() {
    let mut bytes: Vec<u8> = b"HNW1".to_vec();
    bytes.extend_from_slice(&16u32.to_le_bytes());
    bytes.extend_from_slice(&200u32.to_le_bytes());
    bytes.extend_from_slice(&5i64.to_le_bytes());
    bytes.extend_from_slice(&0u32.to_le_bytes());
    bytes.extend_from_slice(&0u32.to_le_bytes());
    assert_eq!(Hnsw::load(&bytes).err(), Some(FormatError::Malformed));
    let mut empty: Vec<u8> = b"HNW1".to_vec();
    empty.extend_from_slice(&16u32.to_le_bytes());
    empty.extend_from_slice(&200u32.to_le_bytes());
    empty.extend_from_slice(&(-1i64).to_le_bytes());
    empty.extend_from_slice(&0u32.to_le_bytes());
    empty.extend_from_slice(&0u32.to_le_bytes());
    let h = Hnsw::load(&empty).unwrap();
    assert!(h.is_empty());
    assert_eq!(h.save(), empty);
}

#[test]
fn small_index_search_is_exact() {
    let vectors: Vec<Vec<u32>> = (0..30u32).map(|i| vec![i * 3 % 17, (i * 7) % 13]).collect();
    let items: Vec<(String, Vec<u32>, usize)> =
        vectors.iter().enumerate().map(|(i, v)| (format!("n{}", i), v.clone(), i % 3)).collect();
    let h = Hnsw::build(items, &l1);
    for q in [vec![0u32, 0], vec![8, 5], vec![16, 12]] {
        let mut want: Vec<u64> = vectors.iter().map(|v| l1(&q, v)).collect();
        want.sort();
        for (k, ef) in [(6usize, 40usize), (6, 1), (3, 0), (30, 2), (40, 5)] {
            let r = h.search(&q, k, ef, &l1);
            let got: Vec<u64> = r.iter().map(|(d, _)| *d).collect();
            assert_eq!(got, want[..k.min(30)].to_vec());
        }
    }
}
