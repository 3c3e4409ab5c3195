//! Byte codecs, hashes and key encoding.

use badgerkv::bloom::{hash, Filter};
use badgerkv::checksum::calculate_checksum;
use badgerkv::codec::{
    bytes_to_u32, bytes_to_u32_vec, get_varint, parse_u64_dec, put_u32_be, put_u64_be, put_varint,
    read_u32_be, read_u64_be, u64_to_dec,
};
use badgerkv::kv::{compare_keys, key_with_ts, parse_key, parse_ts};

#[test]
fn test_hash() {
    let test_cases: Vec<(&str, u32)> = vec![
        ("", 0xbc9f1d34),
        ("g", 0xd04a8bda),
        ("go", 0x3e0b0745),
        ("gop", 0x0c326610),
        ("goph", 0x8c9d6390),
        ("gophe", 0x9bfd4b0a),
        ("gopher", 0xa78edc7c),
        ("I had a dream it would end this way.", 0xe14a9db9),
    ];
    for (s, want) in test_cases {
        println!("s: {}, want: {}", s, want);
        let got = hash(s.as_bytes().to_vec());
        assert_eq!(got, want);
    }
}

#[test]
fn test_crc32() {
    let castagnoli = crc::Crc::<u32>::new(&crc::CRC_32_ISCSI);
    let r = castagnoli.checksum("hello world".as_bytes());
    println!("{}", r);

    let mut d = castagnoli.digest();
    d.update("hello".as_bytes());
    d.update(" world".as_bytes());
    let two_steps = d.finalize();
    assert_eq!(r, two_steps);

    let lib = calculate_checksum(
        "hello world".as_bytes(),
        badgerkv::checksum::Algorithm::Crc32c,
    );
    assert_eq!(lib, r as u64);
}

#[test]
fn test_varint_roundtrip() {
    for x in [0u64, 1, 127, 128, 300, 65535, 1 << 20, u64::MAX - 1, u64::MAX] {
        let mut buf = Vec::new();
        put_varint(&mut buf, x);
        let (v, n) = get_varint(&buf, 0).expect("varint should decode");
        assert_eq!(v, x);
        assert_eq!(n, buf.len());
    }
}

#[test]
fn test_varint_rejects_unterminated() {
    let buf = vec![0x80u8; 12];
    assert!(get_varint(&buf, 0).is_none());
    assert!(get_varint(&[], 0).is_none());
}

#[test]
fn test_be_roundtrip() {
    let mut buf = Vec::new();
    put_u32_be(&mut buf, 0xdeadbeef);
    put_u64_be(&mut buf, 0x0123456789abcdef);
    assert_eq!(read_u32_be(&buf, 0), 0xdeadbeef);
    assert_eq!(read_u64_be(&buf, 4), 0x0123456789abcdef);
    assert_eq!(bytes_to_u32(&buf[0..4]), 0xdeadbeef);
    let words = bytes_to_u32_vec(&buf);
    assert_eq!(words, vec![0xdeadbeef, 0x01234567, 0x89abcdef]);
}

#[test]
fn test_decimal_roundtrip() {
    for x in [0u64, 7, 10, 123456789, u64::MAX] {
        let d = u64_to_dec(x);
        assert_eq!(String::from_utf8(d.clone()).unwrap(), format!("{}", x));
        assert_eq!(parse_u64_dec(&d), Some(x));
    }
    assert_eq!(parse_u64_dec(b"007"), Some(7));
    assert_eq!(parse_u64_dec(b""), None);
    assert_eq!(parse_u64_dec(b"12a"), None);
    assert_eq!(parse_u64_dec(b"99999999999999999999999"), None);
}

#[test]
fn test_key_roundtrip() {
    let key = key_with_ts(b"user-key".to_vec(), 42);
    assert_eq!(key.len(), 8 + 8);
    assert_eq!(parse_key(&key), b"user-key".to_vec());
    assert_eq!(parse_ts(&key), 42);
    assert_eq!(parse_key(&[]), Vec::<u8>::new());
}

#[test]
fn test_version_ordering() {
    // For one user key, a larger version sorts strictly before a smaller one.
    let newer = key_with_ts(b"k".to_vec(), 9);
    let older = key_with_ts(b"k".to_vec(), 3);
    assert_eq!(compare_keys(&newer, &older), std::cmp::Ordering::Less);
    assert_eq!(compare_keys(&older, &newer), std::cmp::Ordering::Greater);
    assert_eq!(compare_keys(&newer, &newer), std::cmp::Ordering::Equal);

    let a = key_with_ts(b"aaa".to_vec(), 1);
    let b = key_with_ts(b"aab".to_vec(), 9);
    assert_eq!(compare_keys(&a, &b), std::cmp::Ordering::Less);
}

#[test]
fn test_bloom_membership() {
    let keys: Vec<u32> = (0..1000u32).map(|i| hash(format!("key{:04}", i).into_bytes())).collect();
    let f = Filter::new(&keys, 10);
    let bits = f.bloom();
    for h in &keys {
        assert!(Filter::may_contain(bits, *h));
    }
    // A small bloom filter over many keys may err towards presence, but a
    // foreign key set must mostly miss at ten bits per key.
    let mut false_positives = 0;
    for i in 0..1000u32 {
        let h = hash(format!("other{:04}", i).into_bytes());
        if Filter::may_contain(bits, h) {
            false_positives += 1;
        }
    }
    assert!(false_positives < 100, "false positives: {}", false_positives);
}

#[test]
fn test_filenames() {
    assert_eq!(badgerkv::filename::id_to_filename(1), "00001.sst");
    assert_eq!(badgerkv::filename::id_to_filename(123456), "123456.sst");
    assert_eq!(badgerkv::filename::new_filename(7, "/tmp/db"), "/tmp/db/00007.sst");
    assert_eq!(badgerkv::filename::parse_file_id("00001.sst").unwrap(), 1);
    assert_eq!(badgerkv::filename::parse_file_id("123456.sst").unwrap(), 123456);
    assert!(badgerkv::filename::parse_file_id("00000.sst").is_err());
    assert!(badgerkv::filename::parse_file_id("x.sst").is_err());
    assert!(badgerkv::filename::parse_file_id("00001.mem").is_err());
    assert!(badgerkv::filename::parse_file_id("sst").is_err());
}
