//! The entry frame, value struct and value pointer codecs.

use badgerkv::entry::{
    is_deleted_or_expired, Entry, ValuePointer, META_DELETE, META_TXN,
};
use badgerkv::value::ValueStruct;

#[test]
fn test_entry() {
    let ent = Entry::new(b"key".to_vec(), b"value".to_vec());
    let mut buf = Vec::new();
    let n = ent.encode_with_buf(&mut buf);
    assert_eq!(n as usize, buf.len());

    let (ent_1, consumed) = Entry::decode_from_slice(&buf, 0).unwrap();
    assert_eq!(consumed, buf.len());
    assert_eq!(ent.key, ent_1.key, "key mismatch");
    assert_eq!(ent.value, ent_1.value, "value mismatch");
    assert_eq!(ent.meta, ent_1.meta, "meta mismatch");
    assert_eq!(ent.user_meta, ent_1.user_meta, "user_meta mismatch");
    assert_eq!(ent.expires_at, ent_1.expires_at, "expires_at mismatch");
}

#[test]
fn test_entry_truncation() {
    let mut ent = Entry::new(b"some-key".to_vec(), b"some-value".to_vec());
    ent.meta = META_TXN;
    ent.expires_at = 12345;
    let mut buf = Vec::new();
    let _ = ent.encode_with_buf(&mut buf);

    // Any strict prefix of a frame signals truncation.
    for cut in [0, 1, 2, 5, buf.len() - 1] {
        let r = Entry::decode_from_slice(&buf[..cut], 0);
        assert_eq!(r.unwrap_err(), badgerkv::error::Error::VLogTruncate);
    }

    // A corrupted checksum signals truncation too.
    let mut bad = buf.clone();
    let last = bad.len() - 1;
    bad[last] ^= 0xff;
    assert_eq!(
        Entry::decode_from_slice(&bad, 0).unwrap_err(),
        badgerkv::error::Error::VLogTruncate
    );
}

#[test]
fn test_value_pointer_roundtrip() {
    let vp = ValuePointer::new(3, 99, 1024);
    let enc = vp.encode();
    assert_eq!(enc.len(), 12);
    let back = ValuePointer::decode(&enc);
    assert_eq!(vp, back);
    assert_eq!(vp.len(), 99);
    assert!(ValuePointer::zero().is_zero());
    assert!(!vp.is_zero());
}

#[test]
fn test_value_struct_roundtrip() {
    let mut vs = ValueStruct::new(b"payload".to_vec());
    vs.meta = 0x41;
    vs.user_meta = 7;
    vs.expires_at = 99999;
    let enc = vs.encode_to_vec();
    assert_eq!(enc.len(), vs.encoded_size());
    let back = ValueStruct::decode(&enc).unwrap();
    assert_eq!(back.meta, 0x41);
    assert_eq!(back.user_meta, 7);
    assert_eq!(back.expires_at, 99999);
    assert_eq!(back.value, b"payload".to_vec());
    assert_eq!(back.version, 0);
}

#[test]
fn test_deleted_or_expired() {
    assert!(is_deleted_or_expired(META_DELETE, 0, 100));
    assert!(!is_deleted_or_expired(0, 0, 100));
    assert!(is_deleted_or_expired(0, 50, 100));
    assert!(is_deleted_or_expired(0, 100, 100));
    assert!(!is_deleted_or_expired(0, 101, 100));
}

#[test]
fn test_header_encode() {
    let h = badgerkv::table::builder::Header { overlap: 12, diff: 13 };
    let x = h.encode();
    println!("{:?}", x);
    let h2 = badgerkv::table::builder::Header::decode(&x);
    assert_eq!(h.overlap, h2.overlap);
    assert_eq!(h.diff, h2.diff);
}
