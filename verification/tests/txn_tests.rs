//! Transactions, the oracle, the watermark and the value log.

use badgerkv::entry::Entry;
use badgerkv::error::Error;
use badgerkv::oracle::Oracle;
use badgerkv::txn::{mem_hash, Txn};
use badgerkv::vlog::{estimate_request_size, sort_fids, validate_writes, ValueLog};
use badgerkv::watermark::WaterMark;

fn new_txn(update: bool) -> Txn {
    Txn::new(5, update, true, 1 << 20, 10 << 20, 32)
}

const NO_BAN: i64 = -1;

#[test]
fn test_txn_simple() {
    let banned: Vec<u64> = Vec::new();
    let mut txn = new_txn(true);

    for i in 0..10 {
        let key = format!("key={}", i).into_bytes();
        let value = format!("val={}", i).into_bytes();
        txn.modify(Entry::new(key, value), NO_BAN, &banned).expect("set_entry fail");
    }

    let item = txn
        .read_own_writes(b"key=8", 0, NO_BAN, &banned)
        .expect("get item fail")
        .expect("pending write should be visible");
    assert_eq!(item.value(), &b"val=8".to_vec());
    assert_eq!(item.version(), 5);
}

#[test]
fn test_txn_validations() {
    let banned: Vec<u64> = Vec::new();

    let mut ro = new_txn(false);
    assert_eq!(
        ro.modify(Entry::new(b"k".to_vec(), b"v".to_vec()), NO_BAN, &banned).unwrap_err(),
        Error::ReadOnlyTxn
    );

    let mut t = new_txn(true);
    assert_eq!(
        t.modify(Entry::new(Vec::new(), b"v".to_vec()), NO_BAN, &banned).unwrap_err(),
        Error::EmptyKey
    );
    assert_eq!(
        t.modify(Entry::new(b"!badger!key".to_vec(), b"v".to_vec()), NO_BAN, &banned)
            .unwrap_err(),
        Error::InvalidKey
    );
    let big_key = vec![b'x'; 65001];
    assert_eq!(
        t.modify(Entry::new(big_key, b"v".to_vec()), NO_BAN, &banned).unwrap_err(),
        Error::KeyTooBig
    );
    let big_value = vec![0u8; (1 << 20) + 1];
    assert_eq!(
        t.modify(Entry::new(b"k".to_vec(), big_value), NO_BAN, &banned).unwrap_err(),
        Error::ValueTooBig
    );

    // A key whose namespace id is banned is refused, including a key of
    // exactly offset-plus-eight bytes.
    let banned_ns = vec![42u64 << 8 | 1];
    let exact_key: Vec<u8> = (42u64 << 8 | 1).to_be_bytes().to_vec();
    assert_eq!(
        t.modify(Entry::new(exact_key, b"v".to_vec()), 0, &banned_ns).unwrap_err(),
        Error::BannedKey
    );
    let longer_key: Vec<u8> = {
        let mut k = (42u64 << 8 | 1).to_be_bytes().to_vec();
        k.push(7);
        k
    };
    assert_eq!(
        t.modify(Entry::new(longer_key, b"v".to_vec()), 0, &banned_ns).unwrap_err(),
        Error::BannedKey
    );

    // A transaction past its size budget is refused.
    let mut small = Txn::new(5, true, true, 1 << 20, 40, 32);
    assert!(small.modify(Entry::new(b"a".to_vec(), b"1".to_vec()), NO_BAN, &banned).is_ok());
    assert_eq!(
        small.modify(Entry::new(b"b".to_vec(), b"2".to_vec()), NO_BAN, &banned).unwrap_err(),
        Error::TxnTooBig
    );

    // A discarded transaction refuses everything.
    let mut d = new_txn(true);
    assert!(d.discard());
    assert!(!d.discard());
    assert_eq!(
        d.modify(Entry::new(b"k".to_vec(), b"v".to_vec()), NO_BAN, &banned).unwrap_err(),
        Error::DiscardedTxn
    );
    assert_eq!(
        d.read_own_writes(b"k", 0, NO_BAN, &banned).unwrap_err(),
        Error::DiscardedTxn
    );
}

#[test]
fn test_commit_entries_framing() {
    let banned: Vec<u64> = Vec::new();
    let mut t = new_txn(true);
    t.modify(Entry::new(b"k1".to_vec(), b"v1".to_vec()), NO_BAN, &banned).unwrap();
    t.modify(Entry::new(b"k2".to_vec(), b"v2".to_vec()), NO_BAN, &banned).unwrap();

    let entries = t.commit_entries(6);
    assert_eq!(entries.len(), 3);
    for e in &entries[..2] {
        assert_eq!(e.version, 6);
        assert_ne!(e.meta & badgerkv::entry::META_TXN, 0);
    }
    let fin = &entries[2];
    assert_eq!(fin.meta, badgerkv::entry::META_FIN_TXN);
    assert_eq!(fin.value, b"6".to_vec());
    assert_eq!(badgerkv::kv::parse_ts(&fin.key), 6);
    assert_eq!(badgerkv::kv::parse_key(&fin.key), b"!badger!txn".to_vec());
}

#[test]
fn test_oracle_conflict() {
    // Two transactions begin at read_ts 5. The first commits a write to k
    // at commit_ts 6. The second read k, so its commit is refused; a third
    // that read nothing commits at 7.
    let mut orc = Oracle::new(true);
    orc.set_next_txn_ts(6);

    let k_hash = mem_hash(b"k");
    let t1_writes = vec![k_hash];
    let no_reads: Vec<u64> = Vec::new();
    let c1 = orc.new_commit_ts(5, 0, &no_reads, t1_writes).unwrap();
    assert_eq!(c1, 6);
    assert_eq!(orc.next_txn_ts(), 7);

    let t2_reads = vec![k_hash];
    let t2_writes = vec![k_hash];
    let err = orc.new_commit_ts(5, 0, &t2_reads, t2_writes).unwrap_err();
    assert_eq!(err, Error::Conflict);

    let t3_writes = vec![mem_hash(b"other")];
    let c3 = orc.new_commit_ts(5, 0, &no_reads, t3_writes).unwrap();
    assert_eq!(c3, 7);
}

#[test]
fn test_oracle_cleanup() {
    let mut orc = Oracle::new(true);
    orc.set_next_txn_ts(2);
    let w = vec![mem_hash(b"a")];
    let c = orc.new_commit_ts(1, 0, &Vec::new(), w).unwrap();
    assert_eq!(c, 2);

    // Once every reader has moved past the commit, it cannot conflict and
    // is dropped.
    orc.cleanup_committed(2);
    let reads = vec![mem_hash(b"a")];
    assert!(orc.new_commit_ts(1, 2, &reads, Vec::new()).is_ok());
}

#[test]
fn test_watermark() {
    let mut wm = WaterMark::new();
    assert_eq!(wm.done_until(), 0);
    assert!(!wm.wait_for_mark(1));

    wm.begin(1);
    wm.begin(2);
    assert_eq!(wm.done_until(), 0);
    assert_eq!(wm.last_index(), 2);

    // Completing out of order: the mark waits for the smallest index.
    wm.done(2);
    assert_eq!(wm.done_until(), 0);
    wm.done(1);
    assert_eq!(wm.done_until(), 2);
    assert!(wm.wait_for_mark(1));
    assert!(wm.wait_for_mark(2));
    assert!(!wm.wait_for_mark(3));

    // After balanced begin and done, the mark equals the largest index begun.
    wm.begin(5);
    wm.done(5);
    assert_eq!(wm.done_until(), 5);
}

#[test]
fn test_vlog_write_pointer() {
    let mut vl = ValueLog::new(1 << 20, 1000);
    let mut e = Entry::new(
        badgerkv::kv::key_with_ts(b"big".to_vec(), 1),
        b"hello world".to_vec(),
    );
    e.meta = badgerkv::entry::META_TXN;

    // The value is at the threshold, so it goes to the log.
    let vp = vl.write_entry(&e, 11).unwrap();
    assert_eq!(vp.fid, 1);
    assert_eq!(vp.offset, 20);
    assert!(vp.len >= 11 + 4 + 5, "len: {}", vp.len);

    // Below the threshold the value stays inline with the zero pointer.
    let small = Entry::new(badgerkv::kv::key_with_ts(b"s".to_vec(), 1), b"tiny".to_vec());
    let vp2 = vl.write_entry(&small, 100).unwrap();
    assert!(vp2.is_zero());

    // The stored frame carries the entry without its transaction bits.
    let file = &vl.files[vl.files.len() - 1];
    let (decoded, _) = Entry::decode_from_slice(&file.data, vp.offset as usize).unwrap();
    assert_eq!(decoded.value, b"hello world".to_vec());
    assert_eq!(decoded.meta & badgerkv::entry::META_TXN, 0);
}

#[test]
fn test_vlog_rotation() {
    let mut vl = ValueLog::new(64, 1000);
    let e = Entry::new(badgerkv::kv::key_with_ts(b"k".to_vec(), 1), vec![0u8; 64]);
    vl.write_entry(&e, 1).unwrap();
    assert!(vl.needs_rotation());
    vl.rotate();
    assert_eq!(vl.max_fid, 2);
    assert_eq!(vl.woffset(), 20);
    assert!(!vl.needs_rotation());
}

#[test]
fn test_validate_writes() {
    assert!(validate_writes(20, &vec![100, 200], 1 << 20).is_ok());
    // An offset that would pass the largest representable one is refused.
    let r = validate_writes(u32::MAX - 10, &vec![100], 1 << 20);
    assert!(r.is_err());
    // Rolling to a fresh file resets the simulated offset.
    assert!(validate_writes(20, &vec![1 << 20, 1 << 19], 1 << 20).is_ok());
}

#[test]
fn test_estimate_and_sort() {
    let e = Entry::new(b"abc".to_vec(), b"defgh".to_vec());
    let est = estimate_request_size(&vec![e]);
    // Two meta bytes, three one-byte varints, key, value, four CRC bytes.
    assert_eq!(est, 2 + 3 + 3 + 5 + 4);

    let sorted = sort_fids(&vec![2], &vec![5, 1, 2, 4]);
    assert_eq!(sorted, vec![1, 4, 5]);
    assert_eq!(badgerkv::db::next_mem_fid(&vec![3, 9, 4]), 10);
    assert_eq!(badgerkv::db::next_mem_fid(&Vec::new()), 1);
}

#[test]
fn test_check_options() {
    let mut opt = badgerkv::options::Options::default();
    assert!(badgerkv::options::check_options(&opt).is_ok());
    opt.value_log_file_size = 100;
    match badgerkv::options::check_options(&opt).unwrap_err() {
        Error::ValueLogSize(v) => assert_eq!(v, 100),
        other => panic!("unexpected error: {:?}", other),
    }
}
