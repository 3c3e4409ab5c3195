//! The write-ahead log, replay, the memtable, and discard statistics.

use badgerkv::discard::DiscardStats;
use badgerkv::entry::{Entry, META_FIN_TXN, META_TXN};
use badgerkv::kv::key_with_ts;
use badgerkv::memtable::MemTable;
use badgerkv::wal::LogBuf;

fn plain_entry(key: &[u8], value: &[u8]) -> Entry {
    Entry::new(key_with_ts(key.to_vec(), 0), value.to_vec())
}

#[test]
fn test_wal_replay_plain_entries() {
    let mut lb = LogBuf::bootstrap(1);
    let e1 = plain_entry(b"k1", b"v1");
    let e2 = plain_entry(b"k2", b"v2");
    lb.write_entry(&e1);
    lb.write_entry(&e2);

    let (items, valid_end) = lb.iterate(0);
    assert_eq!(items.len(), 2);
    assert_eq!(items[0].0.key, e1.key);
    assert_eq!(items[0].0.value, b"v1".to_vec());
    assert_eq!(items[1].0.value, b"v2".to_vec());
    assert_eq!(valid_end as usize, lb.write_at);
    assert_eq!(items[0].1.fid, 1);
    assert_eq!(items[0].1.offset, 20);
}

#[test]
fn test_wal_tail_corruption_truncates() {
    let mut lb = LogBuf::bootstrap(1);
    let e1 = plain_entry(b"k1", b"v1");
    let e2 = plain_entry(b"k2", b"v2");
    lb.write_entry(&e1);
    let good_end = lb.write_at;
    lb.write_entry(&e2);

    // Corrupt the last entry's checksum: replay keeps everything before
    // the damage and reports the end of the last good frame.
    let last = lb.write_at - 1;
    lb.data[last] ^= 0xff;
    let (items, valid_end) = lb.iterate(0);
    assert_eq!(items.len(), 1);
    assert_eq!(items[0].0.value, b"v1".to_vec());
    assert_eq!(valid_end as usize, good_end);
}

#[test]
fn test_wal_txn_window() {
    let mut lb = LogBuf::bootstrap(1);
    let commit_ts: u64 = 6;

    let mut t1 = Entry::new(key_with_ts(b"a".to_vec(), commit_ts), b"1".to_vec());
    t1.meta = META_TXN;
    let mut t2 = Entry::new(key_with_ts(b"b".to_vec(), commit_ts), b"2".to_vec());
    t2.meta = META_TXN;
    let mut fin = Entry::new(key_with_ts(b"!txn".to_vec(), commit_ts), b"6".to_vec());
    fin.meta = META_FIN_TXN;

    lb.write_entry(&t1);
    let mid = lb.write_at;
    lb.write_entry(&t2);
    lb.write_entry(&fin);
    let all = lb.write_at;

    // The whole transaction is delivered once its end marker arrives.
    let (items, valid_end) = lb.iterate(0);
    assert_eq!(items.len(), 2);
    assert_eq!(valid_end as usize, all);

    // Without the end marker nothing of the window is delivered.
    let mut lb2 = LogBuf::bootstrap(1);
    lb2.write_entry(&t1);
    lb2.write_entry(&t2);
    let (items2, valid_end2) = lb2.iterate(0);
    assert_eq!(items2.len(), 0);
    assert_eq!(valid_end2, 20);
    let _ = mid;

    // An end marker with the wrong commit timestamp breaks the window.
    let mut lb3 = LogBuf::bootstrap(1);
    let mut bad_fin = clone_entry(&fin);
    bad_fin.value = b"7".to_vec();
    lb3.write_entry(&t1);
    lb3.write_entry(&bad_fin);
    let (items3, valid_end3) = lb3.iterate(0);
    assert_eq!(items3.len(), 0);
    assert_eq!(valid_end3, 20);
}

fn clone_entry(e: &Entry) -> Entry {
    Entry {
        key: e.key.clone(),
        value: e.value.clone(),
        expires_at: e.expires_at,
        version: e.version,
        user_meta: e.user_meta,
        meta: e.meta,
        offset: e.offset,
        header_len: e.header_len,
        value_threshold: e.value_threshold,
    }
}

#[test]
fn test_memtable_put_get_replay() {
    let mut mt = MemTable::new(1);
    let k1 = key_with_ts(b"alpha".to_vec(), 3);
    let k2 = key_with_ts(b"beta".to_vec(), 7);
    let mut e1 = Entry::new(k1.clone(), b"v-alpha".to_vec());
    e1.version = 3;
    let mut e2 = Entry::new(k2.clone(), b"v-beta".to_vec());
    e2.version = 7;
    mt.put(&e1);
    mt.put(&e2);
    assert_eq!(mt.len(), 2);
    assert_eq!(mt.max_version(), 7);
    assert_eq!(mt.get(&k1).unwrap().value, b"v-alpha".to_vec());
    assert_eq!(mt.get(&k2).unwrap().value, b"v-beta".to_vec());
    assert!(mt.get(&key_with_ts(b"gamma".to_vec(), 1)).is_none());

    // Overwriting a key replaces its value, not its slot count.
    let mut e1b = Entry::new(k1.clone(), b"v-alpha-2".to_vec());
    e1b.version = 3;
    mt.put(&e1b);
    assert_eq!(mt.len(), 2);
    assert_eq!(mt.get(&k1).unwrap().value, b"v-alpha-2".to_vec());

    // A crash without sync: reopening from the log bytes rebuilds the map.
    let data = mt.wal.data.clone();
    let mt2 = MemTable::open(data, 1);
    assert_eq!(mt2.len(), 2);
    assert_eq!(mt2.max_version(), 7);
    assert_eq!(mt2.get(&k1).unwrap().value, b"v-alpha-2".to_vec());
    assert_eq!(mt2.get(&k2).unwrap().value, b"v-beta".to_vec());
    assert_eq!(mt2.wal.write_at, mt.wal.write_at);
}

#[test]
fn test_memtable_fin_txn_not_stored() {
    let mut mt = MemTable::new(1);
    let mut fin = Entry::new(key_with_ts(b"!txn".to_vec(), 5), b"5".to_vec());
    fin.meta = META_FIN_TXN;
    mt.put(&fin);
    assert_eq!(mt.len(), 0);
    assert_eq!(mt.max_version(), 0);
}

#[test]
fn test_discard_stats() {
    let mut ds = DiscardStats::new();
    let (fid, _) = ds.max_discard();
    assert_eq!(fid, 0);

    for i in 1..20u64 {
        assert_eq!(i as i64 * 100, ds.update(i, i as i64 * 100));
    }
    for (id, val) in ds.iterate() {
        assert_eq!(id * 100, val);
    }
    // A negative delta adds and clamps at zero.
    for i in 1..10u64 {
        assert_eq!(i as i64 * 100 - 1, ds.update(i, -1));
    }
    assert_eq!(0, ds.update(3, -10_000));
    for (id, val) in ds.iterate() {
        if id == 3 {
            assert_eq!(0, val);
        } else if id < 10 {
            assert_eq!(id * 100 - 1, val);
        } else {
            assert_eq!(id * 100, val);
        }
    }
    let (max_fid, max_val) = ds.max_discard();
    assert_eq!(max_fid, 19);
    assert_eq!(max_val, 1900);

    // A zero delta reads without mutating.
    assert_eq!(ds.update(19, 0), 1900);
    assert_eq!(ds.max_discard(), (19, 1900));
}

#[test]
fn test_reload_discard_stats() {
    let mut ds = DiscardStats::new();
    ds.update(1, 1);
    ds.update(2, 1);
    ds.update(1, -1);

    let bytes = ds.encode();
    let ds2 = DiscardStats::decode(&bytes);
    assert_eq!(0, {
        let mut d = ds2;
        let r = d.update(1, 0);
        assert_eq!(1, d.update(2, 0));
        r
    });
}

#[test]
fn test_check_log_key_id() {
    // A short file carries no key id to refuse.
    assert!(badgerkv::wal::check_log_key_id(&vec![1u8; 10]).is_ok());
    // A zero key id is the only supported one.
    let mut data = vec![0u8; 40];
    assert!(badgerkv::wal::check_log_key_id(&data).is_ok());
    data[3] = 7;
    match badgerkv::wal::check_log_key_id(&data) {
        Err(badgerkv::error::Error::InvalidDataKeyID) => {},
        other => panic!("unexpected: {:?}", other),
    }
}

#[test]
fn test_plan_vlog_open() {
    // A duplicate id refuses the whole set.
    let fids = vec![1u32, 2, 1];
    let sizes = vec![100u64, 100, 100];
    assert!(badgerkv::vlog::plan_vlog_open(&fids, &sizes).is_err());
    // A header-only file is dropped unless it is the newest.
    let fids = vec![1u32, 2, 3];
    let sizes = vec![20u64, 50, 20];
    let keep = badgerkv::vlog::plan_vlog_open(&fids, &sizes).unwrap();
    assert_eq!(keep, vec![2u32, 3]);
}

#[test]
fn test_vlog_read_value_pointer() {
    let mut vl = badgerkv::vlog::ValueLog::new(1 << 20, 1000);
    let e = badgerkv::entry::Entry::new(
        badgerkv::kv::key_with_ts(b"key".to_vec(), 3),
        b"stored value".to_vec(),
    );
    let vp = vl.write_entry(&e, 5).unwrap();
    // The pointer leads back to the written value.
    let got = vl.read_value_pointer(&vp).unwrap();
    assert_eq!(got, b"stored value".to_vec());
    // A pointer naming no open file is refused.
    let missing = badgerkv::entry::ValuePointer { fid: 99, len: vp.len, offset: vp.offset };
    assert!(vl.read_value_pointer(&missing).is_err());
}

#[test]
fn test_watermark_balanced_run() {
    // Beginning an ascending run and closing it in order leaves the
    // mark at the largest index begun.
    let mut wm = badgerkv::watermark::WaterMark::new();
    wm.begin(3);
    wm.begin(5);
    wm.begin(9);
    assert_eq!(wm.done_until(), 0);
    wm.done(3);
    assert_eq!(wm.done_until(), 3);
    wm.done(5);
    assert_eq!(wm.done_until(), 5);
    wm.done(9);
    assert_eq!(wm.done_until(), 9);
}
