//! End-to-end scenarios over the engine's pieces: a committed transaction
//! surviving a reopen, and scanning a large table from a seek position.

use badgerkv::entry::Entry;
use badgerkv::kv::{key_with_ts, parse_key};
use badgerkv::memtable::MemTable;
use badgerkv::oracle::Oracle;
use badgerkv::table::builder::{Builder, Options};
use badgerkv::table::iter::TableIterator;
use badgerkv::table::reader::Table;
use badgerkv::txn::Txn;
use badgerkv::value::ValueStruct;

#[test]
fn test_commit_then_reopen() {
    // One transaction writes two keys; its framed entries go through the
    // write-ahead log; a reopen from the log bytes sees both values.
    let mut orc = Oracle::new(true);
    orc.set_next_txn_ts(5);
    let mut txn = Txn::new(4, true, true, 1 << 20, 10 << 20, 1 << 20);
    let banned: Vec<u64> = Vec::new();
    txn.modify(Entry::new(b"k1".to_vec(), b"v1".to_vec()), -1, &banned).unwrap();
    txn.modify(Entry::new(b"k2".to_vec(), b"v2".to_vec()), -1, &banned).unwrap();

    let mut writes = Vec::new();
    std::mem::swap(&mut writes, &mut txn.conflict_keys);
    let commit_ts = orc.new_commit_ts(4, 0, &txn.reads, writes).unwrap();
    assert_eq!(commit_ts, 5);

    let mut mt = MemTable::new(1);
    for e in txn.commit_entries(commit_ts) {
        mt.put(&e);
    }
    // The end marker frames the log but is not a record.
    assert_eq!(mt.len(), 2);

    // Crash and reopen: the transaction is complete in the log, so replay
    // delivers all of it.
    let mt2 = MemTable::open(mt.wal.data.clone(), 1);
    assert_eq!(mt2.len(), 2);
    let k1 = key_with_ts(b"k1".to_vec(), commit_ts);
    let k2 = key_with_ts(b"k2".to_vec(), commit_ts);
    assert_eq!(mt2.get(&k1).unwrap().value, b"v1".to_vec());
    assert_eq!(mt2.get(&k2).unwrap().value, b"v2".to_vec());
    assert_eq!(mt2.max_version(), commit_ts);
}

#[test]
fn test_commit_torn_tail_not_replayed() {
    // A transaction whose end marker never reached the log is invisible
    // after a reopen.
    let mut txn = Txn::new(4, true, true, 1 << 20, 10 << 20, 1 << 20);
    let banned: Vec<u64> = Vec::new();
    txn.modify(Entry::new(b"k1".to_vec(), b"v1".to_vec()), -1, &banned).unwrap();

    let mut entries = txn.commit_entries(5);
    entries.pop();
    let mut mt = MemTable::new(1);
    for e in &entries {
        mt.put(e);
    }

    let mt2 = MemTable::open(mt.wal.data.clone(), 1);
    assert_eq!(mt2.len(), 0);
    assert_eq!(mt2.wal.write_at, 20);
}

#[test]
fn test_seek_then_scan_to_end() {
    // Ten thousand keys; seeking an early key and iterating forward
    // observes every later key, in order.
    let n: u32 = 10000;
    let opts = Options {
        table_size: 30 << 20,
        bloom_bits_per_key: 10,
        block_size: 4 * 1024,
        cv_mode: badgerkv::options::ChecksumVerificationMode::NoVerification,
    };
    let mut builder = Builder::new(opts);
    for i in 0..n {
        builder.add(
            key_with_ts(format!("key{:04}", i).into_bytes(), 0),
            ValueStruct::new(format!("{}", i).into_bytes()),
            0,
        );
    }
    let table = Table::open(builder.finish(), 1, opts).unwrap();
    let mut it = TableIterator::new(table);

    assert!(it.seek(&key_with_ts(b"key1010".to_vec(), 0)));
    let mut expected = 1010u32;
    while it.valid() {
        assert_eq!(parse_key(&it.key()), format!("key{:04}", expected).into_bytes());
        expected += 1;
        it.next();
    }
    assert_eq!(expected, n);
}
