//! An embeddable ordered key-value store core: MVCC key encoding, write-ahead
//! and value logs, sorted-table building and reading, manifest bookkeeping,
//! and snapshot-isolation transaction machinery.

pub mod bloom;
pub mod checksum;
pub mod db;
pub mod codec;
pub mod discard;
pub mod entry;
pub mod error;
pub mod filename;
pub mod kv;
pub mod manifest;
pub mod memtable;
pub mod options;
pub mod oracle;
pub mod table;
pub mod txn;
pub mod value;
pub mod vlog;
pub mod wal;
pub mod watermark;
