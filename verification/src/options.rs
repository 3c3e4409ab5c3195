//! Store configuration: the knobs the verified engine reads. Compaction
//! tuning lives with the external compactor and is not represented here.

use vstd::prelude::*;

use crate::error::Error;

verus! {

/// When sorted-table checksums are verified.
#[derive(Clone, Copy, Debug, PartialEq, Eq, Structural)]
pub enum ChecksumVerificationMode {
    NoVerification,
    OnTableRead,
    OnBlockRead,
    OnTableAndBlockRead,
}

impl Default for ChecksumVerificationMode {
    /// Checksums are not verified on reads unless asked for.
    fn default() -> (r: Self)
        ensures
            r == ChecksumVerificationMode::NoVerification,
    {
        ChecksumVerificationMode::NoVerification
    }
}

/// Options of a user-visible iterator.
pub struct IteratorOptions {}

/// The engine's configuration.
#[derive(Clone, Copy, Debug)]
pub struct Options {
    /// Fsync the memtable's log on every commit.
    pub sync_writes: bool,
    /// Log size at which a memtable counts as full.
    pub mem_table_size: usize,
    /// Values at least this long go to the value log.
    pub value_threshold: u32,
    /// Capacity of the immutable-memtable queue.
    pub num_memtables: u32,
    /// Target size of a sorted-table block.
    pub block_size: u32,
    /// Bloom bits per key; zero disables bloom filters.
    pub bloom_bits_per_key: isize,
    /// Rotation threshold of one value-log file, in bytes.
    pub value_log_file_size: usize,
    /// Rotation threshold of one value-log file, in entries.
    pub value_log_max_entries: usize,
    /// Whether the oracle tracks and checks conflict keys.
    pub detect_conflicts: bool,
    /// Byte offset of the banned-namespace id inside keys; negative
    /// disables namespace banning.
    pub namespace_offset: i64,
    /// The embedding application's magic, stored in the manifest.
    pub external_magic_version: u16,
    /// Most entries one transaction may hold.
    pub max_batch_count: u64,
    /// Largest estimated byte size one transaction may hold.
    pub max_batch_size: u64,
    /// Target size of a level-zero table.
    pub base_table_size: usize,
    /// Number of levels the tree may use.
    pub max_levels: u32,
    /// Level-zero table count that starts backpressure.
    pub num_level_zero_tables: u32,
    /// Level-zero table count that stalls writers; kept above the
    /// backpressure threshold.
    pub num_level_zero_tables_stall: u32,
    /// When to verify block and table checksums.
    pub cv_mode: ChecksumVerificationMode,
}

impl Default for Options {
    /// The defaults the store opens with.
    fn default() -> (r: Options)
        ensures
            r.mem_table_size == 0x4000000,
            r.value_log_file_size == 0x3fffffff,
            r.num_level_zero_tables_stall > r.num_level_zero_tables,
    {
        Options {
            sync_writes: false,
            mem_table_size: 0x4000000,
            value_threshold: 0x100000,
            num_memtables: 5,
            block_size: 4096,
            bloom_bits_per_key: 10,
            value_log_file_size: 0x3fffffff,
            value_log_max_entries: 1000000,
            detect_conflicts: true,
            namespace_offset: -1,
            external_magic_version: 0,
            max_batch_count: 100000,
            max_batch_size: 0xa00000,
            base_table_size: 0x200000,
            max_levels: 7,
            num_level_zero_tables: 5,
            num_level_zero_tables_stall: 15,
            cv_mode: ChecksumVerificationMode::NoVerification,
        }
    }
}

/// Validates the options a store is opened with: the value-log file size
/// must lie in `[1 MiB, 2 GiB)`.
pub fn check_options(opt: &Options) -> (r: Result<(), Error>)
    ensures
        r is Ok <==> 0x100000 <= opt.value_log_file_size < 0x80000000,
        r is Err ==> r == Result::<(), Error>::Err(Error::ValueLogSize(opt.value_log_file_size)),
{
    if opt.value_log_file_size < 0x100000 || opt.value_log_file_size >= 0x80000000 {
        return Err(Error::ValueLogSize(opt.value_log_file_size));
    }
    Ok(())
}

} // verus!
