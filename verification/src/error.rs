//! The error taxonomy surfaced to callers of the store.

use vstd::prelude::*;

verus! {

/// Every failure the store reports to its callers.
#[derive(Clone, Copy, Debug, PartialEq, Eq, Structural)]
pub enum Error {
    /// The `value_log_file_size` option is outside `[1 MiB, 2 GiB)`.
    ValueLogSize(usize),
    /// A read found no live version of the key.
    KeyNotFound,
    /// Too many writes were put into a single transaction.
    TxnTooBig,
    /// The transaction read a key that a later transaction wrote.
    Conflict,
    /// An update was attempted on a read-only transaction.
    ReadOnlyTxn,
    /// A discarded transaction was used again.
    DiscardedTxn,
    /// An empty key was passed to an update.
    EmptyKey,
    /// The key uses the reserved internal prefix.
    InvalidKey,
    /// The key falls into a banned namespace.
    BannedKey,
    /// A key exceeds the maximum key size.
    KeyTooBig,
    /// A value exceeds the value-log file size.
    ValueTooBig,
    /// Value log garbage collection needs a non-zero threshold.
    ThresholdZero,
    /// Value log garbage collection found nothing to rewrite.
    NoRewrite,
    /// Value log garbage collection was refused.
    Rejected,
    /// The request is malformed.
    InvalidRequest,
    /// The operation is reserved for externally managed transactions.
    ManagedTxn,
    /// The operation needs namespace mode.
    NamespaceMode,
    /// A data dump cannot be read back.
    InvalidDump,
    /// A sequence needs a bandwidth greater than zero.
    ZeroBandwidth,
    /// A log holds bytes past its last complete record and must be truncated.
    TruncateNeeded,
    /// Writes are blocked while the store drains or closes.
    BlockedWrites,
    /// The stored encryption key does not match the given one.
    EncryptionKeyMismatch,
    /// The data-key id is unknown.
    InvalidDataKeyID,
    /// An encryption key must be 16, 24 or 32 bytes.
    InvalidEncryptionKey,
    /// Value log garbage collection cannot run in in-memory mode.
    GCInMemoryMode,
    /// The store was closed.
    DBClosed,
    /// A log entry ends early or fails its checksum; replay stops here.
    VLogTruncate,
    /// The manifest does not start with the expected magic bytes.
    ManifestBadMagic,
    /// A manifest change set fails its checksum.
    ManifestBadChecksum,
    /// A manifest change set announces a length larger than the file.
    ManifestBadLength,
    /// The manifest format version is not the supported one: expected, got.
    ManifestVersionUnsupport(u16, u16),
    /// The manifest external magic does not match the configuration: expected, got.
    ManifestExtMagicMismatch(u16, u16),
    /// A manifest change creates a table id that already exists.
    ManifestTableExists(u64),
    /// A manifest change deletes a table id that does not exist.
    ManifestTableAbsent(u64),
    /// A checksum over stored bytes does not match the recorded one.
    ChecksumMismatch,
    /// A file name does not have the expected shape.
    BadFileName,
}

} // verus!
