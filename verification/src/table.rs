//! Sorted tables: the immutable block-framed files that memtables flush
//! into. The builder lays out prefix-compressed blocks with checksums and
//! an index; the reader parses the footer, checks the index checksum, and
//! serves blocks; the iterators walk entries in key order.

pub mod builder;
pub mod iter;
pub mod reader;
