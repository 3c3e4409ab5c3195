//! The sorted-table reader: parses the footer, verifies the index
//! checksum, decodes the index, and serves CRC-checked blocks.

use vstd::prelude::*;

use vstd::slice::{slice_subrange, slice_to_vec};

use crate::checksum::{decode_checksum, verify_checksum, Algorithm};
use crate::codec::{read_u32_be, u32_of_be, u64_of_be};
use crate::error::Error;
use crate::options::ChecksumVerificationMode;
use crate::table::builder::Options;

verus! {

/// The index fields kept unpacked for cheap access.
pub struct CheapIndex {
    pub max_version: u64,
    pub key_count: u32,
    pub uncompressed_size: u32,
    pub on_disk_size: u32,
    pub bloom_filter_len: usize,
    pub offsets_len: usize,
}

impl CheapIndex {
    /// Nothing known yet.
    pub fn empty() -> (r: CheapIndex)
        ensures
            r.max_version == 0,
            r.key_count == 0,
            r.uncompressed_size == 0,
            r.on_disk_size == 0,
            r.bloom_filter_len == 0,
            r.offsets_len == 0,
    {
        CheapIndex {
            max_version: 0,
            key_count: 0,
            uncompressed_size: 0,
            on_disk_size: 0,
            bloom_filter_len: 0,
            offsets_len: 0,
        }
    }
}

/// The decoded table index: per block its base key, byte offset and
/// length; the bloom filter; and the table's counters.
pub struct TableIndex {
    pub offsets: Vec<(Vec<u8>, u32, u32)>,
    pub bloom: Vec<u8>,
    pub max_version: u64,
    pub key_count: u32,
    pub on_disk_size: u32,
    pub stale_data_size: u32,
    pub uncompressed_size: u32,
}

/// The mathematical content of a decoded index.
#[verifier::ext_equal]
pub ghost struct IndexModel {
    pub offsets: Seq<(Seq<u8>, u32, u32)>,
    pub bloom: Seq<u8>,
    pub max_version: u64,
    pub key_count: u32,
    pub on_disk_size: u32,
    pub stale_data_size: u32,
    pub uncompressed_size: u32,
}

/// The offset list as mathematical values.
pub open spec fn offs_view(v: Seq<(Vec<u8>, u32, u32)>) -> Seq<(Seq<u8>, u32, u32)> {
    Seq::new(v.len(), |i: int| (v[i].0@, v[i].1, v[i].2))
}

/// Parses `remaining` block-offset records from `pos`: each a
/// four-byte big-endian key length, the key, then the block's offset and
/// length, four bytes big-endian each. `None` when the bytes end early
/// or a key length passes the cap.
pub open spec fn spec_parse_offsets(
    s: Seq<u8>,
    pos: int,
    remaining: int,
    acc: Seq<(Seq<u8>, u32, u32)>,
) -> Option<(Seq<(Seq<u8>, u32, u32)>, int)>
    decreases remaining when remaining >= 0
{
    if remaining <= 0 {
        Some((acc, pos))
    } else if s.len() - pos < 4 {
        None
    } else {
        let klen = u32_of_be(s.subrange(pos, pos + 4)) as int;
        if klen > 0xff00 || s.len() - pos - 4 < klen {
            None
        } else {
            let key = s.subrange(pos + 4, pos + 4 + klen);
            let pos2 = pos + 4 + klen;
            if s.len() - pos2 < 8 {
                None
            } else {
                let off = u32_of_be(s.subrange(pos2, pos2 + 4));
                let len = u32_of_be(s.subrange(pos2 + 4, pos2 + 8));
                spec_parse_offsets(s, pos2 + 8, remaining - 1, acc.push((key, off, len)))
            }
        }
    }
}

/// What the stored index bytes mean: the block count, that many offset
/// records, the length-prefixed bloom filter, then the five counters.
/// `None` when the bytes end early or announce impossible sizes.
pub open spec fn spec_parse_index(s: Seq<u8>) -> Option<IndexModel> {
    if s.len() < 4 {
        None
    } else {
        let count = u32_of_be(s.subrange(0, 4));
        if count >= 0x1000 {
            None
        } else {
            match spec_parse_offsets(s, 4, count as int, Seq::empty()) {
                None => None,
                Some((offs, pos)) => {
                    if s.len() - pos < 4 {
                        None
                    } else {
                        let bloom_len = u32_of_be(s.subrange(pos, pos + 4)) as int;
                        if s.len() - pos - 4 < bloom_len {
                            None
                        } else {
                            let bloom = s.subrange(pos + 4, pos + 4 + bloom_len);
                            let pos2 = pos + 4 + bloom_len;
                            if s.len() - pos2 < 24 {
                                None
                            } else {
                                Some(
                                    IndexModel {
                                        offsets: offs,
                                        bloom,
                                        max_version: u64_of_be(s.subrange(pos2, pos2 + 8)),
                                        key_count: u32_of_be(s.subrange(pos2 + 8, pos2 + 12)),
                                        on_disk_size: u32_of_be(s.subrange(pos2 + 12, pos2 + 16)),
                                        stale_data_size: u32_of_be(
                                            s.subrange(pos2 + 16, pos2 + 20),
                                        ),
                                        uncompressed_size: u32_of_be(
                                            s.subrange(pos2 + 20, pos2 + 24),
                                        ),
                                    },
                                )
                            }
                        }
                    }
                },
            }
        }
    }
}

/// Decodes an index from its stored bytes, exactly as the index grammar
/// reads them.
pub fn decode_index(data: &[u8]) -> (r: Option<TableIndex>)
    requires
        data@.len() < 0x6000_0000,
    ensures
        r is Some <==> spec_parse_index(data@) is Some,
        r is Some ==> {
            let ix = r->0;
            let m = spec_parse_index(data@)->0;
            &&& offs_view(ix.offsets@) == m.offsets
            &&& ix.bloom@ == m.bloom
            &&& ix.max_version == m.max_version
            &&& ix.key_count == m.key_count
            &&& ix.on_disk_size == m.on_disk_size
            &&& ix.stale_data_size == m.stale_data_size
            &&& ix.uncompressed_size == m.uncompressed_size
            &&& ix.offsets@.len() < 0x1000
            &&& ix.bloom@.len() <= data@.len()
        },
{
    let dlen = data.len();
    if dlen < 4 {
        return None;
    }
    let count = read_u32_be(data, 0);
    if count >= 0x1000 {
        return None;
    }
    let mut offsets: Vec<(Vec<u8>, u32, u32)> = Vec::new();
    let mut pos: usize = 4;
    let mut i: u32 = 0;
    proof {
        assert(offs_view(offsets@) =~= Seq::<(Seq<u8>, u32, u32)>::empty());
    }
    while i < count
        invariant
            dlen == data@.len(),
            dlen < 0x6000_0000,
            pos <= dlen,
            i <= count < 0x1000,
            4 <= dlen,
            count == u32_of_be(data@.subrange(0, 4)),
            offsets@.len() == i,
            spec_parse_offsets(data@, 4, count as int, Seq::empty()) == spec_parse_offsets(
                data@,
                pos as int,
                count - i,
                offs_view(offsets@),
            ),
        decreases count - i,
    {
        let ghost pre_pos = pos as int;
        let ghost pre_offs = offs_view(offsets@);
        if dlen - pos < 4 {
            proof {
                assert(spec_parse_offsets(data@, pre_pos, count - i, pre_offs) is None);
                assert(spec_parse_index(data@) is None);
            }
            return None;
        }
        let klen = read_u32_be(data, pos) as usize;
        if klen > 0xff00 || dlen - pos - 4 < klen {
            proof {
                assert(spec_parse_offsets(data@, pre_pos, count - i, pre_offs) is None);
                assert(spec_parse_index(data@) is None);
            }
            return None;
        }
        let key = slice_to_vec(slice_subrange(data, pos + 4, pos + 4 + klen));
        pos = pos + 4 + klen;
        if dlen - pos < 8 {
            return None;
        }
        let off = read_u32_be(data, pos);
        let len = read_u32_be(data, pos + 4);
        pos = pos + 8;
        offsets.push((key, off, len));
        proof {
            assert(offs_view(offsets@) =~= pre_offs.push((key@, off, len)));
        }
        i = i + 1;
    }
    proof {
        assert(spec_parse_offsets(data@, pos as int, 0, offs_view(offsets@)) == Some(
            (offs_view(offsets@), pos as int),
        ));
    }
    if dlen - pos < 4 {
        return None;
    }
    let bloom_len = read_u32_be(data, pos) as usize;
    if dlen - pos - 4 < bloom_len {
        return None;
    }
    let bloom = slice_to_vec(slice_subrange(data, pos + 4, pos + 4 + bloom_len));
    pos = pos + 4 + bloom_len;
    if dlen - pos < 24 {
        return None;
    }
    let max_version = crate::codec::read_u64_be(data, pos);
    let key_count = read_u32_be(data, pos + 8);
    let on_disk_size = read_u32_be(data, pos + 12);
    let stale_data_size = read_u32_be(data, pos + 16);
    let uncompressed_size = read_u32_be(data, pos + 20);
    Some(
        TableIndex {
            offsets,
            bloom,
            max_version,
            key_count,
            on_disk_size,
            stale_data_size,
            uncompressed_size,
        },
    )
}

/// One parsed block: its entry bytes (offsets and count included, as
/// checksummed), the checksum record's bytes, where the entry-offset list
/// starts, and the offsets themselves.
pub struct Block {
    pub offset: u32,
    pub data: Vec<u8>,
    pub checksum: Vec<u8>,
    pub entries_index_start: u32,
    pub entry_offsets: Vec<u32>,
}

impl Block {
    /// Checks the block's bytes against its stored checksum record; `Ok`
    /// exactly when the record parses, names CRC32C, and its sum equals
    /// the block bytes' checksum.
    pub fn verify_checksum(&self) -> (r: Result<(), Error>)
        ensures
            r is Ok <==> crate::checksum::checksum_wf(self.checksum@) && self.checksum@[0] == 0
                && crate::codec::varint_value(self.checksum@.skip(1)) == crate::checksum::crc32c_of(
                self.data@,
            ) as u64 as nat,
    {
        let cs = match decode_checksum(self.checksum.as_slice()) {
            Some(cs) => cs,
            None => {
                return Err(Error::ChecksumMismatch);
            },
        };
        match cs.algo {
            Algorithm::Crc32c => verify_checksum(&self.data, cs),
            Algorithm::XxHash64 => Err(Error::ChecksumMismatch),
        }
    }
}

/// What a block region's bytes mean: the trailing four bytes give the
/// checksum record's length, the record sits before them, the four bytes
/// before it count the entries, and that many four-byte entry offsets
/// precede the count. The checksummed data is everything up to and
/// including the count. `None` when the region is too short or the sizes
/// disagree.
pub open spec fn spec_parse_block(s: Seq<u8>) -> Option<(Seq<u8>, Seq<u8>, int, Seq<u32>)> {
    if s.len() < 12 {
        None
    } else {
        let csl = u32_of_be(s.subrange(s.len() - 4, s.len() as int)) as int;
        if csl > s.len() - 12 {
            None
        } else {
            let cs_start = s.len() - 4 - csl;
            let checksum = s.subrange(cs_start, cs_start + csl);
            if cs_start < 8 {
                None
            } else {
                let ne = u32_of_be(s.subrange(cs_start - 4, cs_start)) as int;
                if ne > (cs_start - 4) / 4 {
                    None
                } else {
                    let eis = cs_start - 4 - ne * 4;
                    Some(
                        (
                            s.subrange(0, cs_start),
                            checksum,
                            eis,
                            Seq::new(
                                ne as nat,
                                |i: int| u32_of_be(s.subrange(eis + 4 * i, eis + 4 * i + 4)),
                            ),
                        ),
                    )
                }
            }
        }
    }
}

/// Parses one block out of its byte region, exactly as the block grammar
/// reads it.
pub fn parse_block(region: &[u8], block_offset: u32) -> (r: Option<Block>)
    requires
        region@.len() < 0x6000_0000,
    ensures
        r is Some <==> spec_parse_block(region@) is Some,
        match r {
            Some(b) => {
                let m = spec_parse_block(region@)->0;
                &&& b.offset == block_offset
                &&& b.data@ == m.0
                &&& b.checksum@ == m.1
                &&& b.entries_index_start as int == m.2
                &&& b.entry_offsets@ == m.3
                &&& b.entries_index_start as int + 4 * b.entry_offsets@.len() + 4
                    <= b.data@.len()
                &&& b.data@.len() <= region@.len()
            },
            None => true,
        },
{
    let rlen = region.len();
    if rlen < 12 {
        return None;
    }
    let mut read_pos = rlen - 4;
    let checksum_len = read_u32_be(region, read_pos) as usize;
    if checksum_len > read_pos - 8 {
        return None;
    }
    read_pos = read_pos - checksum_len;
    let checksum = slice_to_vec(slice_subrange(region, read_pos, read_pos + checksum_len));
    if read_pos < 8 {
        return None;
    }
    read_pos = read_pos - 4;
    let num_entries = read_u32_be(region, read_pos) as usize;
    if num_entries > read_pos / 4 {
        return None;
    }
    let entries_index_start = read_pos - num_entries * 4;
    let mut entry_offsets: Vec<u32> = Vec::new();
    let mut i: usize = 0;
    while i < num_entries
        invariant
            rlen == region@.len(),
            entries_index_start + num_entries * 4 + 4 <= rlen,
            i <= num_entries,
            entry_offsets@.len() == i,
            forall|k: int|
                0 <= k < i ==> entry_offsets@[k] == u32_of_be(
                    region@.subrange(
                        entries_index_start + 4 * k,
                        entries_index_start + 4 * k + 4,
                    ),
                ),
        decreases num_entries - i,
    {
        entry_offsets.push(read_u32_be(region, entries_index_start + i * 4));
        i = i + 1;
    }
    proof {
        let m = spec_parse_block(region@)->0;
        assert(entry_offsets@ =~= m.3);
    }
    let data = slice_to_vec(slice_subrange(region, 0, read_pos + 4));
    Some(
        Block {
            offset: block_offset,
            data,
            checksum,
            entries_index_start: entries_index_start as u32,
            entry_offsets,
        },
    )
}

/// The block whose region the index names at (`off`, `len`) parses and
/// its bytes match its stored CRC32C record.
pub open spec fn block_ok(data: Seq<u8>, off: int, len: int) -> bool {
    let m = spec_parse_block(data.subrange(off, off + len));
    &&& 0 <= off
    &&& 0 <= len
    &&& off + len <= data.len()
    &&& m is Some
    &&& crate::checksum::checksum_wf((m->0).1)
    &&& (m->0).1[0] == 0
    &&& crate::codec::varint_value((m->0).1.skip(1)) == crate::checksum::crc32c_of(
        (m->0).0,
    ) as u64 as nat
}

/// Whether the mode asks for a checksum pass on each block read.
pub open spec fn block_read_check(mode: ChecksumVerificationMode) -> bool {
    mode == ChecksumVerificationMode::OnBlockRead || mode
        == ChecksumVerificationMode::OnTableAndBlockRead
}

/// Whether the mode asks for a checksum pass over the whole table at
/// open.
pub open spec fn table_read_check(mode: ChecksumVerificationMode) -> bool {
    mode == ChecksumVerificationMode::OnTableRead || mode
        == ChecksumVerificationMode::OnTableAndBlockRead
}

/// When serving block `idx` succeeds: the index names an in-range
/// region whose bytes parse as a block, and, where the mode asks, the
/// block passes its checksum.
pub open spec fn spec_block_served(
    data: Seq<u8>,
    offsets: Seq<(Seq<u8>, u32, u32)>,
    idx: int,
    mode: ChecksumVerificationMode,
) -> bool {
    &&& 0 <= idx < offsets.len()
    &&& ({
        let off = offsets[idx].1 as int;
        let len = offsets[idx].2 as int;
        &&& off + len <= data.len()
        &&& spec_parse_block(data.subrange(off, off + len)) is Some
        &&& (block_read_check(mode) ==> block_ok(data, off, len))
    })
}

/// When reading the last key of block `idx` succeeds: the block is
/// served and its last entry is well formed.
pub open spec fn spec_last_key_ok(
    data: Seq<u8>,
    offsets: Seq<(Seq<u8>, u32, u32)>,
    idx: int,
    mode: ChecksumVerificationMode,
) -> bool {
    &&& spec_block_served(data, offsets, idx, mode)
    &&& ({
        let off = offsets[idx].1 as int;
        let len = offsets[idx].2 as int;
        let m = spec_parse_block(data.subrange(off, off + len))->0;
        let bdata = m.0.subrange(0, m.2);
        &&& m.3.len() > 0
        &&& crate::table::iter::spec_set_idx_ok(bdata, m.3, Seq::empty(), m.3.len() - 1)
    })
}

/// The last key of block `idx`, under the same conditions.
pub open spec fn spec_last_key(
    data: Seq<u8>,
    offsets: Seq<(Seq<u8>, u32, u32)>,
    idx: int,
) -> Seq<u8> {
    let off = offsets[idx].1 as int;
    let len = offsets[idx].2 as int;
    let m = spec_parse_block(data.subrange(off, off + len))->0;
    let bdata = m.0.subrange(0, m.2);
    (crate::table::iter::spec_entry_at(bdata, m.3, m.3.len() - 1)->0).0
}

/// When opening a table image succeeds: the footer names an index
/// region, the stored record is a CRC32C checksum that matches the
/// index bytes, the index parses and is nonempty, the last block yields
/// its last key, and, where the mode asks, every block passes its
/// checksum.
pub open spec fn spec_open_ok(data: Seq<u8>, mode: ChecksumVerificationMode) -> bool {
    &&& spec_index_region(data) is Some
    &&& ({
        let (ist, isz, csb) = spec_index_region(data)->0;
        let ibytes = data.subrange(ist, ist + isz);
        &&& crate::checksum::checksum_wf(csb)
        &&& csb[0] == 0
        &&& crate::codec::varint_value(csb.skip(1)) == crate::checksum::crc32c_of(
            ibytes,
        ) as u64 as nat
        &&& spec_parse_index(ibytes) is Some
        &&& ({
            let m = spec_parse_index(ibytes)->0;
            &&& m.offsets.len() > 0
            &&& spec_last_key_ok(data, m.offsets, m.offsets.len() - 1, mode)
            &&& (table_read_check(mode) ==> forall|k: int|
                0 <= k < m.offsets.len() ==> #[trigger] block_ok(
                    data,
                    m.offsets[k].1 as int,
                    m.offsets[k].2 as int,
                ))
        })
    })
}

/// An open sorted table: the file image, the decoded index, and the keys
/// at its ends.
pub struct Table {
    pub data: Vec<u8>,
    pub id: u64,
    pub index: TableIndex,
    pub cheap: CheapIndex,
    pub smallest: Vec<u8>,
    pub biggest: Vec<u8>,
    pub index_size: usize,
    pub has_bloom_filter: bool,
    pub opt: Options,
}

/// Where a table image keeps its index: the last four bytes give the
/// index checksum record's length, the record sits before them, the four
/// bytes before it give the index's size, and the index bytes precede
/// them. Yields (index start, index size, checksum record bytes).
pub open spec fn spec_index_region(s: Seq<u8>) -> Option<(int, int, Seq<u8>)> {
    if s.len() < 8 {
        None
    } else {
        let csl = u32_of_be(s.subrange(s.len() - 4, s.len() as int)) as int;
        if csl > s.len() - 8 {
            None
        } else {
            let cs_start = s.len() - 4 - csl;
            if cs_start < 4 {
                None
            } else {
                let isz = u32_of_be(s.subrange(cs_start - 4, cs_start)) as int;
                if isz > cs_start - 4 {
                    None
                } else {
                    Some((cs_start - 4 - isz, isz, s.subrange(cs_start, cs_start + csl)))
                }
            }
        }
    }
}

impl Table {
    /// Opens a table image: reads the footer, verifies the index's
    /// checksum against its stored record, decodes the index, and finds
    /// the smallest and biggest keys. On success every field is what the
    /// bytes say: the index is the parse of the stored index region, the
    /// cheap copy mirrors it, and the smallest key is the first block's
    /// base key. Fails when the footer is malformed, the index checksum
    /// does not match, the index does not parse or is empty, or the last
    /// block cannot be read.
    pub fn open(data: Vec<u8>, id: u64, opt: Options) -> (r: Result<Table, Error>)
        requires
            data@.len() < 0x6000_0000,
        ensures
            r is Ok <==> spec_open_ok(data@, opt.cv_mode),
            r is Err ==> r->Err_0 == Error::ChecksumMismatch,
            match r {
                Ok(t) => {
                    &&& t.data@ == data@
                    &&& t.id == id
                    &&& t.opt == opt
                    &&& spec_index_region(data@) is Some
                    &&& {
                        let (ist, isz, csb) = spec_index_region(data@)->0;
                        let ibytes = data@.subrange(ist, ist + isz);
                        &&& t.index_size == isz
                        &&& crate::checksum::checksum_wf(csb)
                        &&& spec_parse_index(ibytes) is Some
                        &&& {
                            let m = spec_parse_index(ibytes)->0;
                            &&& offs_view(t.index.offsets@) == m.offsets
                            &&& t.index.bloom@ == m.bloom
                            &&& t.index.max_version == m.max_version
                            &&& t.index.key_count == m.key_count
                            &&& t.index.on_disk_size == m.on_disk_size
                            &&& t.index.stale_data_size == m.stale_data_size
                            &&& t.index.uncompressed_size == m.uncompressed_size
                            &&& m.offsets.len() > 0
                            &&& t.smallest@ == m.offsets[0].0
                            &&& t.biggest@ == spec_last_key(
                                data@,
                                m.offsets,
                                m.offsets.len() - 1,
                            )
                        }
                    }
                    &&& t.cheap.offsets_len == t.index.offsets@.len()
                    &&& t.cheap.max_version == t.index.max_version
                    &&& t.cheap.key_count == t.index.key_count
                    &&& t.cheap.uncompressed_size == t.index.uncompressed_size
                    &&& t.cheap.on_disk_size == t.index.on_disk_size
                    &&& t.cheap.bloom_filter_len == t.index.bloom@.len()
                    &&& t.has_bloom_filter == (t.index.bloom@.len() > 0)
                    &&& t.index.offsets@.len() > 0
                },
                Err(_) => true,
            },
    {
        let dlen = data.len();
        if dlen < 8 {
            return Err(Error::ChecksumMismatch);
        }
        let mut read_pos = dlen - 4;
        let checksum_len = read_u32_be(data.as_slice(), read_pos) as usize;
        if checksum_len > read_pos - 4 {
            return Err(Error::ChecksumMismatch);
        }
        read_pos = read_pos - checksum_len;
        let cs_bytes = slice_to_vec(
            slice_subrange(data.as_slice(), read_pos, read_pos + checksum_len),
        );
        if read_pos < 4 {
            return Err(Error::ChecksumMismatch);
        }
        read_pos = read_pos - 4;
        let index_size = read_u32_be(data.as_slice(), read_pos) as usize;
        if index_size > read_pos {
            return Err(Error::ChecksumMismatch);
        }
        let index_start = read_pos - index_size;
        let index_buf = slice_to_vec(
            slice_subrange(data.as_slice(), index_start, index_start + index_size),
        );
        let cs = match decode_checksum(cs_bytes.as_slice()) {
            Some(cs) => cs,
            None => {
                return Err(Error::ChecksumMismatch);
            },
        };
        match cs.algo {
            Algorithm::Crc32c => {
                match verify_checksum(&index_buf, cs) {
                    Ok(()) => {},
                    Err(e) => {
                        return Err(e);
                    },
                }
            },
            Algorithm::XxHash64 => {
                return Err(Error::ChecksumMismatch);
            },
        }
        let index = match decode_index(index_buf.as_slice()) {
            Some(ix) => ix,
            None => {
                return Err(Error::ChecksumMismatch);
            },
        };
        if index.offsets.len() == 0 {
            return Err(Error::ChecksumMismatch);
        }
        let has_bloom_filter = index.bloom.len() > 0;
        let cheap = CheapIndex {
            max_version: index.max_version,
            key_count: index.key_count,
            uncompressed_size: index.uncompressed_size,
            on_disk_size: index.on_disk_size,
            bloom_filter_len: index.bloom.len(),
            offsets_len: index.offsets.len(),
        };
        let smallest = crate::txn::clone_bytes(&index.offsets[0].0);
        let mut t = Table {
            data,
            id,
            index,
            cheap,
            smallest,
            biggest: Vec::new(),
            index_size,
            has_bloom_filter,
            opt,
        };
        let last = t.index.offsets.len() - 1;
        let big = match t.read_block_key_last(last) {
            Some(k) => k,
            None => {
                return Err(Error::ChecksumMismatch);
            },
        };
        t.biggest = big;
        let table_verify = match t.opt.cv_mode {
            ChecksumVerificationMode::OnTableRead => true,
            ChecksumVerificationMode::OnTableAndBlockRead => true,
            _ => false,
        };
        if table_verify {
            match t.verify_checksum() {
                Ok(()) => {},
                Err(e) => {
                    proof {
                        if spec_open_ok(t.data@, t.opt.cv_mode) {
                            let reg = spec_index_region(t.data@)->0;
                            let ib = t.data@.subrange(reg.0, reg.0 + reg.1);
                            let m = spec_parse_index(ib)->0;
                            assert(offs_view(t.index.offsets@) == m.offsets);
                            assert forall|k: int|
                                0 <= k < t.index.offsets@.len() implies #[trigger] block_ok(
                                t.data@,
                                t.index.offsets@[k].1 as int,
                                t.index.offsets@[k].2 as int,
                            ) by {
                                assert(m.offsets[k] == offs_view(t.index.offsets@)[k]);
                                assert(block_ok(
                                    t.data@,
                                    m.offsets[k].1 as int,
                                    m.offsets[k].2 as int,
                                ));
                            }
                            assert(false);
                        }
                    }
                    return Err(e);
                },
            }
        }
        proof {
            let reg = spec_index_region(t.data@)->0;
            let ib = t.data@.subrange(reg.0, reg.0 + reg.1);
            let m = spec_parse_index(ib)->0;
            assert(offs_view(t.index.offsets@) == m.offsets);
            if table_verify {
                assert forall|k: int|
                    0 <= k < m.offsets.len() implies #[trigger] block_ok(
                    t.data@,
                    m.offsets[k].1 as int,
                    m.offsets[k].2 as int,
                ) by {
                    assert(m.offsets[k] == offs_view(t.index.offsets@)[k]);
                    assert(block_ok(
                        t.data@,
                        t.index.offsets@[k].1 as int,
                        t.index.offsets@[k].2 as int,
                    ));
                }
            }
            assert(spec_last_key_ok(t.data@, m.offsets, m.offsets.len() - 1, t.opt.cv_mode));
            assert(spec_open_ok(t.data@, t.opt.cv_mode));
        }
        Ok(t)
    }

    /// Number of blocks.
    pub fn offsets_len(&self) -> (r: usize)
        ensures
            r == self.cheap.offsets_len,
    {
        self.cheap.offsets_len
    }

    /// The table's file id.
    pub fn id(&self) -> (r: u64)
        ensures
            r == self.id,
    {
        self.id
    }

    /// The base key of the first block: the smallest key stored.
    pub fn smallest(&self) -> (r: &Vec<u8>)
        ensures
            r@ == self.smallest@,
    {
        &self.smallest
    }

    /// The last key of the last block: the biggest key stored.
    pub fn biggest(&self) -> (r: &Vec<u8>)
        ensures
            r@ == self.biggest@,
    {
        &self.biggest
    }

    /// The largest version the index records.
    pub fn max_version(&self) -> (r: u64)
        ensures
            r == self.cheap.max_version,
    {
        self.cheap.max_version
    }

    /// Number of keys the index records.
    pub fn key_count(&self) -> (r: u32)
        ensures
            r == self.cheap.key_count,
    {
        self.cheap.key_count
    }

    /// The on-disk size the index records.
    pub fn on_disk_size(&self) -> (r: u32)
        ensures
            r == self.cheap.on_disk_size,
    {
        self.cheap.on_disk_size
    }

    /// The uncompressed size the index records.
    pub fn uncompressed_size(&self) -> (r: u32)
        ensures
            r == self.cheap.uncompressed_size,
    {
        self.cheap.uncompressed_size
    }

    /// The stale-data size the index records.
    pub fn stale_data_size(&self) -> (r: u32)
        ensures
            r == self.index.stale_data_size,
    {
        self.index.stale_data_size
    }

    /// Bytes of the decoded index region.
    pub fn index_size(&self) -> (r: usize)
        ensures
            r == self.index_size,
    {
        self.index_size
    }

    /// Bytes of the bloom filter.
    pub fn bloom_filter_size(&self) -> (r: usize)
        ensures
            r == self.cheap.bloom_filter_len,
    {
        self.cheap.bloom_filter_len
    }

    /// Whether the table carries a bloom filter.
    pub fn has_bloom_filter(&self) -> (r: bool)
        ensures
            r == self.has_bloom_filter,
    {
        self.has_bloom_filter
    }

    /// Whether the bloom filter rules the hash out: true only when a
    /// filter is present and reports the hash absent, so a true answer
    /// really means no key with this hash was added.
    pub fn does_not_have(&self, hash: u32) -> (r: bool)
        requires
            self.index.bloom@.len() <= 0x2000_0000,
        ensures
            r == (self.has_bloom_filter && !crate::bloom::spec_may_contain(
                self.index.bloom@,
                hash,
            )),
    {
        if !self.has_bloom_filter {
            return false;
        }
        !crate::bloom::Filter::may_contain(self.index.bloom.as_slice(), hash)
    }

    /// Reads and parses block `idx`, checking its range against the file
    /// image; verifies the block checksum when the mode asks for
    /// per-block verification. A parsed block is exactly what the block
    /// grammar reads out of the region the index names.
    pub fn block(&self, idx: usize) -> (r: Option<Block>)
        requires
            self.data@.len() < 0x6000_0000,
        ensures
            r is Some <==> spec_block_served(
                self.data@,
                offs_view(self.index.offsets@),
                idx as int,
                self.opt.cv_mode,
            ),
            match r {
                Some(b) => {
                    let off = self.index.offsets@[idx as int].1 as int;
                    let len = self.index.offsets@[idx as int].2 as int;
                    let m = spec_parse_block(self.data@.subrange(off, off + len));
                    &&& 0 <= idx < self.index.offsets@.len()
                    &&& off + len <= self.data@.len()
                    &&& m is Some
                    &&& b.offset == self.index.offsets@[idx as int].1
                    &&& b.data@ == (m->0).0
                    &&& b.checksum@ == (m->0).1
                    &&& b.entries_index_start as int == (m->0).2
                    &&& b.entry_offsets@ == (m->0).3
                    &&& b.entries_index_start as int + 4 * b.entry_offsets@.len() + 4
                        <= b.data@.len()
                },
                None => true,
            },
    {
        if idx >= self.index.offsets.len() {
            return None;
        }
        let off = self.index.offsets[idx].1 as usize;
        let len = self.index.offsets[idx].2 as usize;
        if off > self.data.len() || len > self.data.len() - off {
            return None;
        }
        let region = slice_subrange(self.data.as_slice(), off, off + len);
        let b = match parse_block(region, self.index.offsets[idx].1) {
            Some(b) => b,
            None => {
                return None;
            },
        };
        let verify = match self.opt.cv_mode {
            ChecksumVerificationMode::OnBlockRead => true,
            ChecksumVerificationMode::OnTableAndBlockRead => true,
            _ => false,
        };
        if verify {
            match b.verify_checksum() {
                Ok(()) => {},
                Err(_) => {
                    return None;
                },
            }
        }
        Some(b)
    }

    /// Checks every block against its checksum; `Ok` when all match.
    pub fn verify_checksum(&self) -> (r: Result<(), Error>)
        requires
            self.data@.len() < 0x6000_0000,
        ensures
            r is Ok <==> forall|k: int|
                0 <= k < self.index.offsets@.len() ==> #[trigger] block_ok(
                    self.data@,
                    self.index.offsets@[k].1 as int,
                    self.index.offsets@[k].2 as int,
                ),
            r is Err ==> r->Err_0 == Error::ChecksumMismatch,
    {
        let n = self.index.offsets.len();
        let mut i: usize = 0;
        while i < n
            invariant
                n == self.index.offsets@.len(),
                i <= n,
                self.data@.len() < 0x6000_0000,
                forall|k: int|
                    0 <= k < i ==> #[trigger] block_ok(
                        self.data@,
                        self.index.offsets@[k].1 as int,
                        self.index.offsets@[k].2 as int,
                    ),
            decreases n - i,
        {
            let b = match self.block(i) {
                Some(b) => b,
                None => {
                    proof {
                        assert(!spec_block_served(
                            self.data@,
                            offs_view(self.index.offsets@),
                            i as int,
                            self.opt.cv_mode,
                        ));
                        assert(!block_ok(
                            self.data@,
                            self.index.offsets@[i as int].1 as int,
                            self.index.offsets@[i as int].2 as int,
                        ));
                    }
                    return Err(Error::ChecksumMismatch);
                },
            };
            match b.verify_checksum() {
                Ok(()) => {},
                Err(e) => {
                    proof {
                        assert(!block_ok(
                            self.data@,
                            self.index.offsets@[i as int].1 as int,
                            self.index.offsets@[i as int].2 as int,
                        ));
                    }
                    return Err(Error::ChecksumMismatch);
                },
            }
            proof {
                assert(block_ok(
                    self.data@,
                    self.index.offsets@[i as int].1 as int,
                    self.index.offsets@[i as int].2 as int,
                ));
            }
            i = i + 1;
        }
        Ok(())
    }

    /// The last key of block `idx`, through a block iterator: exactly
    /// the key the block's bytes store for its last entry.
    fn read_block_key_last(&self, idx: usize) -> (r: Option<Vec<u8>>)
        requires
            self.data@.len() < 0x6000_0000,
        ensures
            r is Some <==> spec_last_key_ok(
                self.data@,
                offs_view(self.index.offsets@),
                idx as int,
                self.opt.cv_mode,
            ),
            r is Some ==> r->0@ == spec_last_key(
                self.data@,
                offs_view(self.index.offsets@),
                idx as int,
            ),
    {
        let b = match self.block(idx) {
            Some(b) => b,
            None => {
                return None;
            },
        };
        let mut bi = crate::table::iter::BlockIterator::new(b);
        if bi.entry_offsets.len() >= 0x8000_0000 {
            proof {
                assert(4 * b.entry_offsets@.len() + 4 <= b.data@.len() < 0x6000_0000);
                assert(false);
            }
            return None;
        }
        proof {
            assert(b.entries_index_start as int <= b.data@.len());
            let off = self.index.offsets@[idx as int].1 as int;
            let len = self.index.offsets@[idx as int].2 as int;
            let m = spec_parse_block(self.data@.subrange(off, off + len))->0;
            assert(bi.data@ == m.0.subrange(0, m.2));
        }
        if bi.seek_to_last() {
            Some(crate::txn::clone_bytes(bi.key()))
        } else {
            None
        }
    }
}

} // verus!
