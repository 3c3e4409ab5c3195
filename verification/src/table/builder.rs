//! The sorted-table builder: encodes a sorted stream of internal keys and
//! stored values into prefix-compressed blocks, a bloom filter, and an
//! index, each protected by a CRC32C checksum.

use vstd::prelude::*;

use crate::bloom::{hash, spec_hash, Filter};
use crate::checksum::{checksum_bytes, crc32c, crc32c_of, encode_checksum, Algorithm, Checksum};
use crate::codec::{
    extend_from, put_u16_le, put_u32_be, put_u64_be, u16_le_bytes, u32_be_bytes, u32_of_be,
    u64_be_bytes,
};
use crate::kv::{spec_parse_key, spec_parse_ts};
use crate::options::ChecksumVerificationMode;
use crate::value::{vs_bytes, ValueStruct};

verus! {

/// Bytes of a block-entry header: two little-endian shorts.
pub const HEADER_SIZE: usize = 4;

/// The header before each block entry: how many key bytes are shared with
/// the block's base key, and how many differing bytes follow.
#[derive(Clone, Copy, Debug, PartialEq, Eq, Structural)]
pub struct Header {
    pub overlap: u16,
    pub diff: u16,
}

/// The stored form of a block-entry header.
pub open spec fn block_header_bytes(h: Header) -> Seq<u8> {
    u16_le_bytes(h.overlap) + u16_le_bytes(h.diff)
}

impl Header {
    /// Encodes the header into its four stored bytes.
    pub fn encode(&self) -> (r: Vec<u8>)
        ensures
            r@ == block_header_bytes(*self),
    {
        let mut buf: Vec<u8> = Vec::new();
        put_u16_le(&mut buf, self.overlap);
        put_u16_le(&mut buf, self.diff);
        proof {
            assert(buf@ =~= block_header_bytes(*self));
        }
        buf
    }

    /// Decodes a header from exactly four bytes.
    pub fn decode(data: &[u8]) -> (r: Self)
        requires
            data@.len() == HEADER_SIZE,
        ensures
            r.overlap == crate::codec::u16_of_le(data@.subrange(0, 2)),
            r.diff == crate::codec::u16_of_le(data@.subrange(2, 4)),
    {
        let overlap = crate::codec::read_u16_le(data, 0);
        let diff = crate::codec::read_u16_le(data, 2);
        Header { overlap, diff }
    }
}

/// Decoding inverts encoding for block-entry headers.
pub proof fn lemma_block_header_roundtrip(h: Header)
    ensures
        block_header_bytes(h).len() == HEADER_SIZE,
        crate::codec::u16_of_le(block_header_bytes(h).subrange(0, 2)) == h.overlap,
        crate::codec::u16_of_le(block_header_bytes(h).subrange(2, 4)) == h.diff,
{
    crate::codec::lemma_u16_le_roundtrip(h.overlap);
    crate::codec::lemma_u16_le_roundtrip(h.diff);
    assert(block_header_bytes(h).subrange(0, 2) =~= u16_le_bytes(h.overlap));
    assert(block_header_bytes(h).subrange(2, 4) =~= u16_le_bytes(h.diff));
}

/// Options the builder and reader share.
#[derive(Clone, Copy, Debug)]
pub struct Options {
    /// Target size of the table.
    pub table_size: u64,
    /// Bloom bits per key; zero disables the filter.
    pub bloom_bits_per_key: isize,
    /// Target size of each block.
    pub block_size: u32,
    /// When checksums are verified on reads.
    pub cv_mode: ChecksumVerificationMode,
}

impl Options {
    /// Table options derived from the store's configuration.
    pub fn build_table_options(opt: &crate::options::Options) -> (r: Options)
        ensures
            r.table_size == opt.base_table_size,
            r.block_size == opt.block_size,
            r.bloom_bits_per_key == opt.bloom_bits_per_key,
            r.cv_mode == opt.cv_mode,
    {
        Options {
            table_size: opt.base_table_size as u64,
            bloom_bits_per_key: opt.bloom_bits_per_key,
            block_size: opt.block_size,
            cv_mode: opt.cv_mode,
        }
    }
}

/// One block under construction: its encoded entries, its first key, and
/// the offset of each entry inside the data.
pub struct Bblock {
    pub data: Vec<u8>,
    pub base_key: Vec<u8>,
    pub entry_offsets: Vec<u32>,
    pub end: usize,
}

impl Bblock {
    /// An empty block.
    pub fn new(size: u32) -> (r: Bblock)
        ensures
            r.data@.len() == 0,
            r.base_key@.len() == 0,
            r.entry_offsets@.len() == 0,
            r.end == 0,
    {
        let _ = size;
        Bblock { data: Vec::new(), base_key: Vec::new(), entry_offsets: Vec::new(), end: 0 }
    }
}

/// The builder's bounded counters: block data and offsets stay within the
/// sizes the block-close policy enforces, so no arithmetic overflows.
pub open spec fn builder_wf(b: Builder) -> bool {
    &&& b.cur_block.end == b.cur_block.data@.len()
    &&& b.cur_block.data@.len() < 0x1000_0000
    &&& (b.cur_block.entry_offsets@.len() == 0 ==> b.cur_block.data@.len() == 0)
    &&& b.cur_block.entry_offsets@.len() <= b.cur_block.data@.len() / 4 + 1
    &&& b.opts.block_size <= 0x100_0000
    &&& b.block_list@.len() < 0x1000
    &&& forall|i: int|
        0 <= i < b.block_list@.len() ==> (#[trigger] b.block_list@[i]).data@.len() < 0x2100_0000
            && b.block_list@[i].end == b.block_list@[i].data@.len()
    &&& b.key_hashes@.len() < 0x0100_0000
    &&& b.on_disk_size < 0x4000_0000
    &&& b.cur_block.base_key@.len() <= 0xff00
    &&& forall|i: int|
        0 <= i < b.block_list@.len() ==> (#[trigger] b.block_list@[i]).base_key@.len() <= 0xff00
}

/// The stored form of one index offset record: the base key's length,
/// the key, the block's byte offset, and its length.
pub open spec fn index_offset_bytes(e: (Seq<u8>, u32, u32)) -> Seq<u8> {
    u32_be_bytes(e.0.len() as u32) + e.0 + u32_be_bytes(e.1) + u32_be_bytes(e.2)
}

/// The stored offset records, in order.
pub open spec fn index_offsets_bytes(es: Seq<(Seq<u8>, u32, u32)>) -> Seq<u8>
    decreases es.len(),
{
    if es.len() == 0 {
        Seq::empty()
    } else {
        index_offset_bytes(es[0]) + index_offsets_bytes(es.drop_first())
    }
}

/// Appending a record appends its bytes.
proof fn lemma_index_offsets_bytes_push(es: Seq<(Seq<u8>, u32, u32)>, e: (Seq<u8>, u32, u32))
    ensures
        index_offsets_bytes(es.push(e)) == index_offsets_bytes(es) + index_offset_bytes(e),
    decreases es.len(),
{
    if es.len() == 0 {
        let single = es.push(e);
        assert(single[0] == e);
        assert(single.drop_first() =~= Seq::<(Seq<u8>, u32, u32)>::empty());
        assert(index_offsets_bytes(single.drop_first()) == Seq::<u8>::empty());
        assert(index_offsets_bytes(single) == index_offset_bytes(e) + Seq::<u8>::empty());
        assert(index_offset_bytes(e) + Seq::<u8>::empty() =~= Seq::<u8>::empty()
            + index_offset_bytes(e));
        assert(index_offsets_bytes(es) == Seq::<u8>::empty());
    } else {
        assert(es.push(e)[0] == es[0]);
        assert(es.push(e).drop_first() =~= es.drop_first().push(e));
        lemma_index_offsets_bytes_push(es.drop_first(), e);
        let f0 = index_offset_bytes(es[0]);
        let lhs = f0 + (index_offsets_bytes(es.drop_first()) + index_offset_bytes(e));
        let rhs = (f0 + index_offsets_bytes(es.drop_first())) + index_offset_bytes(e);
        assert(lhs =~= rhs);
        assert(index_offsets_bytes(es.push(e)) == lhs);
    }
}

/// The offset records a block list produces: each block's base key, its
/// byte position in the region, and its length.
pub open spec fn spec_index_offsets(blocks: Seq<Bblock>) -> Seq<(Seq<u8>, u32, u32)> {
    Seq::new(
        blocks.len(),
        |i: int|
            (blocks[i].base_key@, block_region_len(blocks.take(i)) as u32, blocks[i].end as u32),
    )
}

/// A byte string holding the offset records at `pos` parses back to
/// exactly those records.
proof fn lemma_parse_offsets_embed(
    s: Seq<u8>,
    pos: int,
    es: Seq<(Seq<u8>, u32, u32)>,
    acc: Seq<(Seq<u8>, u32, u32)>,
)
    requires
        0 <= pos,
        pos + index_offsets_bytes(es).len() <= s.len(),
        s.subrange(pos, pos + index_offsets_bytes(es).len() as int) == index_offsets_bytes(es),
        forall|i: int| 0 <= i < es.len() ==> (#[trigger] es[i]).0.len() <= 0xff00,
    ensures
        crate::table::reader::spec_parse_offsets(s, pos, es.len() as int, acc) == Some(
            (acc + es, pos + index_offsets_bytes(es).len() as int),
        ),
    decreases es.len(),
{
    if es.len() == 0 {
        assert(acc + es =~= acc);
    } else {
        let e = es[0];
        let eb = index_offset_bytes(e);
        let rest = es.drop_first();
        let rb = index_offsets_bytes(rest);
        let total = index_offsets_bytes(es);
        let klen = e.0.len() as int;
        crate::codec::lemma_u32_be_roundtrip(e.0.len() as u32);
        crate::codec::lemma_u32_be_roundtrip(e.1);
        crate::codec::lemma_u32_be_roundtrip(e.2);
        assert(total == eb + rb);
        assert(eb.len() == 12 + klen);
        assert forall|k: int| 0 <= k < eb.len() implies s[pos + k] == eb[k] by {
            assert(s.subrange(pos, pos + total.len() as int)[k] == s[pos + k]);
        }
        assert forall|k: int| 0 <= k < 4 implies eb[k] == u32_be_bytes(e.0.len() as u32)[k] by {}
        assert forall|j: int| 0 <= j < klen implies eb[4 + j] == e.0[j] by {
            assert((u32_be_bytes(e.0.len() as u32) + e.0)[4 + j] == e.0[j]);
        }
        assert forall|k: int| 0 <= k < 4 implies eb[4 + klen + k] == u32_be_bytes(e.1)[k] by {
            assert(((u32_be_bytes(e.0.len() as u32) + e.0) + u32_be_bytes(e.1))[4 + klen + k]
                == u32_be_bytes(e.1)[k]);
        }
        assert forall|k: int| 0 <= k < 4 implies eb[8 + klen + k] == u32_be_bytes(e.2)[k] by {}
        assert(s.subrange(pos, pos + 4) =~= u32_be_bytes(e.0.len() as u32));
        assert(u32_of_be(s.subrange(pos, pos + 4)) as int == klen);
        assert(s.subrange(pos + 4, pos + 4 + klen) =~= e.0);
        let pos2 = pos + 4 + klen;
        assert(s.subrange(pos2, pos2 + 4) =~= u32_be_bytes(e.1));
        assert(s.subrange(pos2 + 4, pos2 + 8) =~= u32_be_bytes(e.2));
        assert forall|k: int| 0 <= k < rb.len() implies s[pos2 + 8 + k] == rb[k] by {
            assert(s.subrange(pos, pos + total.len() as int)[eb.len() + k] == s[pos + eb.len()
                + k]);
            assert(total[eb.len() + k] == rb[k]);
        }
        assert(s.subrange(pos2 + 8, pos2 + 8 + rb.len() as int) =~= rb);
        lemma_parse_offsets_embed(s, pos2 + 8, rest, acc.push((e.0, e.1, e.2)));
        assert(acc.push((e.0, e.1, e.2)) + rest =~= acc + es);
        assert((e.0, e.1, e.2) == e);
    }
}

/// A byte string assembled as the index grammar expects parses back to
/// exactly its parts.
#[verifier::rlimit(100)]
#[verifier::spinoff_prover]
proof fn lemma_index_parse(
    s: Seq<u8>,
    count: u32,
    offs: Seq<(Seq<u8>, u32, u32)>,
    bloom: Seq<u8>,
    mv: u64,
    kc: u32,
    ods: u32,
)
    requires
        count as int == offs.len(),
        count < 0x1000,
        forall|i: int| 0 <= i < offs.len() ==> (#[trigger] offs[i]).0.len() <= 0xff00,
        bloom.len() <= 0x2000_0000,
        s == u32_be_bytes(count) + index_offsets_bytes(offs) + u32_be_bytes(
            bloom.len() as u32,
        ) + bloom + u64_be_bytes(mv) + u32_be_bytes(kc) + u32_be_bytes(ods) + u32_be_bytes(0u32)
            + u32_be_bytes(0u32),
    ensures
        crate::table::reader::spec_parse_index(s) is Some,
        crate::table::reader::spec_parse_index(s)->0 == (crate::table::reader::IndexModel {
            offsets: offs,
            bloom,
            max_version: mv,
            key_count: kc,
            on_disk_size: ods,
            stale_data_size: 0,
            uncompressed_size: 0,
        }),
{
    let cb = u32_be_bytes(count);
    let ob = index_offsets_bytes(offs);
    let blb = u32_be_bytes(bloom.len() as u32);
    let mvb = u64_be_bytes(mv);
    let kcb = u32_be_bytes(kc);
    let odb = u32_be_bytes(ods);
    let zb = u32_be_bytes(0u32);
    crate::codec::lemma_u32_be_roundtrip(count);
    crate::codec::lemma_u32_be_roundtrip(bloom.len() as u32);
    crate::codec::lemma_u64_be_roundtrip(mv);
    crate::codec::lemma_u32_be_roundtrip(kc);
    crate::codec::lemma_u32_be_roundtrip(ods);
    crate::codec::lemma_u32_be_roundtrip(0u32);
    let q1 = cb + ob;
    let q2 = q1 + blb;
    let q3 = q2 + bloom;
    let q4 = q3 + mvb;
    let q5 = q4 + kcb;
    let q6 = q5 + odb;
    let q7 = q6 + zb;
    assert(s == q7 + zb);
    let p2 = 4 + ob.len() as int;
    let p3 = p2 + 4;
    let p4 = p3 + bloom.len() as int;
    let p5 = p4 + 8;
    let p6 = p5 + 4;
    let p7 = p6 + 4;
    let p8 = p7 + 4;
    assert(s.len() == p8 + 4);
    assert forall|k: int| 0 <= k < 4 implies s[k] == cb[k] by {
        assert(s[k] == q7[k] && q7[k] == q6[k] && q6[k] == q5[k] && q5[k] == q4[k] && q4[k]
            == q3[k] && q3[k] == q2[k] && q2[k] == q1[k] && q1[k] == cb[k]);
    }
    assert(s.subrange(0, 4) =~= cb);
    assert forall|k: int| 0 <= k < ob.len() implies s[4 + k] == ob[k] by {
        assert(s[4 + k] == q7[4 + k] && q7[4 + k] == q6[4 + k] && q6[4 + k] == q5[4 + k] && q5[4
            + k] == q4[4 + k] && q4[4 + k] == q3[4 + k] && q3[4 + k] == q2[4 + k] && q2[4 + k]
            == q1[4 + k] && q1[4 + k] == ob[k]);
    }
    assert(s.subrange(4, p2) =~= ob);
    lemma_parse_offsets_embed(s, 4, offs, Seq::empty());
    assert(Seq::empty() + offs =~= offs);
    assert forall|k: int| 0 <= k < 4 implies s[p2 + k] == blb[k] by {
        assert(s[p2 + k] == q7[p2 + k] && q7[p2 + k] == q6[p2 + k] && q6[p2 + k] == q5[p2 + k]
            && q5[p2 + k] == q4[p2 + k] && q4[p2 + k] == q3[p2 + k] && q3[p2 + k] == q2[p2 + k]
            && q2[p2 + k] == blb[k]);
    }
    assert(s.subrange(p2, p3) =~= blb);
    assert forall|k: int| 0 <= k < bloom.len() implies s[p3 + k] == bloom[k] by {
        assert(s[p3 + k] == q7[p3 + k] && q7[p3 + k] == q6[p3 + k] && q6[p3 + k] == q5[p3 + k]
            && q5[p3 + k] == q4[p3 + k] && q4[p3 + k] == q3[p3 + k] && q3[p3 + k] == bloom[k]);
    }
    assert(s.subrange(p3, p4) =~= bloom);
    assert forall|k: int| 0 <= k < 8 implies s[p4 + k] == mvb[k] by {
        assert(s[p4 + k] == q7[p4 + k] && q7[p4 + k] == q6[p4 + k] && q6[p4 + k] == q5[p4 + k]
            && q5[p4 + k] == q4[p4 + k] && q4[p4 + k] == mvb[k]);
    }
    assert(s.subrange(p4, p5) =~= mvb);
    assert forall|k: int| 0 <= k < 4 implies s[p5 + k] == kcb[k] by {
        assert(s[p5 + k] == q7[p5 + k] && q7[p5 + k] == q6[p5 + k] && q6[p5 + k] == q5[p5 + k]
            && q5[p5 + k] == kcb[k]);
    }
    assert(s.subrange(p5, p6) =~= kcb);
    assert forall|k: int| 0 <= k < 4 implies s[p6 + k] == odb[k] by {
        assert(s[p6 + k] == q7[p6 + k] && q7[p6 + k] == q6[p6 + k] && q6[p6 + k] == odb[k]);
    }
    assert(s.subrange(p6, p7) =~= odb);
    assert forall|k: int| 0 <= k < 4 implies s[p7 + k] == zb[k] by {
        assert(s[p7 + k] == q7[p7 + k] && q7[p7 + k] == zb[k]);
    }
    assert(s.subrange(p7, p8) =~= zb);
    assert forall|k: int| 0 <= k < 4 implies s[p8 + k] == zb[k] by {
        assert(s[p8 + k] == zb[k]);
    }
    assert(s.subrange(p8, p8 + 4) =~= zb);
    let m = crate::table::reader::spec_parse_index(s);
    assert(m is Some);
    assert(m->0 =~= (crate::table::reader::IndexModel {
        offsets: offs,
        bloom,
        max_version: mv,
        key_count: kc,
        on_disk_size: ods,
        stale_data_size: 0,
        uncompressed_size: 0,
    }));
}

/// The sorted-table builder.
pub struct Builder {
    pub cur_block: Bblock,
    pub block_list: Vec<Bblock>,
    pub len_offsets: u32,
    pub key_hashes: Vec<u32>,
    pub max_version: u64,
    pub on_disk_size: u32,
    pub opts: Options,
}

/// Shared-prefix length of two byte strings.
pub open spec fn common_prefix_len(a: Seq<u8>, b: Seq<u8>) -> int
    decreases a.len(),
{
    if a.len() == 0 || b.len() == 0 {
        0
    } else if a[0] != b[0] {
        0
    } else {
        1 + common_prefix_len(a.drop_first(), b.drop_first())
    }
}

/// The shared prefix really is shared and maximal.
pub proof fn lemma_common_prefix(a: Seq<u8>, b: Seq<u8>)
    ensures
        0 <= common_prefix_len(a, b) <= a.len(),
        common_prefix_len(a, b) <= b.len(),
        forall|j: int| 0 <= j < common_prefix_len(a, b) ==> a[j] == b[j],
        common_prefix_len(a, b) < a.len() && common_prefix_len(a, b) < b.len() ==> a[common_prefix_len(
            a,
            b,
        )] != b[common_prefix_len(a, b)],
    decreases a.len(),
{
    if a.len() > 0 && b.len() > 0 && a[0] == b[0] {
        lemma_common_prefix(a.drop_first(), b.drop_first());
        let c = common_prefix_len(a, b);
        assert forall|j: int| 0 <= j < c implies a[j] == b[j] by {
            if j >= 1 {
                assert(a.drop_first()[j - 1] == a[j] && b.drop_first()[j - 1] == b[j]);
            }
        }
        if c < a.len() && c < b.len() {
            assert(a.drop_first()[c - 1] == a[c] && b.drop_first()[c - 1] == b[c]);
        }
    }
}

impl Builder {
    /// A fresh builder.
    pub fn new(opts: Options) -> (r: Builder)
        requires
            opts.block_size <= 0x100_0000,
        ensures
            builder_wf(r),
            r.block_list@.len() == 0,
            r.cur_block.entry_offsets@.len() == 0,
            r.key_hashes@.len() == 0,
            r.max_version == 0,
            r.opts == opts,
    {
        Builder {
            cur_block: Bblock::new(opts.block_size),
            block_list: Vec::new(),
            len_offsets: 0,
            key_hashes: Vec::new(),
            max_version: 0,
            on_disk_size: 0,
            opts,
        }
    }

    /// Whether adding this key and value would push the current block past
    /// its target size; the first entry of a block always fits.
    pub fn should_finish_block(&self, key: &Vec<u8>, value: &ValueStruct) -> (r: bool)
        requires
            builder_wf(*self),
            key@.len() <= 0xff00,
            value.value@.len() + 12 < 0x1000000,
        ensures
            r == (self.cur_block.entry_offsets@.len() > 0 && self.cur_block.end + 6 + key@.len()
                + vs_bytes(value.meta, value.user_meta, value.expires_at, value.value@).len() + (
            self.cur_block.entry_offsets@.len() + 1) * 4 + 16 > self.opts.block_size),
    {
        let offsets_len = self.cur_block.entry_offsets.len();
        if offsets_len == 0 {
            return false;
        }
        proof {
            crate::codec::lemma_varint_roundtrip(value.expires_at as nat);
        }
        let entries_offsets_size = (offsets_len + 1) * 4 + 16;
        let estimated = self.cur_block.end + 6 + key.len() + value.encoded_size()
            + entries_offsets_size;
        estimated > self.opts.block_size as usize
    }

    /// Adds one entry: closes the block first when it is full, then
    /// appends the prefix-compressed entry, remembers the key's hash for
    /// the bloom filter, and raises the largest version seen.
    pub fn add(&mut self, key: Vec<u8>, value: ValueStruct, value_len: u32)
        requires
            builder_wf(*old(self)),
            8 <= key@.len() <= 0xff00,
            value.value@.len() + 12 < 0x100_0000,
            old(self).key_hashes@.len() < 0x0100_0000 - 1,
            old(self).block_list@.len() < 0xfff,
            old(self).on_disk_size + value_len < 0x4000_0000,
        ensures
            builder_wf(*final(self)),
            final(self).key_hashes@ == old(self).key_hashes@.push(
                spec_hash(spec_parse_key(key@)),
            ),
            final(self).max_version == if spec_parse_ts(key@) > old(self).max_version {
                spec_parse_ts(key@)
            } else {
                old(self).max_version
            },
            final(self).opts == old(self).opts,
            final(self).block_list@.len() >= old(self).block_list@.len(),
            final(self).cur_block.entry_offsets@.len() > 0,
            final(self).on_disk_size == old(self).on_disk_size + value_len,
            ({
                let vsb = vs_bytes(value.meta, value.user_meta, value.expires_at, value.value@);
                let full = old(self).cur_block.entry_offsets@.len() > 0 && old(self).cur_block.end
                    + 6 + key@.len() + vsb.len() + (old(self).cur_block.entry_offsets@.len() + 1)
                    * 4 + 16 > old(self).opts.block_size;
                if full {
                    &&& final(self).block_list@.len() == old(self).block_list@.len() + 1
                    &&& final(self).block_list@.last().base_key == old(self).cur_block.base_key
                    &&& final(self).block_list@.last().entry_offsets == old(
                        self,
                    ).cur_block.entry_offsets
                    &&& final(self).block_list@.drop_last() == old(self).block_list@
                    &&& final(self).cur_block.base_key@ == key@
                    &&& final(self).cur_block.entry_offsets@ == Seq::<u32>::empty().push(0u32)
                    &&& final(self).cur_block.data@ == block_header_bytes(
                        Header { overlap: 0u16, diff: key@.len() as u16 },
                    ) + key@ + vsb
                } else {
                    let ov = if old(self).cur_block.base_key@.len() == 0 {
                        0int
                    } else {
                        common_prefix_len(key@, old(self).cur_block.base_key@)
                    };
                    let dk = key@.skip(ov);
                    &&& final(self).block_list == old(self).block_list
                    &&& final(self).cur_block.base_key@ == (if old(
                        self,
                    ).cur_block.base_key@.len() == 0 {
                        key@
                    } else {
                        old(self).cur_block.base_key@
                    })
                    &&& final(self).cur_block.entry_offsets@ == old(
                        self,
                    ).cur_block.entry_offsets@.push(old(self).cur_block.end as u32)
                    &&& final(self).cur_block.data@ == old(self).cur_block.data@
                        + block_header_bytes(Header { overlap: ov as u16, diff: dk.len() as u16 })
                        + dk + vsb
                }
            }),
    {
        let should = self.should_finish_block(&key, &value);
        if should {
            self.finish_block();
            self.cur_block = Bblock::new(self.opts.block_size);
        }
        let ghost mid = *self;
        self.add_helper(key, value, value_len);
        proof {
            if should {
                assert(mid.cur_block.data@ =~= Seq::<u8>::empty());
                assert(mid.cur_block.entry_offsets@ =~= Seq::<u32>::empty());
                let vsb = vs_bytes(value.meta, value.user_meta, value.expires_at, value.value@);
                let hb = block_header_bytes(Header { overlap: 0u16, diff: key@.len() as u16 });
                assert(self.cur_block.data@ =~= hb + key@ + vsb);
            }
        }
    }

    /// Appends the entry to the current block.
    #[verifier::rlimit(100)]
    #[verifier::spinoff_prover]
    fn add_helper(&mut self, key: Vec<u8>, value: ValueStruct, value_len: u32)
        requires
            builder_wf(*old(self)),
            8 <= key@.len() <= 0xff00,
            value.value@.len() + 12 < 0x100_0000,
            old(self).key_hashes@.len() < 0x0100_0000 - 1,
            old(self).on_disk_size + value_len < 0x4000_0000,
            old(self).cur_block.end + 6 + key@.len() + vs_bytes(
                value.meta,
                value.user_meta,
                value.expires_at,
                value.value@,
            ).len() + (old(self).cur_block.entry_offsets@.len() + 1) * 4 + 16
                <= old(self).opts.block_size || old(self).cur_block.entry_offsets@.len() == 0,
        ensures
            builder_wf(*final(self)),
            final(self).key_hashes@ == old(self).key_hashes@.push(
                spec_hash(spec_parse_key(key@)),
            ),
            final(self).max_version == if spec_parse_ts(key@) > old(self).max_version {
                spec_parse_ts(key@)
            } else {
                old(self).max_version
            },
            final(self).opts == old(self).opts,
            final(self).block_list == old(self).block_list,
            final(self).on_disk_size == old(self).on_disk_size + value_len,
            final(self).cur_block.base_key@ == (if old(self).cur_block.base_key@.len() == 0 {
                key@
            } else {
                old(self).cur_block.base_key@
            }),
            final(self).cur_block.entry_offsets@ == old(self).cur_block.entry_offsets@.push(
                old(self).cur_block.end as u32,
            ),
            ({
                let ov = if old(self).cur_block.base_key@.len() == 0 {
                    0int
                } else {
                    common_prefix_len(key@, old(self).cur_block.base_key@)
                };
                let dk = key@.skip(ov);
                final(self).cur_block.data@ == old(self).cur_block.data@ + block_header_bytes(
                    Header { overlap: ov as u16, diff: dk.len() as u16 },
                ) + dk + vs_bytes(value.meta, value.user_meta, value.expires_at, value.value@)
            }),
    {
        let ghost old_data = self.cur_block.data@;
        let ghost old_base = self.cur_block.base_key@;
        let ghost key_g = key@;
        let user_key = crate::kv::parse_key(key.as_slice());
        let h = hash(user_key);
        self.key_hashes.push(h);
        let version = crate::kv::parse_ts(&key);
        if version > self.max_version {
            self.max_version = version;
        }
        let key_len = key.len();
        let diff_key: Vec<u8>;
        if self.cur_block.base_key.len() == 0 {
            self.cur_block.base_key = crate::txn::clone_bytes(&key);
            diff_key = key;
        } else {
            diff_key = self.key_diff(&key);
        }
        proof {
            lemma_common_prefix(key@, old(self).cur_block.base_key@);
        }
        let overlap = key_len - diff_key.len();
        self.cur_block.entry_offsets.push(self.cur_block.end as u32);
        let header = Header { overlap: overlap as u16, diff: diff_key.len() as u16 };
        let hdr = header.encode();
        let venc = value.encode_to_vec();
        extend_from(&mut self.cur_block.data, hdr.as_slice());
        extend_from(&mut self.cur_block.data, diff_key.as_slice());
        extend_from(&mut self.cur_block.data, venc.as_slice());
        self.cur_block.end = self.cur_block.data.len();
        self.on_disk_size = self.on_disk_size + value_len;
        proof {
            crate::codec::lemma_varint_roundtrip(value.expires_at as nat);
            let ov = if old_base.len() == 0 {
                0int
            } else {
                common_prefix_len(key_g, old_base)
            };
            if old_base.len() == 0 {
                assert(key_g.skip(0) =~= key_g);
            }
            assert(diff_key@ == key_g.skip(ov));
            assert(self.cur_block.data@ =~= old_data + block_header_bytes(header) + diff_key@
                + venc@);
        }
    }

    /// The suffix of `key` after its shared prefix with the block's base
    /// key.
    fn key_diff(&self, key: &Vec<u8>) -> (r: Vec<u8>)
        ensures
            r@ == key@.skip(common_prefix_len(key@, self.cur_block.base_key@)),
            r@.len() + common_prefix_len(key@, self.cur_block.base_key@) == key@.len(),
    {
        proof {
            lemma_common_prefix(key@, self.cur_block.base_key@);
        }
        let klen = key.len();
        let blen = self.cur_block.base_key.len();
        let mut i: usize = 0;
        while i < klen && i < blen && key[i] == self.cur_block.base_key[i]
            invariant
                klen == key@.len(),
                blen == self.cur_block.base_key@.len(),
                i <= klen,
                i <= blen,
                forall|j: int| 0 <= j < i ==> key@[j] == self.cur_block.base_key@[j],
            decreases klen - i,
        {
            i = i + 1;
        }
        proof {
            lemma_common_prefix(key@, self.cur_block.base_key@);
            let c = common_prefix_len(key@, self.cur_block.base_key@);
            if c < i as int {
                assert(key@[c] == self.cur_block.base_key@[c]);
            }
            if (i as int) < c {
                assert(key@[i as int] == self.cur_block.base_key@[i as int]);
            }
            assert(c == i as int);
        }
        let r = vstd::slice::slice_to_vec(
            vstd::slice::slice_subrange(key.as_slice(), i, klen),
        );
        proof {
            assert(key@.subrange(i as int, klen as int) =~= key@.skip(i as int));
        }
        r
    }

    /// Closes the current block: appends the entry offsets, their count,
    /// and the block's checksum record with its length; moves the block to
    /// the finished list. A block without entries is dropped.
    pub fn finish_block(&mut self)
        requires
            builder_wf(*old(self)),
            old(self).block_list@.len() < 0xfff,
        ensures
            builder_wf(*final(self)),
            final(self).key_hashes == old(self).key_hashes,
            final(self).max_version == old(self).max_version,
            final(self).opts == old(self).opts,
            final(self).on_disk_size == old(self).on_disk_size,
            old(self).cur_block.entry_offsets@.len() == 0 ==> *final(self) == *old(self),
            old(self).cur_block.entry_offsets@.len() > 0 ==> {
                &&& final(self).block_list@.len() == old(self).block_list@.len() + 1
                &&& final(self).block_list@.last().base_key == old(self).cur_block.base_key
                &&& final(self).block_list@.last().entry_offsets == old(
                    self,
                ).cur_block.entry_offsets
                &&& final(self).block_list@.drop_last() == old(self).block_list@
                &&& final(self).block_list@.last().data@.len() <= old(
                    self,
                ).cur_block.data@.len() + 4 * old(self).cur_block.entry_offsets@.len() + 19
            },
    {
        if self.cur_block.entry_offsets.len() == 0 {
            return ;
        }
        let count = self.cur_block.entry_offsets.len();
        let mut i: usize = 0;
        while i < count
            invariant
                count == self.cur_block.entry_offsets@.len(),
                i <= count,
                self.cur_block.data@.len() == old(self).cur_block.data@.len() + 4 * i,
                self.cur_block.data@.len() < 0x1000_0000 + 4 * count,
                count <= old(self).cur_block.data@.len() / 4 + 1,
                old(self).cur_block.data@.len() < 0x1000_0000,
                self.cur_block.base_key == old(self).cur_block.base_key,
                self.cur_block.entry_offsets == old(self).cur_block.entry_offsets,
                self.cur_block.end == old(self).cur_block.end,
                self.block_list == old(self).block_list,
                self.key_hashes == old(self).key_hashes,
                self.max_version == old(self).max_version,
                self.on_disk_size == old(self).on_disk_size,
                self.len_offsets == old(self).len_offsets,
                self.opts == old(self).opts,
            decreases count - i,
        {
            put_u32_be(&mut self.cur_block.data, self.cur_block.entry_offsets[i]);
            i = i + 1;
        }
        put_u32_be(&mut self.cur_block.data, count as u32);
        let cs = self.calculate_checksum_bytes();
        extend_from(&mut self.cur_block.data, cs.as_slice());
        put_u32_be(&mut self.cur_block.data, cs.len() as u32);
        self.cur_block.end = self.cur_block.data.len();
        let mut done = Bblock::new(0);
        core::mem::swap(&mut done, &mut self.cur_block);
        self.block_list.push(done);
        proof {
            assert(final(self).block_list@.drop_last() =~= old(self).block_list@);
        }
    }

    /// Closes the last block and assembles the table's tail: the bloom
    /// filter over every added key hash (when filters are enabled), the
    /// index over all blocks, and the index's checksum record. A table
    /// whose block region would outgrow its size field comes back empty.
    pub fn done(self) -> (r: BuildData)
        requires
            builder_wf(self),
            self.block_list@.len() < 0xfff,
        ensures
            self.block_list@.len() == 0 && self.cur_block.entry_offsets@.len() == 0 ==> r.size
                == 0,
            r.block_list@.len() < 0x1000,
            forall|i: int|
                0 <= i < r.block_list@.len() ==> (#[trigger] r.block_list@[i]).data@.len()
                    < 0x2100_0000,
            block_region_len(r.block_list@) <= 0x3fff_ffff,
            r.index@.len() <= 0x5000_0000,
            r.checksum@.len() <= 11,
            r.size > 0 ==> r.size as int == block_region_len(r.block_list@) + r.index@.len()
                + r.checksum@.len() + 8,
            (self.block_list@.len() > 0 || self.cur_block.entry_offsets@.len() > 0)
                && block_region_len(self.block_list@) + self.cur_block.data@.len() + 4
                * self.cur_block.entry_offsets@.len() + 19 <= 0x3fff_ffff ==> r.size > 0,
            r.size > 0 ==> ({
                let m = crate::table::reader::spec_parse_index(r.index@);
                &&& r.block_list@.len() > 0
                &&& m is Some
                &&& m->0.offsets == spec_index_offsets(r.block_list@)
                &&& m->0.max_version == self.max_version
                &&& m->0.key_count as int == self.key_hashes@.len()
                &&& m->0.stale_data_size == 0
                &&& m->0.uncompressed_size == 0
                &&& (self.opts.bloom_bits_per_key > 0 ==> forall|i: int|
                    0 <= i < self.key_hashes@.len() ==> crate::bloom::spec_may_contain(
                        m->0.bloom,
                        #[trigger] self.key_hashes@[i],
                    ))
                &&& (self.opts.bloom_bits_per_key <= 0 ==> m->0.bloom.len() == 0)
                &&& crate::checksum::checksum_wf(r.checksum@)
                &&& r.checksum@[0] == 0
                &&& crate::codec::varint_value(r.checksum@.skip(1))
                    == crate::checksum::crc32c_of(r.index@) as u64 as nat
            }),
    {
        let mut b = self;
        b.finish_block();
        let mut bd = BuildData::empty();
        proof {
            assert(block_region_len(bd.block_list@) == 0);
        }
        if b.block_list.len() == 0 {
            return bd;
        }
        let region = match b.region_size() {
            Some(n) => n,
            None => {
                return bd;
            },
        };
        let bloom: Vec<u8>;
        if b.opts.bloom_bits_per_key > 0 {
            let bpk = if b.opts.bloom_bits_per_key < 0x100 {
                b.opts.bloom_bits_per_key
            } else {
                0xff
            };
            let f = Filter::new(&b.key_hashes, bpk);
            bloom = crate::txn::clone_bytes(f.bloom());
        } else {
            let f = Filter::empty();
            bloom = crate::txn::clone_bytes(f.bloom());
        }
        let index = b.build_index(bloom, region);
        let sum = crc32c(index.as_slice()) as u64;
        let mut checksum: Vec<u8> = Vec::new();
        encode_checksum(&mut checksum, Checksum { algo: Algorithm::Crc32c, sum });
        proof {
            crate::codec::lemma_varint_roundtrip(sum as nat);
            crate::checksum::lemma_checksum_roundtrip(
                Checksum { algo: Algorithm::Crc32c, sum },
            );
        }
        bd.size = (region + index.len() + checksum.len() + 8) as u32;
        bd.index = index;
        bd.checksum = checksum;
        bd.block_list = b.block_list;
        bd
    }

    /// The block region's total size, when it fits the table's size
    /// field.
    fn region_size(&self) -> (r: Option<usize>)
        requires
            builder_wf(*self),
        ensures
            match r {
                Some(n) => n as int == block_region_len(self.block_list@) && n <= 0x3fff_ffff,
                None => block_region_len(self.block_list@) > 0x3fff_ffff,
            },
    {
        let n = self.block_list.len();
        let mut total: usize = 0;
        let mut i: usize = 0;
        while i < n
            invariant
                n == self.block_list@.len(),
                builder_wf(*self),
                i <= n,
                total as int == block_region_len(self.block_list@.take(i as int)),
                total <= 0x3fff_ffff,
            decreases n - i,
        {
            proof {
                lemma_block_region_push(self.block_list@.take(i as int), self.block_list@[i as int]);
                assert(self.block_list@.take(i + 1) =~= self.block_list@.take(i as int).push(
                    self.block_list@[i as int]));
            }
            let add = self.block_list[i].data.len();
            if add > 0x3fff_ffff - total {
                proof {
                    lemma_block_region_take(self.block_list@, i + 1);
                }
                return None;
            }
            total = total + add;
            i = i + 1;
        }
        proof {
            assert(self.block_list@.take(n as int) =~= self.block_list@);
        }
        Some(total)
    }

    /// Encodes the index: the block count, then each block's base key,
    /// byte offset and length; the bloom filter; and the table's
    /// counters. The result parses back to exactly the blocks' records,
    /// the filter, and the counters.
    #[verifier::rlimit(100)]
    #[verifier::spinoff_prover]
    fn build_index(&mut self, bloom: Vec<u8>, region: usize) -> (r: Vec<u8>)
        requires
            builder_wf(*old(self)),
            bloom@.len() <= 0x2000_0000,
            region as int == block_region_len(old(self).block_list@),
            region <= 0x3fff_ffff,
        ensures
            r@.len() <= 0x5000_0000,
            final(self).block_list == old(self).block_list,
            builder_wf(*final(self)),
            final(self).max_version == old(self).max_version,
            final(self).key_hashes == old(self).key_hashes,
            final(self).on_disk_size == (if region < 0x4000_0000 - old(self).on_disk_size {
                (old(self).on_disk_size + region) as u32
            } else {
                old(self).on_disk_size
            }),
            ({
                let m = crate::table::reader::spec_parse_index(r@);
                &&& m is Some
                &&& m->0.offsets == spec_index_offsets(old(self).block_list@)
                &&& m->0.bloom == bloom@
                &&& m->0.max_version == old(self).max_version
                &&& m->0.key_count as int == old(self).key_hashes@.len()
                &&& m->0.on_disk_size == final(self).on_disk_size
                &&& m->0.stale_data_size == 0
                &&& m->0.uncompressed_size == 0
            }),
    {
        let mut buf: Vec<u8> = Vec::new();
        let nblocks = self.block_list.len();
        put_u32_be(&mut buf, nblocks as u32);
        let ghost offs = spec_index_offsets(self.block_list@);
        proof {
            assert(offs.take(0) =~= Seq::<(Seq<u8>, u32, u32)>::empty());
            assert(buf@ =~= u32_be_bytes(nblocks as u32) + index_offsets_bytes(offs.take(0)));
        }
        let mut data_size: usize = 0;
        let mut i: usize = 0;
        while i < nblocks
            invariant
                nblocks == self.block_list@.len(),
                builder_wf(*self),
                self == old(self),
                offs == spec_index_offsets(self.block_list@),
                region as int == block_region_len(self.block_list@),
                region <= 0x3fff_ffff,
                i <= nblocks,
                data_size as int == block_region_len(self.block_list@.take(i as int)),
                data_size <= 0x3fff_ffff,
                buf@.len() <= 4 + i * 0x10010,
                buf@ == u32_be_bytes(nblocks as u32) + index_offsets_bytes(offs.take(i as int)),
            decreases nblocks - i,
        {
            proof {
                lemma_block_region_push(self.block_list@.take(i as int), self.block_list@[i as int]);
                assert(self.block_list@.take(i + 1) =~= self.block_list@.take(i as int).push(
                    self.block_list@[i as int]));
                lemma_block_region_take(self.block_list@, i + 1);
            }
            let blen = self.block_list[i].base_key.len();
            if blen > 0xff00 {
                proof {
                    assert(false);
                }
                return buf;
            }
            let ghost pre_buf = buf@;
            put_u32_be(&mut buf, blen as u32);
            let bk = crate::txn::clone_bytes(&self.block_list[i].base_key);
            extend_from(&mut buf, bk.as_slice());
            put_u32_be(&mut buf, data_size as u32);
            put_u32_be(&mut buf, self.block_list[i].end as u32);
            proof {
                lemma_index_offsets_bytes_push(offs.take(i as int), offs[i as int]);
                assert(offs.take(i + 1) =~= offs.take(i as int).push(offs[i as int]));
                assert(offs[i as int].0 == self.block_list@[i as int].base_key@);
                assert(offs[i as int].1 == block_region_len(
                    self.block_list@.take(i as int),
                ) as u32);
                assert(offs[i as int].2 == self.block_list@[i as int].end as u32);
                assert(buf@ =~= u32_be_bytes(nblocks as u32) + index_offsets_bytes(
                    offs.take(i + 1),
                ));
            }
            data_size = data_size + self.block_list[i].data.len();
            i = i + 1;
        }
        proof {
            assert(self.block_list@.take(nblocks as int) =~= self.block_list@);
            assert(data_size as int == region as int);
            assert(offs.take(nblocks as int) =~= offs);
        }
        let ghost head = u32_be_bytes(nblocks as u32) + index_offsets_bytes(offs);
        put_u32_be(&mut buf, bloom.len() as u32);
        extend_from(&mut buf, bloom.as_slice());
        put_u64_be(&mut buf, self.max_version);
        put_u32_be(&mut buf, self.key_hashes.len() as u32);
        if (data_size as u32) < 0x4000_0000 - self.on_disk_size {
            self.on_disk_size = self.on_disk_size + data_size as u32;
        }
        put_u32_be(&mut buf, self.on_disk_size);
        put_u32_be(&mut buf, 0);
        put_u32_be(&mut buf, 0);
        proof {
            lemma_index_parse(
                buf@,
                nblocks as u32,
                offs,
                bloom@,
                self.max_version,
                self.key_hashes@.len() as u32,
                self.on_disk_size,
            );
        }
        buf
    }

    /// Finishes the table: the block region, the index with its size,
    /// and the index's checksum record with its size. Empty when nothing
    /// was added; otherwise the image's footer leads back to an index
    /// that records the blocks, the added keys' hashes, and the largest
    /// version, under a matching checksum.
    #[verifier::rlimit(100)]
    #[verifier::spinoff_prover]
    pub fn finish(self) -> (r: Vec<u8>)
        requires
            builder_wf(self),
            self.block_list@.len() < 0xfff,
        ensures
            self.block_list@.len() == 0 && self.cur_block.entry_offsets@.len() == 0
                ==> r@.len() == 0,
            (self.block_list@.len() > 0 || self.cur_block.entry_offsets@.len() > 0)
                && block_region_len(self.block_list@) + self.cur_block.data@.len() + 4
                * self.cur_block.entry_offsets@.len() + 19 <= 0x3fff_ffff ==> r@.len() > 0,
            r@.len() > 0 ==> ({
                let reg = crate::table::reader::spec_index_region(r@);
                let rt = reg->0;
                &&& reg is Some
                &&& ({
                    let ibytes = r@.subrange(rt.0, rt.0 + rt.1);
                    let csb = rt.2;
                    let m = crate::table::reader::spec_parse_index(ibytes);
                    &&& crate::checksum::checksum_wf(csb)
                    &&& csb[0] == 0
                    &&& crate::codec::varint_value(csb.skip(1)) == crate::checksum::crc32c_of(
                        ibytes,
                    ) as u64 as nat
                    &&& m is Some
                    &&& m->0.offsets.len() > 0
                    &&& m->0.max_version == self.max_version
                    &&& m->0.key_count as int == self.key_hashes@.len()
                    &&& (self.opts.bloom_bits_per_key > 0 ==> forall|i: int|
                        0 <= i < self.key_hashes@.len() ==> crate::bloom::spec_may_contain(
                            m->0.bloom,
                            #[trigger] self.key_hashes@[i],
                        ))
                    &&& (self.opts.bloom_bits_per_key <= 0 ==> m->0.bloom.len() == 0)
                })
            }),
    {
        let bd = self.done();
        if bd.size == 0 {
            return Vec::new();
        }
        let mut buf: Vec<u8> = Vec::new();
        let _ = bd.dump(&mut buf);
        proof {
            let rb = block_region_bytes(bd.block_list@);
            let ib = bd.index@;
            let ilb = u32_be_bytes(bd.index@.len() as u32);
            let csb = bd.checksum@;
            let clb = u32_be_bytes(bd.checksum@.len() as u32);
            crate::codec::lemma_u32_be_roundtrip(bd.index@.len() as u32);
            crate::codec::lemma_u32_be_roundtrip(bd.checksum@.len() as u32);
            lemma_block_region_bytes_len(bd.block_list@);
            let q1 = Seq::<u8>::empty() + rb;
            let q2 = q1 + ib;
            let q3 = q2 + ilb;
            let q4 = q3 + csb;
            assert(buf@ == q4 + clb);
            let rl = rb.len() as int;
            let il = ib.len() as int;
            let cl = csb.len() as int;
            let p1 = rl + il;
            let p2 = p1 + 4;
            let p3 = p2 + cl;
            assert(buf@.len() == p3 + 4);
            assert forall|k: int| 0 <= k < 4 implies buf@[p3 + k] == clb[k] by {
                assert(buf@[p3 + k] == clb[k]);
            }
            assert(buf@.subrange(p3, p3 + 4) =~= clb);
            assert forall|k: int| 0 <= k < cl implies buf@[p2 + k] == csb[k] by {
                assert(buf@[p2 + k] == q4[p2 + k] && q4[p2 + k] == csb[k]);
            }
            assert(buf@.subrange(p2, p3) =~= csb);
            assert forall|k: int| 0 <= k < 4 implies buf@[p1 + k] == ilb[k] by {
                assert(buf@[p1 + k] == q4[p1 + k] && q4[p1 + k] == q3[p1 + k] && q3[p1 + k]
                    == ilb[k]);
            }
            assert(buf@.subrange(p1, p2) =~= ilb);
            assert forall|k: int| 0 <= k < il implies buf@[rl + k] == ib[k] by {
                assert(buf@[rl + k] == q4[rl + k] && q4[rl + k] == q3[rl + k] && q3[rl + k]
                    == q2[rl + k] && q2[rl + k] == ib[k]);
            }
            assert(buf@.subrange(rl, p1) =~= ib);
            let reg = crate::table::reader::spec_index_region(buf@);
            assert(u32_of_be(buf@.subrange(buf@.len() - 4, buf@.len() as int)) as int == cl);
            assert(reg is Some);
            let rt = reg->0;
            assert(rt.0 == rl && rt.1 == il);
            assert(rt.2 =~= csb);
        }
        buf
    }

    /// The checksum record over the current block's bytes so far,
    /// offsets and count included.
    fn calculate_checksum_bytes(&self) -> (r: Vec<u8>)
        ensures
            r@ == checksum_bytes(
                Checksum {
                    algo: Algorithm::Crc32c,
                    sum: crc32c_of(self.cur_block.data@) as u64,
                },
            ),
            2 <= r@.len() <= 11,
    {
        let sum = crc32c(self.cur_block.data.as_slice()) as u64;
        let cs = Checksum { algo: Algorithm::Crc32c, sum };
        let mut buf: Vec<u8> = Vec::new();
        encode_checksum(&mut buf, cs);
        proof {
            crate::codec::lemma_varint_roundtrip(cs.sum as nat);
        }
        buf
    }
}

/// A finished table before it is written out: the blocks, the index, and
/// the index's checksum record.
pub struct BuildData {
    pub block_list: Vec<Bblock>,
    pub index: Vec<u8>,
    pub checksum: Vec<u8>,
    pub size: u32,
}

impl BuildData {
    /// Nothing built.
    pub fn empty() -> (r: BuildData)
        ensures
            r.block_list@.len() == 0,
            r.index@.len() == 0,
            r.checksum@.len() == 0,
            r.size == 0,
    {
        BuildData { block_list: Vec::new(), index: Vec::new(), checksum: Vec::new(), size: 0 }
    }

    /// Writes the table image onto `buf`: every block's bytes in order,
    /// the index, the index's size, the checksum record, and its size.
    /// Returns how many bytes were written.
    pub fn dump(&self, buf: &mut Vec<u8>) -> (r: u32)
        requires
            forall|i: int|
                0 <= i < self.block_list@.len() ==> (#[trigger] self.block_list@[i]).data@.len()
                    < 0x2100_0000,
            self.block_list@.len() < 0x1000,
            block_region_len(self.block_list@) <= 0x3fff_ffff,
            self.index@.len() <= 0x5000_0000,
            self.checksum@.len() < 0x100,
            old(buf)@.len() < 0x1000_0000,
        ensures
            final(buf)@.len() == old(buf)@.len() + r,
            r as int == block_region_len(self.block_list@) + self.index@.len()
                + self.checksum@.len() + 8,
            final(buf)@ == old(buf)@ + block_region_bytes(self.block_list@) + self.index@
                + crate::codec::u32_be_bytes(self.index@.len() as u32) + self.checksum@
                + crate::codec::u32_be_bytes(self.checksum@.len() as u32),
    {
        let mut written: usize = 0;
        let n = self.block_list.len();
        let mut i: usize = 0;
        while i < n
            invariant
                n == self.block_list@.len(),
                i <= n,
                forall|k: int|
                    0 <= k < n ==> (#[trigger] self.block_list@[k]).data@.len() < 0x2100_0000,
                n < 0x1000,
                block_region_len(self.block_list@) <= 0x3fff_ffff,
                written == block_region_len(self.block_list@.take(i as int)),
                written <= 0x3fff_ffff,
                buf@.len() == old(buf)@.len() + written,
                buf@ == old(buf)@ + block_region_bytes(self.block_list@.take(i as int)),
            decreases n - i,
        {
            proof {
                lemma_block_region_push(self.block_list@.take(i as int), self.block_list@[i as int]);
                lemma_block_region_bytes_push(
                    self.block_list@.take(i as int),
                    self.block_list@[i as int],
                );
                assert(self.block_list@.take(i + 1) =~= self.block_list@.take(i as int).push(
                    self.block_list@[i as int]));
                lemma_block_region_take(self.block_list@, i + 1);
            }
            extend_from(buf, self.block_list[i].data.as_slice());
            written = written + self.block_list[i].data.len();
            proof {
                assert(buf@ =~= old(buf)@ + block_region_bytes(self.block_list@.take(i + 1)));
            }
            i = i + 1;
        }
        proof {
            assert(self.block_list@.take(n as int) =~= self.block_list@);
            assert(self.block_list@.take(0) =~= Seq::<Bblock>::empty());
        }
        extend_from(buf, self.index.as_slice());
        put_u32_be(buf, self.index.len() as u32);
        extend_from(buf, self.checksum.as_slice());
        put_u32_be(buf, self.checksum.len() as u32);
        proof {
            assert(buf@ =~= old(buf)@ + block_region_bytes(self.block_list@) + self.index@
                + crate::codec::u32_be_bytes(self.index@.len() as u32) + self.checksum@
                + crate::codec::u32_be_bytes(self.checksum@.len() as u32));
        }
        (written + self.index.len() + self.checksum.len() + 8) as u32
    }
}

/// The block region's bytes: every block's data in order.
pub open spec fn block_region_bytes(blocks: Seq<Bblock>) -> Seq<u8>
    decreases blocks.len(),
{
    if blocks.len() == 0 {
        Seq::empty()
    } else {
        block_region_bytes(blocks.drop_last()) + blocks.last().data@
    }
}

/// The region's bytes are as many as its length says.
proof fn lemma_block_region_bytes_len(blocks: Seq<Bblock>)
    ensures
        block_region_bytes(blocks).len() == block_region_len(blocks),
    decreases blocks.len(),
{
    if blocks.len() > 0 {
        lemma_block_region_bytes_len(blocks.drop_last());
    }
}

/// Appending a block appends its bytes to the region.
proof fn lemma_block_region_bytes_push(blocks: Seq<Bblock>, b: Bblock)
    ensures
        block_region_bytes(blocks.push(b)) == block_region_bytes(blocks) + b.data@,
        block_region_bytes(blocks).len() == block_region_len(blocks),
    decreases blocks.len(),
{
    assert(blocks.push(b).drop_last() =~= blocks);
    assert(blocks.push(b).last() == b);
    if blocks.len() == 0 {
    } else {
        lemma_block_region_bytes_push(blocks.drop_last(), blocks.last());
    }
}

/// Total bytes of the block region.
pub open spec fn block_region_len(blocks: Seq<Bblock>) -> int
    decreases blocks.len(),
{
    if blocks.len() == 0 {
        0
    } else {
        block_region_len(blocks.drop_last()) + blocks.last().data@.len()
    }
}

/// Appending a block adds its bytes to the region.
proof fn lemma_block_region_push(blocks: Seq<Bblock>, b: Bblock)
    ensures
        block_region_len(blocks.push(b)) == block_region_len(blocks) + b.data@.len(),
{
    assert(blocks.push(b).drop_last() =~= blocks);
    assert(blocks.push(b).last() == b);
}

/// A prefix of the region never exceeds the whole region.
proof fn lemma_block_region_take(blocks: Seq<Bblock>, i: int)
    requires
        0 <= i <= blocks.len(),
    ensures
        block_region_len(blocks.take(i)) <= block_region_len(blocks),
        block_region_len(blocks) >= 0,
        block_region_len(blocks.take(i)) >= 0,
    decreases blocks.len(),
{
    if i == blocks.len() {
        assert(blocks.take(i) =~= blocks);
        lemma_block_region_nonneg(blocks);
    } else if blocks.len() > 0 {
        assert(blocks.drop_last().take(i) =~= blocks.take(i));
        lemma_block_region_take(blocks.drop_last(), i);
    }
}

/// The region's size is never negative.
proof fn lemma_block_region_nonneg(blocks: Seq<Bblock>)
    ensures
        block_region_len(blocks) >= 0,
    decreases blocks.len(),
{
    if blocks.len() > 0 {
        lemma_block_region_nonneg(blocks.drop_last());
    }
}

} // verus!
