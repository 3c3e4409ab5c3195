//! Iterators over blocks and tables: a block iterator reconstructs
//! prefix-compressed keys entry by entry; the table iterator composes
//! block iterators with the index to seek, walk forward and walk
//! backward.

use vstd::prelude::*;

use vstd::slice::{slice_subrange, slice_to_vec};

use crate::codec::u16_of_le;
use crate::table::builder::{Header, HEADER_SIZE};
use crate::table::reader::{Block, Table};

verus! {

/// The base key a block's bytes carry: the first entry's differing bytes,
/// read through its header.
pub open spec fn spec_block_base_key(data: Seq<u8>) -> Seq<u8> {
    if data.len() < 4 {
        Seq::empty()
    } else {
        let bdiff = u16_of_le(data.subrange(2, 4)) as int;
        if data.len() - 4 < bdiff {
            Seq::empty()
        } else {
            data.subrange(4, 4 + bdiff)
        }
    }
}

/// Whether a block's bytes carry a well-formed base-key header: the
/// first entry's header fits and its differing bytes are all there.
pub open spec fn spec_block_base_ok(data: Seq<u8>) -> bool {
    data.len() >= 4 && u16_of_le(data.subrange(2, 4)) as int <= data.len() - 4
}

/// When positioning at entry `i` succeeds: the index is in range, the
/// base key is available (already held, or readable from the block's
/// first header), and the entry's bytes agree with their own lengths.
pub open spec fn spec_set_idx_ok(data: Seq<u8>, offsets: Seq<u32>, base0: Seq<u8>, i: int) -> bool {
    &&& 0 <= i < offsets.len()
    &&& (base0.len() > 0 || spec_block_base_ok(data))
    &&& ({
        let base = if base0.len() > 0 {
            base0
        } else {
            spec_block_base_key(data)
        };
        let start = offsets[i] as int;
        let end = if i + 1 == offsets.len() {
            data.len() as int
        } else {
            offsets[i + 1] as int
        };
        &&& start <= data.len()
        &&& end <= data.len()
        &&& start <= end
        &&& spec_entry_key_value(data, base, start, end) is Some
    })
}

/// The key and value entry `i` of a block yields under its entry-offset
/// list, reading the entry's bytes between its offset and the next.
pub open spec fn spec_entry_at(data: Seq<u8>, offsets: Seq<u32>, i: int) -> Option<
    (Seq<u8>, Seq<u8>),
> {
    if !(0 <= i < offsets.len()) {
        None
    } else {
        let start = offsets[i] as int;
        let end = if i + 1 == offsets.len() {
            data.len() as int
        } else {
            offsets[i + 1] as int
        };
        if !(0 <= start <= end <= data.len()) {
            None
        } else {
            spec_entry_key_value(data, spec_block_base_key(data), start, end)
        }
    }
}

/// The key and value one stored entry yields: its header names how many
/// base-key bytes the key shares and how many differing bytes follow;
/// the rest of the entry is the value. `None` when the bytes disagree
/// with their own lengths.
pub open spec fn spec_entry_key_value(
    data: Seq<u8>,
    base_key: Seq<u8>,
    start: int,
    end: int,
) -> Option<(Seq<u8>, Seq<u8>)> {
    if end - start < 4 {
        None
    } else {
        let overlap = u16_of_le(data.subrange(start, start + 2)) as int;
        let diff = u16_of_le(data.subrange(start + 2, start + 4)) as int;
        if overlap > base_key.len() || end - start - 4 < diff {
            None
        } else {
            Some(
                (
                    base_key.subrange(0, overlap) + data.subrange(start + 4, start + 4 + diff),
                    data.subrange(start + 4 + diff, end),
                ),
            )
        }
    }
}

/// A positioned block iterator: the index points at an entry, and the
/// held key and value are exactly what the block's bytes store there.
pub open spec fn landed(bi: BlockIterator) -> bool {
    &&& 0 <= bi.idx < bi.entry_offsets@.len()
    &&& spec_entry_at(bi.data@, bi.entry_offsets@, bi.idx as int) is Some
    &&& bi.key@ == (spec_entry_at(bi.data@, bi.entry_offsets@, bi.idx as int)->0).0
    &&& bi.value@ == (spec_entry_at(bi.data@, bi.entry_offsets@, bi.idx as int)->0).1
}

/// Every entry of the block can be positioned at: the offsets are in
/// range and each entry's bytes agree with their own lengths.
pub open spec fn block_entries_ok(data: Seq<u8>, offsets: Seq<u32>, base0: Seq<u8>) -> bool {
    forall|i: int| 0 <= i < offsets.len() ==> spec_set_idx_ok(data, offsets, base0, i)
}

/// An iterator over one block's entries. `idx` points at the current
/// entry; the key is reconstructed from the base key and each entry's
/// stored suffix.
pub struct BlockIterator {
    pub data: Vec<u8>,
    pub idx: i64,
    pub base_key: Vec<u8>,
    pub key: Vec<u8>,
    pub value: Vec<u8>,
    pub entry_offsets: Vec<u32>,
    pub prev_overlap: u16,
}

impl BlockIterator {
    /// An iterator over the block, not yet positioned.
    pub fn new(block: Block) -> (r: BlockIterator)
        ensures
            r.idx == -1,
            r.entry_offsets == block.entry_offsets,
            r.base_key@.len() == 0,
            r.data@ == block.data@.subrange(
                0,
                if block.entries_index_start <= block.data@.len() {
                    block.entries_index_start as int
                } else {
                    block.data@.len() as int
                },
            ),
    {
        let end = if (block.entries_index_start as usize) <= block.data.len() {
            block.entries_index_start as usize
        } else {
            block.data.len()
        };
        let data = slice_to_vec(slice_subrange(block.data.as_slice(), 0, end));
        BlockIterator {
            data,
            idx: -1,
            base_key: Vec::new(),
            key: Vec::new(),
            value: Vec::new(),
            entry_offsets: block.entry_offsets,
            prev_overlap: 0,
        }
    }

    /// The entry offsets of the block.
    pub fn entry_offsets(&self) -> (r: &Vec<u32>)
        ensures
            r@ == self.entry_offsets@,
    {
        &self.entry_offsets
    }

    /// Whether the block holds no entry bytes.
    pub fn is_empty(&self) -> (r: bool)
        ensures
            r == (self.data@.len() == 0),
    {
        self.data.len() == 0
    }

    /// Whether the iterator points at an entry.
    pub fn valid(&self) -> (r: bool)
        ensures
            r == (0 <= self.idx < self.entry_offsets@.len()),
    {
        0 <= self.idx && (self.idx as u64) < (self.entry_offsets.len() as u64)
    }

    /// The current key; meaningful while the iterator is valid.
    pub fn key(&self) -> (r: &Vec<u8>)
        ensures
            r@ == self.key@,
    {
        &self.key
    }

    /// The current value bytes; meaningful while the iterator is valid.
    pub fn value(&self) -> (r: &Vec<u8>)
        ensures
            r@ == self.value@,
    {
        &self.value
    }

    /// Moves to entry `i`: parses its header, reconstructs the key as
    /// the base key's shared prefix followed by the stored differing
    /// bytes, and takes the remaining bytes as the value. False, leaving
    /// the position out of range, when `i` is outside the block or its
    /// bytes are malformed.
    pub fn set_idx(&mut self, i: i64) -> (r: bool)
        ensures
            final(self).idx == i,
            final(self).entry_offsets == old(self).entry_offsets,
            final(self).data == old(self).data,
            r == spec_set_idx_ok(
                old(self).data@,
                old(self).entry_offsets@,
                old(self).base_key@,
                i as int,
            ),
            old(self).base_key@.len() > 0 ==> final(self).base_key@ == old(self).base_key@,
            old(self).base_key@.len() == 0 ==> (final(self).base_key@ == old(self).base_key@
                || final(self).base_key@ == spec_block_base_key(old(self).data@)),
            r ==> 0 <= i < final(self).entry_offsets@.len(),
            r ==> final(self).base_key@ == (if old(self).base_key@.len() > 0 {
                old(self).base_key@
            } else {
                spec_block_base_key(old(self).data@)
            }),
            r ==> ({
                let s = final(self).data@;
                let n = final(self).entry_offsets@.len();
                let start = final(self).entry_offsets@[i as int] as int;
                let end = if i + 1 == n {
                    s.len() as int
                } else {
                    final(self).entry_offsets@[i + 1] as int
                };
                let kv = spec_entry_key_value(s, final(self).base_key@, start, end);
                &&& 0 <= start <= end <= s.len()
                &&& kv is Some
                &&& final(self).key@ == (kv->0).0
                &&& final(self).value@ == (kv->0).1
            }),
    {
        self.idx = i;
        if i < 0 || (i as u64) >= (self.entry_offsets.len() as u64) {
            return false;
        }
        let idx = i as usize;
        let dlen = self.data.len();
        if self.base_key.len() == 0 {
            if dlen < HEADER_SIZE {
                return false;
            }
            let base_header = Header::decode(slice_subrange(self.data.as_slice(), 0, HEADER_SIZE));
            let bdiff = base_header.diff as usize;
            if dlen - HEADER_SIZE < bdiff {
                return false;
            }
            self.base_key = slice_to_vec(
                slice_subrange(self.data.as_slice(), HEADER_SIZE, HEADER_SIZE + bdiff),
            );
        }
        let start_offset = self.entry_offsets[idx] as usize;
        let end_offset = if idx + 1 == self.entry_offsets.len() {
            dlen
        } else {
            self.entry_offsets[idx + 1] as usize
        };
        if start_offset > dlen || end_offset > dlen || start_offset > end_offset {
            return false;
        }
        if end_offset - start_offset < HEADER_SIZE {
            return false;
        }
        let header = Header::decode(
            slice_subrange(self.data.as_slice(), start_offset, start_offset + HEADER_SIZE),
        );
        let overlap = header.overlap as usize;
        let diff = header.diff as usize;
        if overlap > self.base_key.len() || end_offset - start_offset - HEADER_SIZE < diff {
            return false;
        }
        let value_offset = start_offset + HEADER_SIZE + diff;
        let mut newkey = slice_to_vec(slice_subrange(self.base_key.as_slice(), 0, overlap));
        crate::codec::extend_from(
            &mut newkey,
            slice_subrange(self.data.as_slice(), start_offset + HEADER_SIZE, value_offset),
        );
        self.key = newkey;
        self.prev_overlap = header.overlap;
        self.value = slice_to_vec(slice_subrange(self.data.as_slice(), value_offset, end_offset));
        true
    }

    /// Moves to the first entry; true exactly when the block has one and
    /// its bytes are well formed.
    pub fn seek_to_first(&mut self) -> (r: bool)
        requires
            old(self).base_key@.len() == 0 || old(self).base_key@ == spec_block_base_key(
                old(self).data@,
            ),
        ensures
            final(self).entry_offsets == old(self).entry_offsets,
            final(self).data == old(self).data,
            r == spec_set_idx_ok(
                old(self).data@,
                old(self).entry_offsets@,
                old(self).base_key@,
                0,
            ),
            r ==> final(self).idx == 0 && landed(*final(self)),
            final(self).base_key@.len() == 0 || final(self).base_key@ == spec_block_base_key(
                final(self).data@,
            ),
    {
        self.set_idx(0)
    }

    /// Moves to the last entry; true exactly when the block has one and
    /// its bytes are well formed.
    pub fn seek_to_last(&mut self) -> (r: bool)
        requires
            old(self).entry_offsets@.len() < 0x8000_0000,
            old(self).base_key@.len() == 0 || old(self).base_key@ == spec_block_base_key(
                old(self).data@,
            ),
        ensures
            final(self).entry_offsets == old(self).entry_offsets,
            final(self).data == old(self).data,
            r == (old(self).entry_offsets@.len() > 0 && spec_set_idx_ok(
                old(self).data@,
                old(self).entry_offsets@,
                old(self).base_key@,
                old(self).entry_offsets@.len() - 1,
            )),
            r ==> final(self).idx == final(self).entry_offsets@.len() - 1 && landed(
                *final(self),
            ),
            final(self).base_key@.len() == 0 || final(self).base_key@ == spec_block_base_key(
                final(self).data@,
            ),
    {
        let n = self.entry_offsets.len();
        if n == 0 {
            self.idx = -1;
            return false;
        }
        self.set_idx((n - 1) as i64)
    }

    /// Moves forward one entry; true exactly when a next entry exists
    /// and its bytes are well formed.
    pub fn next(&mut self) -> (r: bool)
        requires
            -1 <= old(self).idx < 0x8000_0000,
            old(self).base_key@.len() == 0 || old(self).base_key@ == spec_block_base_key(
                old(self).data@,
            ),
        ensures
            final(self).entry_offsets == old(self).entry_offsets,
            final(self).data == old(self).data,
            final(self).idx == old(self).idx + 1,
            r == spec_set_idx_ok(
                old(self).data@,
                old(self).entry_offsets@,
                old(self).base_key@,
                old(self).idx + 1,
            ),
            r ==> landed(*final(self)),
            final(self).base_key@.len() == 0 || final(self).base_key@ == spec_block_base_key(
                final(self).data@,
            ),
    {
        let i = self.idx;
        self.set_idx(i + 1)
    }

    /// Moves back one entry; true exactly when a previous entry exists
    /// and its bytes are well formed.
    pub fn prev(&mut self) -> (r: bool)
        requires
            old(self).idx >= -1,
            old(self).base_key@.len() == 0 || old(self).base_key@ == spec_block_base_key(
                old(self).data@,
            ),
        ensures
            final(self).entry_offsets == old(self).entry_offsets,
            final(self).data == old(self).data,
            final(self).idx == old(self).idx - 1 || (old(self).idx == -1 && final(self).idx
                == -1),
            r == (old(self).idx >= 1 && spec_set_idx_ok(
                old(self).data@,
                old(self).entry_offsets@,
                old(self).base_key@,
                old(self).idx - 1,
            )) || (old(self).idx == 0 && false),
            r ==> landed(*final(self)),
            final(self).base_key@.len() == 0 || final(self).base_key@ == spec_block_base_key(
                final(self).data@,
            ),
    {
        if self.idx < 0 {
            self.idx = -1;
            return false;
        }
        let i = self.idx;
        self.set_idx(i - 1)
    }

    /// Moves to the first entry whose key is at or past `key` in stored
    /// key order, skipping entries whose keys are too short to carry a
    /// version; false when every entry is before it or an entry's bytes
    /// are malformed.
    pub fn seek(&mut self, key: &[u8]) -> (r: bool)
        requires
            old(self).entry_offsets@.len() < 0x8000_0000,
            key@.len() >= 8,
            old(self).base_key@.len() == 0 || old(self).base_key@ == spec_block_base_key(
                old(self).data@,
            ),
        ensures
            final(self).entry_offsets == old(self).entry_offsets,
            final(self).data == old(self).data,
            final(self).base_key@.len() == 0 || final(self).base_key@ == spec_block_base_key(
                final(self).data@,
            ),
            r ==> 0 <= final(self).idx < final(self).entry_offsets@.len(),
            r ==> ({
                let i = final(self).idx as int;
                let e = spec_entry_at(final(self).data@, final(self).entry_offsets@, i);
                &&& e is Some
                &&& final(self).key@ == (e->0).0
                &&& final(self).value@ == (e->0).1
                &&& final(self).key@.len() >= 8
                &&& crate::kv::key_cmp(final(self).key@, key@) != core::cmp::Ordering::Less
                &&& forall|j: int|
                    0 <= j < i ==> (#[trigger] spec_entry_at(
                        final(self).data@,
                        final(self).entry_offsets@,
                        j,
                    )) is Some
                &&& forall|j: int|
                    0 <= j < i && (spec_entry_at(
                        final(self).data@,
                        final(self).entry_offsets@,
                        j,
                    )->0).0.len() >= 8 ==> crate::kv::key_cmp(
                        #[trigger] (spec_entry_at(
                            final(self).data@,
                            final(self).entry_offsets@,
                            j,
                        )->0).0,
                        key@,
                    ) == core::cmp::Ordering::Less
            }),
            block_entries_ok(old(self).data@, old(self).entry_offsets@, old(self).base_key@)
                ==> (r <==> exists|j: int|
                0 <= j < old(self).entry_offsets@.len() && (#[trigger] spec_entry_at(
                    old(self).data@,
                    old(self).entry_offsets@,
                    j,
                )->0).0.len() >= 8 && crate::kv::key_cmp(
                    (spec_entry_at(old(self).data@, old(self).entry_offsets@, j)->0).0,
                    key@,
                ) != core::cmp::Ordering::Less),
    {
        let n = self.entry_offsets.len();
        let mut i: usize = 0;
        while i < n
            invariant
                n == self.entry_offsets@.len(),
                n < 0x8000_0000,
                i <= n,
                key@.len() >= 8,
                self.entry_offsets == old(self).entry_offsets,
                self.data == old(self).data,
                self.base_key@.len() == 0 || self.base_key@ == spec_block_base_key(self.data@),
                old(self).base_key@.len() > 0 ==> self.base_key@ == old(self).base_key@,
                forall|j: int|
                    0 <= j < i ==> (#[trigger] spec_entry_at(
                        self.data@,
                        self.entry_offsets@,
                        j,
                    )) is Some,
                forall|j: int|
                    0 <= j < i && (spec_entry_at(self.data@, self.entry_offsets@, j)->0).0.len()
                        >= 8 ==> crate::kv::key_cmp(
                        #[trigger] (spec_entry_at(self.data@, self.entry_offsets@, j)->0).0,
                        key@,
                    ) == core::cmp::Ordering::Less,
            decreases n - i,
        {
            let ghost pre = *self;
            if !self.set_idx(i as i64) {
                proof {
                    assert(!spec_set_idx_ok(
                        pre.data@,
                        pre.entry_offsets@,
                        pre.base_key@,
                        i as int,
                    ));
                    if spec_set_idx_ok(
                        old(self).data@,
                        old(self).entry_offsets@,
                        old(self).base_key@,
                        i as int,
                    ) {
                        let d = pre.data@;
                        if pre.base_key@.len() == 0 {
                            if old(self).base_key@.len() > 0 {
                                assert(old(self).base_key@ == spec_block_base_key(d));
                                assert(spec_block_base_key(d).len() > 0);
                                assert(spec_block_base_ok(d));
                            } else {
                                assert(spec_block_base_ok(d));
                            }
                        }
                        let bo = if old(self).base_key@.len() > 0 {
                            old(self).base_key@
                        } else {
                            spec_block_base_key(d)
                        };
                        let bp = if pre.base_key@.len() > 0 {
                            pre.base_key@
                        } else {
                            spec_block_base_key(d)
                        };
                        assert(bo == bp);
                        assert(spec_set_idx_ok(
                            pre.data@,
                            pre.entry_offsets@,
                            pre.base_key@,
                            i as int,
                        ));
                    }
                }
                return false;
            }
            proof {
                assert(spec_entry_at(self.data@, self.entry_offsets@, i as int) is Some);
                assert(self.key@ == (spec_entry_at(
                    self.data@,
                    self.entry_offsets@,
                    i as int,
                )->0).0);
            }
            if self.key.len() >= 8 {
                match crate::kv::compare_keys(self.key.as_slice(), key) {
                    core::cmp::Ordering::Less => {},
                    _ => {
                        return true;
                    },
                }
            }
            i = i + 1;
        }
        self.set_idx(n as i64);
        false
    }
}

/// The stored block iterator, when present, holds either no base key
/// yet or the canonical one its block's bytes carry.
pub open spec fn ti_bi_wf(ti: TableIterator) -> bool {
    ti.bi is Some ==> ((ti.bi->0).base_key@.len() == 0 || (ti.bi->0).base_key@
        == spec_block_base_key((ti.bi->0).data@))
}

/// An iterator over a whole table: the current block position and an
/// iterator inside that block.
pub struct TableIterator {
    pub table: Table,
    pub bpos: i64,
    pub bi: Option<BlockIterator>,
}

impl TableIterator {
    /// An iterator over the table, not yet positioned.
    pub fn new(table: Table) -> (r: TableIterator)
        ensures
            r.bpos == -1,
    {
        TableIterator { table, bpos: -1, bi: None }
    }

    /// Whether the iterator points at an entry.
    pub fn valid(&self) -> (r: bool)
        ensures
            r == (0 <= self.bpos < self.table.cheap.offsets_len && self.bi is Some && 0 <= (
            self.bi->0).idx < (self.bi->0).entry_offsets@.len()),
    {
        if self.bpos < 0 || (self.bpos as u64) >= (self.table.offsets_len() as u64) {
            return false;
        }
        match &self.bi {
            Some(bi) => bi.valid(),
            None => false,
        }
    }

    /// The current key; empty while the iterator is not valid.
    pub fn key(&self) -> (r: Vec<u8>)
        ensures
            r@ == (if self.bi is Some {
                (self.bi->0).key@
            } else {
                Seq::<u8>::empty()
            }),
    {
        match &self.bi {
            Some(bi) => crate::txn::clone_bytes(bi.key()),
            None => Vec::new(),
        }
    }

    /// The current value bytes; empty while the iterator is not valid.
    pub fn value(&self) -> (r: Vec<u8>)
        ensures
            r@ == (if self.bi is Some {
                (self.bi->0).value@
            } else {
                Seq::<u8>::empty()
            }),
    {
        match &self.bi {
            Some(bi) => crate::txn::clone_bytes(bi.value()),
            None => Vec::new(),
        }
    }

    /// The current value, decoded as a stored value; `None` when the
    /// bytes are too short or carry no expiry varint.
    pub fn value_struct(&self) -> (r: Option<crate::value::ValueStruct>)
        ensures
            ({
                let v = if self.bi is Some {
                    (self.bi->0).value@
                } else {
                    Seq::<u8>::empty()
                };
                &&& r is Some <==> v.len() >= 2 && crate::codec::varint_at(v, 2) is Some
                &&& r is Some ==> {
                    let vs = r->0;
                    &&& vs.meta == v[0]
                    &&& vs.user_meta == v[1]
                    &&& vs.expires_at as nat == crate::codec::varint_at(v, 2).unwrap().0
                    &&& vs.value@ == v.skip(2 + crate::codec::varint_at(v, 2).unwrap().1)
                }
            }),
    {
        let v = self.value();
        if v.len() < 2 {
            return None;
        }
        match crate::value::ValueStruct::decode(v.as_slice()) {
            Ok(vs) => Some(vs),
            Err(_) => None,
        }
    }

    /// Moves to the first entry of the table.
    pub fn seek_to_first(&mut self) -> (r: bool)
        requires
            old(self).table.data@.len() < 0x6000_0000,
            ti_bi_wf(*old(self)),
        ensures
            final(self).table == old(self).table,
            ti_bi_wf(*final(self)),
            r ==> final(self).bi is Some && landed(final(self).bi->0),
    {
        if self.table.offsets_len() == 0 {
            self.bpos = -1;
            return false;
        }
        self.bpos = 0;
        let b = match self.table.block(0) {
            Some(b) => b,
            None => {
                return false;
            },
        };
        let mut bi = BlockIterator::new(b);
        let ok = bi.seek_to_first();
        self.bi = Some(bi);
        ok
    }

    /// Moves to the last entry of the table.
    pub fn seek_to_last(&mut self) -> (r: bool)
        requires
            old(self).table.data@.len() < 0x6000_0000,
            old(self).table.index.offsets@.len() < 0x1000,
            ti_bi_wf(*old(self)),
        ensures
            final(self).table == old(self).table,
            ti_bi_wf(*final(self)),
            r ==> final(self).bi is Some && landed(final(self).bi->0),
    {
        let n = self.table.offsets_len();
        if n == 0 {
            self.bpos = -1;
            return false;
        }
        self.bpos = (n - 1) as i64;
        let b = match self.table.block(n - 1) {
            Some(b) => b,
            None => {
                return false;
            },
        };
        let mut bi = BlockIterator::new(b);
        if b_offsets_small(&bi) {
            let ok = bi.seek_to_last();
            self.bi = Some(bi);
            ok
        } else {
            false
        }
    }

    /// Moves to the first entry at or past `key`, starting at the block
    /// whose base key is the last at or before it; false when the table
    /// ends before `key`. A found entry's key is at or past `key` and is
    /// exactly what the block's bytes store at the landed position.
    pub fn seek(&mut self, key: &[u8]) -> (r: bool)
        requires
            old(self).table.data@.len() < 0x6000_0000,
            old(self).table.index.offsets@.len() < 0x1000,
            key@.len() >= 8,
            ti_bi_wf(*old(self)),
        ensures
            final(self).table == old(self).table,
            ti_bi_wf(*final(self)),
            r ==> ({
                let bi = final(self).bi->0;
                &&& final(self).bi is Some
                &&& 0 <= bi.idx < bi.entry_offsets@.len()
                &&& spec_entry_at(bi.data@, bi.entry_offsets@, bi.idx as int) is Some
                &&& bi.key@ == (spec_entry_at(bi.data@, bi.entry_offsets@, bi.idx as int)->0).0
                &&& bi.value@ == (spec_entry_at(bi.data@, bi.entry_offsets@, bi.idx as int)->0).1
                &&& bi.key@.len() >= 8
                &&& crate::kv::key_cmp(bi.key@, key@) != core::cmp::Ordering::Less
            }),
    {
        let n = self.table.index.offsets.len();
        let mut block_idx: usize = 0;
        let mut i: usize = 0;
        while i < n
            invariant
                n == self.table.index.offsets@.len(),
                n < 0x1000,
                i <= n,
                block_idx <= i || block_idx == 0,
                block_idx < 0x1000,
                key@.len() >= 8,
                self == old(self),
            decreases n - i,
        {
            let bk = &self.table.index.offsets[i].0;
            if bk.len() >= 8 {
                match crate::kv::compare_keys(bk.as_slice(), key) {
                    core::cmp::Ordering::Greater => {
                        break ;
                    },
                    _ => {
                        block_idx = i;
                    },
                }
            }
            i = i + 1;
        }
        if self.seek_in_block(block_idx, key) {
            return true;
        }
        if block_idx + 1 < n {
            return self.seek_in_block(block_idx + 1, key);
        }
        false
    }

    /// Seeks inside one block.
    fn seek_in_block(&mut self, block_idx: usize, key: &[u8]) -> (r: bool)
        requires
            old(self).table.data@.len() < 0x6000_0000,
            old(self).table.index.offsets@.len() < 0x1000,
            key@.len() >= 8,
            block_idx < 0x1000,
            ti_bi_wf(*old(self)),
        ensures
            final(self).table == old(self).table,
            ti_bi_wf(*final(self)),
            r ==> ({
                let bi = final(self).bi->0;
                &&& final(self).bi is Some
                &&& 0 <= bi.idx < bi.entry_offsets@.len()
                &&& spec_entry_at(bi.data@, bi.entry_offsets@, bi.idx as int) is Some
                &&& bi.key@ == (spec_entry_at(bi.data@, bi.entry_offsets@, bi.idx as int)->0).0
                &&& bi.value@ == (spec_entry_at(bi.data@, bi.entry_offsets@, bi.idx as int)->0).1
                &&& bi.key@.len() >= 8
                &&& crate::kv::key_cmp(bi.key@, key@) != core::cmp::Ordering::Less
            }),
    {
        self.bpos = block_idx as i64;
        let b = match self.table.block(block_idx) {
            Some(b) => b,
            None => {
                return false;
            },
        };
        let mut bi = BlockIterator::new(b);
        if !b_offsets_small(&bi) {
            return false;
        }
        let ok = bi.seek(key);
        self.bi = Some(bi);
        ok
    }

    /// Like `seek`, then steps back when the found key is not exactly
    /// `key`, landing on the last entry at or before it.
    pub fn seek_for_prev(&mut self, key: &[u8]) -> (r: bool)
        requires
            old(self).table.data@.len() < 0x6000_0000,
            old(self).table.index.offsets@.len() < 0x1000,
            key@.len() >= 8,
            ti_bi_wf(*old(self)),
        ensures
            final(self).table == old(self).table,
            ti_bi_wf(*final(self)),
            r ==> final(self).bi is Some && landed(final(self).bi->0),
    {
        if self.seek(key) {
            let k = self.key();
            if eq_bytes(&k, key) {
                return true;
            }
            return self.prev();
        }
        if self.table.offsets_len() == 0 {
            return false;
        }
        self.bpos = (self.table.offsets_len() - 1) as i64;
        self.bi = None;
        self.prev()
    }

    /// Moves forward one entry, crossing into the next block at a block
    /// boundary.
    pub fn next(&mut self) -> (r: bool)
        requires
            old(self).table.data@.len() < 0x6000_0000,
            old(self).table.index.offsets@.len() < 0x1000,
            ti_bi_wf(*old(self)),
        ensures
            final(self).table == old(self).table,
            ti_bi_wf(*final(self)),
            r ==> final(self).bi is Some && landed(final(self).bi->0),
            ({
                let bi = old(self).bi->0;
                old(self).bi is Some && 0 <= old(self).bpos < old(
                    self,
                ).table.index.offsets@.len() && 0 <= bi.idx < 0x7fff_ffff && spec_set_idx_ok(
                    bi.data@,
                    bi.entry_offsets@,
                    bi.base_key@,
                    bi.idx + 1,
                ) ==> r && final(self).bpos == old(self).bpos && (final(self).bi->0).idx
                    == bi.idx + 1 && (final(self).bi->0).data == bi.data
                    && (final(self).bi->0).entry_offsets == bi.entry_offsets
            }),
    {
        let n = self.table.index.offsets.len();
        if self.bpos < 0 {
            self.bpos = 0;
            self.bi = None;
        }
        if (self.bpos as u64) >= (n as u64) {
            return false;
        }
        let have_bi = match &self.bi {
            Some(_) => true,
            None => false,
        };
        if !have_bi {
            let b = match self.table.block(self.bpos as usize) {
                Some(b) => b,
                None => {
                    return false;
                },
            };
            let mut bi = BlockIterator::new(b);
            let ok = bi.seek_to_first();
            self.bi = Some(bi);
            return ok;
        }
        let stepped = match &mut self.bi {
            Some(bi) => {
                if bi.idx >= -1 && bi.idx < 0x7fff_ffff {
                    bi.next()
                } else {
                    false
                }
            },
            None => false,
        };
        if stepped {
            return true;
        }
        self.bpos = self.bpos + 1;
        self.bi = None;
        if (self.bpos as u64) >= (n as u64) {
            return false;
        }
        let b = match self.table.block(self.bpos as usize) {
            Some(b) => b,
            None => {
                return false;
            },
        };
        let mut bi = BlockIterator::new(b);
        let ok = bi.seek_to_first();
        self.bi = Some(bi);
        ok
    }

    /// Moves back one entry, crossing into the previous block at a block
    /// boundary.
    pub fn prev(&mut self) -> (r: bool)
        requires
            old(self).table.data@.len() < 0x6000_0000,
            old(self).table.index.offsets@.len() < 0x1000,
            ti_bi_wf(*old(self)),
        ensures
            final(self).table == old(self).table,
            ti_bi_wf(*final(self)),
            r ==> final(self).bi is Some && landed(final(self).bi->0),
            ({
                let bi = old(self).bi->0;
                old(self).bi is Some && 0 <= old(self).bpos && bi.idx >= 1 && spec_set_idx_ok(
                    bi.data@,
                    bi.entry_offsets@,
                    bi.base_key@,
                    bi.idx - 1,
                ) ==> r && final(self).bpos == old(self).bpos && (final(self).bi->0).idx
                    == bi.idx - 1 && (final(self).bi->0).data == bi.data
                    && (final(self).bi->0).entry_offsets == bi.entry_offsets
            }),
    {
        if self.bpos < 0 {
            return false;
        }
        let have_bi = match &self.bi {
            Some(_) => true,
            None => false,
        };
        if !have_bi {
            let b = match self.table.block(self.bpos as usize) {
                Some(b) => b,
                None => {
                    return false;
                },
            };
            let mut bi = BlockIterator::new(b);
            if !b_offsets_small(&bi) {
                return false;
            }
            let ok = bi.seek_to_last();
            self.bi = Some(bi);
            return ok;
        }
        let stepped = match &mut self.bi {
            Some(bi) => {
                if bi.idx >= -1 {
                    bi.prev()
                } else {
                    false
                }
            },
            None => false,
        };
        if stepped {
            return true;
        }
        self.bpos = self.bpos - 1;
        self.bi = None;
        if self.bpos < 0 {
            return false;
        }
        let b = match self.table.block(self.bpos as usize) {
            Some(b) => b,
            None => {
                return false;
            },
        };
        let mut bi = BlockIterator::new(b);
        if !b_offsets_small(&bi) {
            return false;
        }
        let ok = bi.seek_to_last();
        self.bi = Some(bi);
        ok
    }
}

/// Whether the block's entry count fits the iterator's index type.
fn b_offsets_small(bi: &BlockIterator) -> (r: bool)
    ensures
        r == (bi.entry_offsets@.len() < 0x8000_0000),
{
    bi.entry_offsets.len() < 0x8000_0000
}

/// Compares two byte strings for equality.
fn eq_bytes(a: &Vec<u8>, b: &[u8]) -> (r: bool)
    ensures
        r == (a@ == b@),
{
    if a.len() != b.len() {
        return false;
    }
    let n = a.len();
    let mut i: usize = 0;
    while i < n
        invariant
            n == a@.len() == b@.len(),
            i <= n,
            forall|j: int| 0 <= j < i ==> a@[j] == b@[j],
        decreases n - i,
    {
        if a[i] != b[i] {
            return false;
        }
        i = i + 1;
    }
    proof {
        assert(a@ =~= b@);
    }
    true
}

} // verus!
