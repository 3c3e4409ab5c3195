//! The on-wire record format shared by the write-ahead log and the value
//! log: a header of meta bytes and varint lengths, the key, the value, and a
//! big-endian CRC32C over everything before it.

use vstd::prelude::*;

use vstd::slice::{slice_subrange, slice_to_vec};

use crate::checksum::{crc32c, crc32c_of};
use crate::codec::{
    extend_from, get_varint, lemma_u32_be_roundtrip, lemma_u32_le_roundtrip,
    lemma_varint_at_some, lemma_varint_embed, lemma_varint_roundtrip, put_u32_be, put_u32_le,
    put_varint, read_u32_be, read_u32_le, u32_be_bytes, u32_le_bytes, u32_of_be, u32_of_le,
    varint_at, varint_bytes, varint_space,
};
use crate::error::Error;

verus! {

/// Tombstone flag: the entry deletes its key.
pub const META_DELETE: u8 = 1;

/// The stored value bytes encode a value pointer into the value log.
pub const META_VALUE_POINTER: u8 = 2;

/// Compaction may drop earlier versions of this key.
pub const META_DISCARD_EARLIER_VERSIONS: u8 = 4;

/// The entry is a merge-operator record.
pub const META_MERGE_ENTRY: u8 = 8;

/// The entry belongs to a transaction whose end marker follows.
pub const META_TXN: u8 = 64;

/// The entry ends a transaction; its value holds the commit timestamp.
pub const META_FIN_TXN: u8 = 128;

/// Longest header: two meta bytes and three ten-byte varints would be 32,
/// but key and value lengths are bounded, so 22 covers every header the
/// store writes; used to size the zeroed next-entry region.
pub const MAX_HEADER_SIZE: usize = 22;

/// Bytes of the CRC that closes each entry.
pub const CRC_SIZE: usize = 4;

/// Bytes of an encoded value pointer.
pub const VP_SIZE: usize = 12;

/// Whether an entry with these meta bits and expiry is dead at time `now`:
/// a tombstone always, an expiring entry once its time is not in the future.
pub fn is_deleted_or_expired(meta: u8, expires_at: u64, now: u64) -> (r: bool)
    ensures
        r == (meta & META_DELETE != 0 || (expires_at != 0 && expires_at <= now)),
{
    if meta & META_DELETE != 0 {
        return true;
    }
    if expires_at == 0 {
        return false;
    }
    expires_at <= now
}

/// Locates a value inside the value log: file id, stored length, offset.
#[derive(Clone, Copy, Debug, PartialEq, Eq, Structural)]
pub struct ValuePointer {
    pub fid: u32,
    pub len: u32,
    pub offset: u32,
}

/// The twelve stored bytes of a value pointer: each field little-endian.
pub open spec fn vp_bytes(vp: ValuePointer) -> Seq<u8> {
    u32_le_bytes(vp.fid) + u32_le_bytes(vp.len) + u32_le_bytes(vp.offset)
}

impl ValuePointer {
    /// A pointer with all fields given.
    pub fn new(fid: u32, len: u32, offset: u32) -> (r: Self)
        ensures
            r == (ValuePointer { fid, len, offset }),
    {
        ValuePointer { fid, len, offset }
    }

    /// The pointer that stands for "value stored inline, not in the log".
    pub fn zero() -> (r: Self)
        ensures
            r == (ValuePointer { fid: 0, len: 0, offset: 0 }),
    {
        ValuePointer { fid: 0, len: 0, offset: 0 }
    }

    /// The stored length field.
    pub fn len(&self) -> (r: u32)
        ensures
            r == self.len,
    {
        self.len
    }

    /// Whether this is the inline marker.
    pub fn is_zero(&self) -> (r: bool)
        ensures
            r == (self.fid == 0 && self.len == 0 && self.offset == 0),
    {
        self.fid == 0 && self.len == 0 && self.offset == 0
    }

    /// Encodes the pointer into its twelve stored bytes.
    pub fn encode(&self) -> (r: Vec<u8>)
        ensures
            r@ == vp_bytes(*self),
    {
        let mut buf: Vec<u8> = Vec::new();
        put_u32_le(&mut buf, self.fid);
        put_u32_le(&mut buf, self.len);
        put_u32_le(&mut buf, self.offset);
        proof {
            assert(buf@ =~= vp_bytes(*self));
        }
        buf
    }

    /// Decodes a pointer from exactly twelve bytes.
    pub fn decode(data: &[u8]) -> (r: Self)
        requires
            data@.len() == VP_SIZE,
        ensures
            r == (ValuePointer {
                fid: u32_of_le(data@.subrange(0, 4)),
                len: u32_of_le(data@.subrange(4, 8)),
                offset: u32_of_le(data@.subrange(8, 12)),
            }),
    {
        let fid = read_u32_le(data, 0);
        let len = read_u32_le(data, 4);
        let offset = read_u32_le(data, 8);
        ValuePointer { fid, len, offset }
    }
}

/// Decoding inverts encoding for value pointers.
pub proof fn lemma_vp_roundtrip(vp: ValuePointer)
    ensures
        vp_bytes(vp).len() == VP_SIZE,
        u32_of_le(vp_bytes(vp).subrange(0, 4)) == vp.fid,
        u32_of_le(vp_bytes(vp).subrange(4, 8)) == vp.len,
        u32_of_le(vp_bytes(vp).subrange(8, 12)) == vp.offset,
{
    lemma_u32_le_roundtrip(vp.fid);
    lemma_u32_le_roundtrip(vp.len);
    lemma_u32_le_roundtrip(vp.offset);
    assert(vp_bytes(vp).subrange(0, 4) =~= u32_le_bytes(vp.fid));
    assert(vp_bytes(vp).subrange(4, 8) =~= u32_le_bytes(vp.len));
    assert(vp_bytes(vp).subrange(8, 12) =~= u32_le_bytes(vp.offset));
}

/// The decoded header of an entry.
pub struct Header {
    pub key_len: u64,
    pub value_len: u64,
    pub expires_at: u64,
    pub meta: u8,
    pub user_meta: u8,
}

/// The stored header: meta byte, user-meta byte, then the key length, value
/// length and expiry as varints.
pub open spec fn header_bytes(meta: u8, user_meta: u8, key_len: nat, value_len: nat, expires_at: nat) -> Seq<u8> {
    seq![meta, user_meta] + varint_bytes(key_len) + varint_bytes(value_len) + varint_bytes(
        expires_at)
}

impl Header {
    /// Encodes the header into its stored bytes.
    pub fn encode(&self) -> (r: Vec<u8>)
        ensures
            r@ == header_bytes(
                self.meta,
                self.user_meta,
                self.key_len as nat,
                self.value_len as nat,
                self.expires_at as nat,
            ),
    {
        let mut buf: Vec<u8> = Vec::new();
        buf.push(self.meta);
        buf.push(self.user_meta);
        put_varint(&mut buf, self.key_len);
        put_varint(&mut buf, self.value_len);
        put_varint(&mut buf, self.expires_at);
        proof {
            assert(buf@ =~= header_bytes(
                self.meta,
                self.user_meta,
                self.key_len as nat,
                self.value_len as nat,
                self.expires_at as nat,
            ));
        }
        buf
    }
}

/// One record as a caller hands it in and as the logs carry it.
#[derive(Debug)]
pub struct Entry {
    pub key: Vec<u8>,
    pub value: Vec<u8>,
    pub expires_at: u64,
    pub version: u64,
    pub user_meta: u8,
    pub meta: u8,
    pub offset: u32,
    pub header_len: u32,
    pub value_threshold: u32,
}

/// The fields of an entry that its stored frame determines.
pub ghost struct EntryData {
    pub meta: u8,
    pub user_meta: u8,
    pub expires_at: u64,
    pub key: Seq<u8>,
    pub value: Seq<u8>,
    pub header_len: int,
}

/// The payload of a frame: header, key bytes, value bytes.
pub open spec fn entry_payload(meta: u8, user_meta: u8, expires_at: u64, key: Seq<u8>, value: Seq<u8>) -> Seq<u8> {
    header_bytes(meta, user_meta, key.len(), value.len(), expires_at as nat) + key + value
}

/// A full stored frame: the payload followed by its CRC32C, big-endian.
pub open spec fn entry_frame(meta: u8, user_meta: u8, expires_at: u64, key: Seq<u8>, value: Seq<u8>) -> Seq<u8> {
    let payload = entry_payload(meta, user_meta, expires_at, key, value);
    payload + u32_be_bytes(crc32c_of(payload))
}

/// What decoding finds at `off` in `s`: `None` when the bytes there do not
/// form a complete, well-checksummed frame with an admissible key length;
/// otherwise the entry fields and the frame's byte count.
pub open spec fn spec_decode_entry(s: Seq<u8>, off: int) -> Option<(EntryData, int)> {
    if off < 0 || off + 2 > s.len() {
        None
    } else {
        let meta = s[off];
        let user_meta = s[off + 1];
        match varint_at(s, off + 2) {
            None => None,
            Some((key_len, n1)) => {
                if key_len > 0x10000 {
                    None
                } else {
                    match varint_at(s, off + 2 + n1) {
                        None => None,
                        Some((value_len, n2)) => {
                            match varint_at(s, off + 2 + n1 + n2) {
                                None => None,
                                Some((expires_at, n3)) => {
                                    let hl = 2 + n1 + n2 + n3;
                                    let total = hl + key_len + value_len + 4;
                                    if off + total > s.len() {
                                        None
                                    } else {
                                        let payload = s.subrange(
                                            off,
                                            off + hl + key_len + value_len,
                                        );
                                        let crc = u32_of_be(
                                            s.subrange(
                                                off + hl + key_len + value_len,
                                                off + total,
                                            ),
                                        );
                                        if crc != crc32c_of(payload) {
                                            None
                                        } else {
                                            Some(
                                                (
                                                    EntryData {
                                                        meta,
                                                        user_meta,
                                                        expires_at: expires_at as u64,
                                                        key: s.subrange(
                                                            off + hl,
                                                            off + hl + key_len,
                                                        ),
                                                        value: s.subrange(
                                                            off + hl + key_len,
                                                            off + hl + key_len + value_len,
                                                        ),
                                                        header_len: hl,
                                                    },
                                                    total,
                                                ),
                                            )
                                        }
                                    }
                                }
                            }
                        },
                    }
                }
            },
        }
    }
}

impl Entry {
    /// The entry fields that its stored frame determines.
    pub open spec fn parsed(&self) -> EntryData {
        EntryData {
            meta: self.meta,
            user_meta: self.user_meta,
            expires_at: self.expires_at,
            key: self.key@,
            value: self.value@,
            header_len: self.header_len as int,
        }
    }

    /// A fresh entry mapping `key` to `value`.
    pub fn new(key: Vec<u8>, value: Vec<u8>) -> (r: Entry)
        ensures
            r.key == key,
            r.value == value,
            r.meta == 0,
            r.user_meta == 0,
            r.expires_at == 0,
            r.version == 0,
            r.offset == 0,
            r.header_len == 0,
            r.value_threshold == 0,
    {
        Entry {
            key,
            value,
            expires_at: 0,
            version: 0,
            user_meta: 0,
            meta: 0,
            offset: 0,
            header_len: 0,
            value_threshold: 0,
        }
    }

    /// A tombstone for `key`.
    pub fn delete(key: Vec<u8>) -> (r: Entry)
        ensures
            r.key == key,
            r.value@ == Seq::<u8>::empty(),
            r.meta == META_DELETE,
            r.user_meta == 0,
            r.expires_at == 0,
            r.version == 0,
    {
        let mut e = Entry::new(key, Vec::new());
        e.meta = META_DELETE;
        e
    }

    /// Whether this entry's value stays inline instead of going to the value
    /// log: true when the value is shorter than the threshold.
    pub fn skip_vlog(&self, threshold: usize) -> (r: bool)
        ensures
            r == (self.value@.len() < threshold),
    {
        self.value.len() < threshold
    }

    /// The size this entry charges against a transaction's batch budget:
    /// key and meta bytes plus either the value or a value pointer. Fixes
    /// the entry's threshold on first use.
    pub fn estimate_size_and_set_threshold(&mut self, threshold: u32) -> (r: u32)
        requires
            old(self).key@.len() + old(self).value@.len() + 14 < 0x100000000,
        ensures
            *final(self) == (Entry { value_threshold: final(self).value_threshold, ..*old(self) }),
            final(self).value_threshold == if old(self).value_threshold == 0 {
                threshold
            } else {
                old(self).value_threshold
            },
            r == if old(self).value@.len() < final(self).value_threshold {
                (old(self).key@.len() + old(self).value@.len() + 2) as u32
            } else {
                (old(self).key@.len() + 14) as u32
            },
    {
        if self.value_threshold == 0 {
            self.value_threshold = threshold;
        }
        let k = self.key.len();
        let v = self.value.len();
        if (v as u64) < (self.value_threshold as u64) {
            return (k + v + 2) as u32;
        }
        (k + 12 + 2) as u32
    }

    /// Encodes this entry's frame onto the end of `buf`; returns the frame's
    /// byte count.
    pub fn encode_with_buf(&self, buf: &mut Vec<u8>) -> (r: u32)
        requires
            self.key@.len() <= 0x10000,
            self.value@.len() <= 0x80000000,
        ensures
            final(buf)@ == old(buf)@ + entry_frame(
                self.meta,
                self.user_meta,
                self.expires_at,
                self.key@,
                self.value@,
            ),
            r as int == entry_frame(
                self.meta,
                self.user_meta,
                self.expires_at,
                self.key@,
                self.value@,
            ).len(),
    {
        let mut payload: Vec<u8> = Vec::new();
        payload.push(self.meta);
        payload.push(self.user_meta);
        put_varint(&mut payload, self.key.len() as u64);
        put_varint(&mut payload, self.value.len() as u64);
        put_varint(&mut payload, self.expires_at);
        extend_from(&mut payload, self.key.as_slice());
        extend_from(&mut payload, self.value.as_slice());
        proof {
            lemma_varint_roundtrip(self.key@.len());
            lemma_varint_roundtrip(self.value@.len());
            lemma_varint_roundtrip(self.expires_at as nat);
            assert(payload@ =~= entry_payload(
                self.meta,
                self.user_meta,
                self.expires_at,
                self.key@,
                self.value@,
            ));
        }
        let crc = crc32c(payload.as_slice());
        let n = payload.len() + 4;
        buf.append(&mut payload);
        put_u32_be(buf, crc);
        proof {
            assert(buf@ =~= old(buf)@ + entry_frame(
                self.meta,
                self.user_meta,
                self.expires_at,
                self.key@,
                self.value@,
            ));
        }
        n as u32
    }

    /// Decodes the frame at `offset`. `Err` carries the truncation signal
    /// exactly when no complete well-checksummed frame starts there; `Ok`
    /// returns the entry and the frame's byte count.
    pub fn decode_from_slice(data: &[u8], offset: usize) -> (r: Result<(Entry, usize), Error>)
        requires
            offset <= data@.len(),
            data@.len() < 0x100000000,
        ensures
            match r {
                Ok(p) => {
                    &&& spec_decode_entry(data@, offset as int) == Some((p.0.parsed(), p.1 as int))
                    &&& p.0.version == 0
                    &&& p.0.offset == offset as u32
                    &&& p.0.value_threshold == 0
                    &&& offset + p.1 <= data@.len()
                    &&& p.1 >= 8
                },
                Err(e) => {
                    &&& spec_decode_entry(data@, offset as int) is None
                    &&& e == Error::VLogTruncate
                },
            },
    {
        let dlen = data.len();
        if dlen - offset < 2 {
            return Err(Error::VLogTruncate);
        }
        let meta = data[offset];
        let user_meta = data[offset + 1];
        let (key_len, n1) = match get_varint(data, offset + 2) {
            Some(p) => p,
            None => {
                return Err(Error::VLogTruncate);
            },
        };
        proof {
            lemma_varint_at_some(data@, offset + 2, n1 as int);
        }
        if key_len > 0x10000 {
            return Err(Error::VLogTruncate);
        }
        let (value_len, n2) = match get_varint(data, offset + 2 + n1) {
            Some(p) => p,
            None => {
                return Err(Error::VLogTruncate);
            },
        };
        proof {
            lemma_varint_at_some(data@, offset + 2 + n1, n2 as int);
        }
        let (expires_at, n3) = match get_varint(data, offset + 2 + n1 + n2) {
            Some(p) => p,
            None => {
                return Err(Error::VLogTruncate);
            },
        };
        proof {
            lemma_varint_at_some(data@, offset + 2 + n1 + n2, n3 as int);
        }
        let hl = 2 + n1 + n2 + n3;
        let remaining = (dlen - offset - hl) as u64;
        if key_len + 4 > remaining {
            return Err(Error::VLogTruncate);
        }
        if value_len > remaining - key_len - 4 {
            return Err(Error::VLogTruncate);
        }
        let kstart = offset + hl;
        let kend = kstart + (key_len as usize);
        let vend = kend + (value_len as usize);
        let crc_expected = read_u32_be(data, vend);
        let actual = crc32c(slice_subrange(data, offset, vend));
        if actual != crc_expected {
            return Err(Error::VLogTruncate);
        }
        let key = slice_to_vec(slice_subrange(data, kstart, kend));
        let value = slice_to_vec(slice_subrange(data, kend, vend));
        let e = Entry {
            key,
            value,
            expires_at,
            version: 0,
            user_meta,
            meta,
            offset: offset as u32,
            header_len: hl as u32,
            value_threshold: 0,
        };
        Ok((e, vend + 4 - offset))
    }
}

/// A frame embedded at `off` inside a larger byte string decodes there to
/// exactly the fields it was written for, consuming exactly the frame.
#[verifier::rlimit(100)]
#[verifier::spinoff_prover]
pub proof fn lemma_entry_frame_at(
    meta: u8,
    user_meta: u8,
    expires_at: u64,
    key: Seq<u8>,
    value: Seq<u8>,
    s: Seq<u8>,
    off: int,
)
    requires
        key.len() <= 0x10000,
        value.len() < 0x10000000000000000,
        0 <= off,
        off + entry_frame(meta, user_meta, expires_at, key, value).len() <= s.len(),
        s.subrange(off, off + entry_frame(meta, user_meta, expires_at, key, value).len() as int)
            == entry_frame(meta, user_meta, expires_at, key, value),
    ensures
        spec_decode_entry(s, off) == Some(
            (
                EntryData {
                    meta,
                    user_meta,
                    expires_at,
                    key,
                    value,
                    header_len: (2 + varint_space(key.len()) + varint_space(value.len())
                        + varint_space(expires_at as nat)) as int,
                },
                entry_frame(meta, user_meta, expires_at, key, value).len() as int,
            ),
        ),
{
    let vb1 = varint_bytes(key.len());
    let vb2 = varint_bytes(value.len());
    let vb3 = varint_bytes(expires_at as nat);
    let n1 = vb1.len() as int;
    let n2 = vb2.len() as int;
    let n3 = vb3.len() as int;
    let payload = entry_payload(meta, user_meta, expires_at, key, value);
    let frame = entry_frame(meta, user_meta, expires_at, key, value);
    lemma_varint_roundtrip(key.len());
    lemma_varint_roundtrip(value.len());
    lemma_varint_roundtrip(expires_at as nat);
    let sub = s.subrange(off, off + frame.len() as int);
    assert forall|k: int| 0 <= k < frame.len() implies s[off + k] == frame[k] by {
        assert(sub[k] == s[off + k]);
    }
    assert(frame[0] == meta && frame[1] == user_meta);
    assert(sub[0] == s[off + 0] && sub[1] == s[off + 1]);
    assert(s[off] == meta && s[off + 1] == user_meta);
    assert forall|k: int| 0 <= k < n1 implies s[off + 2 + k] == vb1[k] by {
        assert(s[off + (2 + k)] == frame[2 + k]);
        assert(frame[2 + k] == vb1[k]);
    }
    assert(s.subrange(off + 2, off + 2 + n1) =~= vb1);
    lemma_varint_embed(s, off + 2, key.len());
    assert forall|k: int| 0 <= k < n2 implies s[off + 2 + n1 + k] == vb2[k] by {
        assert(s[off + (2 + n1 + k)] == frame[2 + n1 + k]);
        assert(frame[2 + n1 + k] == vb2[k]);
    }
    assert(s.subrange(off + 2 + n1, off + 2 + n1 + n2) =~= vb2);
    lemma_varint_embed(s, off + 2 + n1, value.len());
    assert forall|k: int| 0 <= k < n3 implies s[off + 2 + n1 + n2 + k] == vb3[k] by {
        assert(s[off + (2 + n1 + n2 + k)] == frame[2 + n1 + n2 + k]);
        assert(frame[2 + n1 + n2 + k] == vb3[k]);
    }
    assert(s.subrange(off + 2 + n1 + n2, off + 2 + n1 + n2 + n3) =~= vb3);
    lemma_varint_embed(s, off + 2 + n1 + n2, expires_at as nat);
    let hl = 2 + n1 + n2 + n3;
    assert forall|k: int| 0 <= k < key.len() implies s[off + hl + k] == key[k] by {
        assert(s[off + (hl + k)] == frame[hl + k]);
        assert(frame[hl + k] == key[k]);
    }
    assert(s.subrange(off + hl, off + hl + key.len()) =~= key);
    assert forall|k: int| 0 <= k < value.len() implies s[off + hl + key.len() + k] == value[k] by {
        assert(s[off + (hl + key.len() + k)] == frame[hl + key.len() + k]);
        assert(frame[hl + key.len() + k] == value[k]);
    }
    assert(s.subrange(off + hl + key.len(), off + hl + key.len() + value.len()) =~= value);
    assert forall|k: int| 0 <= k < payload.len() implies frame[k] == payload[k] by {}
    assert(s.subrange(off, off + hl + key.len() + value.len()) =~= payload);
    assert forall|k: int| 0 <= k < 4 implies s[off + hl + key.len() + value.len() + k]
        == u32_be_bytes(crc32c_of(payload))[k] by {
        assert(s[off + (hl + key.len() + value.len() + k)] == frame[hl + key.len() + value.len()
            + k]);
        assert(frame[hl + key.len() + value.len() + k] == u32_be_bytes(crc32c_of(payload))[k]);
    }
    assert(s.subrange(off + hl + key.len() + value.len(), off + frame.len() as int)
        =~= u32_be_bytes(crc32c_of(payload)));
    lemma_u32_be_roundtrip(crc32c_of(payload));
    assert(frame.len() == hl + key.len() + value.len() + 4);
}

/// Round trip of the entry frame: a frame written for given fields, with
/// anything at all after it, decodes back to exactly those fields and
/// consumes exactly the frame.
#[verifier::rlimit(100)]
#[verifier::spinoff_prover]
pub proof fn lemma_entry_roundtrip(
    meta: u8,
    user_meta: u8,
    expires_at: u64,
    key: Seq<u8>,
    value: Seq<u8>,
    rest: Seq<u8>,
)
    requires
        key.len() <= 0x10000,
        value.len() < 0x10000000000000000,
    ensures
        ({
            let frame = entry_frame(meta, user_meta, expires_at, key, value);
            spec_decode_entry(frame + rest, 0) == Some(
                (
                    EntryData {
                        meta,
                        user_meta,
                        expires_at,
                        key,
                        value,
                        header_len: (2 + varint_space(key.len()) + varint_space(value.len())
                            + varint_space(expires_at as nat)) as int,
                    },
                    frame.len() as int,
                ),
            )
        }),
{
    let vb1 = varint_bytes(key.len());
    let vb2 = varint_bytes(value.len());
    let vb3 = varint_bytes(expires_at as nat);
    let n1 = vb1.len() as int;
    let n2 = vb2.len() as int;
    let n3 = vb3.len() as int;
    let payload = entry_payload(meta, user_meta, expires_at, key, value);
    let frame = entry_frame(meta, user_meta, expires_at, key, value);
    let s = frame + rest;
    lemma_varint_roundtrip(key.len());
    lemma_varint_roundtrip(value.len());
    lemma_varint_roundtrip(expires_at as nat);
    assert(s[0] == meta && s[1] == user_meta);
    assert(s.subrange(2, 2 + n1) =~= vb1);
    lemma_varint_embed(s, 2, key.len());
    assert(s.subrange(2 + n1, 2 + n1 + n2) =~= vb2);
    lemma_varint_embed(s, 2 + n1, value.len());
    assert(s.subrange(2 + n1 + n2, 2 + n1 + n2 + n3) =~= vb3);
    lemma_varint_embed(s, 2 + n1 + n2, expires_at as nat);
    let hl = 2 + n1 + n2 + n3;
    assert(s.subrange(hl, hl + key.len()) =~= key);
    assert(s.subrange(hl + key.len(), hl + key.len() + value.len()) =~= value);
    assert(s.subrange(0, hl + key.len() + value.len()) =~= payload);
    assert(s.subrange(
        hl + key.len(),
        hl + key.len() + value.len() + 4,
    ).len() >= 0);
    assert(s.subrange(hl + key.len() + value.len(), hl + key.len() + value.len() + 4) =~= u32_be_bytes(
        crc32c_of(payload)));
    lemma_u32_be_roundtrip(crc32c_of(payload));
    assert(frame.len() == hl + key.len() + value.len() + 4);
}

} // verus!
