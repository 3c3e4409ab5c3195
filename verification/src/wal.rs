//! The log file shared by memtable write-ahead logs and value-log files:
//! a twenty-byte header (key id and base IV), then entry frames, with a
//! zeroed region marking the tail. Replay walks the frames keeping a
//! transaction window: entries marked as transactional only count once
//! their end marker arrives with the same commit timestamp.

use vstd::prelude::*;

use crate::codec::{all_digits, dec_value, parse_u64_dec};
use crate::entry::{
    spec_decode_entry, Entry, EntryData, ValuePointer, META_FIN_TXN, META_TXN, MAX_HEADER_SIZE,
};
use crate::kv::spec_parse_ts;

verus! {

/// Bytes of the log header: an eight-byte key id and a twelve-byte IV.
pub const VLOG_HEADER_SIZE: u32 = 20;

/// Largest offset a value-log file can reach.
pub const MAX_VLOG_FILE_SIZE: u32 = 0xffff_ffff;

/// Relies on `rand::random` for an array of twelve bytes: nothing is
/// assumed of the values beyond their count.
#[verifier::external_body]
pub(crate) fn random_iv() -> (r: Vec<u8>)
    ensures
        r@.len() == 12,
{
    rand::random::<[u8; 12]>().to_vec()
}

/// Screens an existing log's header at open: the first eight bytes name
/// an encryption key id, and only the zero id is supported. A file too
/// short to hold a header carries no id to refuse.
pub fn check_log_key_id(data: &Vec<u8>) -> (r: Result<(), crate::error::Error>)
    ensures
        r is Ok <==> (data@.len() < VLOG_HEADER_SIZE || (forall|i: int|
            0 <= i < 8 ==> data@[i] == 0)),
        r is Err ==> r->Err_0 == crate::error::Error::InvalidDataKeyID,
{
    if data.len() < VLOG_HEADER_SIZE as usize {
        return Ok(());
    }
    let mut i: usize = 0;
    while i < 8
        invariant
            data@.len() >= VLOG_HEADER_SIZE,
            i <= 8,
            forall|k: int| 0 <= k < i ==> data@[k] == 0,
        decreases 8 - i,
    {
        if data[i] != 0 {
            return Err(crate::error::Error::InvalidDataKeyID);
        }
        i = i + 1;
    }
    Ok(())
}

/// One delivered replay item: the entry's fields, its offset, and its
/// frame's byte count.
pub type ScanItem = (EntryData, int, int);

/// What replaying from `off` with an open transaction window yields: the
/// delivered items and the valid end offset. `last_commit` is the open
/// window's commit timestamp (zero for none), `buffered` its items so
/// far, `out` and `valid_end` what has already been delivered.
pub open spec fn wal_scan(
    s: Seq<u8>,
    off: int,
    last_commit: u64,
    buffered: Seq<ScanItem>,
    out: Seq<ScanItem>,
    valid_end: int,
) -> (Seq<ScanItem>, int)
    decreases s.len() - off when 0 <= off <= s.len()
{
    match spec_decode_entry(s, off) {
        None => (out, valid_end),
        Some((e, n)) => {
            if e.key.len() == 0 {
                (out, valid_end)
            } else if e.meta & META_TXN != 0 {
                let ts = spec_parse_ts(e.key);
                if last_commit == 0 {
                    wal_scan(s, off + n, ts, buffered.push((e, off, n)), out, valid_end)
                } else if last_commit != ts {
                    (out, valid_end)
                } else {
                    wal_scan(s, off + n, last_commit, buffered.push((e, off, n)), out, valid_end)
                }
            } else if e.meta & META_FIN_TXN != 0 {
                if !(all_digits(e.value) && e.value.len() >= 1 && dec_value(e.value)
                    < 0x10000000000000000) {
                    (out, valid_end)
                } else if dec_value(e.value) != last_commit {
                    (out, valid_end)
                } else {
                    wal_scan(s, off + n, 0, Seq::empty(), out + buffered, off + n)
                }
            } else {
                if last_commit != 0 {
                    (out, valid_end)
                } else {
                    wal_scan(s, off + n, 0, buffered, out.push((e, off, n)), off + n)
                }
            }
        },
    }
}

/// The frame length of an entry's fields.
pub open spec fn eflen(e: EntryData) -> int {
    crate::entry::entry_frame(e.meta, e.user_meta, e.expires_at, e.key, e.value).len() as int
}

/// The concatenated frames of a list of entries.
pub open spec fn frames_bytes(es: Seq<EntryData>) -> Seq<u8>
    decreases es.len(),
{
    if es.len() == 0 {
        Seq::empty()
    } else {
        crate::entry::entry_frame(
            es[0].meta,
            es[0].user_meta,
            es[0].expires_at,
            es[0].key,
            es[0].value,
        ) + frames_bytes(es.drop_first())
    }
}

/// Appending an entry appends its frame to the concatenation.
pub proof fn lemma_frames_bytes_push(es: Seq<EntryData>, e: EntryData)
    ensures
        frames_bytes(es.push(e)) == frames_bytes(es) + crate::entry::entry_frame(
            e.meta,
            e.user_meta,
            e.expires_at,
            e.key,
            e.value,
        ),
    decreases es.len(),
{
    let ef = crate::entry::entry_frame(e.meta, e.user_meta, e.expires_at, e.key, e.value);
    if es.len() == 0 {
        assert(es.push(e)[0] == e);
        assert(es.push(e).drop_first() =~= Seq::<EntryData>::empty());
        assert(frames_bytes(es.push(e)) == ef + frames_bytes(Seq::<EntryData>::empty()));
        assert(frames_bytes(es.push(e)) =~= frames_bytes(es) + ef);
    } else {
        let e0 = es[0];
        let f0 = crate::entry::entry_frame(e0.meta, e0.user_meta, e0.expires_at, e0.key, e0.value);
        assert(es.push(e)[0] == es[0]);
        assert(es.push(e).drop_first() =~= es.drop_first().push(e));
        assert(frames_bytes(es.push(e)) == f0 + frames_bytes(es.drop_first().push(e)));
        lemma_frames_bytes_push(es.drop_first(), e);
        let lhs = f0 + (frames_bytes(es.drop_first()) + ef);
        let rhs = (f0 + frames_bytes(es.drop_first())) + ef;
        assert(lhs =~= rhs);
        assert(frames_bytes(es.push(e)) == lhs);
        assert(frames_bytes(es) == f0 + frames_bytes(es.drop_first()));
    }
}

/// The replay items of a list of entries whose frames start at `off`.
pub open spec fn frame_items(es: Seq<EntryData>, off: int) -> Seq<ScanItem>
    decreases es.len(),
{
    if es.len() == 0 {
        Seq::empty()
    } else {
        seq![(es[0], off, eflen(es[0]))] + frame_items(es.drop_first(), off + eflen(es[0]))
    }
}

/// An entry that replay delivers on its own: not transactional, with a
/// key, within the frame bounds, and carrying its canonical header
/// length.
pub open spec fn plain_entry(e: EntryData) -> bool {
    &&& e.meta & META_TXN == 0
    &&& e.meta & META_FIN_TXN == 0
    &&& 0 < e.key.len() <= 0x10000
    &&& e.value.len() < 0x10000000000000000
    &&& e.header_len == (2 + crate::codec::varint_space(e.key.len())
        + crate::codec::varint_space(e.value.len()) + crate::codec::varint_space(
        e.expires_at as nat,
    )) as int
}

/// Law of log replay and truncation: when a log holds the complete frames
/// of standalone entries and then any tail at which decoding stops — a
/// truncated or corrupted frame, or the zeroed next-entry region — replay
/// delivers exactly those entries, in order, and the valid end offset is
/// the end of the last complete frame: everything before the damage is
/// preserved, and truncating to the valid end loses only the tail.
#[verifier::rlimit(100)]
#[verifier::spinoff_prover]
pub proof fn lemma_wal_scan_frames(es: Seq<EntryData>, s: Seq<u8>, off: int, out: Seq<ScanItem>)
    requires
        forall|i: int| 0 <= i < es.len() ==> plain_entry(#[trigger] es[i]),
        0 <= off,
        off + frames_bytes(es).len() <= s.len(),
        s.subrange(off, off + frames_bytes(es).len() as int) == frames_bytes(es),
        ({
            let end = off + frames_bytes(es).len() as int;
            spec_decode_entry(s, end) is None || spec_decode_entry(s, end).unwrap().0.key.len()
                == 0
        }),
    ensures
        wal_scan(s, off, 0, Seq::empty(), out, off) == (
            out + frame_items(es, off),
            off + frames_bytes(es).len() as int,
        ),
    decreases es.len(),
{
    if es.len() == 0 {
        assert(out + frame_items(es, off) =~= out);
    } else {
        let e = es[0];
        let frame = crate::entry::entry_frame(e.meta, e.user_meta, e.expires_at, e.key, e.value);
        let restb = frames_bytes(es.drop_first());
        assert(frames_bytes(es) == frame + restb);
        let sub = s.subrange(off, off + frames_bytes(es).len() as int);
        assert forall|k: int| 0 <= k < frames_bytes(es).len() implies s[off + k]
            == frames_bytes(es)[k] by {
            assert(sub[k] == s[off + k]);
        }
        assert forall|k: int| 0 <= k < frame.len() implies s[off + k] == frame[k] by {
            assert(frames_bytes(es)[k] == frame[k]);
        }
        assert(s.subrange(off, off + frame.len() as int) =~= frame);
        crate::entry::lemma_entry_frame_at(
            e.meta,
            e.user_meta,
            e.expires_at,
            e.key,
            e.value,
            s,
            off,
        );
        let n = frame.len() as int;
        let decoded = spec_decode_entry(s, off).unwrap().0;
        assert(decoded == e);
        assert forall|k: int| 0 <= k < restb.len() implies s[off + n + k] == restb[k] by {
            assert(s[off + (n + k)] == frames_bytes(es)[n + k]);
            assert(frames_bytes(es)[n + k] == restb[k]);
        }
        assert(s.subrange(off + n, off + n + restb.len() as int) =~= restb);
        assert forall|i: int| 0 <= i < es.drop_first().len() implies plain_entry(
            #[trigger] es.drop_first()[i],
        ) by {
            assert(es.drop_first()[i] == es[i + 1]);
        }
        lemma_wal_scan_frames(es.drop_first(), s, off + n, out.push((e, off, n)));
        assert(wal_scan(s, off, 0, Seq::empty(), out, off) == wal_scan(
            s,
            off + n,
            0,
            Seq::empty(),
            out.push((e, off, n)),
            off + n,
        ));
        assert(out + frame_items(es, off) =~= out.push((e, off, n)) + frame_items(
            es.drop_first(),
            off + n,
        ));
    }
}

/// The delivered items of the exec representation: each entry's fields,
/// its recorded offset, and its pointer's length.
pub open spec fn items_view(v: Seq<(Entry, ValuePointer)>) -> Seq<ScanItem> {
    Seq::new(v.len(), |i: int| (v[i].0.parsed(), v[i].0.offset as int, v[i].1.len as int))
}

/// A log file's bytes and write position.
pub struct LogBuf {
    pub data: Vec<u8>,
    pub fid: u32,
    pub write_at: usize,
    pub size: u32,
}

impl LogBuf {
    /// A fresh log: a zero key id, a random IV, the write position past
    /// the header and the next-entry region zeroed.
    pub fn bootstrap(fid: u32) -> (r: LogBuf)
        ensures
            r.fid == fid,
            r.write_at == VLOG_HEADER_SIZE,
            r.data@.len() == VLOG_HEADER_SIZE + MAX_HEADER_SIZE,
            forall|i: int| 0 <= i < 8 ==> r.data@[i] == 0,
            forall|i: int|
                VLOG_HEADER_SIZE <= i < r.data@.len() ==> r.data@[i] == 0,
            r.size == VLOG_HEADER_SIZE,
    {
        let mut data: Vec<u8> = Vec::new();
        let mut i: usize = 0;
        while i < 8
            invariant
                data@.len() == i,
                i <= 8,
                forall|j: int| 0 <= j < i ==> data@[j] == 0,
            decreases 8 - i,
        {
            data.push(0);
            i = i + 1;
        }
        let iv = random_iv();
        crate::codec::extend_from(&mut data, iv.as_slice());
        let mut z: usize = 0;
        while z < MAX_HEADER_SIZE
            invariant
                data@.len() == 20 + z,
                z <= MAX_HEADER_SIZE,
                forall|j: int| 0 <= j < 8 ==> data@[j] == 0,
                forall|j: int| 20 <= j < data@.len() ==> data@[j] == 0,
            decreases MAX_HEADER_SIZE - z,
        {
            data.push(0);
            z = z + 1;
        }
        LogBuf { data, fid, write_at: VLOG_HEADER_SIZE as usize, size: VLOG_HEADER_SIZE }
    }

    /// Wraps existing file bytes, with writes resuming at `write_at`.
    pub fn from_bytes(data: Vec<u8>, fid: u32, write_at: usize) -> (r: LogBuf)
        requires
            data@.len() < 0x1_0000_0000,
        ensures
            r.data == data,
            r.fid == fid,
            r.write_at == write_at,
            r.size == data@.len(),
    {
        let size = data.len() as u32;
        LogBuf { data, fid, write_at, size }
    }

    /// Appends one entry frame at the write position, growing the buffer
    /// when it is short, and re-zeroes the next-entry region so replay
    /// stops after the new tail. Returns the frame's byte count.
    pub fn write_entry(&mut self, ent: &Entry) -> (r: u32)
        requires
            ent.key@.len() <= 0x10000,
            ent.value@.len() <= 0x80000000,
            old(self).write_at <= old(self).data@.len(),
            old(self).data@.len() + ent.key@.len() + ent.value@.len() < 0xf000_0000,
        ensures
            ({
                let frame = crate::entry::entry_frame(
                    ent.meta,
                    ent.user_meta,
                    ent.expires_at,
                    ent.key@,
                    ent.value@,
                );
                &&& r as int == frame.len()
                &&& final(self).write_at == old(self).write_at + frame.len()
                &&& final(self).data@.len() == if old(self).data@.len() >= final(self).write_at
                    + MAX_HEADER_SIZE {
                    old(self).data@.len() as int
                } else {
                    final(self).write_at + MAX_HEADER_SIZE
                }
                &&& final(self).data@.len() >= final(self).write_at + MAX_HEADER_SIZE
                &&& final(self).data@.subrange(0, old(self).write_at as int) == old(
                    self,
                ).data@.subrange(0, old(self).write_at as int)
                &&& final(self).data@.subrange(
                    old(self).write_at as int,
                    old(self).write_at + frame.len(),
                ) == frame
                &&& forall|k: int|
                    final(self).write_at <= k < final(self).write_at + MAX_HEADER_SIZE
                        ==> final(self).data@[k] == 0
                &&& final(self).fid == old(self).fid
            }),
    {
        let mut frame: Vec<u8> = Vec::new();
        let flen = ent.encode_with_buf(&mut frame) as usize;
        proof {
            crate::codec::lemma_varint_roundtrip(ent.key@.len());
            crate::codec::lemma_varint_roundtrip(ent.value@.len());
            crate::codec::lemma_varint_roundtrip(ent.expires_at as nat);
            assert(flen <= ent.key@.len() + ent.value@.len() + 36);
        }
        let need = self.write_at + flen + MAX_HEADER_SIZE;
        while self.data.len() < need
            invariant
                need < 0xf000_0040,
                self.fid == old(self).fid,
                self.write_at == old(self).write_at,
                self.size == old(self).size,
                old(self).data@.len() <= self.data@.len(),
                self.data@.len() <= need || self.data@.len() == old(self).data@.len(),
                self.data@.subrange(0, old(self).data@.len() as int) == old(self).data@,
            decreases need - self.data@.len(),
        {
            self.data.push(0);
            proof {
                assert(self.data@.subrange(0, old(self).data@.len() as int) =~= old(self).data@);
            }
        }
        let ghost mid = self.data@;
        write_bytes_at(&mut self.data, self.write_at, frame.as_slice());
        let ghost after_frame = self.data@;
        zero_range(&mut self.data, self.write_at + flen, self.write_at + flen + MAX_HEADER_SIZE);
        self.write_at = self.write_at + flen;
        proof {
            assert(self.data@.subrange(0, old(self).write_at as int) =~= old(self).data@.subrange(
                0,
                old(self).write_at as int,
            ));
            assert(self.data@.subrange(
                old(self).write_at as int,
                old(self).write_at + flen,
            ) =~= frame@);
        }
        flen as u32
    }

    /// Shrinks the log to `offset` bytes; replay ended there and what
    /// follows is not durable.
    pub fn truncate(&mut self, offset: usize)
        requires
            offset <= old(self).data@.len(),
            offset < 0x1_0000_0000,
        ensures
            final(self).data@ == old(self).data@.take(offset as int),
            final(self).write_at == offset,
            final(self).size == offset,
            final(self).fid == old(self).fid,
    {
        self.data.truncate(offset);
        self.write_at = offset;
        self.size = offset as u32;
    }

    /// Replays the log from `start_offset` (never inside the header):
    /// walks the frames with the transaction window and returns the
    /// delivered entries with their value pointers, and the valid end
    /// offset, to which the caller truncates.
    pub fn iterate(&self, start_offset: u32) -> (r: (Vec<(Entry, ValuePointer)>, u32))
        requires
            VLOG_HEADER_SIZE <= self.data@.len() < 0xf000_0000,
            start_offset == 0 || VLOG_HEADER_SIZE <= start_offset <= self.data@.len(),
        ensures
            ({
                let start = if start_offset == 0 {
                    VLOG_HEADER_SIZE as int
                } else {
                    start_offset as int
                };
                let (items, valid_end) = wal_scan(
                    self.data@,
                    start,
                    0,
                    Seq::empty(),
                    Seq::empty(),
                    start,
                );
                &&& items_view(r.0@) == items
                &&& r.1 as int == valid_end
                &&& r.1 <= self.data@.len()
                &&& forall|i: int|
                    0 <= i < r.0@.len() ==> (#[trigger] r.0@[i]).1.fid == self.fid
            }),
    {
        let mut offset: usize = if start_offset == 0 {
            VLOG_HEADER_SIZE as usize
        } else {
            start_offset as usize
        };
        let ghost start = offset as int;
        let mut last_commit: u64 = 0;
        let mut valid_end: usize = offset;
        let mut entries: Vec<(Entry, ValuePointer)> = Vec::new();
        let mut out: Vec<(Entry, ValuePointer)> = Vec::new();
        let dlen = self.data.len();
        proof {
            assert(items_view(entries@) =~= Seq::<ScanItem>::empty());
            assert(items_view(out@) =~= Seq::<ScanItem>::empty());
        }
        loop
            invariant
                dlen == self.data@.len(),
                dlen < 0xf000_0000,
                20 <= offset <= dlen,
                valid_end <= dlen,
                20 <= start <= dlen,
                start == if start_offset == 0 {
                    VLOG_HEADER_SIZE as int
                } else {
                    start_offset as int
                },
                wal_scan(self.data@, start, 0, Seq::empty(), Seq::empty(), start) == wal_scan(
                    self.data@,
                    offset as int,
                    last_commit,
                    items_view(entries@),
                    items_view(out@),
                    valid_end as int,
                ),
                forall|i: int|
                    0 <= i < out@.len() ==> (#[trigger] out@[i]).1.fid == self.fid,
                forall|i: int|
                    0 <= i < entries@.len() ==> (#[trigger] entries@[i]).1.fid == self.fid,
            decreases dlen + 1 - offset,
        {
            let ent = match Entry::decode_from_slice(self.data.as_slice(), offset) {
                Ok((e, n)) => e,
                Err(_) => {
                    return (out, valid_end as u32);
                },
            };
            let ghost spec_e = ent.parsed();
            let ghost n = spec_decode_entry(self.data@, offset as int).unwrap().1;
            if ent.key.len() == 0 {
                return (out, valid_end as u32);
            }
            let ent_len = ent.header_len + (ent.key.len() + ent.value.len()
                + crate::entry::CRC_SIZE) as u32;
            let vp = ValuePointer { fid: self.fid, len: ent_len, offset: ent.offset };
            proof {
                assert(ent_len as int == n) by {
                    assert(spec_e.header_len + spec_e.key.len() + spec_e.value.len() + 4 == n);
                }
            }
            let next = offset + ent_len as usize;
            if ent.meta & META_TXN != 0 {
                let ts = crate::kv::parse_ts(&ent.key);
                if last_commit == 0 {
                    last_commit = ts;
                    proof {
                        assert(items_view(entries@.push((ent, vp))) =~= items_view(entries@).push(
                            (spec_e, offset as int, n),
                        ));
                    }
                    entries.push((ent, vp));
                } else if last_commit != ts {
                    return (out, valid_end as u32);
                } else {
                    proof {
                        assert(items_view(entries@.push((ent, vp))) =~= items_view(entries@).push(
                            (spec_e, offset as int, n),
                        ));
                    }
                    entries.push((ent, vp));
                }
            } else if ent.meta & META_FIN_TXN != 0 {
                let txn_ts = match parse_u64_dec(ent.value.as_slice()) {
                    Some(v) => v,
                    None => {
                        return (out, valid_end as u32);
                    },
                };
                if txn_ts != last_commit {
                    return (out, valid_end as u32);
                }
                last_commit = 0;
                let mut drained = entries;
                entries = Vec::new();
                proof {
                    assert(items_view(entries@) =~= Seq::<ScanItem>::empty());
                }
                let ghost pre_out = items_view(out@);
                let ghost pre_buf = items_view(drained@);
                while drained.len() > 0
                    invariant
                        items_view(out@) + items_view(drained@) == pre_out + pre_buf,
                        forall|i: int|
                            0 <= i < out@.len() ==> (#[trigger] out@[i]).1.fid == self.fid,
                        forall|i: int|
                            0 <= i < drained@.len() ==> (#[trigger] drained@[i]).1.fid
                                == self.fid,
                    decreases drained@.len(),
                {
                    let ghost dv = items_view(drained@);
                    let ghost ov = items_view(out@);
                    let (e2, v2) = drained.remove(0);
                    proof {
                        assert(items_view(drained@) =~= dv.drop_first());
                        assert(items_view(out@.push((e2, v2))) =~= ov.push(dv[0])) by {
                            assert(dv[0] == (e2.parsed(), e2.offset as int, v2.len as int));
                        }
                        assert(ov.push(dv[0]) + dv.drop_first() =~= ov + dv);
                    }
                    out.push((e2, v2));
                }
                proof {
                    assert(items_view(drained@) =~= Seq::<ScanItem>::empty());
                    assert(items_view(out@) + Seq::<ScanItem>::empty() =~= items_view(out@));
                    assert(pre_out + pre_buf =~= items_view(out@));
                }
                valid_end = next;
            } else {
                if last_commit != 0 {
                    return (out, valid_end as u32);
                }
                proof {
                    assert(items_view(out@.push((ent, vp))) =~= items_view(out@).push(
                        (spec_e, offset as int, n),
                    ));
                }
                out.push((ent, vp));
                valid_end = next;
            }
            offset = next;
        }
    }
}

/// Overwrites `dst[offset..offset + src.len()]` with `src`.
pub fn write_bytes_at(dst: &mut Vec<u8>, offset: usize, src: &[u8])
    requires
        offset + src@.len() <= old(dst)@.len(),
    ensures
        final(dst)@.len() == old(dst)@.len(),
        final(dst)@.subrange(offset as int, offset + src@.len()) == src@,
        forall|k: int|
            0 <= k < old(dst)@.len() && !(offset <= k < offset + src@.len())
                ==> final(dst)@[k] == old(dst)@[k],
{
    let n = src.len();
    let cap = dst.len();
    let mut i: usize = 0;
    while i < n
        invariant
            n == src@.len(),
            cap == dst@.len(),
            offset + n <= dst@.len(),
            dst@.len() == old(dst)@.len(),
            i <= n,
            forall|k: int| 0 <= k < i ==> dst@[offset + k] == src@[k],
            forall|k: int|
                0 <= k < old(dst)@.len() && !(offset <= k < offset + n) ==> dst@[k] == old(
                    dst,
                )@[k],
        decreases n - i,
    {
        dst.set(offset + i, src[i]);
        i = i + 1;
    }
    proof {
        assert(dst@.subrange(offset as int, offset + n) =~= src@);
    }
}

/// Zeroes `dst[start..end]`.
pub fn zero_range(dst: &mut Vec<u8>, start: usize, end: usize)
    requires
        start <= end <= old(dst)@.len(),
    ensures
        final(dst)@.len() == old(dst)@.len(),
        forall|k: int| start <= k < end ==> final(dst)@[k] == 0,
        forall|k: int|
            0 <= k < old(dst)@.len() && !(start <= k < end) ==> final(dst)@[k] == old(dst)@[k],
{
    let mut i: usize = start;
    while i < end
        invariant
            start <= i <= end <= dst@.len(),
            dst@.len() == old(dst)@.len(),
            forall|k: int| start <= k < i ==> dst@[k] == 0,
            forall|k: int|
                0 <= k < old(dst)@.len() && !(start <= k < end) ==> dst@[k] == old(dst)@[k],
        decreases end - i,
    {
        dst.set(i, 0);
        i = i + 1;
    }
}

} // verus!
