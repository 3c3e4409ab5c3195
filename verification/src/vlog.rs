//! The value log: numbered log files that hold values too large to stay
//! inline. Writes append framed entries and hand back value pointers;
//! files rotate on size and entry-count thresholds.

use vstd::prelude::*;

use crate::entry::{entry_frame, Entry, ValuePointer};
use crate::error::Error;
use crate::wal::{LogBuf, MAX_VLOG_FILE_SIZE, VLOG_HEADER_SIZE};

verus! {

/// File ids kept, sorted ascending: everything in `fids` that is not
/// marked for deletion.
pub fn sort_fids(files_tobe_deleted: &Vec<u32>, fids: &Vec<u32>) -> (r: Vec<u32>)
    ensures
        forall|i: int, j: int| 0 <= i < j < r@.len() ==> r@[i] <= r@[j],
        forall|i: int|
            0 <= i < r@.len() ==> fids@.contains(#[trigger] r@[i]) && !files_tobe_deleted@.contains(
                r@[i],
            ),
        forall|i: int|
            0 <= i < fids@.len() && !files_tobe_deleted@.contains(#[trigger] fids@[i])
                ==> r@.contains(fids@[i]),
{
    let mut out: Vec<u32> = Vec::new();
    let n = fids.len();
    let mut i: usize = 0;
    while i < n
        invariant
            n == fids@.len(),
            i <= n,
            forall|a: int, b: int| 0 <= a < b < out@.len() ==> out@[a] <= out@[b],
            forall|a: int|
                0 <= a < out@.len() ==> fids@.contains(#[trigger] out@[a])
                    && !files_tobe_deleted@.contains(out@[a]),
            forall|a: int|
                0 <= a < i && !files_tobe_deleted@.contains(#[trigger] fids@[a]) ==> out@.contains(
                    fids@[a]),
        decreases n - i,
    {
        let fid = fids[i];
        let mut deleted = false;
        let mut d: usize = 0;
        while d < files_tobe_deleted.len()
            invariant
                d <= files_tobe_deleted@.len(),
                deleted ==> files_tobe_deleted@.contains(fid),
                !deleted ==> forall|k: int| 0 <= k < d ==> files_tobe_deleted@[k] != fid,
            decreases files_tobe_deleted@.len() - d,
        {
            if files_tobe_deleted[d] == fid {
                deleted = true;
            }
            d = d + 1;
        }
        if !deleted {
            let ghost pre = out@;
            let mut pos: usize = 0;
            while pos < out.len() && out[pos] <= fid
                invariant
                    out@ == pre,
                    pos <= out@.len(),
                    forall|k: int| 0 <= k < pos ==> out@[k] <= fid,
                decreases out@.len() - pos,
            {
                pos = pos + 1;
            }
            out.insert(pos, fid);
            proof {
                assert forall|a: int, b: int|
                    0 <= a < b < out@.len() implies out@[a] <= out@[b] by {
                    if a < pos && b == pos {
                    } else if a == pos && b > pos {
                        assert(out@[b] == pre[b - 1]);
                        assert(pre[pos as int] > fid || pos == pre.len());
                        if (pos as int) < pre.len() {
                            assert(pre[b - 1] >= pre[pos as int] || b - 1 == pos);
                        }
                    } else if a < pos && b > pos {
                        assert(out@[a] == pre[a] && out@[b] == pre[b - 1]);
                    } else if a > pos {
                        assert(out@[a] == pre[a - 1] && out@[b] == pre[b - 1]);
                    } else {
                        assert(out@[a] == pre[a] && out@[b] == pre[b]);
                    }
                }
                assert forall|a: int|
                    0 <= a < i + 1 && !files_tobe_deleted@.contains(#[trigger] fids@[a]) implies out@.contains(
                    fids@[a],
                ) by {
                    if a < i {
                        let w = choose|w: int| 0 <= w < pre.len() && pre[w] == fids@[a];
                        if w < pos {
                            assert(out@[w] == fids@[a]);
                        } else {
                            assert(out@[w + 1] == fids@[a]);
                        }
                    } else {
                        assert(out@[pos as int] == fid);
                    }
                }
                assert forall|a: int|
                    0 <= a < out@.len() implies fids@.contains(#[trigger] out@[a])
                    && !files_tobe_deleted@.contains(out@[a]) by {
                    if a < pos {
                        assert(out@[a] == pre[a]);
                    } else if a > pos {
                        assert(out@[a] == pre[a - 1]);
                    } else {
                        assert(out@[a] == fid);
                        assert(fids@[i as int] == fid);
                    }
                }
            }
        } else {
            proof {
                assert forall|a: int|
                    0 <= a < i + 1 && !files_tobe_deleted@.contains(#[trigger] fids@[a]) implies out@.contains(
                    fids@[a],
                ) by {}
            }
        }
        i = i + 1;
    }
    out
}

/// An entry's meta bits as the value log stores them: the transaction
/// framing bits stripped.
pub open spec fn vlog_meta(meta: u8) -> u8 {
    meta & 0x3f
}

/// The frame the value log stores for an entry: the entry with its
/// transaction bits stripped.
pub open spec fn vlog_frame(e: Entry) -> Seq<u8> {
    entry_frame(vlog_meta(e.meta), e.user_meta, e.expires_at, e.key@, e.value@)
}

/// The size a request's entries will take in the log: each entry's frame.
pub open spec fn spec_request_size(entries: Seq<Entry>) -> int
    decreases entries.len(),
{
    if entries.len() == 0 {
        0
    } else {
        spec_request_size(entries.drop_last()) + vlog_frame(entries.last()).len()
    }
}

/// Estimates one request's on-disk size: the sum of its entries' frames.
pub fn estimate_request_size(entries: &Vec<Entry>) -> (r: u64)
    requires
        forall|i: int|
            0 <= i < entries@.len() ==> (#[trigger] entries@[i]).key@.len() <= 0x10000
                && entries@[i].value@.len() <= 0x8000_0000,
        entries@.len() < 0x10000,
    ensures
        r as int == spec_request_size(entries@),
{
    let n = entries.len();
    let mut total: u64 = 0;
    let mut i: usize = 0;
    while i < n
        invariant
            n == entries@.len(),
            n < 0x10000,
            i <= n,
            forall|k: int|
                0 <= k < n ==> (#[trigger] entries@[k]).key@.len() <= 0x10000
                    && entries@[k].value@.len() <= 0x8000_0000,
            total as int == spec_request_size(entries@.take(i as int)),
            total <= i * 0x8002_0000,
        decreases n - i,
    {
        let mut scratch: Vec<u8> = Vec::new();
        let stripped = Entry {
            key: crate::txn::clone_bytes(&entries[i].key),
            value: crate::txn::clone_bytes(&entries[i].value),
            expires_at: entries[i].expires_at,
            version: 0,
            user_meta: entries[i].user_meta,
            meta: entries[i].meta & 0x3f,
            offset: 0,
            header_len: 0,
            value_threshold: 0,
        };
        let flen = stripped.encode_with_buf(&mut scratch) as u64;
        proof {
            crate::codec::lemma_varint_roundtrip(entries@[i as int].key@.len());
            crate::codec::lemma_varint_roundtrip(entries@[i as int].value@.len());
            crate::codec::lemma_varint_roundtrip(entries@[i as int].expires_at as nat);
            assert(entries@.take(i + 1).drop_last() =~= entries@.take(i as int));
            assert(entries@.take(i + 1).last() == entries@[i as int]);
        }
        total = total + flen;
        i = i + 1;
    }
    proof {
        assert(entries@.take(n as int) =~= entries@);
    }
    total
}

/// Checks a batch against the log's limits before writing: simulates the
/// running offset per request, rolling to a fresh file when a request
/// would pass the file-size threshold, and refuses a batch whose offset
/// would ever pass the largest representable log offset.
pub open spec fn spec_validate(offset: int, sizes: Seq<u64>, file_size: int) -> bool
    decreases sizes.len(),
{
    if sizes.len() == 0 {
        true
    } else {
        let est = offset + sizes[0];
        if est > MAX_VLOG_FILE_SIZE {
            false
        } else if est >= file_size {
            spec_validate(0, sizes.drop_first(), file_size)
        } else {
            spec_validate(est, sizes.drop_first(), file_size)
        }
    }
}

/// Computes `spec_validate` over the requests' estimated sizes.
pub fn validate_writes(woffset: u32, sizes: &Vec<u64>, value_log_file_size: usize) -> (r: Result<
    (),
    Error,
>)
    requires
        value_log_file_size < 0x8000_0000,
    ensures
        r is Ok <==> spec_validate(woffset as int, sizes@, value_log_file_size as int),
        r is Err ==> r == Result::<(), Error>::Err(Error::ValueLogSize(value_log_file_size)),
{
    let n = sizes.len();
    let mut offset: u64 = woffset as u64;
    let mut i: usize = 0;
    proof {
        assert(sizes@.skip(0) =~= sizes@);
    }
    while i < n
        invariant
            n == sizes@.len(),
            i <= n,
            offset <= 0xffff_ffff,
            value_log_file_size < 0x8000_0000,
            spec_validate(woffset as int, sizes@, value_log_file_size as int) == spec_validate(
                offset as int,
                sizes@.skip(i as int),
                value_log_file_size as int,
            ),
        decreases n - i,
    {
        proof {
            assert(sizes@.skip(i as int)[0] == sizes@[i as int]);
            assert(sizes@.skip(i as int).drop_first() =~= sizes@.skip(i + 1));
        }
        let size = sizes[i];
        if size > 0xffff_ffff_0000_0000 || offset + size > MAX_VLOG_FILE_SIZE as u64 {
            proof {
                if offset + size <= MAX_VLOG_FILE_SIZE as u64 {
                }
            }
            return Err(Error::ValueLogSize(value_log_file_size));
        }
        let est = offset + size;
        if est >= value_log_file_size as u64 {
            offset = 0;
        } else {
            offset = est;
        }
        i = i + 1;
    }
    proof {
        assert(sizes@.skip(n as int) =~= Seq::<u64>::empty());
    }
    Ok(())
}

/// The largest file id among those found at open, zero when none.
pub open spec fn spec_fids_max(fids: Seq<u32>) -> u32
    decreases fids.len(),
{
    if fids.len() == 0 {
        0u32
    } else {
        let m = spec_fids_max(fids.drop_last());
        if fids.last() > m {
            fids.last()
        } else {
            m
        }
    }
}

/// The files kept at open: one holding only its header is dropped unless
/// it is the newest.
pub open spec fn spec_vlog_keep(fids: Seq<u32>, sizes: Seq<u64>, mx: u32) -> Seq<u32>
    decreases fids.len(),
{
    if fids.len() == 0 {
        Seq::empty()
    } else {
        let rest = spec_vlog_keep(fids.drop_last(), sizes.drop_last(), mx);
        if sizes.last() == VLOG_HEADER_SIZE as u64 && fids.last() != mx {
            rest
        } else {
            rest.push(fids.last())
        }
    }
}

/// Screens the value-log files found in a directory at open: a file id
/// seen twice is corruption and refuses the whole set; otherwise the
/// files to keep are returned in the order given, dropping any that
/// holds only its header except the newest.
pub fn plan_vlog_open(fids: &Vec<u32>, sizes: &Vec<u64>) -> (r: Result<Vec<u32>, Error>)
    requires
        fids@.len() == sizes@.len(),
    ensures
        r is Err <==> exists|i: int, j: int|
            0 <= i < j < fids@.len() && fids@[i] == fids@[j],
        r is Err ==> r->Err_0 == Error::InvalidRequest,
        r is Ok ==> r->Ok_0@ == spec_vlog_keep(fids@, sizes@, spec_fids_max(fids@)),
{
    let n = fids.len();
    let mut i: usize = 0;
    while i < n
        invariant
            n == fids@.len(),
            i <= n,
            forall|p: int, q: int| 0 <= p < q < n && p < i ==> fids@[p] != fids@[q],
        decreases n - i,
    {
        let mut j: usize = i + 1;
        while j < n
            invariant
                n == fids@.len(),
                i < n,
                i < j <= n,
                forall|q: int| i < q < j ==> fids@[q] != fids@[i as int],
            decreases n - j,
        {
            if fids[j] == fids[i] {
                return Err(Error::InvalidRequest);
            }
            j = j + 1;
        }
        i = i + 1;
    }
    let mut mx: u32 = 0;
    let mut i: usize = 0;
    proof {
        assert(fids@.take(0) =~= Seq::<u32>::empty());
    }
    while i < n
        invariant
            n == fids@.len(),
            i <= n,
            mx == spec_fids_max(fids@.take(i as int)),
        decreases n - i,
    {
        proof {
            assert(fids@.take(i + 1).drop_last() =~= fids@.take(i as int));
            assert(fids@.take(i + 1).last() == fids@[i as int]);
        }
        if fids[i] > mx {
            mx = fids[i];
        }
        i = i + 1;
    }
    proof {
        assert(fids@.take(n as int) =~= fids@);
    }
    let mut keep: Vec<u32> = Vec::new();
    let mut i: usize = 0;
    proof {
        assert(fids@.take(0) =~= Seq::<u32>::empty());
        assert(sizes@.take(0) =~= Seq::<u64>::empty());
        assert(keep@ =~= spec_vlog_keep(fids@.take(0), sizes@.take(0), mx));
    }
    while i < n
        invariant
            n == fids@.len(),
            sizes@.len() == n,
            i <= n,
            keep@ == spec_vlog_keep(fids@.take(i as int), sizes@.take(i as int), mx),
        decreases n - i,
    {
        proof {
            assert(fids@.take(i + 1).drop_last() =~= fids@.take(i as int));
            assert(sizes@.take(i + 1).drop_last() =~= sizes@.take(i as int));
            assert(fids@.take(i + 1).last() == fids@[i as int]);
            assert(sizes@.take(i + 1).last() == sizes@[i as int]);
        }
        if !(sizes[i] == VLOG_HEADER_SIZE as u64 && fids[i] != mx) {
            keep.push(fids[i]);
        }
        i = i + 1;
    }
    proof {
        assert(fids@.take(n as int) =~= fids@);
        assert(sizes@.take(n as int) =~= sizes@);
    }
    Ok(keep)
}

/// The first position of a file id in the open list, or the list's
/// length when absent.
pub open spec fn first_fid_index(files: Seq<LogBuf>, fid: u32) -> int
    decreases files.len(),
{
    if files.len() == 0 {
        0
    } else if files[0].fid == fid {
        0
    } else {
        1 + first_fid_index(files.drop_first(), fid)
    }
}

proof fn lemma_first_fid_index(files: Seq<LogBuf>, fid: u32, i: int)
    requires
        0 <= i <= files.len(),
        forall|k: int| 0 <= k < i ==> files[k].fid != fid,
        i < files.len() ==> files[i].fid == fid,
    ensures
        first_fid_index(files, fid) == i,
    decreases files.len(),
{
    if files.len() > 0 && i > 0 {
        lemma_first_fid_index(files.drop_first(), fid, i - 1);
    }
}

/// What following a value pointer yields: the value of the frame that
/// decodes at the pointer's offset in the first open file with the
/// pointer's id, provided the frame's length is the pointer's.
pub open spec fn spec_read_vp(files: Seq<LogBuf>, vp: ValuePointer) -> Option<Seq<u8>> {
    let i = first_fid_index(files, vp.fid);
    if i >= files.len() {
        None
    } else if vp.offset > files[i].data@.len() {
        None
    } else {
        match crate::entry::spec_decode_entry(files[i].data@, vp.offset as int) {
            None => None,
            Some(p) => if p.1 == vp.len as int {
                Some(p.0.value)
            } else {
                None
            },
        }
    }
}

/// The value log's writable state: its open files and the position and
/// count of the one being written.
pub struct ValueLog {
    pub files: Vec<LogBuf>,
    pub max_fid: u32,
    pub files_tobe_deleted: Vec<u32>,
    pub writeable_log_offset: u32,
    pub num_entries_written: u32,
    pub value_log_file_size: usize,
    pub value_log_max_entries: usize,
}

impl ValueLog {
    /// A value log with one fresh file.
    pub fn new(value_log_file_size: usize, value_log_max_entries: usize) -> (r: ValueLog)
        ensures
            r.files@.len() == 1,
            r.max_fid == 1,
            r.writeable_log_offset == VLOG_HEADER_SIZE,
            r.num_entries_written == 0,
            r.value_log_file_size == value_log_file_size,
            r.value_log_max_entries == value_log_max_entries,
            r.files_tobe_deleted@.len() == 0,
            ({
                let fresh = r.files@.last();
                &&& fresh.fid == 1
                &&& fresh.write_at == VLOG_HEADER_SIZE
                &&& fresh.data@.len() == VLOG_HEADER_SIZE + crate::entry::MAX_HEADER_SIZE
                &&& forall|i: int| 0 <= i < 8 ==> fresh.data@[i] == 0
                &&& forall|i: int|
                    VLOG_HEADER_SIZE <= i < fresh.data@.len() ==> fresh.data@[i] == 0
            }),
    {
        let mut files: Vec<LogBuf> = Vec::new();
        files.push(LogBuf::bootstrap(1));
        ValueLog {
            files,
            max_fid: 1,
            files_tobe_deleted: Vec::new(),
            writeable_log_offset: VLOG_HEADER_SIZE,
            num_entries_written: 0,
            value_log_file_size,
            value_log_max_entries,
        }
    }

    /// The offset the next entry will be written at.
    pub fn woffset(&self) -> (r: u32)
        ensures
            r == self.writeable_log_offset,
    {
        self.writeable_log_offset
    }

    /// Whether the current file must be closed and a fresh one started:
    /// its bytes or its entry count passed the rotation thresholds.
    pub fn needs_rotation(&self) -> (r: bool)
        ensures
            r == (self.writeable_log_offset >= self.value_log_file_size
                || self.num_entries_written >= self.value_log_max_entries),
    {
        (self.writeable_log_offset as u64) >= (self.value_log_file_size as u64)
            || (self.num_entries_written as u64) >= (self.value_log_max_entries as u64)
    }

    /// Truncates the current file to its written length and starts a
    /// fresh one.
    pub fn rotate(&mut self)
        requires
            old(self).files@.len() > 0,
            old(self).max_fid < 0xffff_ffff,
            old(self).writeable_log_offset <= old(self).files@.last().data@.len(),
        ensures
            final(self).files@.len() == old(self).files@.len() + 1,
            final(self).max_fid == old(self).max_fid + 1,
            final(self).writeable_log_offset == VLOG_HEADER_SIZE,
            final(self).num_entries_written == 0,
            final(self).value_log_file_size == old(self).value_log_file_size,
            final(self).value_log_max_entries == old(self).value_log_max_entries,
            forall|i: int|
                0 <= i < old(self).files@.len() - 1 ==> final(self).files@[i] == old(
                    self,
                ).files@[i],
            ({
                let closed = final(self).files@[old(self).files@.len() - 1];
                &&& closed.fid == old(self).files@.last().fid
                &&& closed.data@ == old(self).files@.last().data@.take(
                    old(self).writeable_log_offset as int,
                )
                &&& closed.write_at == old(self).writeable_log_offset
            }),
            ({
                let fresh = final(self).files@.last();
                &&& fresh.fid == old(self).max_fid + 1
                &&& fresh.write_at == VLOG_HEADER_SIZE
                &&& fresh.data@.len() == VLOG_HEADER_SIZE + crate::entry::MAX_HEADER_SIZE
                &&& forall|i: int| 0 <= i < 8 ==> fresh.data@[i] == 0
                &&& forall|i: int|
                    VLOG_HEADER_SIZE <= i < fresh.data@.len() ==> fresh.data@[i] == 0
            }),
    {
        let off = self.writeable_log_offset as usize;
        let mut done = match self.files.pop() {
            Some(lb) => lb,
            None => {
                return ;
            },
        };
        done.truncate(off);
        self.files.push(done);
        self.max_fid = self.max_fid + 1;
        self.files.push(LogBuf::bootstrap(self.max_fid));
        self.writeable_log_offset = VLOG_HEADER_SIZE;
        self.num_entries_written = 0;
    }

    /// Follows a value pointer back into the open files: decodes the
    /// frame at its offset in the file with its id and returns that
    /// frame's value. A pointer naming no open file is refused outright;
    /// one whose frame does not decode, or whose recorded length is not
    /// the frame's, reads as a log in need of truncation.
    pub fn read_value_pointer(&self, vp: &ValuePointer) -> (r: Result<Vec<u8>, Error>)
        requires
            forall|i: int|
                0 <= i < self.files@.len() ==> (#[trigger] self.files@[i]).data@.len()
                    < 0x100000000,
        ensures
            r is Ok <==> spec_read_vp(self.files@, *vp) is Some,
            r is Ok ==> Some(r->Ok_0@) == spec_read_vp(self.files@, *vp),
            r is Err ==> r->Err_0 == (if first_fid_index(self.files@, vp.fid)
                >= self.files@.len() {
                Error::InvalidRequest
            } else {
                Error::VLogTruncate
            }),
    {
        let n = self.files.len();
        let mut i: usize = 0;
        while i < n
            invariant
                n == self.files@.len(),
                i <= n,
                forall|k: int| 0 <= k < i ==> self.files@[k].fid != vp.fid,
                forall|k: int|
                    0 <= k < self.files@.len() ==> (#[trigger] self.files@[k]).data@.len()
                        < 0x100000000,
            decreases n - i,
        {
            if self.files[i].fid == vp.fid {
                proof {
                    lemma_first_fid_index(self.files@, vp.fid, i as int);
                }
                let lb = &self.files[i];
                if vp.offset as usize > lb.data.len() {
                    return Err(Error::VLogTruncate);
                }
                match Entry::decode_from_slice(lb.data.as_slice(), vp.offset as usize) {
                    Ok(p) => {
                        if p.1 as u64 == vp.len as u64 {
                            return Ok(p.0.value);
                        } else {
                            return Err(Error::VLogTruncate);
                        }
                    },
                    Err(_) => {
                        return Err(Error::VLogTruncate);
                    },
                }
            }
            i = i + 1;
        }
        proof {
            lemma_first_fid_index(self.files@, vp.fid, n as int);
        }
        Err(Error::InvalidRequest)
    }

    /// Writes one entry's frame to the current file, with its transaction
    /// bits stripped, and returns the pointer to it: the current file's
    /// id, the frame's length, and the offset it was written at. An entry
    /// below the value threshold is not written; it gets the zero pointer
    /// and stays inline.
    pub fn write_entry(&mut self, ent: &Entry, threshold: usize) -> (r: Result<
        ValuePointer,
        Error,
    >)
        requires
            old(self).files@.len() > 0,
            ent.key@.len() <= 0x10000,
            ent.value@.len() <= 0x8000_0000,
            old(self).writeable_log_offset <= old(self).files@.last().data@.len(),
            old(self).files@.last().data@.len() + ent.key@.len() + ent.value@.len()
                < 0xf000_0000,
            old(self).files@.last().write_at == old(self).writeable_log_offset,
            old(self).num_entries_written < 0xffff_ffff,
        ensures
            r is Err <==> ent.value@.len() >= threshold && old(self).writeable_log_offset
                + vlog_frame(*ent).len() > 0xffff_ffff,
            match r {
                Ok(vp) => {
                    if ent.value@.len() < threshold {
                        &&& vp == (ValuePointer { fid: 0, len: 0, offset: 0 })
                        &&& *final(self) == *old(self)
                    } else {
                        &&& vp.fid == final(self).files@.last().fid
                        &&& vp.fid == old(self).files@.last().fid
                        &&& vp.offset == old(self).writeable_log_offset
                        &&& vp.len as int == vlog_frame(*ent).len()
                        &&& final(self).files@.last().data@.subrange(
                            vp.offset as int,
                            vp.offset + vp.len,
                        ) == vlog_frame(*ent)
                        &&& ({
                            let prefix = old(self).files@.last().data@.subrange(
                                0,
                                vp.offset as int,
                            );
                            final(self).files@.last().data@.subrange(0, vp.offset as int)
                                == prefix
                        })
                        &&& final(self).writeable_log_offset == old(self).writeable_log_offset
                            + vp.len
                        &&& final(self).files@.last().write_at == final(self).writeable_log_offset
                        &&& final(self).num_entries_written == old(self).num_entries_written + 1
                        &&& final(self).files@.len() == old(self).files@.len()
                        &&& forall|i: int|
                            0 <= i < old(self).files@.len() - 1 ==> final(self).files@[i]
                                == #[trigger] old(self).files@[i]
                        &&& final(self).max_fid == old(self).max_fid
                        &&& final(self).value_log_file_size == old(self).value_log_file_size
                        &&& final(self).value_log_max_entries == old(self).value_log_max_entries
                    }
                },
                Err(e) => {
                    &&& e == Error::ValueLogSize(old(self).value_log_file_size)
                    &&& final(self).writeable_log_offset == old(self).writeable_log_offset
                    &&& final(self).num_entries_written == old(self).num_entries_written
                    &&& final(self).files@.len() == old(self).files@.len()
                    &&& final(self).files@.last().data@.subrange(
                        old(self).writeable_log_offset as int,
                        old(self).writeable_log_offset + vlog_frame(*ent).len(),
                    ) == vlog_frame(*ent)
                },
            },
    {
        if ent.value.len() < threshold {
            return Ok(ValuePointer::zero());
        }
        let stripped = Entry {
            key: crate::txn::clone_bytes(&ent.key),
            value: crate::txn::clone_bytes(&ent.value),
            expires_at: ent.expires_at,
            version: 0,
            user_meta: ent.user_meta,
            meta: ent.meta & 0x3f,
            offset: 0,
            header_len: 0,
            value_threshold: 0,
        };
        let offset = self.writeable_log_offset;
        let mut lb = match self.files.pop() {
            Some(lb) => lb,
            None => {
                proof {
                    assert(false);
                }
                return Err(Error::ValueLogSize(self.value_log_file_size));
            },
        };
        let plen = lb.write_entry(&stripped);
        let fid = lb.fid;
        self.files.push(lb);
        proof {
            crate::codec::lemma_varint_roundtrip(ent.key@.len());
            crate::codec::lemma_varint_roundtrip(ent.value@.len());
            crate::codec::lemma_varint_roundtrip(ent.expires_at as nat);
        }
        if plen > 0xffff_ffff - offset {
            return Err(Error::ValueLogSize(self.value_log_file_size));
        }
        self.writeable_log_offset = offset + plen;
        self.num_entries_written = self.num_entries_written + 1;
        Ok(ValuePointer { fid, len: plen, offset })
    }
}

} // verus!
