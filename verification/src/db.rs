//! The store's core state and the write pipeline's decisions: batching,
//! routing entries between the value log and the memtable, swapping a
//! full memtable out, and recovering the version clock at open.

use vstd::prelude::*;

use crate::entry::{vp_bytes, Entry, EntryData, ValuePointer, META_FIN_TXN, META_VALUE_POINTER};
use crate::error::Error;
use crate::kv::spec_parse_ts;
use crate::memtable::{mem_view, mem_wf, spec_mem_insert, MemTable, VsData};
use crate::options::Options;
use crate::wal::frames_bytes;

verus! {

/// Capacity of the write channel.
pub const KV_WRITE_CH_CAPACITY: usize = 1000;

/// Whether the pipeline must force a flush cycle before buffering more
/// requests: the buffer holds three channels' worth.
pub fn should_flush_batch(buffered: usize) -> (r: bool)
    ensures
        r == (buffered >= 3 * KV_WRITE_CH_CAPACITY),
{
    buffered >= 3 * KV_WRITE_CH_CAPACITY
}

/// One write request: the entries to persist, each paired with the value
/// pointer the value log assigns it.
pub struct WriteReq {
    pub entries_vptrs: Vec<(Entry, ValuePointer)>,
}

impl WriteReq {
    /// A request over `entries`, every pointer still zero.
    pub fn new(entries: Vec<Entry>) -> (r: WriteReq)
        ensures
            r.entries_vptrs@.len() == entries@.len(),
            forall|i: int|
                0 <= i < entries@.len() ==> (#[trigger] r.entries_vptrs@[i]).0 == entries@[i]
                    && r.entries_vptrs@[i].1 == (ValuePointer { fid: 0, len: 0, offset: 0 }),
    {
        let mut entries = entries;
        let mut out: Vec<(Entry, ValuePointer)> = Vec::new();
        let ghost src = entries@;
        while entries.len() > 0
            invariant
                out@.len() + entries@.len() == src.len(),
                forall|i: int|
                    0 <= i < out@.len() ==> (#[trigger] out@[i]).0 == src[i] && out@[i].1 == (
                    ValuePointer { fid: 0, len: 0, offset: 0 }),
                forall|i: int|
                    0 <= i < entries@.len() ==> #[trigger] entries@[i] == src[out@.len() + i],
            decreases entries@.len(),
        {
            let e = entries.remove(0);
            out.push((e, ValuePointer::zero()));
        }
        WriteReq { entries_vptrs: out }
    }

    /// The entries with their pointers.
    pub fn entries_vptrs(&self) -> (r: &Vec<(Entry, ValuePointer)>)
        ensures
            r@ == self.entries_vptrs@,
    {
        &self.entries_vptrs
    }
}

/// How an entry's meta bits reach the memtable: the pointer bit cleared
/// when the value stays inline, set when a pointer replaces it.
pub open spec fn routed_meta(meta: u8, value_len: nat, threshold: u32) -> u8 {
    if value_len < threshold {
        meta & !META_VALUE_POINTER
    } else {
        meta | META_VALUE_POINTER
    }
}

/// The value bytes the memtable stores for a pair: the inline value below
/// the threshold, the encoded pointer at or above it.
pub open spec fn routed_value(value: Seq<u8>, vp: ValuePointer, threshold: u32) -> Seq<u8> {
    if value.len() < threshold {
        value
    } else {
        vp_bytes(vp)
    }
}

/// The entry fields one pair stores.
pub open spec fn routed_entry(p: (Entry, ValuePointer), threshold: u32) -> EntryData {
    EntryData {
        meta: routed_meta(p.0.meta, p.0.value@.len(), threshold),
        user_meta: p.0.user_meta,
        expires_at: p.0.expires_at,
        key: p.0.key@,
        value: routed_value(p.0.value@, p.1, threshold),
        header_len: 0,
    }
}

/// The routed entries of a request, in order.
pub open spec fn routed_entries(pairs: Seq<(Entry, ValuePointer)>, threshold: u32) -> Seq<
    EntryData,
> {
    Seq::new(pairs.len(), |i: int| routed_entry(pairs[i], threshold))
}

/// The map and version clock after storing a request's pairs in order:
/// every routed entry inserted under its key at the entry's version,
/// except transaction end markers, which only frame the log.
pub open spec fn spec_apply_pairs(
    m: Seq<(Seq<u8>, VsData)>,
    mv: u64,
    pairs: Seq<(Entry, ValuePointer)>,
    threshold: u32,
) -> (Seq<(Seq<u8>, VsData)>, u64)
    decreases pairs.len(),
{
    if pairs.len() == 0 {
        (m, mv)
    } else {
        let folded = spec_apply_pairs(m, mv, pairs.drop_last(), threshold);
        let p = pairs.last();
        let re = routed_entry(p, threshold);
        if re.meta & META_FIN_TXN != 0 {
            folded
        } else {
            (
                spec_mem_insert(
                    folded.0,
                    re.key,
                    VsData {
                        meta: re.meta,
                        user_meta: re.user_meta,
                        expires_at: re.expires_at,
                        value: re.value,
                        version: p.0.version,
                    },
                ),
                if spec_parse_ts(re.key) > folded.1 {
                    spec_parse_ts(re.key)
                } else {
                    folded.1
                },
            )
        }
    }
}

/// The log bytes a batch can cost at most: each pair's key and routed
/// value with the frame and tail overhead.
pub open spec fn pairs_wal_budget(pairs: Seq<(Entry, ValuePointer)>) -> int
    decreases pairs.len(),
{
    if pairs.len() == 0 {
        0
    } else {
        pairs_wal_budget(pairs.drop_last()) + pairs.last().0.key@.len()
            + pairs.last().0.value@.len() + 80
    }
}

/// A prefix of the budget never exceeds the whole, and budgets are never
/// negative.
proof fn lemma_pairs_wal_budget_take(pairs: Seq<(Entry, ValuePointer)>, i: int)
    requires
        0 <= i <= pairs.len(),
    ensures
        0 <= pairs_wal_budget(pairs.take(i)) <= pairs_wal_budget(pairs),
    decreases pairs.len(),
{
    if i == pairs.len() {
        assert(pairs.take(i) =~= pairs);
        lemma_pairs_wal_budget_nonneg(pairs);
    } else if pairs.len() > 0 {
        assert(pairs.drop_last().take(i) =~= pairs.take(i));
        lemma_pairs_wal_budget_take(pairs.drop_last(), i);
    }
}

/// The budget of one more pair.
proof fn lemma_pairs_wal_budget_step(pairs: Seq<(Entry, ValuePointer)>, i: int)
    requires
        0 <= i < pairs.len(),
    ensures
        pairs_wal_budget(pairs.take(i + 1)) == pairs_wal_budget(pairs.take(i))
            + pairs[i].0.key@.len() + pairs[i].0.value@.len() + 80,
{
    assert(pairs.take(i + 1).drop_last() =~= pairs.take(i));
    assert(pairs.take(i + 1).last() == pairs[i]);
}

/// Budgets are never negative.
proof fn lemma_pairs_wal_budget_nonneg(pairs: Seq<(Entry, ValuePointer)>)
    ensures
        pairs_wal_budget(pairs) >= 0,
    decreases pairs.len(),
{
    if pairs.len() > 0 {
        lemma_pairs_wal_budget_nonneg(pairs.drop_last());
    }
}

/// The store's writable core: the active memtable, the immutable queue,
/// and the next memtable file id.
pub struct DbCore {
    pub mt: MemTable,
    pub imm: Vec<MemTable>,
    pub next_mem_fid: u32,
    pub opt: Options,
}

impl DbCore {
    /// A fresh core over an empty memtable.
    pub fn new(opt: Options, next_mem_fid: u32) -> (r: DbCore)
        requires
            next_mem_fid < 0xffff_ffff,
        ensures
            mem_wf(mem_view(r.mt.entries@)),
            r.imm@.len() == 0,
            r.next_mem_fid == next_mem_fid + 1,
    {
        let mt = MemTable::new(next_mem_fid);
        DbCore { mt, imm: Vec::new(), next_mem_fid: next_mem_fid + 1, opt }
    }

    /// Makes room before a request goes to the memtable: when the active
    /// memtable's log has reached its size, the memtable moves to the
    /// immutable queue (from where the flusher persists it) and a fresh
    /// one takes its place. True exactly when a swap happened.
    pub fn ensure_room_for_write(&mut self) -> (r: bool)
        requires
            old(self).next_mem_fid < 0xffff_ffff,
        ensures
            r == (old(self).mt.wal.write_at >= old(self).opt.mem_table_size),
            r ==> {
                &&& final(self).imm@ == old(self).imm@.push(old(self).mt)
                &&& final(self).next_mem_fid == old(self).next_mem_fid + 1
                &&& mem_view(final(self).mt.entries@) == Seq::<(
                    Seq<u8>,
                    crate::memtable::VsData,
                )>::empty()
                &&& final(self).mt.wal.fid == old(self).next_mem_fid
                &&& final(self).mt.wal.write_at == crate::wal::VLOG_HEADER_SIZE
                &&& final(self).mt.max_version == 0
            },
            !r ==> *final(self) == *old(self),
    {
        if !self.mt.is_full(self.opt.mem_table_size) {
            return false;
        }
        let mut fresh = MemTable::new(self.next_mem_fid);
        core::mem::swap(&mut fresh, &mut self.mt);
        self.imm.push(fresh);
        self.next_mem_fid = self.next_mem_fid + 1;
        proof {
            assert(self.imm@ =~= old(self).imm@.push(old(self).mt));
        }
        true
    }

    /// Writes one request's entries to the active memtable, in order: an
    /// entry under the value threshold keeps its inline value with the
    /// pointer bit cleared; a larger one stores its encoded value pointer
    /// with the pointer bit set. The map and version clock end as the fold
    /// of those stores, and the log gains exactly the routed entries\'
    /// frames. The caller keeps each entry within the log\'s frame bounds
    /// and leaves room for the whole batch.
    pub fn write_to_memtable(&mut self, req: &WriteReq)
        requires
            mem_wf(mem_view(old(self).mt.entries@)),
            old(self).mt.wal.write_at <= old(self).mt.wal.data@.len(),
            forall|i: int|
                0 <= i < req.entries_vptrs@.len() ==> (
                #[trigger] req.entries_vptrs@[i]).0.key@.len() <= 0x10000
                    && req.entries_vptrs@[i].0.value@.len() <= 0x8000_0000,
            old(self).mt.wal.data@.len() + pairs_wal_budget(req.entries_vptrs@) < 0xf000_0000,
        ensures
            mem_wf(mem_view(final(self).mt.entries@)),
            ({
                let folded = spec_apply_pairs(
                    mem_view(old(self).mt.entries@),
                    old(self).mt.max_version,
                    req.entries_vptrs@,
                    old(self).opt.value_threshold,
                );
                &&& mem_view(final(self).mt.entries@) == folded.0
                &&& final(self).mt.max_version == folded.1
            }),
            final(self).imm == old(self).imm,
            final(self).next_mem_fid == old(self).next_mem_fid,
            final(self).opt == old(self).opt,
            final(self).mt.wal.fid == old(self).mt.wal.fid,
            final(self).mt.wal.write_at == old(self).mt.wal.write_at + frames_bytes(
                routed_entries(req.entries_vptrs@, old(self).opt.value_threshold),
            ).len(),
            final(self).mt.wal.write_at <= final(self).mt.wal.data@.len(),
            final(self).mt.wal.data@.subrange(0, old(self).mt.wal.write_at as int) == old(
                self,
            ).mt.wal.data@.subrange(0, old(self).mt.wal.write_at as int),
            final(self).mt.wal.data@.subrange(
                old(self).mt.wal.write_at as int,
                final(self).mt.wal.write_at as int,
            ) == frames_bytes(routed_entries(req.entries_vptrs@, old(self).opt.value_threshold)),
    {
        let ghost pairs = req.entries_vptrs@;
        let ghost threshold_g = old(self).opt.value_threshold;
        let ghost w0 = old(self).mt.wal.write_at as int;
        let n = req.entries_vptrs.len();
        let mut i: usize = 0;
        proof {
            assert(routed_entries(pairs.take(0), threshold_g) =~= Seq::<EntryData>::empty());
            assert(frames_bytes(routed_entries(pairs.take(0), threshold_g)) =~= Seq::<u8>::empty());
            assert(self.mt.wal.data@.subrange(w0, w0) =~= Seq::<u8>::empty());
            lemma_pairs_wal_budget_take(pairs, 0);
        }
        while i < n
            invariant
                n == pairs.len(),
                i <= n,
                pairs == req.entries_vptrs@,
                threshold_g == self.opt.value_threshold,
                w0 == old(self).mt.wal.write_at as int,
                mem_wf(mem_view(self.mt.entries@)),
                (mem_view(self.mt.entries@), self.mt.max_version) == spec_apply_pairs(
                    mem_view(old(self).mt.entries@),
                    old(self).mt.max_version,
                    pairs.take(i as int),
                    threshold_g,
                ),
                self.imm == old(self).imm,
                self.next_mem_fid == old(self).next_mem_fid,
                self.opt == old(self).opt,
                self.mt.wal.fid == old(self).mt.wal.fid,
                forall|k: int|
                    0 <= k < pairs.len() ==> (#[trigger] pairs[k]).0.key@.len() <= 0x10000
                        && pairs[k].0.value@.len() <= 0x8000_0000,
                old(self).mt.wal.data@.len() + pairs_wal_budget(pairs) < 0xf000_0000,
                self.mt.wal.write_at as int == w0 + frames_bytes(
                    routed_entries(pairs.take(i as int), threshold_g),
                ).len(),
                self.mt.wal.write_at <= self.mt.wal.data@.len(),
                self.mt.wal.data@.len() <= old(self).mt.wal.data@.len() + pairs_wal_budget(
                    pairs.take(i as int),
                ) + 22,
                frames_bytes(routed_entries(pairs.take(i as int), threshold_g)).len()
                    <= pairs_wal_budget(pairs.take(i as int)),
                self.mt.wal.data@.subrange(0, w0) == old(self).mt.wal.data@.subrange(0, w0),
                self.mt.wal.data@.subrange(w0, self.mt.wal.write_at as int) == frames_bytes(
                    routed_entries(pairs.take(i as int), threshold_g),
                ),
            decreases n - i,
        {
            let threshold = self.opt.value_threshold as usize;
            let skip = req.entries_vptrs[i].0.skip_vlog(threshold);
            let src = &req.entries_vptrs[i].0;
            let mut e = Entry {
                key: crate::txn::clone_bytes(&src.key),
                value: crate::txn::clone_bytes(&src.value),
                expires_at: src.expires_at,
                version: src.version,
                user_meta: src.user_meta,
                meta: src.meta,
                offset: src.offset,
                header_len: src.header_len,
                value_threshold: src.value_threshold,
            };
            if skip {
                e.meta = e.meta & !META_VALUE_POINTER;
            } else {
                e.meta = e.meta | META_VALUE_POINTER;
                e.value = req.entries_vptrs[i].1.encode();
            }
            let ghost re = routed_entry(pairs[i as int], threshold_g);
            proof {
                lemma_pairs_wal_budget_take(pairs, i as int);
                lemma_pairs_wal_budget_take(pairs, i + 1);
                lemma_pairs_wal_budget_step(pairs, i as int);
                assert(e.key@ == re.key && e.value@ == re.value && e.meta == re.meta
                    && e.user_meta == re.user_meta && e.expires_at == re.expires_at);
                crate::entry::lemma_vp_roundtrip(pairs[i as int].1);
                crate::codec::lemma_varint_space_bound(re.key.len());
                crate::codec::lemma_varint_space_bound(re.value.len());
                crate::codec::lemma_varint_space_bound(re.expires_at as nat);
                assert(e.value@.len() <= pairs[i as int].0.value@.len() + 12);
                assert(self.mt.wal.data@.len() + e.key@.len() + e.value@.len() < 0xf000_0000);
            }
            let ghost pre_wal = self.mt.wal;
            let ghost pre_map = mem_view(self.mt.entries@);
            let ghost pre_mv = self.mt.max_version;
            self.mt.put(&e);
            proof {
                let taken = routed_entries(pairs.take(i as int), threshold_g);
                let frame = crate::entry::entry_frame(
                    re.meta,
                    re.user_meta,
                    re.expires_at,
                    re.key,
                    re.value,
                );
                assert(routed_entries(pairs.take(i + 1), threshold_g) =~= taken.push(re));
                crate::wal::lemma_frames_bytes_push(taken, re);
                assert(frame.len() <= re.key.len() + re.value.len() + 24);
                assert(frames_bytes(taken.push(re)).len() <= pairs_wal_budget(pairs.take(i + 1)));
                assert(pairs.take(i + 1).drop_last() =~= pairs.take(i as int));
                assert(pairs.take(i + 1).last() == pairs[i as int]);
                let d = self.mt.wal.data@;
                let wa = pre_wal.write_at as int;
                assert forall|k: int| w0 <= k < wa implies d[k] == frames_bytes(taken)[k - w0] by {
                    assert(d.subrange(0, wa)[k] == d[k]);
                    assert(pre_wal.data@.subrange(0, wa)[k] == pre_wal.data@[k]);
                    assert(pre_wal.data@.subrange(w0, wa)[k - w0] == pre_wal.data@[k]);
                }
                assert forall|k: int| wa <= k < self.mt.wal.write_at as int implies d[k]
                    == frame[k - wa] by {
                    assert(d.subrange(wa, self.mt.wal.write_at as int)[k - wa] == d[k]);
                }
                assert(d.subrange(w0, self.mt.wal.write_at as int) =~= frames_bytes(taken)
                    + frame);
                assert(d.subrange(0, w0) =~= pre_wal.data@.subrange(0, w0)) by {
                    assert forall|k: int| 0 <= k < w0 implies d[k] == pre_wal.data@[k] by {
                        assert(d.subrange(0, wa)[k] == d[k]);
                        assert(pre_wal.data@.subrange(0, wa)[k] == pre_wal.data@[k]);
                    }
                }
            }
            i = i + 1;
        }
        proof {
            assert(pairs.take(n as int) =~= pairs);
        }
    }

    /// The largest version across the active memtable, the immutable
    /// queue, and the given per-table maxima; the oracle's clock resumes
    /// past it at open.
    pub fn max_version(&self, table_maxes: &Vec<u64>) -> (r: u64)
        ensures
            r >= self.mt.max_version,
            forall|i: int| 0 <= i < self.imm@.len() ==> r >= (#[trigger] self.imm@[i]).max_version,
            forall|i: int| 0 <= i < table_maxes@.len() ==> r >= #[trigger] table_maxes@[i],
            r == self.mt.max_version || (exists|i: int|
                0 <= i < self.imm@.len() && (#[trigger] self.imm@[i]).max_version == r) || (
            exists|i: int| 0 <= i < table_maxes@.len() && #[trigger] table_maxes@[i] == r),
    {
        let mut mv = self.mt.max_version();
        let mut i: usize = 0;
        while i < self.imm.len()
            invariant
                i <= self.imm@.len(),
                mv >= self.mt.max_version,
                forall|k: int| 0 <= k < i ==> mv >= (#[trigger] self.imm@[k]).max_version,
                mv == self.mt.max_version || (exists|k: int|
                    0 <= k < i && (#[trigger] self.imm@[k]).max_version == mv),
            decreases self.imm@.len() - i,
        {
            if self.imm[i].max_version() > mv {
                mv = self.imm[i].max_version();
                proof {
                    assert(self.imm@[i as int].max_version == mv);
                }
            }
            i = i + 1;
        }
        let mut j: usize = 0;
        while j < table_maxes.len()
            invariant
                j <= table_maxes@.len(),
                mv >= self.mt.max_version,
                forall|k: int| 0 <= k < self.imm@.len() ==> mv >= (#[trigger] self.imm@[k]).max_version,
                forall|k: int| 0 <= k < j ==> mv >= #[trigger] table_maxes@[k],
                mv == self.mt.max_version || (exists|k: int|
                    0 <= k < self.imm@.len() && (#[trigger] self.imm@[k]).max_version == mv) || (
                exists|k: int| 0 <= k < j && #[trigger] table_maxes@[k] == mv),
            decreases table_maxes@.len() - j,
        {
            if table_maxes[j] > mv {
                mv = table_maxes[j];
                proof {
                    assert(table_maxes@[j as int] == mv);
                }
            }
            j = j + 1;
        }
        mv
    }
}

/// Reconciles the manifest with the table files found on disk: a table
/// the manifest names but the disk lacks is fatal corruption; a file the
/// manifest does not name is returned for removal.
pub fn revert_to_manifest(manifest_fids: &Vec<u64>, disk_fids: &Vec<u64>) -> (r: Result<
    Vec<u64>,
    Error,
>)
    ensures
        match r {
            Ok(doomed) => {
                &&& forall|i: int|
                    0 <= i < manifest_fids@.len() ==> disk_fids@.contains(
                        #[trigger] manifest_fids@[i],
                    )
                &&& forall|i: int|
                    0 <= i < doomed@.len() ==> disk_fids@.contains(#[trigger] doomed@[i])
                        && !manifest_fids@.contains(doomed@[i])
                &&& forall|i: int|
                    0 <= i < disk_fids@.len() && !manifest_fids@.contains(#[trigger] disk_fids@[i])
                        ==> doomed@.contains(disk_fids@[i])
            },
            Err(e) => {
                &&& exists|i: int|
                    0 <= i < manifest_fids@.len() && !disk_fids@.contains(
                        #[trigger] manifest_fids@[i],
                    )
                &&& e matches Error::ManifestTableAbsent(_)
            },
        },
{
    let mut i: usize = 0;
    while i < manifest_fids.len()
        invariant
            i <= manifest_fids@.len(),
            forall|k: int|
                0 <= k < i ==> disk_fids@.contains(#[trigger] manifest_fids@[k]),
        decreases manifest_fids@.len() - i,
    {
        if !contains_u64(disk_fids, manifest_fids[i]) {
            proof {
                assert(!disk_fids@.contains(manifest_fids@[i as int]));
            }
            return Err(Error::ManifestTableAbsent(manifest_fids[i]));
        }
        i = i + 1;
    }
    let mut doomed: Vec<u64> = Vec::new();
    let mut j: usize = 0;
    while j < disk_fids.len()
        invariant
            j <= disk_fids@.len(),
            forall|k: int|
                0 <= k < doomed@.len() ==> disk_fids@.contains(#[trigger] doomed@[k])
                    && !manifest_fids@.contains(doomed@[k]),
            forall|k: int|
                0 <= k < j && !manifest_fids@.contains(#[trigger] disk_fids@[k])
                    ==> doomed@.contains(disk_fids@[k]),
        decreases disk_fids@.len() - j,
    {
        let fid = disk_fids[j];
        if !contains_u64(manifest_fids, fid) {
            let ghost pre = doomed@;
            doomed.push(fid);
            proof {
                assert(disk_fids@[j as int] == fid);
                assert forall|k: int|
                    0 <= k < j + 1 && !manifest_fids@.contains(#[trigger] disk_fids@[k]) implies doomed@.contains(
                    disk_fids@[k],
                ) by {
                    if k < j {
                        let w = choose|w: int| 0 <= w < pre.len() && pre[w] == disk_fids@[k];
                        assert(doomed@[w] == disk_fids@[k]);
                    } else {
                        assert(doomed@.last() == disk_fids@[k]);
                    }
                }
            }
        }
        j = j + 1;
    }
    Ok(doomed)
}

/// Whether the list holds `x`.
fn contains_u64(v: &Vec<u64>, x: u64) -> (r: bool)
    ensures
        r == v@.contains(x),
{
    let mut i: usize = 0;
    while i < v.len()
        invariant
            i <= v@.len(),
            forall|j: int| 0 <= j < i ==> v@[j] != x,
        decreases v@.len() - i,
    {
        if v[i] == x {
            proof {
                assert(v@[i as int] == x);
            }
            return true;
        }
        i = i + 1;
    }
    false
}

/// The next memtable file id after recovery: one past the largest
/// recovered id, or one when none were found.
pub fn next_mem_fid(fids: &Vec<u32>) -> (r: u32)
    requires
        forall|i: int| 0 <= i < fids@.len() ==> #[trigger] fids@[i] < 0xffff_ffff,
    ensures
        fids@.len() == 0 ==> r == 1,
        forall|i: int| 0 <= i < fids@.len() ==> r > #[trigger] fids@[i],
        fids@.len() > 0 ==> fids@.contains((r - 1) as u32),
{
    let mut mx: u32 = 0;
    let mut i: usize = 0;
    while i < fids.len()
        invariant
            i <= fids@.len(),
            forall|k: int| 0 <= k < fids@.len() ==> #[trigger] fids@[k] < 0xffff_ffff,
            forall|k: int| 0 <= k < i ==> mx >= #[trigger] fids@[k],
            mx < 0xffff_ffff,
            i == 0 ==> mx == 0,
            i > 0 ==> exists|k: int| 0 <= k < i && #[trigger] fids@[k] == mx,
        decreases fids@.len() - i,
    {
        if fids[i] > mx {
            mx = fids[i];
            proof {
                assert(fids@[i as int] == mx);
            }
        } else {
            proof {
                if i == 0 {
                    assert(fids@[0] == mx);
                }
            }
        }
        i = i + 1;
    }
    mx + 1
}

} // verus!
