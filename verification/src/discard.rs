//! Discard statistics: for each value-log file, how many bytes compaction
//! has made stale. Kept as a sorted array of (file id, discarded bytes)
//! pairs; persisted as sixteen-byte big-endian cells terminated by a zero
//! cell.

use vstd::prelude::*;

use crate::codec::{put_u64_be, read_u64_be, u64_be_bytes, u64_of_be};

verus! {

/// The largest discarded-bytes count a slot will hold; additions saturate
/// here so the count always fits a signed 64-bit result.
pub const MAX_DISCARD: u64 = 0x7fff_ffff_ffff_ffff;

/// Slots sorted strictly by file id: sorted and free of duplicates, with
/// every count at most `MAX_DISCARD`.
pub open spec fn discard_wf(s: Seq<(u64, u64)>) -> bool {
    &&& forall|i: int, j: int| 0 <= i < j < s.len() ==> (#[trigger] s[i]).0 < (#[trigger] s[j]).0
    &&& forall|i: int| 0 <= i < s.len() ==> (#[trigger] s[i]).1 <= MAX_DISCARD
}

/// The first position whose file id is at least `fid`; the length when all
/// are smaller.
pub open spec fn insert_pos(s: Seq<(u64, u64)>, fid: u64) -> int
    decreases s.len(),
{
    if s.len() == 0 {
        0
    } else if s[0].0 >= fid {
        0
    } else {
        1 + insert_pos(s.drop_first(), fid)
    }
}

/// `insert_pos` is the first position not below `fid`.
pub proof fn lemma_insert_pos(s: Seq<(u64, u64)>, fid: u64)
    ensures
        0 <= insert_pos(s, fid) <= s.len(),
        forall|j: int| 0 <= j < insert_pos(s, fid) ==> (#[trigger] s[j]).0 < fid,
        insert_pos(s, fid) < s.len() ==> s[insert_pos(s, fid)].0 >= fid,
    decreases s.len(),
{
    if s.len() > 0 && s[0].0 < fid {
        lemma_insert_pos(s.drop_first(), fid);
        let p = insert_pos(s, fid);
        assert forall|j: int| 0 <= j < p implies (#[trigger] s[j]).0 < fid by {
            if j >= 1 {
                assert(s.drop_first()[j - 1] == s[j]);
            }
        }
        if p < s.len() {
            assert(s.drop_first()[p - 1] == s[p]);
        }
    }
}

/// The running maximum, scanned in slot order, replaced only by a strictly
/// larger count: the pair with the largest count, earliest id first.
pub open spec fn spec_max_discard(s: Seq<(u64, u64)>) -> (u64, u64)
    decreases s.len(),
{
    if s.len() == 0 {
        (0, 0)
    } else {
        let r = spec_max_discard(s.drop_last());
        if s.last().1 > r.1 {
            s.last()
        } else {
            r
        }
    }
}

/// The maximum really bounds every slot.
pub proof fn lemma_max_discard(s: Seq<(u64, u64)>)
    ensures
        forall|i: int| 0 <= i < s.len() ==> (#[trigger] s[i]).1 <= spec_max_discard(s).1,
        spec_max_discard(s) == (0u64, 0u64) || exists|i: int|
            0 <= i < s.len() && #[trigger] s[i] == spec_max_discard(s),
    decreases s.len(),
{
    if s.len() > 0 {
        lemma_max_discard(s.drop_last());
        assert forall|i: int| 0 <= i < s.len() implies (#[trigger] s[i]).1 <= spec_max_discard(
            s,
        ).1 by {
            if i < s.len() - 1 {
                assert(s.drop_last()[i] == s[i]);
            }
        }
        if spec_max_discard(s) != s.last() && spec_max_discard(s.drop_last()) != (0u64, 0u64) {
            let w = choose|i: int|
                0 <= i < s.drop_last().len() && #[trigger] s.drop_last()[i] == spec_max_discard(
                    s.drop_last(),
                );
            assert(s[w] == spec_max_discard(s));
        }
    }
}

/// The persistent statistics of discarded bytes per value-log file.
pub struct DiscardStats {
    slots: Vec<(u64, u64)>,
}

impl View for DiscardStats {
    type V = Seq<(u64, u64)>;

    closed spec fn view(&self) -> Seq<(u64, u64)> {
        self.slots@
    }
}

impl DiscardStats {
    /// An empty statistics table.
    pub fn new() -> (r: DiscardStats)
        ensures
            r@ == Seq::<(u64, u64)>::empty(),
            discard_wf(r@),
    {
        let r = DiscardStats { slots: Vec::new() };
        proof {
            assert(r@ =~= Seq::<(u64, u64)>::empty());
        }
        r
    }

    /// The occupied slots, in file-id order.
    pub fn iterate(&self) -> (r: Vec<(u64, u64)>)
        ensures
            r@ == self@,
    {
        let mut out: Vec<(u64, u64)> = Vec::new();
        let mut i: usize = 0;
        while i < self.slots.len()
            invariant
                i <= self.slots@.len(),
                out@ == self.slots@.take(i as int),
            decreases self.slots@.len() - i,
        {
            out.push(self.slots[i]);
            proof {
                assert(self.slots@.take(i + 1) =~= self.slots@.take(i as int).push(
                    self.slots@[i as int]));
            }
            i = i + 1;
        }
        proof {
            assert(self.slots@.take(self.slots@.len() as int) =~= self.slots@);
        }
        out
    }

    /// Adds `discard` bytes to the slot of `fid`, clamping below at zero
    /// and above at `MAX_DISCARD`, creating the slot when a positive delta
    /// names a new file; returns the slot's new count. A zero delta only
    /// reads; a delta for an unknown file that is not positive does
    /// nothing and reads zero.
    pub fn update(&mut self, fid: u64, discard: i64) -> (r: i64)
        requires
            discard_wf(old(self)@),
        ensures
            discard_wf(final(self)@),
            ({
                let s = old(self)@;
                let p = insert_pos(s, fid);
                if p < s.len() && s[p].0 == fid {
                    if discard == 0 {
                        &&& final(self)@ == s
                        &&& r == s[p].1 as i64
                    } else if discard < 0 {
                        let nv = if s[p].1 + discard < 0 {
                            0u64
                        } else {
                            (s[p].1 + discard) as u64
                        };
                        &&& final(self)@ == s.update(p, (fid, nv))
                        &&& r == nv as i64
                    } else {
                        let nv = if s[p].1 + discard > MAX_DISCARD {
                            MAX_DISCARD
                        } else {
                            (s[p].1 + discard) as u64
                        };
                        &&& final(self)@ == s.update(p, (fid, nv))
                        &&& r == nv as i64
                    }
                } else if discard > 0 {
                    &&& final(self)@ == s.subrange(0, p) + seq![(fid, discard as u64)]
                        + s.subrange(p, s.len() as int)
                    &&& r == discard
                } else {
                    &&& final(self)@ == s
                    &&& r == 0
                }
            }),
    {
        proof {
            lemma_insert_pos(old(self)@, fid);
        }
        let mut i: usize = 0;
        let n = self.slots.len();
        while i < n && self.slots[i].0 < fid
            invariant
                n == self.slots@.len(),
                i <= n,
                self == old(self),
                forall|j: int| 0 <= j < i ==> (#[trigger] self.slots@[j]).0 < fid,
            decreases n - i,
        {
            i = i + 1;
        }
        proof {
            let p = insert_pos(old(self)@, fid);
            if i < n {
                assert(self.slots@[i as int].0 >= fid);
            }
            assert forall|j: int| 0 <= j < i implies (#[trigger] old(self)@[j]).0 < fid by {}
            if (p as int) < (i as int) {
                assert(old(self)@[p].0 >= fid && old(self)@[p].0 < fid);
            }
            if (i as int) < (p as int) {
                assert(old(self)@[i as int].0 < fid && old(self)@[i as int].0 >= fid);
            }
            assert(p == i as int);
        }
        if i < n && self.slots[i].0 == fid {
            let cur = self.slots[i].1;
            if discard == 0 {
                return cur as i64;
            }
            if discard < 0 {
                let d: u64 = if discard == i64::MIN {
                    0x8000_0000_0000_0000
                } else {
                    (-discard) as u64
                };
                let nv = if cur <= d {
                    0
                } else {
                    cur - d
                };
                self.slots.set(i, (fid, nv));
                return nv as i64;
            }
            let d = discard as u64;
            let nv = if cur > MAX_DISCARD - d {
                MAX_DISCARD
            } else {
                cur + d
            };
            self.slots.set(i, (fid, nv));
            return nv as i64;
        }
        if discard <= 0 {
            return 0;
        }
        self.slots.insert(i, (fid, discard as u64));
        proof {
            let s = old(self)@;
            let p = i as int;
            assert(self.slots@ =~= s.subrange(0, p) + seq![(fid, discard as u64)] + s.subrange(
                p,
                s.len() as int,
            ));
            assert forall|a: int, b: int|
                0 <= a < b < self.slots@.len() implies (#[trigger] self.slots@[a]).0 < (
            #[trigger] self.slots@[b]).0 by {
                if a < p && b == p {
                } else if a == p && b > p {
                    assert(self.slots@[b] == s[b - 1]);
                    assert(s[b - 1].0 >= fid);
                    assert(s[b - 1].0 != fid);
                } else if a < p && b > p {
                    assert(self.slots@[b] == s[b - 1]);
                } else if a > p && b > p {
                    assert(self.slots@[a] == s[a - 1] && self.slots@[b] == s[b - 1]);
                }
            }
        }
        discard
    }

    /// The pair with the largest discarded-bytes count; among equals the
    /// one scanned first. `(0, 0)` when the table is empty.
    pub fn max_discard(&self) -> (r: (u64, u64))
        ensures
            r == spec_max_discard(self@),
            forall|i: int| 0 <= i < self@.len() ==> (#[trigger] self@[i]).1 <= r.1,
    {
        let mut max_fid: u64 = 0;
        let mut max_val: u64 = 0;
        let mut i: usize = 0;
        while i < self.slots.len()
            invariant
                i <= self.slots@.len(),
                (max_fid, max_val) == spec_max_discard(self.slots@.take(i as int)),
            decreases self.slots@.len() - i,
        {
            let (fid, val) = self.slots[i];
            proof {
                let t = self.slots@.take(i + 1);
                assert(t.drop_last() =~= self.slots@.take(i as int));
                assert(t.last() == self.slots@[i as int]);
            }
            if max_val < val {
                max_val = val;
                max_fid = fid;
            }
            i = i + 1;
        }
        proof {
            assert(self.slots@.take(self.slots@.len() as int) =~= self.slots@);
            lemma_max_discard(self@);
        }
        (max_fid, max_val)
    }

    /// Encodes the slots as sixteen-byte big-endian cells followed by one
    /// zero cell.
    pub fn encode(&self) -> (r: Vec<u8>)
        ensures
            r@ == discard_bytes(self@),
    {
        let mut out: Vec<u8> = Vec::new();
        let mut i: usize = 0;
        while i < self.slots.len()
            invariant
                i <= self.slots@.len(),
                out@ == discard_cells(self.slots@.take(i as int)),
            decreases self.slots@.len() - i,
        {
            let (fid, val) = self.slots[i];
            put_u64_be(&mut out, fid);
            put_u64_be(&mut out, val);
            proof {
                lemma_discard_cells_push(self.slots@.take(i as int), self.slots@[i as int]);
                assert(self.slots@.take(i + 1) =~= self.slots@.take(i as int).push(
                    self.slots@[i as int]));
                assert(out@ =~= discard_cells(self.slots@.take(i + 1)));
            }
            i = i + 1;
        }
        put_u64_be(&mut out, 0);
        put_u64_be(&mut out, 0);
        proof {
            assert(self.slots@.take(self.slots@.len() as int) =~= self.slots@);
            assert(out@ =~= discard_bytes(self@));
        }
        out
    }

    /// Reads slots back from stored bytes: cells in order until a zero file
    /// id or the end of the data, each inserted at its sorted position,
    /// with a later duplicate of a file id ignored and oversized counts
    /// clamped.
    pub fn decode(data: &[u8]) -> (r: DiscardStats)
        ensures
            discard_wf(r@),
            ({
                let cells = spec_decode_cells(data@);
                discard_wf(cells) ==> r@ == cells
            }),
    {
        let mut st = DiscardStats::new();
        let dlen = data.len();
        let mut off: usize = 0;
        proof {
            assert(data@.skip(0) =~= data@);
            assert(st@ + spec_decode_cells(data@) =~= spec_decode_cells(data@));
        }
        loop
            invariant
                dlen == data@.len(),
                off <= dlen,
                discard_wf(st@),
                discard_wf(spec_decode_cells(data@)) ==> spec_decode_cells(data@) == st@
                    + spec_decode_cells(data@.skip(off as int)),
                discard_wf(spec_decode_cells(data@)) ==> sorted_before(
                    st@,
                    spec_decode_cells(data@.skip(off as int)),
                ),
            decreases dlen - off,
        {
            if dlen - off < 16 {
                proof {
                    assert(spec_decode_cells(data@.skip(off as int)) =~= Seq::<(
                        u64,
                        u64,
                    )>::empty());
                    if discard_wf(spec_decode_cells(data@)) {
                        assert(spec_decode_cells(data@) =~= st@ + Seq::<(u64, u64)>::empty());
                        assert(st@ =~= spec_decode_cells(data@));
                    }
                }
                return st;
            }
            let fid = read_u64_be(data, off);
            proof {
                assert(data@.skip(off as int).subrange(0, 8) =~= data@.subrange(
                    off as int,
                    off + 8,
                ));
            }
            if fid == 0 {
                proof {
                    assert(spec_decode_cells(data@.skip(off as int)) =~= Seq::<(
                        u64,
                        u64,
                    )>::empty());
                    if discard_wf(spec_decode_cells(data@)) {
                        assert(spec_decode_cells(data@) =~= st@ + Seq::<(u64, u64)>::empty());
                        assert(st@ =~= spec_decode_cells(data@));
                    }
                }
                return st;
            }
            let val = read_u64_be(data, off + 8);
            proof {
                assert(data@.skip(off as int).subrange(8, 16) =~= data@.subrange(
                    off + 8,
                    off + 16,
                ));
                assert(data@.skip(off as int).skip(16) =~= data@.skip(off + 16));
            }
            let capped = if val > MAX_DISCARD {
                MAX_DISCARD
            } else {
                val
            };
            let ghost pre = st@;
            let slen = st.slots.len();
            let in_order = slen == 0 || st.slots[slen - 1].0 < fid;
            if in_order {
                st.slots.push((fid, capped));
                proof {
                    assert forall|a: int, b: int|
                        0 <= a < b < st.slots@.len() implies (#[trigger] st.slots@[a]).0 < (
                    #[trigger] st.slots@[b]).0 by {
                        if b == st.slots@.len() - 1 {
                            if a < st.slots@.len() - 2 {
                                assert(pre[a].0 < pre[pre.len() - 1].0);
                            }
                        } else {
                            assert(st.slots@[a] == pre[a] && st.slots@[b] == pre[b]);
                        }
                    }
                }
            }
            proof {
                if discard_wf(spec_decode_cells(data@)) {
                    let tail = spec_decode_cells(data@.skip(off as int));
                    assert(tail[0] == (fid, val));
                    assert(spec_decode_cells(data@)[pre.len() as int] == (fid, val));
                    assert(val <= MAX_DISCARD);
                    assert(capped == val);
                    lemma_decode_step(pre, data@, off as int, fid, val);
                    if pre.len() > 0 {
                        assert(pre[pre.len() - 1].0 < fid);
                    }
                    assert(in_order);
                    assert(st@ =~= pre.push((fid, val)));
                }
            }
            off = off + 16;
        }
    }
}

/// The cells of the slots, without the terminator.
pub open spec fn discard_cells(s: Seq<(u64, u64)>) -> Seq<u8>
    decreases s.len(),
{
    if s.len() == 0 {
        Seq::empty()
    } else {
        u64_be_bytes(s[0].0) + u64_be_bytes(s[0].1) + discard_cells(s.drop_first())
    }
}

/// The stored bytes of the slots: their cells, then a zero cell.
pub open spec fn discard_bytes(s: Seq<(u64, u64)>) -> Seq<u8> {
    discard_cells(s) + u64_be_bytes(0) + u64_be_bytes(0)
}

/// Appending a slot appends its cell.
proof fn lemma_discard_cells_push(s: Seq<(u64, u64)>, c: (u64, u64))
    ensures
        discard_cells(s.push(c)) == discard_cells(s) + u64_be_bytes(c.0) + u64_be_bytes(c.1),
    decreases s.len(),
{
    if s.len() == 0 {
        assert(s.push(c)[0] == c);
        assert(s.push(c).drop_first() =~= Seq::<(u64, u64)>::empty());
        assert(discard_cells(Seq::<(u64, u64)>::empty()) == Seq::<u8>::empty());
        assert(discard_cells(s.push(c)) == u64_be_bytes(c.0) + u64_be_bytes(c.1) + discard_cells(
            s.push(c).drop_first()));
        assert(discard_cells(s.push(c)) =~= discard_cells(s) + u64_be_bytes(c.0) + u64_be_bytes(
            c.1));
    } else {
        assert(s.push(c)[0] == s[0]);
        assert(s.push(c).drop_first() =~= s.drop_first().push(c));
        lemma_discard_cells_push(s.drop_first(), c);
        let lhs = u64_be_bytes(s[0].0) + u64_be_bytes(s[0].1) + (discard_cells(s.drop_first())
            + u64_be_bytes(c.0) + u64_be_bytes(c.1));
        let rhs = (u64_be_bytes(s[0].0) + u64_be_bytes(s[0].1) + discard_cells(s.drop_first()))
            + u64_be_bytes(c.0) + u64_be_bytes(c.1);
        assert(lhs =~= rhs);
        assert(discard_cells(s.push(c)) == lhs);
        assert(discard_cells(s) == u64_be_bytes(s[0].0) + u64_be_bytes(s[0].1) + discard_cells(
            s.drop_first()));
    }
}

/// The slots stored in a byte string: sixteen-byte cells until a zero file
/// id, a short tail, or the end.
pub open spec fn spec_decode_cells(b: Seq<u8>) -> Seq<(u64, u64)>
    decreases b.len(),
{
    if b.len() < 16 {
        Seq::empty()
    } else {
        let fid = u64_of_be(b.subrange(0, 8));
        let val = u64_of_be(b.subrange(8, 16));
        if fid == 0 {
            Seq::empty()
        } else {
            seq![(fid, val)] + spec_decode_cells(b.skip(16))
        }
    }
}

/// Every slot of `a` sorts strictly before every slot of `b`.
pub open spec fn sorted_before(a: Seq<(u64, u64)>, b: Seq<(u64, u64)>) -> bool {
    forall|i: int, j: int|
        0 <= i < a.len() && 0 <= j < b.len() ==> (#[trigger] a[i]).0 < (#[trigger] b[j]).0
}

/// One decoding step: when the whole decoded list is well formed, the next
/// cell extends the accumulated prefix in sorted order, so a sorted insert
/// is a plain append.
proof fn lemma_decode_step(pre: Seq<(u64, u64)>, s: Seq<u8>, off: int, fid: u64, val: u64)
    requires
        discard_wf(spec_decode_cells(s)),
        0 <= off,
        off + 16 <= s.len(),
        spec_decode_cells(s) == pre + spec_decode_cells(s.skip(off)),
        sorted_before(pre, spec_decode_cells(s.skip(off))),
        fid == u64_of_be(s.skip(off).subrange(0, 8)),
        val == u64_of_be(s.skip(off).subrange(8, 16)),
        fid != 0,
        val <= MAX_DISCARD,
    ensures
        spec_decode_cells(s) == (pre.push((fid, val))) + spec_decode_cells(s.skip(off + 16)),
        sorted_before(pre.push((fid, val)), spec_decode_cells(s.skip(off + 16))),
        insert_pos(pre, fid) == pre.len(),
        !(insert_pos(pre, fid) < pre.len() && pre[insert_pos(pre, fid)].0 == fid),
        pre.subrange(0, pre.len() as int) + seq![(fid, val)] + pre.subrange(
            pre.len() as int,
            pre.len() as int,
        ) == pre.push((fid, val)),
{
    let tail = spec_decode_cells(s.skip(off));
    assert(s.skip(off).skip(16) =~= s.skip(off + 16));
    assert(tail == seq![(fid, val)] + spec_decode_cells(s.skip(off + 16)));
    assert(tail[0] == (fid, val));
    assert((pre.push((fid, val))) + spec_decode_cells(s.skip(off + 16)) =~= pre + tail);
    let whole = spec_decode_cells(s);
    assert forall|i: int, j: int|
        0 <= i < pre.len() + 1 && 0 <= j < spec_decode_cells(s.skip(off + 16)).len() implies (
    #[trigger] pre.push((fid, val))[i]).0 < (#[trigger] spec_decode_cells(s.skip(off + 16))[j]).0
        by {
        assert(whole[pre.len() + 1 + j] == spec_decode_cells(s.skip(off + 16))[j]);
        assert(whole[i] == pre.push((fid, val))[i]);
    }
    lemma_insert_pos(pre, fid);
    assert forall|j: int| 0 <= j < pre.len() implies (#[trigger] pre[j]).0 < fid by {
        assert(tail[0].0 == fid);
    }
    assert(pre.subrange(0, pre.len() as int) + seq![(fid, val)] + pre.subrange(
        pre.len() as int,
        pre.len() as int,
    ) =~= pre.push((fid, val)));
}

/// Persistence round trip: storing well-formed slots and reading them back
/// yields the same slots.
pub proof fn lemma_discard_roundtrip(s: Seq<(u64, u64)>)
    requires
        discard_wf(s),
        forall|i: int| 0 <= i < s.len() ==> (#[trigger] s[i]).0 != 0,
    ensures
        spec_decode_cells(discard_bytes(s)) == s,
    decreases s.len(),
{
    let b = discard_bytes(s);
    if s.len() == 0 {
        crate::codec::lemma_u64_be_roundtrip(0);
        assert(b.subrange(0, 8) =~= u64_be_bytes(0));
    } else {
        let c = s[0];
        crate::codec::lemma_u64_be_roundtrip(c.0);
        crate::codec::lemma_u64_be_roundtrip(c.1);
        assert(b.subrange(0, 8) =~= u64_be_bytes(c.0));
        assert(b.subrange(8, 16) =~= u64_be_bytes(c.1));
        assert forall|i: int, j: int|
            0 <= i < j < s.drop_first().len() implies (#[trigger] s.drop_first()[i]).0 < (
        #[trigger] s.drop_first()[j]).0 by {
            assert(s.drop_first()[i] == s[i + 1] && s.drop_first()[j] == s[j + 1]);
        }
        assert forall|i: int| 0 <= i < s.drop_first().len() implies (
        #[trigger] s.drop_first()[i]).1 <= MAX_DISCARD && (#[trigger] s.drop_first()[i]).0
            != 0 by {
            assert(s.drop_first()[i] == s[i + 1]);
        }
        lemma_discard_roundtrip(s.drop_first());
        assert(b.skip(16) =~= discard_bytes(s.drop_first()));
        assert(seq![(c.0, c.1)] + s.drop_first() =~= s);
    }
}

} // verus!
