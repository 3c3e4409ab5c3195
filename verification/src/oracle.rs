//! The oracle: issues read and commit timestamps and detects
//! serialization conflicts between transactions. The waiting on marks is
//! driven from outside; the timestamp and conflict bookkeeping here is
//! what makes snapshot isolation hold.

use vstd::prelude::*;

use crate::error::Error;
use crate::watermark::{wm_adjust, wm_wf, WaterMark};

verus! {

/// One committed transaction the oracle still remembers: its commit
/// timestamp and the hashes of the keys it wrote.
pub struct CommittedTxn {
    pub ts: u64,
    pub conflict_keys: Vec<u64>,
}

/// The remembered commit, as mathematics.
#[verifier::ext_equal]
pub ghost struct CommittedView {
    pub ts: u64,
    pub keys: Seq<u64>,
}

/// The committed list as mathematics.
pub open spec fn committed_view(v: Seq<CommittedTxn>) -> Seq<CommittedView> {
    Seq::new(v.len(), |i: int| CommittedView { ts: v[i].ts, keys: v[i].conflict_keys@ })
}

/// Whether a transaction that read the hashed keys `reads` at `read_ts`
/// conflicts with some remembered commit: one that committed after the
/// read timestamp and wrote a key the transaction read.
pub open spec fn spec_has_conflict(committed: Seq<CommittedView>, read_ts: u64, reads: Seq<u64>) -> bool {
    exists|i: int, j: int|
        0 <= i < committed.len() && 0 <= j < reads.len() && (#[trigger] committed[i]).ts > read_ts
            && committed[i].keys.contains(#[trigger] reads[j])
}

/// The committed entries with a commit timestamp after `min_ts`.
pub open spec fn keep_after(s: Seq<CommittedView>, min_ts: u64) -> Seq<CommittedView>
    decreases s.len(),
{
    if s.len() == 0 {
        Seq::empty()
    } else if s[0].ts > min_ts {
        seq![s[0]] + keep_after(s.drop_first(), min_ts)
    } else {
        keep_after(s.drop_first(), min_ts)
    }
}

/// Appending an entry appends it to the kept list when it is late enough.
proof fn lemma_keep_after_push(s: Seq<CommittedView>, c: CommittedView, min_ts: u64)
    ensures
        keep_after(s.push(c), min_ts) == if c.ts > min_ts {
            keep_after(s, min_ts).push(c)
        } else {
            keep_after(s, min_ts)
        },
    decreases s.len(),
{
    if s.len() == 0 {
        assert(s.push(c)[0] == c);
        assert(s.push(c).drop_first() =~= Seq::<CommittedView>::empty());
        assert(keep_after(Seq::<CommittedView>::empty(), min_ts) == Seq::<CommittedView>::empty());
        if c.ts > min_ts {
            assert(keep_after(s.push(c), min_ts) == seq![c] + keep_after(
                s.push(c).drop_first(),
                min_ts,
            ));
            assert(keep_after(s.push(c), min_ts) =~= keep_after(s, min_ts).push(c));
        } else {
            assert(keep_after(s.push(c), min_ts) =~= keep_after(s, min_ts));
        }
    } else {
        assert(s.push(c)[0] == s[0]);
        assert(s.push(c).drop_first() =~= s.drop_first().push(c));
        lemma_keep_after_push(s.drop_first(), c, min_ts);
        if s[0].ts > min_ts {
            assert(keep_after(s.push(c), min_ts) == seq![s[0]] + keep_after(
                s.drop_first().push(c),
                min_ts,
            ));
            assert(keep_after(s, min_ts) == seq![s[0]] + keep_after(s.drop_first(), min_ts));
        }
        if c.ts > min_ts {
            assert(keep_after(s.push(c), min_ts) =~= keep_after(s, min_ts).push(c));
        } else {
            assert(keep_after(s.push(c), min_ts) =~= keep_after(s, min_ts));
        }
    }
}

/// The kept entries are exactly the old entries past the cutoff.
pub proof fn lemma_keep_after(s: Seq<CommittedView>, min_ts: u64)
    ensures
        forall|i: int|
            0 <= i < keep_after(s, min_ts).len() ==> (#[trigger] keep_after(s, min_ts)[i]).ts
                > min_ts,
        forall|i: int|
            0 <= i < s.len() && (#[trigger] s[i]).ts > min_ts ==> keep_after(s, min_ts).contains(
                s[i]),
        forall|i: int|
            0 <= i < keep_after(s, min_ts).len() ==> s.contains(#[trigger] keep_after(s, min_ts)[i]),
    decreases s.len(),
{
    if s.len() > 0 {
        lemma_keep_after(s.drop_first(), min_ts);
        let k = keep_after(s, min_ts);
        let kr = keep_after(s.drop_first(), min_ts);
        assert forall|i: int| 0 <= i < s.len() && (#[trigger] s[i]).ts > min_ts implies k.contains(
            s[i],
        ) by {
            if i == 0 {
                if s[0].ts > min_ts {
                    assert(k[0] == s[0]);
                }
            } else {
                assert(s.drop_first()[i - 1] == s[i]);
                let w = choose|w: int| 0 <= w < kr.len() && kr[w] == s[i];
                if s[0].ts > min_ts {
                    assert(k[w + 1] == kr[w]);
                }
            }
        }
        assert forall|i: int| 0 <= i < k.len() implies s.contains(#[trigger] k[i]) by {
            if s[0].ts > min_ts {
                if i == 0 {
                } else {
                    assert(k[i] == kr[i - 1]);
                    let w = choose|w: int| 0 <= w < s.drop_first().len() && s.drop_first()[w]
                        == kr[i - 1];
                    assert(s[w + 1] == k[i]);
                }
            } else {
                let w = choose|w: int| 0 <= w < s.drop_first().len() && s.drop_first()[w] == kr[i];
                assert(s[w + 1] == k[i]);
            }
        }
    }
}

/// The oracle's state: the next timestamp to issue, the remembered
/// commits, and the two watermarks.
pub struct Oracle {
    pub next_txn_ts: u64,
    pub committed_txns: Vec<CommittedTxn>,
    pub txn_mark: WaterMark,
    pub read_mark: WaterMark,
    pub detect_conflicts: bool,
}

impl Oracle {
    /// A fresh oracle issuing timestamps from zero.
    pub fn new(detect_conflicts: bool) -> (r: Oracle)
        ensures
            r.next_txn_ts == 0,
            committed_view(r.committed_txns@) == Seq::<CommittedView>::empty(),
            r.detect_conflicts == detect_conflicts,
            wm_wf(r.txn_mark@),
            wm_wf(r.read_mark@),
            r.txn_mark@.done_until == 0,
            r.read_mark@.done_until == 0,
    {
        let r = Oracle {
            next_txn_ts: 0,
            committed_txns: Vec::new(),
            txn_mark: WaterMark::new(),
            read_mark: WaterMark::new(),
            detect_conflicts,
        };
        proof {
            assert(committed_view(r.committed_txns@) =~= Seq::<CommittedView>::empty());
        }
        r
    }

    /// The next commit timestamp that will be issued.
    pub fn next_txn_ts(&self) -> (r: u64)
        ensures
            r == self.next_txn_ts,
    {
        self.next_txn_ts
    }

    /// Moves the issuing point; used once at open, after recovering the
    /// largest stored version.
    pub fn set_next_txn_ts(&mut self, v: u64)
        ensures
            *final(self) == (Oracle { next_txn_ts: v, ..*old(self) }),
    {
        self.next_txn_ts = v;
    }

    /// Advances the issuing point by one.
    pub fn incre_next_ts(&mut self)
        requires
            old(self).next_txn_ts < 0xffff_ffff_ffff_ffff,
        ensures
            *final(self) == (Oracle { next_txn_ts: (old(self).next_txn_ts + 1) as u64, ..*old(self) }),
    {
        self.next_txn_ts = self.next_txn_ts + 1;
    }

    /// The read timestamp a new transaction observes: one before the next
    /// commit timestamp, registered as open work on the read mark. The
    /// caller must then wait until the transaction mark reaches it before
    /// reading.
    pub fn read_ts(&mut self) -> (r: u64)
        requires
            old(self).next_txn_ts >= 1,
            wm_wf(old(self).read_mark@),
            old(self).next_txn_ts - 1 >= old(self).read_mark@.done_until,
        ensures
            r == old(self).next_txn_ts - 1,
            final(self).next_txn_ts == old(self).next_txn_ts,
            final(self).committed_txns == old(self).committed_txns,
            final(self).txn_mark == old(self).txn_mark,
            final(self).detect_conflicts == old(self).detect_conflicts,
            wm_wf(final(self).read_mark@),
            final(self).read_mark@.last_index == r,
            final(self).read_mark@.done_until == old(self).read_mark@.done_until,
            final(self).read_mark@.pending == wm_adjust(old(self).read_mark@.pending, r, 1i64),
    {
        let rt = self.next_txn_ts - 1;
        self.read_mark.begin(rt);
        rt
    }

    /// Whether a commit at `read_ts` with the given read-key hashes must
    /// be refused: exactly when conflict detection is on and some
    /// remembered commit after `read_ts` wrote one of those keys.
    pub fn has_conflict(&self, read_ts: u64, reads: &Vec<u64>) -> (r: bool)
        ensures
            r == (self.detect_conflicts && spec_has_conflict(
                committed_view(self.committed_txns@),
                read_ts,
                reads@,
            )),
    {
        if !self.detect_conflicts {
            return false;
        }
        let mut i: usize = 0;
        while i < self.committed_txns.len()
            invariant
                i <= self.committed_txns@.len(),
                self.detect_conflicts,
                forall|i2: int, j2: int|
                    0 <= i2 < i && 0 <= j2 < reads@.len() ==> !((#[trigger] committed_view(
                        self.committed_txns@,
                    )[i2]).ts > read_ts && committed_view(self.committed_txns@)[i2].keys.contains(
                        #[trigger] reads@[j2],
                    )),
            decreases self.committed_txns@.len() - i,
        {
            if self.committed_txns[i].ts > read_ts {
                let mut j: usize = 0;
                while j < reads.len()
                    invariant
                        i < self.committed_txns@.len(),
                        j <= reads@.len(),
                        self.committed_txns@[i as int].ts > read_ts,
                        self.detect_conflicts,
                        forall|j2: int|
                            0 <= j2 < j ==> !committed_view(
                                self.committed_txns@,
                            )[i as int].keys.contains(#[trigger] reads@[j2]),
                    decreases reads@.len() - j,
                {
                    let h = reads[j];
                    let mut k: usize = 0;
                    let klen = self.committed_txns[i].conflict_keys.len();
                    while k < klen
                        invariant
                            i < self.committed_txns@.len(),
                            j < reads@.len(),
                            self.committed_txns@[i as int].ts > read_ts,
                            self.detect_conflicts,
                            klen == self.committed_txns@[i as int].conflict_keys@.len(),
                            k <= klen,
                            h == reads@[j as int],
                            forall|k2: int|
                                0 <= k2 < k
                                    ==> self.committed_txns@[i as int].conflict_keys@[k2] != h,
                        decreases klen - k,
                    {
                        if self.committed_txns[i].conflict_keys[k] == h {
                            proof {
                                assert(committed_view(self.committed_txns@)[i as int].ts
                                    > read_ts);
                                assert(committed_view(
                                    self.committed_txns@,
                                )[i as int].keys.contains(reads@[j as int]));
                            }
                            return true;
                        }
                        k = k + 1;
                    }
                    j = j + 1;
                }
            }
            i = i + 1;
        }
        false
    }

    /// Clears remembered commits at or before the oldest still-active
    /// reader's timestamp: they can no longer conflict with anyone.
    pub fn cleanup_committed(&mut self, max_read_ts: u64)
        ensures
            committed_view(final(self).committed_txns@) == keep_after(
                committed_view(old(self).committed_txns@),
                max_read_ts,
            ),
            final(self).next_txn_ts == old(self).next_txn_ts,
            final(self).txn_mark == old(self).txn_mark,
            final(self).read_mark == old(self).read_mark,
            final(self).detect_conflicts == old(self).detect_conflicts,
    {
        let mut kept: Vec<CommittedTxn> = Vec::new();
        proof {
            assert(committed_view(kept@) =~= keep_after(
                committed_view(self.committed_txns@).take(0),
                max_read_ts,
            ));
        }
        let n = self.committed_txns.len();
        let mut i: usize = 0;
        while i < n
            invariant
                n == self.committed_txns@.len(),
                i <= n,
                self == old(self),
                committed_view(kept@) == keep_after(
                    committed_view(self.committed_txns@).take(i as int),
                    max_read_ts,
                ),
            decreases n - i,
        {
            let ts = self.committed_txns[i].ts;
            let ghost pre = committed_view(kept@);
            let ghost cv = committed_view(self.committed_txns@)[i as int];
            if ts > max_read_ts {
                let keys = clone_u64_vec(&self.committed_txns[i].conflict_keys);
                kept.push(CommittedTxn { ts, conflict_keys: keys });
                proof {
                    assert(committed_view(kept@) =~~= pre.push(cv));
                }
            }
            proof {
                let t = committed_view(self.committed_txns@).take(i + 1);
                assert(t =~= committed_view(self.committed_txns@).take(i as int).push(cv));
                lemma_keep_after_push(
                    committed_view(self.committed_txns@).take(i as int),
                    cv,
                    max_read_ts,
                );
                assert(committed_view(kept@) =~~= keep_after(t, max_read_ts));
            }
            i = i + 1;
        }
        proof {
            assert(committed_view(self.committed_txns@).take(n as int) =~= committed_view(
                self.committed_txns@));
        }
        self.committed_txns = kept;
    }

    /// Issues a commit timestamp for a transaction that read at `read_ts`,
    /// read the keys hashed in `reads` and wrote the keys hashed in
    /// `writes`. Refused with `Conflict` exactly when the read set
    /// overlaps a commit remembered after `read_ts`. On success the next
    /// timestamp strictly increases, commits at or before `max_read_ts`
    /// are dropped, and the write set is remembered at the new timestamp,
    /// which is opened on the transaction mark.
    pub fn new_commit_ts(
        &mut self,
        read_ts: u64,
        max_read_ts: u64,
        reads: &Vec<u64>,
        writes: Vec<u64>,
    ) -> (r: Result<u64, Error>)
        requires
            old(self).next_txn_ts < 0xffff_ffff_ffff_ffff,
            wm_wf(old(self).txn_mark@),
            old(self).next_txn_ts >= old(self).txn_mark@.done_until,
        ensures
            match r {
                Ok(ts) => {
                    &&& !(old(self).detect_conflicts && spec_has_conflict(
                        committed_view(old(self).committed_txns@),
                        read_ts,
                        reads@,
                    ))
                    &&& ts == old(self).next_txn_ts
                    &&& final(self).next_txn_ts == old(self).next_txn_ts + 1
                    &&& committed_view(final(self).committed_txns@) == keep_after(
                        committed_view(old(self).committed_txns@),
                        max_read_ts,
                    ).push(CommittedView { ts, keys: writes@ })
                    &&& wm_wf(final(self).txn_mark@)
                    &&& final(self).txn_mark@.last_index == ts
                    &&& final(self).txn_mark@.done_until == old(self).txn_mark@.done_until
                    &&& final(self).txn_mark@.pending == wm_adjust(
                        old(self).txn_mark@.pending,
                        ts,
                        1i64,
                    )
                    &&& final(self).read_mark == old(self).read_mark
                    &&& final(self).detect_conflicts == old(self).detect_conflicts
                },
                Err(e) => {
                    &&& e == Error::Conflict
                    &&& old(self).detect_conflicts && spec_has_conflict(
                        committed_view(old(self).committed_txns@),
                        read_ts,
                        reads@,
                    )
                    &&& *final(self) == *old(self)
                },
            },
    {
        if self.has_conflict(read_ts, reads) {
            return Err(Error::Conflict);
        }
        let ts = self.next_txn_ts;
        self.next_txn_ts = self.next_txn_ts + 1;
        self.cleanup_committed(max_read_ts);
        let ghost pre = committed_view(self.committed_txns@);
        self.committed_txns.push(CommittedTxn { ts, conflict_keys: writes });
        proof {
            assert(committed_view(self.committed_txns@) =~~= pre.push(
                CommittedView { ts, keys: self.committed_txns@.last().conflict_keys@ },
            ));
        }
        self.txn_mark.begin(ts);
        Ok(ts)
    }
}

/// Copies a vector of hashes.
fn clone_u64_vec(v: &Vec<u64>) -> (r: Vec<u64>)
    ensures
        r@ == v@,
{
    let mut out: Vec<u64> = Vec::new();
    let mut i: usize = 0;
    while i < v.len()
        invariant
            i <= v@.len(),
            out@ == v@.take(i as int),
        decreases v@.len() - i,
    {
        out.push(v[i]);
        proof {
            assert(v@.take(i + 1) =~= v@.take(i as int).push(v@[i as int]));
        }
        i = i + 1;
    }
    proof {
        assert(v@.take(v@.len() as int) =~= v@);
    }
    out
}

/// Law: two transactions that both start at one read timestamp and touch
/// one key cannot both commit when the second read that key: once the
/// first has committed its writes at a timestamp past `read_ts`, the
/// second's commit is refused as a conflict.
pub proof fn lemma_write_skew_detected(
    committed: Seq<CommittedView>,
    read_ts: u64,
    c1: CommittedView,
    reads2: Seq<u64>,
    h: u64,
)
    requires
        committed.contains(c1),
        c1.ts > read_ts,
        c1.keys.contains(h),
        reads2.contains(h),
    ensures
        spec_has_conflict(committed, read_ts, reads2),
{
    let i = choose|i: int| 0 <= i < committed.len() && committed[i] == c1;
    let j = choose|j: int| 0 <= j < reads2.len() && reads2[j] == h;
    assert(committed[i].ts > read_ts && committed[i].keys.contains(reads2[j]));
}

} // verus!
