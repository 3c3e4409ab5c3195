//! The watermark: a monotonic counter over transaction indices. Work on an
//! index is opened with `begin` and closed with `done`; `done_until`
//! advances past an index once it and every smaller index have no open
//! work left. The asynchronous shell that carries these commands over a
//! channel lives outside; the state transitions here are what it runs.

use vstd::prelude::*;

verus! {

/// The mathematical content of a watermark.
#[verifier::ext_equal]
pub ghost struct WmModel {
    pub done_until: u64,
    pub last_index: u64,
    pub pending: Seq<(u64, i64)>,
}

/// Pending entries sorted strictly by index, none before the advanced
/// mark, and the front entry still open: the mark never waits on closed
/// work.
pub open spec fn wm_wf(m: WmModel) -> bool {
    &&& forall|i: int, j: int|
        0 <= i < j < m.pending.len() ==> (#[trigger] m.pending[i]).0 < (#[trigger] m.pending[j]).0
    &&& forall|i: int| 0 <= i < m.pending.len() ==> (#[trigger] m.pending[i]).0 >= m.done_until
    &&& (m.pending.len() > 0 ==> m.pending[0].1 > 0)
}

/// Signed addition that sticks at the ends of the 64-bit range.
pub open spec fn spec_sat_add(c: i64, d: i64) -> i64 {
    if c + d > i64::MAX {
        i64::MAX
    } else if c + d < i64::MIN {
        i64::MIN
    } else {
        (c + d) as i64
    }
}

/// Computes `spec_sat_add`.
fn sat_add(c: i64, d: i64) -> (r: i64)
    ensures
        r == spec_sat_add(c, d),
{
    if d >= 0 {
        if c > i64::MAX - d {
            i64::MAX
        } else {
            c + d
        }
    } else {
        if c < i64::MIN - d {
            i64::MIN
        } else {
            c + d
        }
    }
}

/// The first position whose index is at least `index`.
pub open spec fn wm_pos(s: Seq<(u64, i64)>, index: u64) -> int
    decreases s.len(),
{
    if s.len() == 0 {
        0
    } else if s[0].0 >= index {
        0
    } else {
        1 + wm_pos(s.drop_first(), index)
    }
}

/// `wm_pos` is the first position not below `index`.
pub proof fn lemma_wm_pos(s: Seq<(u64, i64)>, index: u64)
    ensures
        0 <= wm_pos(s, index) <= s.len(),
        forall|j: int| 0 <= j < wm_pos(s, index) ==> (#[trigger] s[j]).0 < index,
        wm_pos(s, index) < s.len() ==> s[wm_pos(s, index)].0 >= index,
    decreases s.len(),
{
    if s.len() > 0 && s[0].0 < index {
        lemma_wm_pos(s.drop_first(), index);
        let p = wm_pos(s, index);
        assert forall|j: int| 0 <= j < p implies (#[trigger] s[j]).0 < index by {
            if j >= 1 {
                assert(s.drop_first()[j - 1] == s[j]);
            }
        }
        if p < s.len() {
            assert(s.drop_first()[p - 1] == s[p]);
        }
    }
}

/// The pending list after an index gains `delta` open work: its count is
/// adjusted, or a fresh entry is inserted at its sorted position.
pub open spec fn wm_adjust(s: Seq<(u64, i64)>, index: u64, delta: i64) -> Seq<(u64, i64)> {
    let p = wm_pos(s, index);
    if p < s.len() && s[p].0 == index {
        s.update(p, (index, spec_sat_add(s[p].1, delta)))
    } else {
        s.subrange(0, p) + seq![(index, delta)] + s.subrange(p, s.len() as int)
    }
}

/// Advancing the mark: pop leading entries whose count is no longer
/// positive; the mark becomes the last popped index.
pub open spec fn wm_advance(done_until: u64, pending: Seq<(u64, i64)>) -> (u64, Seq<(u64, i64)>)
    decreases pending.len(),
{
    if pending.len() == 0 || pending[0].1 > 0 {
        (done_until, pending)
    } else {
        wm_advance(pending[0].0, pending.drop_first())
    }
}

/// One processed command: adjust the index's count, then advance the mark.
pub open spec fn wm_process(m: WmModel, index: u64, delta: i64) -> WmModel {
    let adjusted = wm_adjust(m.pending, index, delta);
    let (du, rest) = wm_advance(m.done_until, adjusted);
    WmModel { done_until: du, last_index: m.last_index, pending: rest }
}

/// Advancing never lowers the mark, keeps entries at or past it, and
/// leaves the front entry open.
proof fn lemma_wm_advance(done_until: u64, pending: Seq<(u64, i64)>)
    requires
        forall|i: int, j: int|
            0 <= i < j < pending.len() ==> (#[trigger] pending[i]).0 < (#[trigger] pending[j]).0,
        forall|i: int| 0 <= i < pending.len() ==> (#[trigger] pending[i]).0 >= done_until,
    ensures
        ({
            let (du, rest) = wm_advance(done_until, pending);
            &&& du >= done_until
            &&& forall|i: int, j: int|
                0 <= i < j < rest.len() ==> (#[trigger] rest[i]).0 < (#[trigger] rest[j]).0
            &&& forall|i: int| 0 <= i < rest.len() ==> (#[trigger] rest[i]).0 >= du
            &&& (rest.len() > 0 ==> rest[0].1 > 0)
            &&& forall|i: int|
                0 <= i < rest.len() ==> exists|k: int|
                    0 <= k < pending.len() && pending[k] == #[trigger] rest[i]
        }),
    decreases pending.len(),
{
    if !(pending.len() == 0 || pending[0].1 > 0) {
        assert forall|i: int, j: int|
            0 <= i < j < pending.drop_first().len() implies (
        #[trigger] pending.drop_first()[i]).0 < (#[trigger] pending.drop_first()[j]).0 by {
            assert(pending.drop_first()[i] == pending[i + 1] && pending.drop_first()[j]
                == pending[j + 1]);
        }
        assert forall|i: int|
            0 <= i < pending.drop_first().len() implies (#[trigger] pending.drop_first()[i]).0
            >= pending[0].0 by {
            assert(pending.drop_first()[i] == pending[i + 1]);
        }
        lemma_wm_advance(pending[0].0, pending.drop_first());
        let (du, rest) = wm_advance(done_until, pending);
        assert forall|i: int| 0 <= i < rest.len() implies exists|k: int|
            0 <= k < pending.len() && pending[k] == #[trigger] rest[i] by {
            let k2 = choose|k: int|
                0 <= k < pending.drop_first().len() && pending.drop_first()[k] == rest[i];
            assert(pending[k2 + 1] == rest[i]);
        }
    }
}

/// The watermark's state.
pub struct WaterMark {
    done_until: u64,
    last_index: u64,
    pending: Vec<(u64, i64)>,
}

impl View for WaterMark {
    type V = WmModel;

    closed spec fn view(&self) -> WmModel {
        WmModel {
            done_until: self.done_until,
            last_index: self.last_index,
            pending: self.pending@,
        }
    }
}

impl WaterMark {
    /// A fresh watermark: nothing begun, mark at zero.
    pub fn new() -> (r: WaterMark)
        ensures
            r@.done_until == 0,
            r@.last_index == 0,
            r@.pending == Seq::<(u64, i64)>::empty(),
            wm_wf(r@),
    {
        let r = WaterMark { done_until: 0, last_index: 0, pending: Vec::new() };
        proof {
            assert(r@.pending =~= Seq::<(u64, i64)>::empty());
        }
        r
    }

    /// The mark: every index at or below it has no open work.
    pub fn done_until(&self) -> (r: u64)
        ensures
            r == self@.done_until,
    {
        self.done_until
    }

    /// The most recently begun index.
    pub fn last_index(&self) -> (r: u64)
        ensures
            r == self@.last_index,
    {
        self.last_index
    }

    /// Whether a waiter for `index` may proceed: exactly when the mark has
    /// reached it.
    pub fn wait_for_mark(&self, index: u64) -> (r: bool)
        ensures
            r == (self@.done_until >= index),
    {
        self.done_until >= index
    }

    /// Opens work on `index`. The mark does not move: opening work can
    /// only add to what must finish first.
    pub fn begin(&mut self, index: u64)
        requires
            wm_wf(old(self)@),
            index >= old(self)@.done_until,
        ensures
            wm_wf(final(self)@),
            final(self)@ == (WmModel {
                last_index: index,
                ..wm_process(
                    WmModel { last_index: index, ..old(self)@ },
                    index,
                    1i64,
                )
            }),
            final(self)@.done_until == old(self)@.done_until,
            final(self)@.pending == wm_adjust(old(self)@.pending, index, 1i64),
            final(self)@.last_index == index,
    {
        self.last_index = index;
        self.process(index, 1);
    }

    /// Closes one unit of work on `index`; the mark advances past every
    /// leading index whose work is all closed.
    pub fn done(&mut self, index: u64)
        requires
            wm_wf(old(self)@),
            index >= old(self)@.done_until,
        ensures
            wm_wf(final(self)@),
            final(self)@ == wm_process(old(self)@, index, -1i64),
            final(self)@.done_until >= old(self)@.done_until,
    {
        self.process(index, -1);
    }

    /// Adjusts the count of `index` by `delta`, then advances the mark.
    #[verifier::rlimit(100)]
    #[verifier::spinoff_prover]
    fn process(&mut self, index: u64, delta: i64)
        requires
            wm_wf(old(self)@),
            index >= old(self)@.done_until,
            -2 <= delta <= 2,
        ensures
            wm_wf(final(self)@),
            final(self)@ == wm_process(old(self)@, index, delta),
            final(self)@.done_until >= old(self)@.done_until,
            final(self)@.last_index == old(self)@.last_index,
            delta > 0 ==> final(self)@.done_until == old(self)@.done_until
                && final(self)@.pending == wm_adjust(old(self)@.pending, index, delta),
    {
        proof {
            lemma_wm_pos(old(self)@.pending, index);
        }
        let n = self.pending.len();
        let mut i: usize = 0;
        while i < n && self.pending[i].0 < index
            invariant
                n == self.pending@.len(),
                i <= n,
                self == old(self),
                forall|j: int| 0 <= j < i ==> (#[trigger] self.pending@[j]).0 < index,
            decreases n - i,
        {
            i = i + 1;
        }
        proof {
            let p = wm_pos(old(self)@.pending, index);
            if i < n {
                assert(self.pending@[i as int].0 >= index);
            }
            if p < i as int {
                assert(old(self)@.pending[p].0 >= index && old(self)@.pending[p].0 < index);
            }
            if (i as int) < p {
                assert(old(self)@.pending[i as int].0 < index && old(self)@.pending[i as int].0
                    >= index);
            }
            assert(p == i as int);
        }
        if i < n && self.pending[i].0 == index {
            let c = self.pending[i].1;
            self.pending.set(i, (index, sat_add(c, delta)));
        } else {
            self.pending.insert(i, (index, delta));
            proof {
                assert(self.pending@ =~= old(self)@.pending.subrange(0, i as int) + seq![
                    (index, delta),
                ] + old(self)@.pending.subrange(i as int, old(self)@.pending.len() as int));
            }
        }
        proof {
            let adj = wm_adjust(old(self)@.pending, index, delta);
            assert(self.pending@ =~= adj);
            assert forall|a: int, b: int|
                0 <= a < b < adj.len() implies (#[trigger] adj[a]).0 < (#[trigger] adj[b]).0 by {
                let s = old(self)@.pending;
                let p = i as int;
                if !(p < s.len() && s[p].0 == index) {
                    if a < p && b == p {
                    } else if a == p && b > p {
                        assert(adj[b] == s[b - 1]);
                        assert(s[b - 1].0 >= index && s[b - 1].0 != index);
                    } else if a < p && b > p {
                        assert(adj[a] == s[a] && adj[b] == s[b - 1]);
                    } else if a > p && b > p {
                        assert(adj[a] == s[a - 1] && adj[b] == s[b - 1]);
                    } else if b < p {
                        assert(adj[a] == s[a] && adj[b] == s[b]);
                    }
                }
            }
            assert forall|a: int| 0 <= a < adj.len() implies (#[trigger] adj[a]).0
                >= old(self)@.done_until by {
                let s = old(self)@.pending;
                let p = i as int;
                if !(p < s.len() && s[p].0 == index) {
                    if a < p {
                        assert(adj[a] == s[a]);
                    } else if a > p {
                        assert(adj[a] == s[a - 1]);
                    }
                }
            }
            lemma_wm_advance(old(self)@.done_until, adj);
            if delta > 0 {
                let p = wm_pos(old(self)@.pending, index);
                let old_p = old(self)@.pending;
                if p < old_p.len() && old_p[p].0 == index {
                    if p == 0 {
                        assert(adj[0].1 == spec_sat_add(old_p[0].1, delta));
                        assert(adj[0].1 > 0);
                    } else {
                        assert(adj[0] == old_p[0]);
                    }
                } else {
                    if p == 0 {
                        assert(adj[0] == (index, delta));
                    } else {
                        assert(adj[0] == old_p[0]);
                    }
                }
                assert(adj.len() > 0 && adj[0].1 > 0);
                assert(wm_advance(old(self)@.done_until, adj) == (
                    old(self)@.done_until,
                    adj,
                ));
            }
        }
        let ghost adj = self.pending@;
        let ghost du0 = self.done_until;
        while self.pending.len() > 0 && self.pending[0].1 <= 0
            invariant
                wm_advance(du0, adj) == wm_advance(self.done_until, self.pending@),
                forall|i2: int, j2: int|
                    0 <= i2 < j2 < self.pending@.len() ==> (#[trigger] self.pending@[i2]).0 < (
                    #[trigger] self.pending@[j2]).0,
                forall|i2: int|
                    0 <= i2 < self.pending@.len() ==> (#[trigger] self.pending@[i2]).0
                        >= self.done_until,
                self.done_until >= du0 || self.done_until == du0,
                self.done_until >= du0,
                self.last_index == old(self).last_index,
                forall|i2: int|
                    0 <= i2 < self.pending@.len() ==> exists|k: int|
                        0 <= k < adj.len() && adj[k] == #[trigger] self.pending@[i2],
            decreases self.pending@.len(),
        {
            let idx = self.pending[0].0;
            let ghost prev = self.pending@;
            self.pending.remove(0);
            proof {
                assert(self.pending@ =~= prev.drop_first());
                assert forall|i2: int|
                    0 <= i2 < self.pending@.len() implies (#[trigger] self.pending@[i2]).0
                    >= idx by {
                    assert(self.pending@[i2] == prev[i2 + 1]);
                }
                assert forall|i2: int| 0 <= i2 < self.pending@.len() implies exists|k: int|
                    0 <= k < adj.len() && adj[k] == #[trigger] self.pending@[i2] by {
                    let k2 = choose|k: int| 0 <= k < prev.len() && prev[k] == self.pending@[i2];
                    assert(prev[i2 + 1] == self.pending@[i2]);
                }
            }
            self.done_until = idx;
        }
        proof {
            let m = wm_process(old(self)@, index, delta);
            assert(self@.pending =~= m.pending);
            assert(self@ =~~= m);
        }
    }
}

/// Law: from a quiet watermark (no open work), beginning an index past the
/// mark and then closing it moves the mark exactly to that index, the
/// largest index begun.
pub proof fn lemma_begin_done_balanced(m: WmModel, index: u64)
    requires
        wm_wf(m),
        m.pending.len() == 0,
        index > m.done_until,
    ensures
        ({
            let after_begin = WmModel { last_index: index, ..wm_process(
                WmModel { last_index: index, ..m },
                index,
                1i64,
            ) };
            let after_done = wm_process(after_begin, index, -1i64);
            &&& after_begin.done_until == m.done_until
            &&& after_done.done_until == index
            &&& after_done.pending.len() == 0
        }),
{
    let m1 = WmModel { last_index: index, ..m };
    let adj = wm_adjust(m.pending, index, 1i64);
    assert(adj =~= seq![(index, 1i64)]);
    let after_begin = WmModel { last_index: index, ..wm_process(m1, index, 1i64) };
    assert(after_begin.pending =~= seq![(index, 1i64)]);
    let adj2 = wm_adjust(after_begin.pending, index, -1i64);
    assert(wm_pos(after_begin.pending, index) == 0);
    assert(adj2 =~= seq![(index, 0i64)]);
    assert(adj2.drop_first() =~= Seq::<(u64, i64)>::empty());
    let after_done = wm_process(after_begin, index, -1i64);
    assert(after_begin.done_until == m.done_until);
    assert(wm_advance(after_begin.done_until, adj2) == wm_advance(index, adj2.drop_first()));
    assert(after_done.done_until == index);
    assert(after_done.pending.len() == 0);
}

/// The model after beginning every index of `idxs`, in order: each adds
/// one unit of open work at its index, and the mark stays.
pub open spec fn wm_begin_all(m: WmModel, idxs: Seq<u64>) -> WmModel
    decreases idxs.len(),
{
    if idxs.len() == 0 {
        m
    } else {
        let m1 = wm_begin_all(m, idxs.drop_last());
        WmModel {
            done_until: m1.done_until,
            last_index: m1.last_index,
            pending: wm_adjust(m1.pending, idxs.last(), 1i64),
        }
    }
}

/// The model after closing every index of `idxs`, in order.
pub open spec fn wm_done_all(m: WmModel, idxs: Seq<u64>) -> WmModel
    decreases idxs.len(),
{
    if idxs.len() == 0 {
        m
    } else {
        wm_done_all(wm_process(m, idxs[0], -1i64), idxs.drop_first())
    }
}

proof fn lemma_wm_begin_run(m: WmModel, idxs: Seq<u64>)
    requires
        m.pending.len() == 0,
        forall|k: int, l: int| 0 <= k < l < idxs.len() ==> #[trigger] idxs[k] < #[trigger] idxs[l],
        forall|k: int| 0 <= k < idxs.len() ==> #[trigger] idxs[k] > m.done_until,
    ensures
        wm_begin_all(m, idxs).done_until == m.done_until,
        wm_begin_all(m, idxs).last_index == m.last_index,
        wm_begin_all(m, idxs).pending == Seq::new(idxs.len() as nat, |k: int| (idxs[k], 1i64)),
    decreases idxs.len(),
{
    if idxs.len() == 0 {
        assert(wm_begin_all(m, idxs).pending =~= Seq::new(
            idxs.len() as nat,
            |k: int| (idxs[k], 1i64),
        ));
    } else {
        let prefix = idxs.drop_last();
        lemma_wm_begin_run(m, prefix);
        let m1 = wm_begin_all(m, prefix);
        let p = m1.pending;
        let last = idxs.last();
        lemma_wm_pos(p, last);
        assert forall|j: int| 0 <= j < p.len() implies (#[trigger] p[j]).0 < last by {
            assert(p[j] == (prefix[j], 1i64));
            assert(prefix[j] == idxs[j]);
            assert(idxs[j] < idxs[idxs.len() - 1]);
        }
        assert(wm_pos(p, last) == p.len());
        assert(wm_adjust(p, last, 1i64) =~= p.push((last, 1i64)));
        assert(wm_begin_all(m, idxs).pending =~= Seq::new(
            idxs.len() as nat,
            |k: int| (idxs[k], 1i64),
        ));
    }
}

proof fn lemma_wm_done_run(m: WmModel, idxs: Seq<u64>)
    requires
        m.pending == Seq::new(idxs.len() as nat, |k: int| (idxs[k], 1i64)),
        forall|k: int, l: int| 0 <= k < l < idxs.len() ==> #[trigger] idxs[k] < #[trigger] idxs[l],
        forall|k: int| 0 <= k < idxs.len() ==> #[trigger] idxs[k] > m.done_until,
    ensures
        wm_done_all(m, idxs).done_until == (if idxs.len() > 0 {
            idxs.last()
        } else {
            m.done_until
        }),
        wm_done_all(m, idxs).pending.len() == 0,
    decreases idxs.len(),
{
    if idxs.len() > 0 {
        let p = m.pending;
        let first = idxs[0];
        assert(p[0] == (first, 1i64));
        lemma_wm_pos(p, first);
        assert(wm_pos(p, first) == 0);
        let adj = wm_adjust(p, first, -1i64);
        assert(adj =~= p.update(0, (first, 0i64)));
        assert(adj[0].1 == 0);
        let rest = idxs.drop_first();
        let m2 = wm_process(m, first, -1i64);
        assert(m2.pending =~= adj.drop_first()) by {
            assert(wm_advance(m.done_until, adj) == wm_advance(first, adj.drop_first()));
            if adj.drop_first().len() > 0 {
                assert(adj.drop_first()[0] == (idxs[1], 1i64));
            }
        }
        assert(m2.done_until == first) by {
            assert(wm_advance(m.done_until, adj) == wm_advance(first, adj.drop_first()));
            if adj.drop_first().len() > 0 {
                assert(adj.drop_first()[0] == (idxs[1], 1i64));
            }
        }
        assert(m2.pending =~= Seq::new(rest.len() as nat, |k: int| (rest[k], 1i64))) by {
            assert forall|k: int| 0 <= k < rest.len() implies adj.drop_first()[k] == (
                rest[k],
                1i64,
            ) by {
                assert(adj.drop_first()[k] == p[k + 1]);
                assert(rest[k] == idxs[k + 1]);
            }
        }
        lemma_wm_done_run(m2, rest);
        if rest.len() > 0 {
            assert(rest.last() == idxs.last());
        }
    }
}

/// Law: from a quiet watermark, beginning any ascending run of indexes
/// past the mark and then closing them in the same order leaves the
/// mark at exactly the largest index begun, with no open work left.
pub proof fn lemma_balanced_sequence(m: WmModel, idxs: Seq<u64>)
    requires
        wm_wf(m),
        m.pending.len() == 0,
        idxs.len() > 0,
        forall|k: int, l: int| 0 <= k < l < idxs.len() ==> #[trigger] idxs[k] < #[trigger] idxs[l],
        forall|k: int| 0 <= k < idxs.len() ==> #[trigger] idxs[k] > m.done_until,
    ensures
        wm_done_all(wm_begin_all(m, idxs), idxs).done_until == idxs.last(),
        wm_done_all(wm_begin_all(m, idxs), idxs).pending.len() == 0,
{
    lemma_wm_begin_run(m, idxs);
    lemma_wm_done_run(wm_begin_all(m, idxs), idxs);
}

} // verus!
