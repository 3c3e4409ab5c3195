//! The memtable: an ordered map from internal keys to stored values,
//! backed by a write-ahead log. Every record in the map is also in the
//! log, and replaying the log rebuilds the map.

use vstd::prelude::*;

use crate::entry::{Entry, EntryData, META_FIN_TXN};
use crate::kv::{lemma_lex_cmp_antisym, lemma_lex_cmp_eq, lemma_lex_cmp_trans, lex_cmp, spec_parse_ts};
use crate::value::ValueStruct;
use crate::wal::{
    frame_items, frames_bytes, items_view, lemma_wal_scan_frames, plain_entry, wal_scan, LogBuf,
    ScanItem, VLOG_HEADER_SIZE,
};

verus! {

/// A stored value's fields, as mathematics.
#[verifier::ext_equal]
pub ghost struct VsData {
    pub meta: u8,
    pub user_meta: u8,
    pub expires_at: u64,
    pub value: Seq<u8>,
    pub version: u64,
}

/// The fields of a stored value.
pub open spec fn vs_view(v: ValueStruct) -> VsData {
    VsData {
        meta: v.meta,
        user_meta: v.user_meta,
        expires_at: v.expires_at,
        value: v.value@,
        version: v.version,
    }
}

/// The map's content as mathematics: keys and value fields, in key order.
pub open spec fn mem_view(s: Seq<(Vec<u8>, ValueStruct)>) -> Seq<(Seq<u8>, VsData)> {
    Seq::new(s.len(), |i: int| (s[i].0@, vs_view(s[i].1)))
}

/// Entries strictly sorted by key.
pub open spec fn mem_wf(m: Seq<(Seq<u8>, VsData)>) -> bool {
    forall|i: int, j: int|
        0 <= i < j < m.len() ==> lex_cmp((#[trigger] m[i]).0, (#[trigger] m[j]).0)
            == core::cmp::Ordering::Less
}

/// The first position whose key is `key`, or `-1`.
pub open spec fn mem_find(m: Seq<(Seq<u8>, VsData)>, key: Seq<u8>) -> int
    decreases m.len(),
{
    if m.len() == 0 {
        -1
    } else if m[0].0 == key {
        0
    } else {
        let r = mem_find(m.drop_first(), key);
        if r < 0 {
            -1
        } else {
            1 + r
        }
    }
}

/// Whether the map holds `key`.
pub open spec fn mem_has(m: Seq<(Seq<u8>, VsData)>, key: Seq<u8>) -> bool {
    exists|i: int| 0 <= i < m.len() && (#[trigger] m[i]).0 == key
}

/// `mem_find` finds the first occurrence exactly when one exists.
pub proof fn lemma_mem_find(m: Seq<(Seq<u8>, VsData)>, key: Seq<u8>)
    ensures
        mem_has(m, key) ==> {
            let r = mem_find(m, key);
            &&& 0 <= r < m.len()
            &&& m[r].0 == key
            &&& forall|j: int| 0 <= j < r ==> (#[trigger] m[j]).0 != key
        },
        !mem_has(m, key) ==> mem_find(m, key) == -1,
    decreases m.len(),
{
    if m.len() > 0 {
        lemma_mem_find(m.drop_first(), key);
        if m[0].0 != key {
            if mem_has(m, key) {
                let w = choose|i: int| 0 <= i < m.len() && m[i].0 == key;
                assert(m.drop_first()[w - 1].0 == key);
            }
            if mem_has(m.drop_first(), key) {
                let r2 = mem_find(m.drop_first(), key);
                assert(m[r2 + 1].0 == key);
                assert forall|j: int| 0 <= j < r2 + 1 implies (#[trigger] m[j]).0 != key by {
                    if j >= 1 {
                        assert(m.drop_first()[j - 1] == m[j]);
                    }
                }
            }
        }
    }
}

/// The first position whose key does not sort before `key`.
pub open spec fn mem_pos(m: Seq<(Seq<u8>, VsData)>, key: Seq<u8>) -> int
    decreases m.len(),
{
    if m.len() == 0 {
        0
    } else if lex_cmp(m[0].0, key) == core::cmp::Ordering::Less {
        1 + mem_pos(m.drop_first(), key)
    } else {
        0
    }
}

/// `mem_pos` is the first such position.
pub proof fn lemma_mem_pos(m: Seq<(Seq<u8>, VsData)>, key: Seq<u8>)
    ensures
        0 <= mem_pos(m, key) <= m.len(),
        forall|j: int|
            0 <= j < mem_pos(m, key) ==> lex_cmp((#[trigger] m[j]).0, key)
                == core::cmp::Ordering::Less,
        mem_pos(m, key) < m.len() ==> lex_cmp(m[mem_pos(m, key)].0, key)
            != core::cmp::Ordering::Less,
    decreases m.len(),
{
    if m.len() > 0 && lex_cmp(m[0].0, key) == core::cmp::Ordering::Less {
        lemma_mem_pos(m.drop_first(), key);
        let p = mem_pos(m, key);
        assert forall|j: int| 0 <= j < p implies lex_cmp((#[trigger] m[j]).0, key)
            == core::cmp::Ordering::Less by {
            if j >= 1 {
                assert(m.drop_first()[j - 1] == m[j]);
            }
        }
        if p < m.len() {
            assert(m.drop_first()[p - 1] == m[p]);
        }
    }
}

/// Inserting or replacing a key in the map's content, keeping key order.
pub open spec fn spec_mem_insert(m: Seq<(Seq<u8>, VsData)>, key: Seq<u8>, v: VsData) -> Seq<
    (Seq<u8>, VsData),
> {
    if mem_has(m, key) {
        m.update(mem_find(m, key), (key, v))
    } else {
        let p = mem_pos(m, key);
        m.subrange(0, p) + seq![(key, v)] + m.subrange(p, m.len() as int)
    }
}

/// Insertion preserves sortedness.
pub proof fn lemma_mem_insert_wf(m: Seq<(Seq<u8>, VsData)>, key: Seq<u8>, v: VsData)
    requires
        mem_wf(m),
    ensures
        mem_wf(spec_mem_insert(m, key, v)),
{
    lemma_mem_find(m, key);
    lemma_mem_pos(m, key);
    let r = spec_mem_insert(m, key, v);
    if mem_has(m, key) {
        let f = mem_find(m, key);
        assert forall|i: int, j: int|
            0 <= i < j < r.len() implies lex_cmp((#[trigger] r[i]).0, (#[trigger] r[j]).0)
            == core::cmp::Ordering::Less by {
            assert(r[i].0 == m[i].0 && r[j].0 == m[j].0);
        }
    } else {
        let p = mem_pos(m, key);
        assert forall|i: int, j: int|
            0 <= i < j < r.len() implies lex_cmp((#[trigger] r[i]).0, (#[trigger] r[j]).0)
            == core::cmp::Ordering::Less by {
            if j < p {
                assert(r[i].0 == m[i].0 && r[j].0 == m[j].0);
            } else if i < p && j == p {
                assert(r[i].0 == m[i].0 && r[j].0 == key);
            } else if i < p && j > p {
                assert(r[i].0 == m[i].0 && r[j].0 == m[j - 1].0);
            } else if i == p && j > p {
                assert(r[j].0 == m[j - 1].0);
                if j - 1 > p {
                    assert(lex_cmp(m[p].0, m[j - 1].0) == core::cmp::Ordering::Less);
                    if lex_cmp(m[j - 1].0, key) == core::cmp::Ordering::Less {
                        lemma_lex_cmp_trans(m[p].0, m[j - 1].0, key);
                    }
                }
                assert(lex_cmp(m[j - 1].0, key) != core::cmp::Ordering::Less);
                assert(m[j - 1].0 != key) by {
                    if m[j - 1].0 == key {
                        assert(mem_has(m, key));
                    }
                }
                assert(lex_cmp(key, m[j - 1].0) == core::cmp::Ordering::Less) by {
                    lemma_lex_cmp_antisym(key, m[j - 1].0);
                    match lex_cmp(m[j - 1].0, key) {
                        core::cmp::Ordering::Less => {},
                        core::cmp::Ordering::Equal => {
                            lemma_lex_cmp_eq(m[j - 1].0, key);
                        },
                        core::cmp::Ordering::Greater => {},
                    }
                }
            } else {
                assert(r[i].0 == m[i - 1].0 && r[j].0 == m[j - 1].0);
            }
        }
    }
}

/// The map content and maximum version after replaying delivered items in
/// order: every item inserted under its key, the version taken from the
/// item's key.
pub open spec fn spec_mem_replay(items: Seq<ScanItem>) -> (Seq<(Seq<u8>, VsData)>, u64)
    decreases items.len(),
{
    if items.len() == 0 {
        (Seq::empty(), 0)
    } else {
        let (m, mv) = spec_mem_replay(items.drop_last());
        let e = items.last().0;
        let ts = spec_parse_ts(e.key);
        let m2 = spec_mem_insert(
            m,
            e.key,
            VsData {
                meta: e.meta,
                user_meta: e.user_meta,
                expires_at: e.expires_at,
                value: e.value,
                version: 0,
            },
        );
        (m2, if ts > mv {
            ts
        } else {
            mv
        })
    }
}

/// A memtable: the map, its write-ahead log, and the largest version seen.
pub struct MemTable {
    pub entries: Vec<(Vec<u8>, ValueStruct)>,
    pub wal: LogBuf,
    pub max_version: u64,
}

impl MemTable {
    /// A fresh memtable over a fresh log.
    pub fn new(fid: u32) -> (r: MemTable)
        ensures
            mem_view(r.entries@) == Seq::<(Seq<u8>, VsData)>::empty(),
            mem_wf(mem_view(r.entries@)),
            r.max_version == 0,
            r.wal.fid == fid,
            r.wal.write_at == VLOG_HEADER_SIZE,
    {
        let r = MemTable { entries: Vec::new(), wal: LogBuf::bootstrap(fid), max_version: 0 };
        proof {
            assert(mem_view(r.entries@) =~= Seq::<(Seq<u8>, VsData)>::empty());
        }
        r
    }

    /// Number of records in the map.
    pub fn len(&self) -> (r: usize)
        ensures
            r == self.entries@.len(),
    {
        self.entries.len()
    }

    /// Whether the map holds no records.
    pub fn is_empty(&self) -> (r: bool)
        ensures
            r == (self.entries@.len() == 0),
    {
        self.entries.len() == 0
    }

    /// The largest version of any key ever inserted.
    pub fn max_version(&self) -> (r: u64)
        ensures
            r == self.max_version,
    {
        self.max_version
    }

    /// Whether this memtable must be swapped out: its log has reached the
    /// configured size.
    pub fn is_full(&self, mem_table_size: usize) -> (r: bool)
        ensures
            r == (self.wal.write_at >= mem_table_size),
    {
        self.wal.write_at >= mem_table_size
    }

    /// The stored value of an exact internal key, if any.
    pub fn get(&self, key: &[u8]) -> (r: Option<&ValueStruct>)
        ensures
            match r {
                Some(vs) => {
                    &&& mem_has(mem_view(self.entries@), key@)
                    &&& vs_view(*vs) == mem_view(self.entries@)[mem_find(
                        mem_view(self.entries@),
                        key@,
                    )].1
                },
                None => !mem_has(mem_view(self.entries@), key@),
            },
    {
        let n = self.entries.len();
        let mut i: usize = 0;
        while i < n
            invariant
                n == self.entries@.len(),
                i <= n,
                forall|j: int| 0 <= j < i ==> (#[trigger] self.entries@[j]).0@ != key@,
            decreases n - i,
        {
            if eq_vec_slice(&self.entries[i].0, key) {
                proof {
                    let m = mem_view(self.entries@);
                    lemma_mem_find(m, key@);
                    let f = mem_find(m, key@);
                    assert(m[i as int].0 == self.entries@[i as int].0@);
                    assert(m[i as int].0 == key@);
                    assert(mem_has(m, key@));
                    if f < i as int {
                        assert(m[f].0 == self.entries@[f].0@);
                        assert(m[f].0 != key@);
                    }
                    if (i as int) < f {
                        assert(m[i as int].0 != key@);
                    }
                    assert(f == i as int);
                    assert(vs_view(self.entries@[i as int].1) == m[i as int].1);
                }
                return Some(&self.entries[i].1);
            }
            i = i + 1;
        }
        proof {
            lemma_mem_find(mem_view(self.entries@), key@);
            if mem_has(mem_view(self.entries@), key@) {
                let f = mem_find(mem_view(self.entries@), key@);
                assert(mem_view(self.entries@)[f].0 == self.entries@[f].0@);
            }
        }
        None
    }

    /// The newest stored version of `user_key` at or below `read_ts`, if
    /// any. Within one user key, newer versions sort first, so the first
    /// visible record of the key's group is the one a snapshot reads.
    pub fn get_versioned(&self, user_key: &[u8], read_ts: u64) -> (r: Option<&ValueStruct>)
        requires
            mem_wf(mem_view(self.entries@)),
        ensures
            match r {
                Some(vs) => {
                    let m = mem_view(self.entries@);
                    let i = visible_index(m, user_key@, read_ts);
                    &&& 0 <= i < m.len()
                    &&& is_visible(m[i].0, user_key@, read_ts)
                    &&& vs_view(*vs) == m[i].1
                    &&& forall|j: int|
                        0 <= j < i ==> !is_visible((#[trigger] m[j]).0, user_key@, read_ts)
                },
                None => forall|j: int|
                    0 <= j < mem_view(self.entries@).len() ==> !is_visible(
                        (#[trigger] mem_view(self.entries@)[j]).0,
                        user_key@,
                        read_ts,
                    ),
            },
    {
        let n = self.entries.len();
        let mut i: usize = 0;
        while i < n
            invariant
                n == self.entries@.len(),
                i <= n,
                forall|j: int|
                    0 <= j < i ==> !is_visible(
                        (#[trigger] mem_view(self.entries@)[j]).0,
                        user_key@,
                        read_ts,
                    ),
            decreases n - i,
        {
            let k = &self.entries[i].0;
            proof {
                assert(mem_view(self.entries@)[i as int].0 == self.entries@[i as int].0@);
            }
            let klen = k.len();
            if klen >= 8 && klen - 8 == user_key.len() && prefix_matches(k, user_key)
                && crate::kv::parse_ts(k) <= read_ts {
                proof {
                    let m = mem_view(self.entries@);
                    lemma_visible_index(m, user_key@, read_ts);
                    assert(is_visible(m[i as int].0, user_key@, read_ts));
                    let f = visible_index(m, user_key@, read_ts);
                    if f < i as int {
                        assert(!is_visible(m[f].0, user_key@, read_ts));
                    }
                    if (i as int) < f {
                        assert(!is_visible(m[i as int].0, user_key@, read_ts));
                    }
                    assert(f == i as int);
                    assert(vs_view(self.entries@[i as int].1) == m[i as int].1);
                }
                return Some(&self.entries[i].1);
            }
            i = i + 1;
        }
        None
    }

    /// Appends the entry to the write-ahead log; then, unless it is a
    /// transaction end marker, stores it in the map and raises the largest
    /// version seen to the key's version.
    pub fn put(&mut self, ent: &Entry)
        requires
            ent.key@.len() <= 0x10000,
            ent.value@.len() <= 0x80000000,
            old(self).wal.write_at <= old(self).wal.data@.len(),
            old(self).wal.data@.len() + ent.key@.len() + ent.value@.len() < 0xf000_0000,
            mem_wf(mem_view(old(self).entries@)),
        ensures
            mem_wf(mem_view(final(self).entries@)),
            final(self).wal.fid == old(self).wal.fid,
            final(self).wal.write_at == old(self).wal.write_at + crate::entry::entry_frame(
                ent.meta,
                ent.user_meta,
                ent.expires_at,
                ent.key@,
                ent.value@,
            ).len(),
            final(self).wal.data@.subrange(
                old(self).wal.write_at as int,
                final(self).wal.write_at as int,
            ) == crate::entry::entry_frame(
                ent.meta,
                ent.user_meta,
                ent.expires_at,
                ent.key@,
                ent.value@,
            ),
            final(self).wal.data@.subrange(0, old(self).wal.write_at as int) == old(
                self,
            ).wal.data@.subrange(0, old(self).wal.write_at as int),
            final(self).wal.data@.len() == if old(self).wal.data@.len() >= final(self).wal.write_at
                + crate::entry::MAX_HEADER_SIZE {
                old(self).wal.data@.len() as int
            } else {
                final(self).wal.write_at + crate::entry::MAX_HEADER_SIZE
            },
            final(self).wal.data@.len() >= final(self).wal.write_at
                + crate::entry::MAX_HEADER_SIZE,
            forall|k: int|
                final(self).wal.write_at <= k < final(self).wal.write_at
                    + crate::entry::MAX_HEADER_SIZE ==> final(self).wal.data@[k] == 0,
            if ent.meta & META_FIN_TXN != 0 {
                final(self).entries == old(self).entries && final(self).max_version == old(
                    self,
                ).max_version
            } else {
                mem_view(final(self).entries@) == spec_mem_insert(
                    mem_view(old(self).entries@),
                    ent.key@,
                    VsData {
                        meta: ent.meta,
                        user_meta: ent.user_meta,
                        expires_at: ent.expires_at,
                        value: ent.value@,
                        version: ent.version,
                    },
                ) && final(self).max_version == if spec_parse_ts(ent.key@) > old(self).max_version {
                    spec_parse_ts(ent.key@)
                } else {
                    old(self).max_version
                }
            },
    {
        let _ = self.wal.write_entry(ent);
        if ent.meta & META_FIN_TXN != 0 {
            return ;
        }
        let vs = ValueStruct {
            meta: ent.meta,
            user_meta: ent.user_meta,
            expires_at: ent.expires_at,
            value: crate::txn::clone_bytes(&ent.value),
            version: ent.version,
        };
        self.insert_vs(crate::txn::clone_bytes(&ent.key), vs);
        let ts = crate::kv::parse_ts(&ent.key);
        if ts > self.max_version {
            self.max_version = ts;
        }
    }

    /// Stores one key and value in the map, replacing an equal key or
    /// inserting at the key's sorted position.
    fn insert_vs(&mut self, key: Vec<u8>, vs: ValueStruct)
        requires
            mem_wf(mem_view(old(self).entries@)),
        ensures
            mem_view(final(self).entries@) == spec_mem_insert(
                mem_view(old(self).entries@),
                key@,
                vs_view(vs),
            ),
            mem_wf(mem_view(final(self).entries@)),
            final(self).wal == old(self).wal,
            final(self).max_version == old(self).max_version,
    {
        let n = self.entries.len();
        let mut i: usize = 0;
        while i < n
            invariant
                n == self.entries@.len(),
                i <= n,
                self == old(self),
                mem_wf(mem_view(old(self).entries@)),
                forall|j: int|
                    0 <= j < i ==> lex_cmp((#[trigger] mem_view(self.entries@)[j]).0, key@)
                        == core::cmp::Ordering::Less,
            decreases n - i,
        {
            match crate::kv::cmp_bytes(self.entries[i].0.as_slice(), key.as_slice()) {
                core::cmp::Ordering::Less => {
                    proof {
                        assert(mem_view(self.entries@)[i as int].0 == self.entries@[i as int].0@);
                    }
                    i = i + 1;
                },
                core::cmp::Ordering::Equal => {
                    proof {
                        let m = mem_view(old(self).entries@);
                        lemma_mem_find(m, key@);
                        lemma_mem_pos(m, key@);
                        lemma_mem_insert_wf(m, key@, vs_view(vs));
                        assert(m[i as int].0 == self.entries@[i as int].0@);
                        lemma_lex_cmp_eq(m[i as int].0, key@);
                        let f = mem_find(m, key@);
                        assert(mem_has(m, key@));
                        if f < i as int {
                            assert(lex_cmp(m[f].0, key@) == core::cmp::Ordering::Less);
                            crate::kv::lemma_lex_cmp_refl(key@);
                            assert(m[f].0 == key@);
                            assert(false);
                        }
                        if (i as int) < f {
                            assert(m[i as int].0 != key@);
                        }
                        assert(f == i as int);
                    }
                    self.entries.set(i, (key, vs));
                    proof {
                        assert(mem_view(self.entries@) =~~= spec_mem_insert(
                            mem_view(old(self).entries@),
                            key@,
                            vs_view(vs),
                        ));
                    }
                    return ;
                },
                core::cmp::Ordering::Greater => {
                    proof {
                        let m = mem_view(old(self).entries@);
                        lemma_mem_find(m, key@);
                        lemma_mem_pos(m, key@);
                        lemma_mem_insert_wf(m, key@, vs_view(vs));
                        assert(m[i as int].0 == self.entries@[i as int].0@);
                        lemma_lex_cmp_antisym(m[i as int].0, key@);
                        let p = mem_pos(m, key@);
                        if p < i as int {
                            assert(lex_cmp(m[p].0, key@) == core::cmp::Ordering::Less);
                        }
                        if (i as int) < p {
                            assert(lex_cmp(m[i as int].0, key@) == core::cmp::Ordering::Less);
                        }
                        assert(p == i as int);
                        if mem_has(m, key@) {
                            let f = mem_find(m, key@);
                            if f < i as int {
                                assert(lex_cmp(m[f].0, key@) == core::cmp::Ordering::Less);
                                crate::kv::lemma_lex_cmp_refl(key@);
                            } else {
                                assert(lex_cmp(m[f].0, key@) != core::cmp::Ordering::Less) by {
                                    crate::kv::lemma_lex_cmp_refl(key@);
                                    if f > i as int {
                                        assert(lex_cmp(m[i as int].0, m[f].0)
                                            == core::cmp::Ordering::Less);
                                        lemma_lex_cmp_antisym(m[f].0, m[i as int].0);
                                        if lex_cmp(m[f].0, key@) == core::cmp::Ordering::Less {
                                            lemma_lex_cmp_trans(m[i as int].0, m[f].0, key@);
                                        }
                                    }
                                }
                                assert(lex_cmp(key@, m[f].0) != core::cmp::Ordering::Less) by {
                                    crate::kv::lemma_lex_cmp_refl(key@);
                                }
                                assert(false) by {
                                    crate::kv::lemma_lex_cmp_refl(key@);
                                    assert(m[f].0 == key@);
                                }
                            }
                        }
                    }
                    self.entries.insert(i, (key, vs));
                    proof {
                        assert(mem_view(self.entries@) =~~= spec_mem_insert(
                            mem_view(old(self).entries@),
                            key@,
                            vs_view(vs),
                        ));
                    }
                    return ;
                },
            }
        }
        proof {
            let m = mem_view(old(self).entries@);
            lemma_mem_find(m, key@);
            lemma_mem_pos(m, key@);
            lemma_mem_insert_wf(m, key@, vs_view(vs));
            let p = mem_pos(m, key@);
            if p < n as int {
                assert(lex_cmp(m[p].0, key@) == core::cmp::Ordering::Less);
            }
            assert(p == n as int);
            if mem_has(m, key@) {
                let f = mem_find(m, key@);
                assert(lex_cmp(m[f].0, key@) == core::cmp::Ordering::Less);
                crate::kv::lemma_lex_cmp_refl(key@);
                assert(false);
            }
        }
        self.entries.push((key, vs));
        proof {
            assert(mem_view(self.entries@) =~~= spec_mem_insert(
                mem_view(old(self).entries@),
                key@,
                vs_view(vs),
            ));
        }
    }

    /// Rebuilds a memtable from its log's bytes: replays the frames, stores
    /// every delivered entry, remembers the largest version among their
    /// keys, and truncates the log to the valid end.
    pub fn open(data: Vec<u8>, fid: u32) -> (r: MemTable)
        requires
            VLOG_HEADER_SIZE <= data@.len() < 0xf000_0000,
        ensures
            ({
                let (items, valid_end) = wal_scan(
                    data@,
                    VLOG_HEADER_SIZE as int,
                    0,
                    Seq::empty(),
                    Seq::empty(),
                    VLOG_HEADER_SIZE as int,
                );
                let (m, mv) = spec_mem_replay(items);
                &&& mem_view(r.entries@) == m
                &&& r.max_version == mv
                &&& mem_wf(mem_view(r.entries@))
                &&& r.wal.fid == fid
                &&& r.wal.write_at as int == valid_end
                &&& r.wal.data@ == data@.take(valid_end)
            }),
    {
        let ghost dv = data@;
        let lb = LogBuf::from_bytes(data, fid, VLOG_HEADER_SIZE as usize);
        let (items, valid_end) = lb.iterate(0);
        let mut mt = MemTable { entries: Vec::new(), wal: lb, max_version: 0 };
        proof {
            assert(mem_view(mt.entries@) =~= Seq::<(Seq<u8>, VsData)>::empty());
            assert(items_view(items@).take(0) =~= Seq::<ScanItem>::empty());
        }
        let ghost iv = items_view(items@);
        let n = items.len();
        let mut i: usize = 0;
        while i < n
            invariant
                n == items@.len(),
                i <= n,
                iv == items_view(items@),
                mem_wf(mem_view(mt.entries@)),
                (mem_view(mt.entries@), mt.max_version) == spec_mem_replay(iv.take(i as int)),
                mt.wal.fid == fid,
                mt.wal.write_at as int == VLOG_HEADER_SIZE,
                mt.wal.data@ == dv,
            decreases n - i,
        {
            let vs = ValueStruct {
                meta: items[i].0.meta,
                user_meta: items[i].0.user_meta,
                expires_at: items[i].0.expires_at,
                value: crate::txn::clone_bytes(&items[i].0.value),
                version: 0,
            };
            let k = crate::txn::clone_bytes(&items[i].0.key);
            proof {
                assert(iv.take(i + 1).drop_last() =~= iv.take(i as int));
                assert(iv.take(i + 1).last() == iv[i as int]);
                assert(iv[i as int] == (
                    items@[i as int].0.parsed(),
                    items@[i as int].0.offset as int,
                    items@[i as int].1.len as int,
                ));
            }
            mt.insert_vs(k, vs);
            let ts = crate::kv::parse_ts(&items[i].0.key);
            if ts > mt.max_version {
                mt.max_version = ts;
            }
            i = i + 1;
        }
        proof {
            assert(iv.take(n as int) =~= iv);
        }
        mt.wal.truncate(valid_end as usize);
        mt
    }
}

/// Law of recovery: when a memtable's log holds the complete frames of
/// standalone entries after its header, and then any tail at which
/// decoding stops — a torn frame, a corrupted one, or the zeroed
/// next-entry region — replay delivers exactly those entries in order,
/// and the valid end is the end of the last complete frame. With
/// `MemTable::open`'s contract, a reopened memtable therefore holds
/// exactly those entries, applied in order, and its log is truncated to
/// the last complete frame: writes framed fully before a crash survive
/// it, and only the torn tail is lost.
pub proof fn lemma_memtable_recovery(es: Seq<EntryData>, s: Seq<u8>)
    requires
        forall|i: int| 0 <= i < es.len() ==> plain_entry(#[trigger] es[i]),
        VLOG_HEADER_SIZE + frames_bytes(es).len() <= s.len(),
        s.subrange(
            VLOG_HEADER_SIZE as int,
            VLOG_HEADER_SIZE + frames_bytes(es).len() as int,
        ) == frames_bytes(es),
        ({
            let end = VLOG_HEADER_SIZE + frames_bytes(es).len() as int;
            crate::entry::spec_decode_entry(s, end) is None || crate::entry::spec_decode_entry(
                s,
                end,
            ).unwrap().0.key.len() == 0
        }),
    ensures
        wal_scan(
            s,
            VLOG_HEADER_SIZE as int,
            0,
            Seq::empty(),
            Seq::empty(),
            VLOG_HEADER_SIZE as int,
        ) == (
            frame_items(es, VLOG_HEADER_SIZE as int),
            VLOG_HEADER_SIZE + frames_bytes(es).len() as int,
        ),
{
    lemma_wal_scan_frames(es, s, VLOG_HEADER_SIZE as int, Seq::empty());
    assert(Seq::<ScanItem>::empty() + frame_items(es, VLOG_HEADER_SIZE as int) =~= frame_items(
        es,
        VLOG_HEADER_SIZE as int,
    ));
}

/// Whether stored key `k` is a version of `user_key` visible at
/// `read_ts`: the user key followed by version bytes, the version at or
/// below the snapshot.
pub open spec fn is_visible(k: Seq<u8>, user_key: Seq<u8>, read_ts: u64) -> bool {
    &&& k.len() == user_key.len() + 8
    &&& k.take(user_key.len() as int) == user_key
    &&& spec_parse_ts(k) <= read_ts
}

/// The first position holding a visible version of `user_key`, or `-1`.
pub open spec fn visible_index(m: Seq<(Seq<u8>, VsData)>, user_key: Seq<u8>, read_ts: u64) -> int
    decreases m.len(),
{
    if m.len() == 0 {
        -1
    } else if is_visible(m[0].0, user_key, read_ts) {
        0
    } else {
        let r = visible_index(m.drop_first(), user_key, read_ts);
        if r < 0 {
            -1
        } else {
            1 + r
        }
    }
}

/// `visible_index` finds the first visible version exactly when one
/// exists.
pub proof fn lemma_visible_index(m: Seq<(Seq<u8>, VsData)>, user_key: Seq<u8>, read_ts: u64)
    ensures
        (exists|i: int| 0 <= i < m.len() && is_visible((#[trigger] m[i]).0, user_key, read_ts))
            ==> {
            let r = visible_index(m, user_key, read_ts);
            &&& 0 <= r < m.len()
            &&& is_visible(m[r].0, user_key, read_ts)
            &&& forall|j: int| 0 <= j < r ==> !is_visible((#[trigger] m[j]).0, user_key, read_ts)
        },
    decreases m.len(),
{
    if m.len() > 0 {
        lemma_visible_index(m.drop_first(), user_key, read_ts);
        if !is_visible(m[0].0, user_key, read_ts) {
            if exists|i: int|
                0 <= i < m.len() && is_visible((#[trigger] m[i]).0, user_key, read_ts) {
                let w = choose|i: int|
                    0 <= i < m.len() && is_visible((#[trigger] m[i]).0, user_key, read_ts);
                assert(m.drop_first()[w - 1] == m[w]);
                assert(exists|i: int|
                    0 <= i < m.drop_first().len() && is_visible(
                        (#[trigger] m.drop_first()[i]).0,
                        user_key,
                        read_ts,
                    ));
                let r2 = visible_index(m.drop_first(), user_key, read_ts);
                assert(m[r2 + 1] == m.drop_first()[r2]);
                assert forall|j: int| 0 <= j < r2 + 1 implies !is_visible(
                    (#[trigger] m[j]).0,
                    user_key,
                    read_ts,
                ) by {
                    if j >= 1 {
                        assert(m.drop_first()[j - 1] == m[j]);
                    }
                }
            }
        }
    }
}

/// Whether the first bytes of `k` are exactly `user_key`.
fn prefix_matches(k: &Vec<u8>, user_key: &[u8]) -> (r: bool)
    requires
        k@.len() >= user_key@.len(),
    ensures
        r == (k@.take(user_key@.len() as int) == user_key@),
{
    let n = user_key.len();
    let mut i: usize = 0;
    while i < n
        invariant
            n == user_key@.len(),
            n <= k@.len(),
            i <= n,
            forall|j: int| 0 <= j < i ==> k@[j] == user_key@[j],
        decreases n - i,
    {
        if k[i] != user_key[i] {
            proof {
                assert(k@.take(n as int)[i as int] == k@[i as int]);
            }
            return false;
        }
        i = i + 1;
    }
    proof {
        assert(k@.take(n as int) =~= user_key@);
    }
    true
}

/// Compares a byte vector with a byte slice for equality.
fn eq_vec_slice(a: &Vec<u8>, b: &[u8]) -> (r: bool)
    ensures
        r == (a@ == b@),
{
    if a.len() != b.len() {
        return false;
    }
    let n = a.len();
    let mut i: usize = 0;
    while i < n
        invariant
            n == a@.len() == b@.len(),
            i <= n,
            forall|j: int| 0 <= j < i ==> a@[j] == b@[j],
        decreases n - i,
    {
        if a[i] != b[i] {
            return false;
        }
        i = i + 1;
    }
    proof {
        assert(a@ =~= b@);
    }
    true
}

} // verus!
