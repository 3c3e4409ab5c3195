//! Transactions: pending writes, conflict-key bookkeeping, size limits and
//! the validations every update runs through. The oracle issues the
//! timestamps; the write pipeline persists what `commit_entries` hands it.

use vstd::prelude::*;

use vstd::wrapping::u64_specs;

use crate::codec::{dec_bytes, u64_of_be, u64_to_dec};
use crate::entry::{Entry, META_FIN_TXN, META_TXN};
use crate::error::Error;
use crate::kv::{internal_key, key_with_ts};

verus! {

/// The reserved key prefix of internal bookkeeping keys.
pub open spec fn badger_prefix() -> Seq<u8> {
    seq![0x21u8, 0x62u8, 0x61u8, 0x64u8, 0x67u8, 0x65u8, 0x72u8, 0x21u8]
}

/// The key of a transaction's end marker: the reserved prefix and "txn".
pub open spec fn txn_key() -> Seq<u8> {
    badger_prefix() + seq![0x74u8, 0x78u8, 0x6eu8]
}

/// Largest user key the store accepts, in bytes.
pub const MAX_KEY_SIZE: usize = 65000;

/// The 64-bit FNV-1a hash, used to fingerprint keys for conflict
/// detection.
pub open spec fn fnv_step(h: u64, b: u8) -> u64 {
    u64_specs::wrapping_mul(h ^ (b as u64), 0x100000001b3)
}

/// The hash state after the first `n` bytes of `s`.
pub open spec fn fnv_rec(s: Seq<u8>, n: int) -> u64
    decreases n,
{
    if n <= 0 {
        0xcbf29ce484222325
    } else {
        fnv_step(fnv_rec(s, n - 1), s[n - 1])
    }
}

/// The conflict fingerprint of a key.
pub open spec fn spec_mem_hash(s: Seq<u8>) -> u64 {
    fnv_rec(s, s.len() as int)
}

/// Computes the conflict fingerprint of a key.
pub fn mem_hash(data: &[u8]) -> (r: u64)
    ensures
        r == spec_mem_hash(data@),
{
    let mut h: u64 = 0xcbf29ce484222325;
    let n = data.len();
    let mut i: usize = 0;
    while i < n
        invariant
            n == data@.len(),
            i <= n,
            h == fnv_rec(data@, i as int),
        decreases n - i,
    {
        h = (h ^ (data[i] as u64)).wrapping_mul(0x100000001b3);
        i = i + 1;
    }
    h
}

/// A value a read hands back: the key, the resolved value (or the raw
/// pointer bytes), and the version observed.
#[derive(Debug)]
pub struct Item {
    pub key: Vec<u8>,
    pub vptr: Vec<u8>,
    pub value: Vec<u8>,
    pub version: u64,
    pub expires_at: u64,
}

impl Item {
    /// The item's key.
    pub fn key(&self) -> (r: &Vec<u8>)
        ensures
            r@ == self.key@,
    {
        &self.key
    }

    /// The item's value bytes.
    pub fn value(&self) -> (r: &Vec<u8>)
        ensures
            r@ == self.value@,
    {
        &self.value
    }

    /// The version the read observed.
    pub fn version(&self) -> (r: u64)
        ensures
            r == self.version,
    {
        self.version
    }

    /// The expiry of the entry read.
    pub fn expires_at(&self) -> (r: u64)
        ensures
            r == self.expires_at,
    {
        self.expires_at
    }
}

/// Whether `key` starts with the reserved prefix.
pub open spec fn has_badger_prefix(key: Seq<u8>) -> bool {
    key.len() >= 8 && key.subrange(0, 8) == badger_prefix()
}

/// Whether `key` falls into a banned namespace: namespace banning is on,
/// the key is long enough to carry a namespace id at the configured
/// offset, and that id is banned.
pub open spec fn spec_is_banned(namespace_offset: i64, banned: Seq<u64>, key: Seq<u8>) -> bool {
    &&& namespace_offset >= 0
    &&& key.len() >= namespace_offset + 8
    &&& banned.contains(u64_of_be(key.subrange(namespace_offset as int, namespace_offset + 8)))
}

/// Checks a key against the banned namespaces.
pub fn is_banned(namespace_offset: i64, banned: &Vec<u64>, key: &[u8]) -> (r: bool)
    requires
        key@.len() < 0x10000000,
        namespace_offset < 0x10000000,
    ensures
        r == spec_is_banned(namespace_offset, banned@, key@),
{
    if namespace_offset < 0 {
        return false;
    }
    let off = namespace_offset as usize;
    if key.len() < off + 8 {
        return false;
    }
    let num = crate::codec::read_u64_be(key, off);
    proof {
        assert(key@.subrange(off as int, off + 8) =~= key@.subrange(
            namespace_offset as int,
            namespace_offset + 8,
        ));
    }
    let mut i: usize = 0;
    while i < banned.len()
        invariant
            i <= banned@.len(),
            namespace_offset >= 0,
            key@.len() >= namespace_offset + 8,
            num == u64_of_be(key@.subrange(namespace_offset as int, namespace_offset + 8)),
            forall|j: int| 0 <= j < i ==> banned@[j] != num,
        decreases banned@.len() - i,
    {
        if banned[i] == num {
            proof {
                assert(banned@[i as int] == num);
            }
            return true;
        }
        i = i + 1;
    }
    false
}

/// The first pending-write position whose key is `key`, or `-1`.
pub open spec fn pending_index(s: Seq<(Vec<u8>, Entry)>, key: Seq<u8>) -> int
    decreases s.len(),
{
    if s.len() == 0 {
        -1
    } else if s[0].0@ == key {
        0
    } else {
        let r = pending_index(s.drop_first(), key);
        if r < 0 {
            -1
        } else {
            1 + r
        }
    }
}

/// Whether some pending write has this key.
pub open spec fn has_pending(s: Seq<(Vec<u8>, Entry)>, key: Seq<u8>) -> bool {
    exists|i: int| 0 <= i < s.len() && (#[trigger] s[i]).0@ == key
}

/// `pending_index` finds the first occurrence exactly when one exists.
pub proof fn lemma_pending_index(s: Seq<(Vec<u8>, Entry)>, key: Seq<u8>)
    ensures
        has_pending(s, key) ==> {
            let r = pending_index(s, key);
            &&& 0 <= r < s.len()
            &&& s[r].0@ == key
            &&& forall|j: int| 0 <= j < r ==> (#[trigger] s[j]).0@ != key
        },
        !has_pending(s, key) ==> pending_index(s, key) == -1,
    decreases s.len(),
{
    if s.len() > 0 {
        lemma_pending_index(s.drop_first(), key);
        if s[0].0@ != key {
            if has_pending(s, key) {
                let w = choose|i: int| 0 <= i < s.len() && s[i].0@ == key;
                assert(s.drop_first()[w - 1].0@ == key);
            }
            if has_pending(s.drop_first(), key) {
                let r2 = pending_index(s.drop_first(), key);
                assert(s[r2 + 1].0@ == key);
                assert forall|j: int| 0 <= j < r2 + 1 implies (#[trigger] s[j]).0@ != key by {
                    if j >= 1 {
                        assert(s.drop_first()[j - 1] == s[j]);
                    }
                }
            }
        }
    }
}

/// A transaction: its snapshot timestamp, its buffered writes, the keys it
/// read and wrote (as fingerprints), its size budget, and the limits it
/// was opened with.
pub struct Txn {
    pub read_ts: u64,
    pub size: u64,
    pub count: u64,
    pub conflict_keys: Vec<u64>,
    pub reads: Vec<u64>,
    pub pending_writes: Vec<(Vec<u8>, Entry)>,
    pub discarded: bool,
    pub done_read: bool,
    pub update: bool,
    pub detect_conflicts: bool,
    pub value_log_file_size: usize,
    pub max_batch_size: u64,
    pub value_threshold: u32,
}

/// The size a modification would charge, and the threshold the stored
/// entry ends up with.
pub open spec fn spec_entry_threshold(e: Entry, default_threshold: u32) -> u32 {
    if e.value_threshold == 0 {
        default_threshold
    } else {
        e.value_threshold
    }
}

/// The estimated size of a stored entry: the inline value or a value
/// pointer, plus key and meta bytes.
pub open spec fn spec_estimate(e: Entry, default_threshold: u32) -> int {
    if e.value@.len() < spec_entry_threshold(e, default_threshold) {
        (e.key@.len() + e.value@.len() + 2) as int
    } else {
        (e.key@.len() + 14) as int
    }
}

/// The first refusal a modification with entry `e` runs into, in the
/// order the checks run; `None` when the write is accepted.
pub open spec fn spec_modify_check(
    t: Txn,
    e: Entry,
    namespace_offset: i64,
    banned: Seq<u64>,
) -> Option<Error> {
    if !t.update {
        Some(Error::ReadOnlyTxn)
    } else if t.discarded {
        Some(Error::DiscardedTxn)
    } else if e.key@.len() == 0 {
        Some(Error::EmptyKey)
    } else if has_badger_prefix(e.key@) {
        Some(Error::InvalidKey)
    } else if e.key@.len() > MAX_KEY_SIZE {
        Some(Error::KeyTooBig)
    } else if e.value@.len() > t.value_log_file_size {
        Some(Error::ValueTooBig)
    } else if spec_is_banned(namespace_offset, banned, e.key@) {
        Some(Error::BannedKey)
    } else if t.size + spec_estimate(e, t.value_threshold) + 10 >= t.max_batch_size {
        Some(Error::TxnTooBig)
    } else {
        None
    }
}

/// A transaction's bookkeeping stays within its limits.
pub open spec fn txn_wf(t: Txn) -> bool {
    &&& t.size <= t.max_batch_size
    &&& t.max_batch_size < 0x1000_0000_0000_0000
    &&& t.value_log_file_size < 0x8000_0000
}

impl Txn {
    /// A fresh transaction at `read_ts`, pre-charged for its end marker.
    pub fn new(
        read_ts: u64,
        update: bool,
        detect_conflicts: bool,
        value_log_file_size: usize,
        max_batch_size: u64,
        value_threshold: u32,
    ) -> (r: Txn)
        requires
            max_batch_size >= 21,
            max_batch_size < 0x1000_0000_0000_0000,
            value_log_file_size < 0x8000_0000,
        ensures
            r.read_ts == read_ts,
            r.size == 21,
            r.count == 1,
            r.pending_writes@.len() == 0,
            r.conflict_keys@.len() == 0,
            r.reads@.len() == 0,
            !r.discarded,
            !r.done_read,
            r.update == update,
            r.detect_conflicts == detect_conflicts,
            r.value_log_file_size == value_log_file_size,
            r.max_batch_size == max_batch_size,
            r.value_threshold == value_threshold,
            txn_wf(r),
    {
        Txn {
            read_ts,
            size: 21,
            count: 1,
            conflict_keys: Vec::new(),
            reads: Vec::new(),
            pending_writes: Vec::new(),
            discarded: false,
            done_read: false,
            update,
            detect_conflicts,
            value_log_file_size,
            max_batch_size,
            value_threshold,
        }
    }

    /// The snapshot timestamp this transaction reads at.
    pub fn read_ts(&self) -> (r: u64)
        ensures
            r == self.read_ts,
    {
        self.read_ts
    }

    /// Buffers one write. Refused, leaving the transaction unchanged, with
    /// exactly the first failing check's error; accepted writes replace an
    /// earlier pending write to the same key, charge the size budget, and
    /// record the key's fingerprint when conflict detection is on.
    pub fn modify(&mut self, e: Entry, namespace_offset: i64, banned: &Vec<u64>) -> (r: Result<
        (),
        Error,
    >)
        requires
            txn_wf(*old(self)),
            old(self).count < 0xffff_ffff_ffff_ffff,
            namespace_offset < 0x10000000,
        ensures
            txn_wf(*final(self)),
            match r {
                Ok(()) => {
                    &&& spec_modify_check(*old(self), e, namespace_offset, banned@) is None
                    &&& final(self).count == old(self).count + 1
                    &&& final(self).size == old(self).size + spec_estimate(
                        e,
                        old(self).value_threshold,
                    ) + 10
                    &&& ({
                        let stored = Entry {
                            value_threshold: spec_entry_threshold(e, old(self).value_threshold),
                            ..e
                        };
                        let p = pending_index(old(self).pending_writes@, e.key@);
                        if has_pending(old(self).pending_writes@, e.key@) {
                            final(self).pending_writes@ == old(self).pending_writes@.update(
                                p,
                                (final(self).pending_writes@[p].0, stored),
                            ) && final(self).pending_writes@[p].0@ == e.key@
                        } else {
                            final(self).pending_writes@ == old(self).pending_writes@.push(
                                (final(self).pending_writes@.last().0, stored),
                            ) && final(self).pending_writes@.last().0@ == e.key@
                        }
                    })
                    &&& final(self).conflict_keys@ == if old(self).detect_conflicts {
                        old(self).conflict_keys@.push(spec_mem_hash(e.key@))
                    } else {
                        old(self).conflict_keys@
                    }
                    &&& final(self).reads == old(self).reads
                    &&& final(self).read_ts == old(self).read_ts
                    &&& final(self).discarded == old(self).discarded
                },
                Err(err) => {
                    &&& Some(err) == spec_modify_check(*old(self), e, namespace_offset, banned@)
                    &&& *final(self) == *old(self)
                },
            },
    {
        if !self.update {
            return Err(Error::ReadOnlyTxn);
        }
        if self.discarded {
            return Err(Error::DiscardedTxn);
        }
        let klen = e.key.len();
        if klen == 0 {
            return Err(Error::EmptyKey);
        }
        if klen >= 8 && e.key[0] == 0x21 && e.key[1] == 0x62 && e.key[2] == 0x61 && e.key[3]
            == 0x64 && e.key[4] == 0x67 && e.key[5] == 0x65 && e.key[6] == 0x72 && e.key[7]
            == 0x21 {
            proof {
                assert(e.key@.subrange(0, 8) =~= badger_prefix());
            }
            return Err(Error::InvalidKey);
        }
        proof {
            if has_badger_prefix(e.key@) {
                assert(e.key@.subrange(0, 8)[0] == e.key@[0] && e.key@.subrange(0, 8)[1]
                    == e.key@[1] && e.key@.subrange(0, 8)[2] == e.key@[2] && e.key@.subrange(
                    0,
                    8,
                )[3] == e.key@[3] && e.key@.subrange(0, 8)[4] == e.key@[4] && e.key@.subrange(
                    0,
                    8,
                )[5] == e.key@[5] && e.key@.subrange(0, 8)[6] == e.key@[6] && e.key@.subrange(
                    0,
                    8,
                )[7] == e.key@[7]);
            }
        }
        if klen > MAX_KEY_SIZE {
            return Err(Error::KeyTooBig);
        }
        if e.value.len() > self.value_log_file_size {
            return Err(Error::ValueTooBig);
        }
        if is_banned(namespace_offset, banned, e.key.as_slice()) {
            return Err(Error::BannedKey);
        }
        let mut stored = e;
        let est = stored.estimate_size_and_set_threshold(self.value_threshold) as u64;
        let new_size = self.size + est + 10;
        if new_size >= self.max_batch_size {
            return Err(Error::TxnTooBig);
        }
        self.count = self.count + 1;
        self.size = new_size;
        if self.detect_conflicts {
            let h = mem_hash(stored.key.as_slice());
            self.conflict_keys.push(h);
        }
        proof {
            lemma_pending_index(old(self).pending_writes@, e.key@);
        }
        let n = self.pending_writes.len();
        let mut i: usize = 0;
        let mut found: bool = false;
        while i < n && !found
            invariant
                n == self.pending_writes@.len(),
                i <= n,
                self.pending_writes == old(self).pending_writes,
                forall|j: int| 0 <= j < i ==> (#[trigger] self.pending_writes@[j]).0@ != e.key@,
                stored.key@ == e.key@,
                found ==> i < n && self.pending_writes@[i as int].0@ == e.key@,
            decreases n - i, if found { 0int } else { 1int },
        {
            if eq_bytes(&self.pending_writes[i].0, &stored.key) {
                found = true;
            } else {
                i = i + 1;
            }
        }
        if found {
            proof {
                let p = pending_index(old(self).pending_writes@, e.key@);
                assert(has_pending(old(self).pending_writes@, e.key@));
                if p < i as int {
                    assert(old(self).pending_writes@[p].0@ != e.key@);
                }
                if (i as int) < p {
                    assert(old(self).pending_writes@[i as int].0@ != e.key@);
                }
                assert(p == i as int);
            }
            let k = clone_bytes(&stored.key);
            self.pending_writes.set(i, (k, stored));
        } else {
            proof {
                if has_pending(old(self).pending_writes@, e.key@) {
                    let p = pending_index(old(self).pending_writes@, e.key@);
                    assert(old(self).pending_writes@[p].0@ != e.key@);
                }
            }
            let k = clone_bytes(&stored.key);
            self.pending_writes.push((k, stored));
        }
        Ok(())
    }
}

/// The pre-checks a read runs through, in order; `None` when the read may
/// proceed.
pub open spec fn spec_read_check(
    t: Txn,
    key: Seq<u8>,
    namespace_offset: i64,
    banned: Seq<u64>,
) -> Option<Error> {
    if t.discarded {
        Some(Error::DiscardedTxn)
    } else if key.len() == 0 {
        Some(Error::EmptyKey)
    } else if spec_is_banned(namespace_offset, banned, key) {
        Some(Error::BannedKey)
    } else {
        None
    }
}

impl Txn {
    /// Resolves a read against this transaction's own pending writes.
    /// After the pre-checks, an update transaction sees its own pending
    /// write for the key: a live one comes back as the item, a deleted or
    /// expired one as `KeyNotFound`. Without a pending write the key's
    /// fingerprint is recorded as read and `None` says the store itself
    /// must be consulted.
    pub fn read_own_writes(
        &mut self,
        key: &[u8],
        now: u64,
        namespace_offset: i64,
        banned: &Vec<u64>,
    ) -> (r: Result<Option<Item>, Error>)
        requires
            key@.len() < 0x10000000,
            namespace_offset < 0x10000000,
        ensures
            match r {
                Err(e) => {
                    &&& if spec_read_check(*old(self), key@, namespace_offset, banned@) is Some {
                        Some(e) == spec_read_check(*old(self), key@, namespace_offset, banned@)
                            && *final(self) == *old(self)
                    } else {
                        &&& e == Error::KeyNotFound
                        &&& old(self).update
                        &&& has_pending(old(self).pending_writes@, key@)
                        &&& *final(self) == *old(self)
                    }
                },
                Ok(opt) => {
                    &&& spec_read_check(*old(self), key@, namespace_offset, banned@) is None
                    &&& match opt {
                        Some(item) => {
                            let p = pending_index(old(self).pending_writes@, key@);
                            &&& old(self).update
                            &&& has_pending(old(self).pending_writes@, key@)
                            &&& item.key@ == key@
                            &&& item.value@ == old(self).pending_writes@[p].1.value@
                            &&& item.version == old(self).read_ts
                            &&& item.expires_at == old(self).pending_writes@[p].1.expires_at
                            &&& *final(self) == *old(self)
                        },
                        None => {
                            &&& !(old(self).update && has_pending(
                                old(self).pending_writes@,
                                key@,
                            ))
                            &&& *final(self) == (Txn {
                                reads: final(self).reads,
                                ..*old(self)
                            })
                            &&& final(self).reads@ == if old(self).update {
                                old(self).reads@.push(spec_mem_hash(key@))
                            } else {
                                old(self).reads@
                            }
                        },
                    }
                },
            },
    {
        if self.discarded {
            return Err(Error::DiscardedTxn);
        }
        if key.len() == 0 {
            return Err(Error::EmptyKey);
        }
        if is_banned(namespace_offset, banned, key) {
            return Err(Error::BannedKey);
        }
        if !self.update {
            return Ok(None);
        }
        proof {
            lemma_pending_index(self.pending_writes@, key@);
        }
        let n = self.pending_writes.len();
        let mut i: usize = 0;
        let mut found: bool = false;
        while i < n && !found
            invariant
                n == self.pending_writes@.len(),
                i <= n,
                self == old(self),
                forall|j: int| 0 <= j < i ==> (#[trigger] self.pending_writes@[j]).0@ != key@,
                found ==> i < n && self.pending_writes@[i as int].0@ == key@,
            decreases n - i, if found { 0int } else { 1int },
        {
            if eq_bytes_slice(&self.pending_writes[i].0, key) {
                found = true;
            } else {
                i = i + 1;
            }
        }
        if found {
            proof {
                let p = pending_index(old(self).pending_writes@, key@);
                if p < i as int {
                    assert(old(self).pending_writes@[p].0@ != key@);
                }
                if (i as int) < p {
                    assert(old(self).pending_writes@[i as int].0@ != key@);
                }
                assert(p == i as int);
            }
            let meta = self.pending_writes[i].1.meta;
            let expires_at = self.pending_writes[i].1.expires_at;
            if crate::entry::is_deleted_or_expired(meta, expires_at, now) {
                return Err(Error::KeyNotFound);
            }
            let item = Item {
                key: vstd::slice::slice_to_vec(key),
                vptr: Vec::new(),
                value: clone_bytes(&self.pending_writes[i].1.value),
                version: self.read_ts,
                expires_at,
            };
            return Ok(Some(item));
        }
        let h = mem_hash(key);
        self.reads.push(h);
        Ok(None)
    }

    /// Gives the transaction up. The first call reports that the read
    /// timestamp's open work on the read mark must now be closed; later
    /// calls do nothing.
    pub fn discard(&mut self) -> (r: bool)
        ensures
            final(self).discarded,
            final(self).done_read,
            r == !old(self).done_read,
            *final(self) == (Txn { discarded: true, done_read: true, ..*old(self) }),
    {
        if self.discarded {
            let r = !self.done_read;
            self.done_read = true;
            return r;
        }
        self.discarded = true;
        let r = !self.done_read;
        self.done_read = true;
        r
    }

    /// The entries a commit hands to the write pipeline: every pending
    /// write stamped with the commit timestamp and marked as part of a
    /// transaction, then the end marker carrying the commit timestamp as
    /// its decimal value.
    pub fn commit_entries(&self, commit_ts: u64) -> (r: Vec<Entry>)
        ensures
            r@.len() == self.pending_writes@.len() + 1,
            forall|i: int|
                0 <= i < self.pending_writes@.len() ==> {
                    let e = (#[trigger] r@[i]);
                    let p = self.pending_writes@[i].1;
                    &&& e.key@ == internal_key(self.pending_writes@[i].0@, commit_ts)
                    &&& e.value@ == p.value@
                    &&& e.version == commit_ts
                    &&& e.meta == (p.meta | META_TXN)
                    &&& e.user_meta == p.user_meta
                    &&& e.expires_at == p.expires_at
                },
            r@.last().key@ == internal_key(txn_key(), commit_ts),
            r@.last().value@ == dec_bytes(commit_ts as nat),
            r@.last().meta == META_FIN_TXN,
            r@.last().version == commit_ts,
    {
        let mut out: Vec<Entry> = Vec::new();
        let n = self.pending_writes.len();
        let mut i: usize = 0;
        while i < n
            invariant
                n == self.pending_writes@.len(),
                i <= n,
                out@.len() == i,
                forall|j: int|
                    0 <= j < i ==> {
                        let e = (#[trigger] out@[j]);
                        let p = self.pending_writes@[j].1;
                        &&& e.key@ == internal_key(self.pending_writes@[j].0@, commit_ts)
                        &&& e.value@ == p.value@
                        &&& e.version == commit_ts
                        &&& e.meta == (p.meta | META_TXN)
                        &&& e.user_meta == p.user_meta
                        &&& e.expires_at == p.expires_at
                    },
            decreases n - i,
        {
            let k = clone_bytes(&self.pending_writes[i].0);
            let e = &self.pending_writes[i].1;
            let stamped = Entry {
                key: key_with_ts(k, commit_ts),
                value: clone_bytes(&e.value),
                expires_at: e.expires_at,
                version: commit_ts,
                user_meta: e.user_meta,
                meta: e.meta | META_TXN,
                offset: 0,
                header_len: 0,
                value_threshold: 0,
            };
            out.push(stamped);
            i = i + 1;
        }
        let mut fin_key: Vec<u8> = Vec::new();
        fin_key.push(0x21);
        fin_key.push(0x62);
        fin_key.push(0x61);
        fin_key.push(0x64);
        fin_key.push(0x67);
        fin_key.push(0x65);
        fin_key.push(0x72);
        fin_key.push(0x21);
        fin_key.push(0x74);
        fin_key.push(0x78);
        fin_key.push(0x6e);
        proof {
            assert(fin_key@ =~= txn_key());
        }
        let fin = Entry {
            key: key_with_ts(fin_key, commit_ts),
            value: u64_to_dec(commit_ts),
            expires_at: 0,
            version: commit_ts,
            user_meta: 0,
            meta: META_FIN_TXN,
            offset: 0,
            header_len: 0,
            value_threshold: 0,
        };
        out.push(fin);
        out
    }
}

/// Compares a byte vector with a byte slice for equality.
fn eq_bytes_slice(a: &Vec<u8>, b: &[u8]) -> (r: bool)
    ensures
        r == (a@ == b@),
{
    if a.len() != b.len() {
        return false;
    }
    let n = a.len();
    let mut i: usize = 0;
    while i < n
        invariant
            n == a@.len() == b@.len(),
            i <= n,
            forall|j: int| 0 <= j < i ==> a@[j] == b@[j],
        decreases n - i,
    {
        if a[i] != b[i] {
            return false;
        }
        i = i + 1;
    }
    proof {
        assert(a@ =~= b@);
    }
    true
}

/// Compares two byte vectors for equality.
fn eq_bytes(a: &Vec<u8>, b: &Vec<u8>) -> (r: bool)
    ensures
        r == (a@ == b@),
{
    if a.len() != b.len() {
        return false;
    }
    let n = a.len();
    let mut i: usize = 0;
    while i < n
        invariant
            n == a@.len() == b@.len(),
            i <= n,
            forall|j: int| 0 <= j < i ==> a@[j] == b@[j],
        decreases n - i,
    {
        if a[i] != b[i] {
            return false;
        }
        i = i + 1;
    }
    proof {
        assert(a@ =~= b@);
    }
    true
}

/// Copies a byte vector.
pub fn clone_bytes(v: &Vec<u8>) -> (r: Vec<u8>)
    ensures
        r@ == v@,
{
    vstd::slice::slice_to_vec(v.as_slice())
}

} // verus!
