//! The bloom filter carried in each sorted table: a 32-bit key hash, a bit
//! array sized from a bits-per-key budget, and a probe sequence derived by
//! rotating the hash. Every inserted hash is found again by `may_contain`.

use vstd::prelude::*;

use vstd::wrapping::u32_specs;

verus! {

/// The hash seed.
pub const HASH_SEED: u32 = 0xbc9f1d34;

/// The hash multiplier.
pub const HASH_M: u32 = 0xc6a4a793;

/// One mixing step over a little-endian word of four input bytes.
pub open spec fn hash_mix4(h: u32, b0: u8, b1: u8, b2: u8, b3: u8) -> u32 {
    let w = (b0 as u32) | ((b1 as u32) << 8) | ((b2 as u32) << 16) | ((b3 as u32) << 24);
    let h1 = u32_specs::wrapping_mul(u32_specs::wrapping_add(h, w), HASH_M);
    h1 ^ (h1 >> 16)
}

/// The final mixing step over a tail of fewer than four bytes.
pub open spec fn hash_tail(h: u32, tail: Seq<u8>) -> u32
    recommends
        tail.len() < 4,
{
    if tail.len() == 0 {
        h
    } else {
        let sum = if tail.len() == 3 {
            u32_specs::wrapping_add(
                u32_specs::wrapping_add(
                    u32_specs::wrapping_add(h, (tail[2] as u32) << 16),
                    (tail[1] as u32) << 8,
                ),
                tail[0] as u32,
            )
        } else if tail.len() == 2 {
            u32_specs::wrapping_add(u32_specs::wrapping_add(h, (tail[1] as u32) << 8), tail[0] as u32)
        } else {
            u32_specs::wrapping_add(h, tail[0] as u32)
        };
        let m = u32_specs::wrapping_mul(sum, HASH_M);
        m ^ (m >> 24)
    }
}

/// The running state of the hash after consuming `s` four bytes at a time,
/// then the tail.
pub open spec fn hash_rec(s: Seq<u8>, h: u32) -> u32
    decreases s.len(),
{
    if s.len() >= 4 {
        hash_rec(s.skip(4), hash_mix4(h, s[0], s[1], s[2], s[3]))
    } else {
        hash_tail(h, s)
    }
}

/// The bloom hash of a byte string.
pub open spec fn spec_hash(s: Seq<u8>) -> u32
    recommends
        s.len() < 0x100000000,
{
    hash_rec(s, HASH_SEED ^ u32_specs::wrapping_mul(s.len() as u32, HASH_M))
}

/// Computes the bloom hash of `input`.
#[verifier::rlimit(100)]
#[verifier::spinoff_prover]
pub fn hash(input: Vec<u8>) -> (r: u32)
    requires
        input@.len() < 0x100000000,
    ensures
        r == spec_hash(input@),
{
    let len = input.len();
    let mut h: u32 = HASH_SEED ^ ((len as u32).wrapping_mul(HASH_M));
    let mut i: usize = 0;
    proof {
        assert(input@.skip(0) =~= input@);
    }
    while len - i >= 4
        invariant
            i <= len,
            len == input@.len(),
            hash_rec(input@.skip(i as int), h) == spec_hash(input@),
        decreases len - i,
    {
        let w = (input[i] as u32) | ((input[i + 1] as u32) << 8) | ((input[i + 2] as u32) << 16)
            | ((input[i + 3] as u32) << 24);
        proof {
            let s = input@.skip(i as int);
            assert(s[0] == input@[i as int] && s[1] == input@[i + 1] && s[2] == input@[i + 2]
                && s[3] == input@[i + 3]);
            assert(s.skip(4) =~= input@.skip(i + 4));
        }
        h = h.wrapping_add(w).wrapping_mul(HASH_M);
        h = h ^ (h >> 16);
        i = i + 4;
    }
    let ghost tail = input@.skip(i as int);
    if len - i == 3 {
        h = h.wrapping_add((input[i + 2] as u32) << 16);
        h = h.wrapping_add((input[i + 1] as u32) << 8);
        h = h.wrapping_add(input[i] as u32);
        h = h.wrapping_mul(HASH_M);
        h = h ^ (h >> 24);
        proof {
            assert(tail[0] == input@[i as int] && tail[1] == input@[i + 1] && tail[2] == input@[i
                + 2]);
        }
    } else if len - i == 2 {
        h = h.wrapping_add((input[i + 1] as u32) << 8);
        h = h.wrapping_add(input[i] as u32);
        h = h.wrapping_mul(HASH_M);
        h = h ^ (h >> 24);
        proof {
            assert(tail[0] == input@[i as int] && tail[1] == input@[i + 1]);
        }
    } else if len - i == 1 {
        h = h.wrapping_add(input[i] as u32);
        h = h.wrapping_mul(HASH_M);
        h = h ^ (h >> 24);
        proof {
            assert(tail[0] == input@[i as int]);
        }
    }
    h
}

/// The probe step: a rotation of the hash by fifteen bits.
pub open spec fn probe_delta(h: u32) -> u32 {
    (h >> 17) | (h << 15)
}

/// The hash used by the `j`th probe of a key: the base hash advanced `j`
/// times by its delta.
pub open spec fn probe_hash(h: u32, delta: u32, j: nat) -> u32
    decreases j,
{
    if j == 0 {
        h
    } else {
        u32_specs::wrapping_add(probe_hash(h, delta, (j - 1) as nat), delta)
    }
}

/// Whether bit `pos` of the bit array `f` is set.
pub open spec fn bit_set(f: Seq<u8>, pos: u32) -> bool
    recommends
        (pos / 8) < f.len(),
{
    f[(pos / 8) as int] & (1u8 << ((pos % 8) as u8)) != 0
}

/// What a filter byte string says about a hash: too short means absent, an
/// overlarge probe count means present, otherwise every probe bit must be
/// set.
pub open spec fn spec_may_contain(bf: Seq<u8>, h: u32) -> bool {
    if bf.len() < 2 {
        false
    } else if bf.last() > 30 {
        true
    } else {
        forall|j: nat|
            j < bf.last() ==> bit_set(
                bf,
                #[trigger] probe_hash(h, probe_delta(h), j) % ((8 * (bf.len() - 1)) as u32),
            )
    }
}

/// A bloom filter: the bit array followed by one byte holding the probe
/// count.
pub struct Filter(Vec<u8>);

impl Filter {
    /// The filter with no bytes at all; used when bloom filters are disabled.
    pub fn empty() -> (r: Filter)
        ensures
            r@.len() == 0,
    {
        Filter(Vec::new())
    }

    /// Builds a filter over the given key hashes. Every inserted hash is
    /// reported present by `may_contain` on the resulting bytes.
    pub fn new(keys: &Vec<u32>, bits_per_key: isize) -> (r: Filter)
        requires
            keys@.len() < 0x0100_0000,
            bits_per_key < 0x100,
        ensures
            9 <= r@.len() <= 0x2000_0000,
            forall|i: int| 0 <= i < keys@.len() ==> spec_may_contain(r@, #[trigger] keys@[i]),
            ({
                let bpk = if bits_per_key < 0 {
                    0int
                } else {
                    bits_per_key as int
                };
                let k0 = bpk * 69 / 100;
                let kk = if k0 < 1 {
                    1int
                } else if k0 > 30 {
                    30int
                } else {
                    k0
                };
                let nb = if keys@.len() * bpk < 64 {
                    64int
                } else {
                    keys@.len() * bpk
                };
                &&& r@.len() == (nb + 7) / 8 + 1
                &&& r@.last() == kk
            }),
    {
        Filter(Self::append_filter(Vec::new(), keys, bits_per_key))
    }

    /// The filter bytes.
    pub fn bloom(&self) -> (r: &Vec<u8>)
        ensures
            r@ == self@,
    {
        &self.0
    }

    /// Builds the filter bytes: sizes the bit array from the bits-per-key
    /// budget (at least 64 bits), sets the probe bits of every key hash, and
    /// appends the probe count. The passed-in buffer is expected empty; the
    /// result replaces it.
    fn append_filter(buf: Vec<u8>, keys: &Vec<u32>, bits_per_key: isize) -> (r: Vec<u8>)
        requires
            keys@.len() < 0x0100_0000,
            bits_per_key < 0x100,
        ensures
            9 <= r@.len() <= 0x2000_0000,
            forall|i: int| 0 <= i < keys@.len() ==> spec_may_contain(r@, #[trigger] keys@[i]),
            ({
                let bpk = if bits_per_key < 0 {
                    0int
                } else {
                    bits_per_key as int
                };
                let k0 = bpk * 69 / 100;
                let kk = if k0 < 1 {
                    1int
                } else if k0 > 30 {
                    30int
                } else {
                    k0
                };
                let nb = if keys@.len() * bpk < 64 {
                    64int
                } else {
                    keys@.len() * bpk
                };
                &&& r@.len() == (nb + 7) / 8 + 1
                &&& r@.last() == kk
            }),
    {
        let _ = buf;
        let bpk: usize = if bits_per_key < 0 {
            0
        } else {
            bits_per_key as usize
        };
        let mut k: u32 = (bpk as u32) * 69 / 100;
        if k < 1 {
            k = 1;
        }
        if k > 30 {
            k = 30;
        }

        proof {
            assert(keys@.len() * bpk <= 0xffffff * 0xff) by (nonlinear_arith)
                requires
                    keys@.len() <= 0xffffff,
                    bpk <= 0xff,
            ;
        }
        let mut n_bits: usize = keys.len() * bpk;
        if n_bits < 64 {
            n_bits = 64;
        }
        let n_bytes: usize = (n_bits + 7) / 8;
        let n_bits: u32 = (n_bytes * 8) as u32;

        let mut filter: Vec<u8> = Vec::new();
        let mut z: usize = 0;
        while z < n_bytes
            invariant
                filter@.len() == z,
                z <= n_bytes,
            decreases n_bytes - z,
        {
            filter.push(0);
            z = z + 1;
        }

        let mut i: usize = 0;
        while i < keys.len()
            invariant
                filter@.len() == n_bytes,
                n_bytes >= 8,
                n_bits == 8 * n_bytes,
                n_bits > 0,
                n_bytes * 8 < 0x100000000,
                1 <= k <= 30,
                i <= keys@.len(),
                forall|ki: int, j: nat|
                    0 <= ki < i && j < k ==> bit_set(
                        filter@,
                        #[trigger] probe_hash(keys@[ki], probe_delta(keys@[ki]), j) % n_bits,
                    ),
            decreases keys@.len() - i,
        {
            let key = keys[i];
            let delta = (key >> 17) | (key << 15);
            let mut h = key;
            let mut j: u32 = 0;
            while j < k
                invariant
                    filter@.len() == n_bytes,
                    n_bits == 8 * n_bytes,
                    n_bits > 0,
                    n_bytes * 8 < 0x100000000,
                    1 <= k <= 30,
                    j <= k,
                    i < keys@.len(),
                    key == keys@[i as int],
                    delta == probe_delta(key),
                    h == probe_hash(key, delta, j as nat),
                    forall|jj: nat|
                        jj < j ==> bit_set(
                            filter@,
                            #[trigger] probe_hash(key, delta, jj) % n_bits,
                        ),
                    forall|ki: int, jj: nat|
                        0 <= ki < i && jj < k ==> bit_set(
                            filter@,
                            #[trigger] probe_hash(keys@[ki], probe_delta(keys@[ki]), jj)
                                % n_bits,
                        ),
                decreases k - j,
            {
                let bit_pos: u32 = h % n_bits;
                let byte_idx: usize = (bit_pos / 8) as usize;
                let shift: u8 = (bit_pos % 8) as u8;
                let mask: u8 = 1u8 << shift;
                let ghost before = filter@;
                let updated = filter[byte_idx] | mask;
                filter.set(byte_idx, updated);
                proof {
                    lemma_or_keeps_bits(before, filter@, byte_idx as int, mask);
                    let a = before[byte_idx as int];
                    assert(shift < 8 ==> ((a | (1u8 << shift)) & (1u8 << shift)) != 0)
                        by (bit_vector);
                    assert(bit_set(filter@, bit_pos));
                }
                h = h.wrapping_add(delta);
                j = j + 1;
            }
            i = i + 1;
        }

        filter.push(k as u8);
        proof {
            assert(filter@.last() == k as u8);
            assert forall|i2: int| 0 <= i2 < keys@.len() implies spec_may_contain(
                filter@,
                #[trigger] keys@[i2],
            ) by {
                let bf = filter@;
                let hh = keys@[i2];
                assert(bf.len() == n_bytes + 1);
                assert forall|j2: nat| j2 < bf.last() implies bit_set(
                    bf,
                    #[trigger] probe_hash(hh, probe_delta(hh), j2) % ((8 * (bf.len() - 1)) as u32),
                ) by {
                    let pos = probe_hash(hh, probe_delta(hh), j2) % n_bits;
                    assert(bit_set(bf.drop_last(), pos));
                    assert(pos < n_bits);
                    assert(pos / 8 < n_bytes);
                    assert(bf.drop_last()[(pos / 8) as int] == bf[(pos / 8) as int]);
                }
            }
        }
        filter
    }

    /// Whether the filter bytes may hold the hash: false only when some
    /// probe bit is clear, so an inserted hash is always reported present.
    pub fn may_contain(bf: &[u8], h: u32) -> (r: bool)
        requires
            bf@.len() <= 0x2000_0000,
        ensures
            r == spec_may_contain(bf@, h),
    {
        let blen = bf.len();
        if blen < 2 {
            return false;
        }
        let k = bf[blen - 1];
        if k > 30 {
            return true;
        }
        let n_bits: u32 = (8 * (blen - 1)) as u32;
        let delta = (h >> 17) | (h << 15);
        let mut hh = h;
        let mut j: u8 = 0;
        while j < k
            invariant
                blen == bf@.len(),
                2 <= blen <= 0x2000_0000,
                k == bf@.last(),
                k <= 30,
                n_bits == 8 * (blen - 1),
                delta == probe_delta(h),
                j <= k,
                hh == probe_hash(h, delta, j as nat),
                forall|jj: nat|
                    jj < j ==> bit_set(bf@, #[trigger] probe_hash(h, delta, jj) % n_bits),
            decreases k - j,
        {
            let bit_pos = hh % n_bits;
            let byte = bf[(bit_pos / 8) as usize];
            let shift: u8 = (bit_pos % 8) as u8;
            if byte & (1u8 << shift) == 0 {
                proof {
                    assert(!bit_set(bf@, probe_hash(h, delta, j as nat) % n_bits));
                }
                return false;
            }
            hh = hh.wrapping_add(delta);
            j = j + 1;
        }
        true
    }
}

impl View for Filter {
    type V = Seq<u8>;

    closed spec fn view(&self) -> Seq<u8> {
        self.0@
    }
}

/// Or-ing a mask into one byte never clears a set bit anywhere in the array.
proof fn lemma_or_keeps_bits(before: Seq<u8>, after: Seq<u8>, idx: int, mask: u8)
    requires
        0 <= idx < before.len(),
        after == before.update(idx, before[idx] | mask),
    ensures
        forall|pos: u32|
            (pos / 8) < before.len() && #[trigger] bit_set(before, pos) ==> bit_set(after, pos),
        after.len() == before.len(),
{
    assert forall|pos: u32| (pos / 8) < before.len() && bit_set(before, pos) implies bit_set(
        after,
        pos,
    ) by {
        if (pos / 8) as int == idx {
            let a = before[idx];
            let m = mask;
            let t = (pos % 8) as u8;
            assert((a & (1u8 << t)) != 0 ==> ((a | m) & (1u8 << t)) != 0) by (bit_vector);
        }
    }
}

} // verus!
