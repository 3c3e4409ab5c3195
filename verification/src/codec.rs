//! Fixed-width big-endian integer codecs and the varint codec shared by the
//! write-ahead log, the value log, the sorted-table format and the manifest.

use vstd::prelude::*;

verus! {

// ---------------------------------------------------------------------------
// Big-endian fixed-width integers
// ---------------------------------------------------------------------------

/// The four bytes of `x`, most significant first.
pub open spec fn u32_be_bytes(x: u32) -> Seq<u8> {
    seq![
        ((x >> 24) & 0xff) as u8,
        ((x >> 16) & 0xff) as u8,
        ((x >> 8) & 0xff) as u8,
        (x & 0xff) as u8,
    ]
}

/// The value read from four bytes, most significant first.
pub open spec fn u32_of_be(s: Seq<u8>) -> u32
    recommends
        s.len() == 4,
{
    (((s[0] as u32) << 24) | ((s[1] as u32) << 16) | ((s[2] as u32) << 8) | (s[3] as u32)) as u32
}

/// Reading back the four bytes of a value yields the value.
pub proof fn lemma_u32_be_roundtrip(x: u32)
    ensures
        u32_be_bytes(x).len() == 4,
        u32_of_be(u32_be_bytes(x)) == x,
{
    assert(((x >> 24) & 0xff) < 256 && ((x >> 16) & 0xff) < 256 && ((x >> 8) & 0xff) < 256 && (x
        & 0xff) < 256) by (bit_vector);
    assert(((((x >> 24) & 0xff) as u32) << 24) | ((((x >> 16) & 0xff) as u32) << 16) | ((((x >> 8)
        & 0xff) as u32) << 8) | ((x & 0xff) as u32) == x) by (bit_vector);
}

/// The eight bytes of `x`, most significant first.
pub open spec fn u64_be_bytes(x: u64) -> Seq<u8> {
    seq![
        ((x >> 56) & 0xff) as u8,
        ((x >> 48) & 0xff) as u8,
        ((x >> 40) & 0xff) as u8,
        ((x >> 32) & 0xff) as u8,
        ((x >> 24) & 0xff) as u8,
        ((x >> 16) & 0xff) as u8,
        ((x >> 8) & 0xff) as u8,
        (x & 0xff) as u8,
    ]
}

/// The value read from eight bytes, most significant first.
pub open spec fn u64_of_be(s: Seq<u8>) -> u64
    recommends
        s.len() == 8,
{
    (((s[0] as u64) << 56) | ((s[1] as u64) << 48) | ((s[2] as u64) << 40) | ((s[3] as u64) << 32)
        | ((s[4] as u64) << 24) | ((s[5] as u64) << 16) | ((s[6] as u64) << 8) | (
    s[7] as u64)) as u64
}

/// Reading back the eight bytes of a value yields the value.
pub proof fn lemma_u64_be_roundtrip(x: u64)
    ensures
        u64_be_bytes(x).len() == 8,
        u64_of_be(u64_be_bytes(x)) == x,
{
    assert(((x >> 56) & 0xff) < 256 && ((x >> 48) & 0xff) < 256 && ((x >> 40) & 0xff) < 256 && ((x
        >> 32) & 0xff) < 256 && ((x >> 24) & 0xff) < 256 && ((x >> 16) & 0xff) < 256 && ((x >> 8)
        & 0xff) < 256 && (x & 0xff) < 256) by (bit_vector);
    assert(((((x >> 56) & 0xff) as u64) << 56) | ((((x >> 48) & 0xff) as u64) << 48) | ((((x >> 40)
        & 0xff) as u64) << 40) | ((((x >> 32) & 0xff) as u64) << 32) | ((((x >> 24) & 0xff) as u64)
        << 24) | ((((x >> 16) & 0xff) as u64) << 16) | ((((x >> 8) & 0xff) as u64) << 8) | ((x
        & 0xff) as u64) == x) by (bit_vector);
}

/// Appends the four big-endian bytes of `x` to `buf`.
pub fn put_u32_be(buf: &mut Vec<u8>, x: u32)
    ensures
        final(buf)@ == old(buf)@ + u32_be_bytes(x),
{
    buf.push(((x >> 24) & 0xff) as u8);
    buf.push(((x >> 16) & 0xff) as u8);
    buf.push(((x >> 8) & 0xff) as u8);
    buf.push((x & 0xff) as u8);
    assert(buf@ =~= old(buf)@ + u32_be_bytes(x));
}

/// Appends the eight big-endian bytes of `x` to `buf`.
pub fn put_u64_be(buf: &mut Vec<u8>, x: u64)
    ensures
        final(buf)@ == old(buf)@ + u64_be_bytes(x),
{
    buf.push(((x >> 56) & 0xff) as u8);
    buf.push(((x >> 48) & 0xff) as u8);
    buf.push(((x >> 40) & 0xff) as u8);
    buf.push(((x >> 32) & 0xff) as u8);
    buf.push(((x >> 24) & 0xff) as u8);
    buf.push(((x >> 16) & 0xff) as u8);
    buf.push(((x >> 8) & 0xff) as u8);
    buf.push((x & 0xff) as u8);
    assert(buf@ =~= old(buf)@ + u64_be_bytes(x));
}

/// Reads a big-endian `u32` from `data` at `offset`.
pub fn read_u32_be(data: &[u8], offset: usize) -> (r: u32)
    requires
        offset + 4 <= data@.len(),
    ensures
        r == u32_of_be(data@.subrange(offset as int, offset + 4)),
{
    let r = ((data[offset] as u32) << 24) | ((data[offset + 1] as u32) << 16) | ((data[offset
        + 2] as u32) << 8) | (data[offset + 3] as u32);
    proof {
        let s = data@.subrange(offset as int, offset + 4);
        assert(s[0] == data@[offset as int] && s[1] == data@[offset + 1] && s[2] == data@[offset
            + 2] && s[3] == data@[offset + 3]);
    }
    r
}

/// Reads a big-endian `u64` from `data` at `offset`.
pub fn read_u64_be(data: &[u8], offset: usize) -> (r: u64)
    requires
        offset + 8 <= data@.len(),
    ensures
        r == u64_of_be(data@.subrange(offset as int, offset + 8)),
{
    let r = ((data[offset] as u64) << 56) | ((data[offset + 1] as u64) << 48) | ((data[offset
        + 2] as u64) << 40) | ((data[offset + 3] as u64) << 32) | ((data[offset + 4] as u64) << 24)
        | ((data[offset + 5] as u64) << 16) | ((data[offset + 6] as u64) << 8) | (data[offset
        + 7] as u64);
    proof {
        let s = data@.subrange(offset as int, offset + 8);
        assert(s[0] == data@[offset as int] && s[1] == data@[offset + 1] && s[2] == data@[offset
            + 2] && s[3] == data@[offset + 3] && s[4] == data@[offset + 4] && s[5] == data@[offset
            + 5] && s[6] == data@[offset + 6] && s[7] == data@[offset + 7]);
    }
    r
}

// ---------------------------------------------------------------------------
// Varints: seven value bits per byte, least significant group first, the high
// bit of a byte set exactly when more bytes follow.
// ---------------------------------------------------------------------------

/// The varint encoding of `x`: at most ten bytes for a 64-bit value.
pub open spec fn varint_bytes(x: nat) -> Seq<u8>
    decreases x,
{
    if x < 128 {
        seq![x as u8]
    } else {
        seq![(128 + (x % 128)) as u8] + varint_bytes(x / 128)
    }
}

/// Number of bytes the varint encoding of `x` takes.
pub open spec fn varint_space(x: nat) -> nat {
    varint_bytes(x).len()
}

/// How many bytes a varint takes, by the size of its value.
pub proof fn lemma_varint_space_bound(x: nat)
    ensures
        x < 0x80 ==> varint_space(x) <= 1,
        x < 0x4000 ==> varint_space(x) <= 2,
        x < 0x200000 ==> varint_space(x) <= 3,
        x < 0x10000000 ==> varint_space(x) <= 4,
        x < 0x800000000 ==> varint_space(x) <= 5,
        x < 0x40000000000 ==> varint_space(x) <= 6,
        x < 0x2000000000000 ==> varint_space(x) <= 7,
        x < 0x100000000000000 ==> varint_space(x) <= 8,
        x < 0x8000000000000000 ==> varint_space(x) <= 9,
        x < 0x400000000000000000 ==> varint_space(x) <= 10,
    decreases x,
{
    if x >= 128 {
        lemma_varint_space_bound(x / 128);
    }
}

/// Horner evaluation of a byte string as base-128 digits, low group first.
/// On a well-formed varint this is the encoded value.
pub open spec fn varint_value(s: Seq<u8>) -> nat
    decreases s.len(),
{
    if s.len() == 0 {
        0
    } else if s[0] < 128 {
        s[0] as nat
    } else {
        ((s[0] - 128) + 128 * varint_value(s.drop_first())) as nat
    }
}

/// `n` bytes starting at `off` in `s` form a well-formed varint: every byte
/// but the last carries the continuation bit, the last does not, and a
/// ten-byte encoding fits in 64 bits.
pub open spec fn is_varint_at(s: Seq<u8>, off: int, n: int) -> bool {
    &&& 1 <= n <= 10
    &&& 0 <= off
    &&& off + n <= s.len()
    &&& forall|i: int| off <= i < off + n - 1 ==> #[trigger] s[i] >= 128
    &&& s[off + n - 1] < 128
    &&& n == 10 ==> s[off + 9] <= 1
}

/// The encoding of `x` is well formed and decodes back to `x`.
pub proof fn lemma_varint_roundtrip(x: nat)
    ensures
        1 <= varint_bytes(x).len() <= 10 || x >= 0x10000000000000000,
        varint_value(varint_bytes(x)) == x,
        forall|i: int|
            0 <= i < varint_bytes(x).len() - 1 ==> #[trigger] varint_bytes(x)[i] >= 128,
        varint_bytes(x).last() < 128,
        x < 0x10000000000000000 && varint_bytes(x).len() == 10 ==> varint_bytes(x).last() <= 1,
    decreases x,
{
    if x < 0x10000000000000000 && varint_bytes(x).len() == 10 {
        lemma_pow128_bound(9);
        assert(2 * pow128(9) == 0x10000000000000000) by {
            reveal_with_fuel(pow128, 11);
        }
        lemma_varint_last_small(x, 10);
    }
    if x < 128 {
    } else {
        lemma_varint_roundtrip(x / 128);
        let s = varint_bytes(x);
        let rest = varint_bytes(x / 128);
        assert(s.drop_first() =~= rest);
        assert(x % 128 + 128 * (x / 128) == x) by (nonlinear_arith);
        if x < 0x10000000000000000 {
            lemma_pow128_bound(9);
            reveal_with_fuel(pow128, 11);
            lemma_varint_len(x, 10);
        }
    }
}

/// When a value small enough for its digit count fills that count exactly,
/// its most significant digit is at most one; used for the ten-byte case of
/// 64-bit values.
proof fn lemma_varint_last_small(x: nat, n: nat)
    requires
        varint_bytes(x).len() == n,
        n >= 1,
        x < 2 * pow128((n - 1) as nat),
    ensures
        varint_bytes(x).last() <= 1,
    decreases n,
{
    if x < 128 {
        assert(pow128(0) == 1);
    } else {
        let rest = varint_bytes(x / 128);
        assert(varint_bytes(x).drop_first() =~= rest);
        assert(varint_bytes(x).last() == rest.last());
        assert(pow128((n - 1) as nat) == 128 * pow128((n - 2) as nat));
        assert(x / 128 < 2 * pow128((n - 2) as nat)) by (nonlinear_arith)
            requires
                x < 2 * (128 * pow128((n - 2) as nat)),
        ;
        lemma_varint_last_small(x / 128, (n - 1) as nat);
    }
}

/// A value below `128^n` encodes in at most `n` bytes.
proof fn lemma_varint_len(x: nat, n: nat)
    requires
        n >= 1,
        x < pow128(n),
    ensures
        varint_bytes(x).len() <= n,
    decreases n,
{
    if x < 128 {
    } else {
        assert(pow128(n) == 128 * pow128((n - 1) as nat));
        assert(x / 128 < pow128((n - 1) as nat)) by (nonlinear_arith)
            requires
                x < 128 * pow128((n - 1) as nat),
        ;
        lemma_varint_len(x / 128, (n - 1) as nat);
    }
}

/// Appends the varint encoding of `x` to `buf`.
pub fn put_varint(buf: &mut Vec<u8>, x: u64)
    ensures
        final(buf)@ == old(buf)@ + varint_bytes(x as nat),
{
    let mut v: u64 = x;
    while v >= 128
        invariant
            old(buf)@ + varint_bytes(x as nat) == buf@ + varint_bytes(v as nat),
        decreases v,
    {
        assert(v & 0x7f == v % 128 && v >> 7 == v / 128 && (v >= 128 ==> v / 128 < v)) by (bit_vector);
        buf.push(((v & 0x7f) | 0x80) as u8);
        assert(((v & 0x7f) | 0x80) == 128 + (v % 128)) by (bit_vector);
        proof {
            let ghost old_v = v as nat;
            assert(varint_bytes(old_v) == seq![(128 + (old_v % 128)) as u8] + varint_bytes(
                old_v / 128));
            assert(buf@ + varint_bytes((v >> 7) as nat) =~= buf@.drop_last() + varint_bytes(
                v as nat));
        }
        v = v >> 7;
    }
    buf.push(v as u8);
    proof {
        assert(varint_bytes(v as nat) == seq![v as u8]);
        assert(buf@ =~= buf@.drop_last() + varint_bytes(v as nat));
    }
}

/// Powers of 128, used to relate varint digits to their place value.
pub open spec fn pow128(n: nat) -> nat
    decreases n,
{
    if n == 0 {
        1
    } else {
        128 * pow128((n - 1) as nat)
    }
}

/// Horner evaluation restated digit by digit: appending a byte adds its
/// (continuation-stripped) digit at the next place value.
proof fn lemma_varint_digit_push(s: Seq<u8>, b: u8)
    requires
        forall|i: int| 0 <= i < s.len() ==> #[trigger] s[i] >= 128,
    ensures
        varint_value(s.push(b)) == varint_value(s) + varint_digit(b) * pow128(s.len()),
    decreases s.len(),
{
    if s.len() == 0 {
        let t = s.push(b);
        assert(t.len() == 1 && t[0] == b);
        assert(t.drop_first() =~= Seq::<u8>::empty());
        if b < 128 {
            assert(varint_value(t) == b as nat);
        } else {
            assert(varint_value(t.drop_first()) == 0);
            assert(varint_value(t) == ((b - 128) + 128 * varint_value(t.drop_first())) as nat);
        }
        assert(varint_value(s) == 0);
        assert(pow128(0) == 1);
        assert(varint_digit(b) * 1 == varint_digit(b)) by (nonlinear_arith);
    } else {
        assert(s.push(b)[0] == s[0] && s[0] >= 128 && s.push(b).len() >= 1);
        assert(s.push(b).drop_first() =~= s.drop_first().push(b));
        assert(varint_value(s.push(b)) == (s[0] - 128) + 128 * varint_value(
            s.drop_first().push(b)));
        assert(varint_value(s) == (s[0] - 128) + 128 * varint_value(s.drop_first()));
        lemma_varint_digit_push(s.drop_first(), b);
        assert(varint_value(s.drop_first().push(b)) == varint_value(s.drop_first())
            + varint_digit(b) * pow128((s.len() - 1) as nat));
        assert(pow128(s.len()) == 128 * pow128((s.len() - 1) as nat));
        assert(128 * (varint_value(s.drop_first()) + varint_digit(b) * pow128(
            (s.len() - 1) as nat)) == 128 * varint_value(s.drop_first()) + varint_digit(b) * (128
            * pow128((s.len() - 1) as nat))) by (nonlinear_arith);
    }
}

/// The seven payload bits of a varint byte.
pub open spec fn varint_digit(b: u8) -> nat {
    if b >= 128 {
        (b - 128) as nat
    } else {
        b as nat
    }
}

/// Decodes a varint from `data` at `offset`. Returns the value and the number
/// of bytes consumed, or `None` exactly when no well-formed varint starts at
/// `offset` (the data ends before a terminating byte, ten bytes pass without
/// one, or a ten-byte encoding overflows 64 bits).
pub fn get_varint(data: &[u8], offset: usize) -> (r: Option<(u64, usize)>)
    requires
        offset <= data@.len(),
    ensures
        match r {
            Some(p) => {
                &&& is_varint_at(data@, offset as int, p.1 as int)
                &&& p.0 as nat == varint_value(data@.subrange(offset as int, offset + p.1))
                &&& offset + p.1 <= data@.len()
            },
            None => forall|n: int| !is_varint_at(data@, offset as int, n),
        },
{
    let dlen = data.len();
    let mut i: usize = 0;
    let mut v: u64 = 0;
    let mut mult: u64 = 1;
    loop
        invariant
            dlen == data@.len(),
            offset <= data@.len(),
            i <= 9,
            offset + i <= data@.len(),
            mult == pow128(i as nat),
            v < mult,
            forall|j: int| offset <= j < offset + i ==> #[trigger] data@[j] >= 128,
            v as nat == varint_value(data@.subrange(offset as int, offset + i as int)),
            pow128(i as nat) <= 0x8000000000000000,
        decreases 10 - i,
    {
        if offset + i >= dlen {
            proof {
                assert forall|n: int| !is_varint_at(data@, offset as int, n) by {
                    if 1 <= n <= 10 && offset + n <= data@.len() {
                        assert(data@[offset + n - 1] >= 128);
                    }
                }
            }
            return None;
        }
        let b = data[offset + i];
        let ghost consumed = data@.subrange(offset as int, offset + i as int);
        proof {
            assert(data@.subrange(offset as int, offset + i + 1) =~= consumed.push(
                data@[offset + i]));
            lemma_varint_digit_push(consumed, b);
        }
        if b < 128 {
            if i == 9 && b > 1 {
                proof {
                    assert forall|n: int| !is_varint_at(data@, offset as int, n) by {
                        if 1 <= n <= 10 && offset + n <= data@.len() {
                            if n < 10 {
                                assert(data@[offset + n - 1] >= 128);
                            }
                        }
                    }
                }
                return None;
            }
            proof {
                if i == 9 {
                    assert(varint_digit(b) * pow128(9) <= 1 * pow128(9)) by (nonlinear_arith)
                        requires
                            varint_digit(b) <= 1,
                    ;
                } else {
                    assert(varint_digit(b) * pow128(i as nat) <= 127 * pow128(i as nat))
                        by (nonlinear_arith)
                        requires
                            varint_digit(b) <= 127,
                    ;
                    lemma_pow128_bound(i as nat);
                }
            }
            let r = v + (b as u64) * mult;
            proof {
                assert(is_varint_at(data@, offset as int, i + 1));
            }
            return Some((r, i + 1));
        }
        if i == 9 {
            proof {
                assert forall|n: int| !is_varint_at(data@, offset as int, n) by {
                    if 1 <= n <= 10 && offset + n <= data@.len() {
                        assert(data@[offset + n - 1] >= 128);
                    }
                }
            }
            return None;
        }
        proof {
            assert(varint_digit(b) * pow128(i as nat) <= 127 * pow128(i as nat))
                by (nonlinear_arith)
                requires
                    varint_digit(b) <= 127,
            ;
            lemma_pow128_bound(i as nat);
            assert(128 * pow128(i as nat) == pow128((i + 1) as nat));
        }
        v = v + ((b - 128) as u64) * mult;
        mult = mult * 128;
        i = i + 1;
    }
}

/// Appends every byte of `src` to `dst`.
pub fn extend_from(dst: &mut Vec<u8>, src: &[u8])
    ensures
        final(dst)@ == old(dst)@ + src@,
{
    let n = src.len();
    let mut i: usize = 0;
    while i < n
        invariant
            n == src@.len(),
            i <= n,
            dst@ == old(dst)@ + src@.take(i as int),
        decreases n - i,
    {
        dst.push(src[i]);
        proof {
            assert(old(dst)@ + src@.take(i + 1) =~= (old(dst)@ + src@.take(i as int)).push(
                src@[i as int]));
        }
        i = i + 1;
    }
    proof {
        assert(src@.take(n as int) =~= src@);
    }
}

/// Only one varint can start at a given position: the first byte without the
/// continuation bit ends it.
pub proof fn lemma_varint_at_unique(s: Seq<u8>, off: int, n1: int, n2: int)
    requires
        is_varint_at(s, off, n1),
        is_varint_at(s, off, n2),
    ensures
        n1 == n2,
{
    if n1 < n2 {
        assert(s[off + n1 - 1] >= 128);
    }
    if n2 < n1 {
        assert(s[off + n2 - 1] >= 128);
    }
}

/// The varint found at a position, if any: its value and its byte count.
pub open spec fn varint_at(s: Seq<u8>, off: int) -> Option<(nat, int)> {
    if exists|n: int| is_varint_at(s, off, n) {
        let n = choose|n: int| is_varint_at(s, off, n);
        Some((varint_value(s.subrange(off, off + n)), n))
    } else {
        None
    }
}

/// Whenever a well-formed varint of `n` bytes sits at `off`, that is what
/// `varint_at` describes.
pub proof fn lemma_varint_at_some(s: Seq<u8>, off: int, n: int)
    requires
        is_varint_at(s, off, n),
    ensures
        varint_at(s, off) == Some((varint_value(s.subrange(off, off + n)), n)),
{
    let m = choose|m: int| is_varint_at(s, off, m);
    lemma_varint_at_unique(s, off, m, n);
}

/// A found varint takes between one and ten bytes and lies inside the
/// string.
pub proof fn lemma_varint_at_bounds(s: Seq<u8>, off: int)
    requires
        varint_at(s, off) is Some,
    ensures
        1 <= varint_at(s, off).unwrap().1 <= 10,
        off + varint_at(s, off).unwrap().1 <= s.len(),
        0 <= off,
{
    let n = choose|n: int| is_varint_at(s, off, n);
    assert(is_varint_at(s, off, n));
}

/// The canonical encoding of `x` placed at `off` inside a larger string is
/// the varint that `varint_at` finds there.
pub proof fn lemma_varint_embed(s: Seq<u8>, off: int, x: nat)
    requires
        0 <= off,
        off + varint_bytes(x).len() <= s.len(),
        s.subrange(off, off + varint_bytes(x).len() as int) == varint_bytes(x),
        x < 0x10000000000000000,
    ensures
        is_varint_at(s, off, varint_bytes(x).len() as int),
        varint_at(s, off) == Some((x, varint_bytes(x).len() as int)),
{
    lemma_varint_roundtrip(x);
    let vb = varint_bytes(x);
    let n = vb.len() as int;
    assert forall|i: int| off <= i < off + n - 1 implies #[trigger] s[i] >= 128 by {
        assert(s[i] == s.subrange(off, off + n)[i - off]);
    }
    assert(s[off + n - 1] == s.subrange(off, off + n)[n - 1]);
    if n == 10 {
        assert(s[off + 9] == s.subrange(off, off + n)[9]);
    }
    lemma_varint_at_some(s, off, n);
}

/// The two bytes of `x`, most significant first.
pub open spec fn u16_be_bytes(x: u16) -> Seq<u8> {
    seq![((x >> 8) & 0xff) as u8, (x & 0xff) as u8]
}

/// The value read from two bytes, most significant first.
pub open spec fn u16_of_be(s: Seq<u8>) -> u16
    recommends
        s.len() == 2,
{
    (((s[0] as u16) << 8) | (s[1] as u16)) as u16
}

/// Reading back the two bytes of a value yields the value.
pub proof fn lemma_u16_be_roundtrip(x: u16)
    ensures
        u16_be_bytes(x).len() == 2,
        u16_of_be(u16_be_bytes(x)) == x,
{
    assert((x & 0xff) < 256 && ((x >> 8) & 0xff) < 256) by (bit_vector);
    assert(((((x >> 8) & 0xff) as u16) << 8) | ((x & 0xff) as u16) == x) by (bit_vector);
}

/// Appends the two big-endian bytes of `x` to `buf`.
pub fn put_u16_be(buf: &mut Vec<u8>, x: u16)
    ensures
        final(buf)@ == old(buf)@ + u16_be_bytes(x),
{
    buf.push(((x >> 8) & 0xff) as u8);
    buf.push((x & 0xff) as u8);
    assert(buf@ =~= old(buf)@ + u16_be_bytes(x));
}

/// Reads a big-endian `u16` from `data` at `offset`.
pub fn read_u16_be(data: &[u8], offset: usize) -> (r: u16)
    requires
        offset + 2 <= data@.len(),
    ensures
        r == u16_of_be(data@.subrange(offset as int, offset + 2)),
{
    let r = ((data[offset] as u16) << 8) | (data[offset + 1] as u16);
    proof {
        let s = data@.subrange(offset as int, offset + 2);
        assert(s[0] == data@[offset as int] && s[1] == data@[offset + 1]);
    }
    r
}

/// The two bytes of `x`, least significant first.
pub open spec fn u16_le_bytes(x: u16) -> Seq<u8> {
    seq![(x & 0xff) as u8, ((x >> 8) & 0xff) as u8]
}

/// The value read from two bytes, least significant first.
pub open spec fn u16_of_le(s: Seq<u8>) -> u16
    recommends
        s.len() == 2,
{
    ((s[0] as u16) | ((s[1] as u16) << 8)) as u16
}

/// Reading back the two bytes of a value yields the value.
pub proof fn lemma_u16_le_roundtrip(x: u16)
    ensures
        u16_le_bytes(x).len() == 2,
        u16_of_le(u16_le_bytes(x)) == x,
{
    assert((x & 0xff) < 256 && ((x >> 8) & 0xff) < 256) by (bit_vector);
    assert(((x & 0xff) as u16) | ((((x >> 8) & 0xff) as u16) << 8) == x) by (bit_vector);
}

/// Appends the two little-endian bytes of `x` to `buf`.
pub fn put_u16_le(buf: &mut Vec<u8>, x: u16)
    ensures
        final(buf)@ == old(buf)@ + u16_le_bytes(x),
{
    buf.push((x & 0xff) as u8);
    buf.push(((x >> 8) & 0xff) as u8);
    assert(buf@ =~= old(buf)@ + u16_le_bytes(x));
}

/// Reads a little-endian `u16` from `data` at `offset`.
pub fn read_u16_le(data: &[u8], offset: usize) -> (r: u16)
    requires
        offset + 2 <= data@.len(),
    ensures
        r == u16_of_le(data@.subrange(offset as int, offset + 2)),
{
    let r = (data[offset] as u16) | ((data[offset + 1] as u16) << 8);
    proof {
        let s = data@.subrange(offset as int, offset + 2);
        assert(s[0] == data@[offset as int] && s[1] == data@[offset + 1]);
    }
    r
}

/// The four bytes of `x`, least significant first.
pub open spec fn u32_le_bytes(x: u32) -> Seq<u8> {
    seq![
        (x & 0xff) as u8,
        ((x >> 8) & 0xff) as u8,
        ((x >> 16) & 0xff) as u8,
        ((x >> 24) & 0xff) as u8,
    ]
}

/// The value read from four bytes, least significant first.
pub open spec fn u32_of_le(s: Seq<u8>) -> u32
    recommends
        s.len() == 4,
{
    ((s[0] as u32) | ((s[1] as u32) << 8) | ((s[2] as u32) << 16) | ((s[3] as u32) << 24)) as u32
}

/// Reading back the four bytes of a value yields the value.
pub proof fn lemma_u32_le_roundtrip(x: u32)
    ensures
        u32_le_bytes(x).len() == 4,
        u32_of_le(u32_le_bytes(x)) == x,
{
    assert(((x >> 24) & 0xff) < 256 && ((x >> 16) & 0xff) < 256 && ((x >> 8) & 0xff) < 256 && (x
        & 0xff) < 256) by (bit_vector);
    assert(((x & 0xff) as u32) | ((((x >> 8) & 0xff) as u32) << 8) | ((((x >> 16) & 0xff) as u32)
        << 16) | ((((x >> 24) & 0xff) as u32) << 24) == x) by (bit_vector);
}

/// Appends the four little-endian bytes of `x` to `buf`.
pub fn put_u32_le(buf: &mut Vec<u8>, x: u32)
    ensures
        final(buf)@ == old(buf)@ + u32_le_bytes(x),
{
    buf.push((x & 0xff) as u8);
    buf.push(((x >> 8) & 0xff) as u8);
    buf.push(((x >> 16) & 0xff) as u8);
    buf.push(((x >> 24) & 0xff) as u8);
    assert(buf@ =~= old(buf)@ + u32_le_bytes(x));
}

/// Reads a little-endian `u32` from `data` at `offset`.
pub fn read_u32_le(data: &[u8], offset: usize) -> (r: u32)
    requires
        offset + 4 <= data@.len(),
    ensures
        r == u32_of_le(data@.subrange(offset as int, offset + 4)),
{
    let r = (data[offset] as u32) | ((data[offset + 1] as u32) << 8) | ((data[offset
        + 2] as u32) << 16) | ((data[offset + 3] as u32) << 24);
    proof {
        let s = data@.subrange(offset as int, offset + 4);
        assert(s[0] == data@[offset as int] && s[1] == data@[offset + 1] && s[2] == data@[offset
            + 2] && s[3] == data@[offset + 3]);
    }
    r
}

/// Reads a big-endian `u32` from a slice of exactly four bytes.
pub fn bytes_to_u32(src: &[u8]) -> (r: u32)
    requires
        src@.len() == 4,
    ensures
        r == u32_of_be(src@),
{
    let r = read_u32_be(src, 0);
    proof {
        assert(src@.subrange(0, 4) =~= src@);
    }
    r
}

/// Reads a slice whose length is a multiple of four as big-endian words.
pub fn bytes_to_u32_vec(src: &[u8]) -> (r: Vec<u32>)
    requires
        src@.len() % 4 == 0,
    ensures
        r@.len() * 4 == src@.len(),
        forall|i: int|
            0 <= i < r@.len() ==> r@[i] == u32_of_be(src@.subrange(4 * i, 4 * i + 4)),
{
    let slen = src.len();
    let n = slen / 4;
    let mut out: Vec<u32> = Vec::new();
    let mut i: usize = 0;
    while i < n
        invariant
            slen == src@.len(),
            n * 4 == src@.len(),
            i <= n,
            out@.len() == i,
            forall|j: int|
                0 <= j < i ==> out@[j] == u32_of_be(src@.subrange(4 * j, 4 * j + 4)),
        decreases n - i,
    {
        out.push(read_u32_be(src, 4 * i));
        i = i + 1;
    }
    out
}

// ---------------------------------------------------------------------------
// Decimal text: transaction end markers carry their commit timestamp as a
// decimal string.
// ---------------------------------------------------------------------------

/// The decimal digits of `x`, most significant first.
pub open spec fn dec_bytes(x: nat) -> Seq<u8>
    decreases x,
{
    if x < 10 {
        seq![(0x30 + x) as u8]
    } else {
        dec_bytes(x / 10).push((0x30 + x % 10) as u8)
    }
}

/// The value of a digit string read most significant first, by Horner.
pub open spec fn dec_value(s: Seq<u8>) -> nat
    decreases s.len(),
{
    if s.len() == 0 {
        0
    } else {
        (10 * dec_value(s.drop_last()) + (s.last() - 0x30)) as nat
    }
}

/// A string of decimal digits.
pub open spec fn all_digits(s: Seq<u8>) -> bool {
    forall|i: int| 0 <= i < s.len() ==> 0x30 <= #[trigger] s[i] <= 0x39
}

/// The digits of a value read back as that value.
pub proof fn lemma_dec_roundtrip(x: nat)
    ensures
        dec_value(dec_bytes(x)) == x,
        all_digits(dec_bytes(x)),
        1 <= dec_bytes(x).len(),
        x < 0x10000000000000000 ==> dec_bytes(x).len() <= 20,
    decreases x,
{
    if x < 10 {
        let s = dec_bytes(x);
        assert(s =~= seq![(0x30 + x) as u8]);
        assert(s.drop_last() =~= Seq::<u8>::empty());
        assert(dec_value(s.drop_last()) == 0);
        assert(dec_value(s) == (10 * 0 + (s.last() - 0x30)) as nat);
    } else {
        lemma_dec_roundtrip(x / 10);
        let s = dec_bytes(x);
        assert(s.drop_last() =~= dec_bytes(x / 10));
        assert(s.last() == (0x30 + x % 10) as u8);
        assert(10 * (x / 10) + x % 10 == x) by (nonlinear_arith);
        assert(dec_value(s) == (10 * dec_value(s.drop_last()) + (s.last() - 0x30)) as nat);
        if x < 0x10000000000000000 {
            assert(x < pow10(20)) by {
                reveal_with_fuel(pow10, 21);
            }
            lemma_dec_len(x, 20);
        }
    }
}

/// A value below `10^n` prints in at most `n` digits.
proof fn lemma_dec_len(x: nat, n: nat)
    requires
        n >= 1,
        x < pow10(n),
    ensures
        dec_bytes(x).len() <= n,
    decreases n,
{
    reveal_with_fuel(pow10, 21);
    if x < 10 {
    } else {
        assert(pow10(n) == 10 * pow10((n - 1) as nat));
        assert(x / 10 < pow10((n - 1) as nat)) by (nonlinear_arith)
            requires
                x < 10 * pow10((n - 1) as nat),
        ;
        lemma_dec_len(x / 10, (n - 1) as nat);
    }
}

/// Powers of ten.
pub open spec fn pow10(n: nat) -> nat
    decreases n,
{
    if n == 0 {
        1
    } else {
        10 * pow10((n - 1) as nat)
    }
}

/// Renders `x` as decimal digits.
pub fn u64_to_dec(x: u64) -> (r: Vec<u8>)
    ensures
        r@ == dec_bytes(x as nat),
    decreases x,
{
    if x < 10 {
        let mut r: Vec<u8> = Vec::new();
        r.push((0x30 + x) as u8);
        proof {
            assert(r@ =~= dec_bytes(x as nat));
        }
        r
    } else {
        let mut r = u64_to_dec(x / 10);
        r.push((0x30 + (x % 10)) as u8);
        r
    }
}

/// Parses a decimal string: every byte a digit, at least one, and the
/// value within 64 bits; `None` otherwise.
pub fn parse_u64_dec(data: &[u8]) -> (r: Option<u64>)
    ensures
        match r {
            Some(v) => {
                &&& all_digits(data@)
                &&& data@.len() >= 1
                &&& v as nat == dec_value(data@)
            },
            None => !(all_digits(data@) && 1 <= data@.len() && dec_value(data@)
                < 0x10000000000000000),
        },
{
    let n = data.len();
    if n == 0 {
        return None;
    }
    let mut v: u64 = 0;
    let mut i: usize = 0;
    while i < n
        invariant
            n == data@.len(),
            i <= n,
            all_digits(data@.take(i as int)),
            v as nat == dec_value(data@.take(i as int)),
        decreases n - i,
    {
        let b = data[i];
        if b < 0x30 || b > 0x39 {
            proof {
                assert(data@[i as int] == b);
            }
            return None;
        }
        let d = (b - 0x30) as u64;
        if v > 0xffff_ffff_ffff_ffff / 10 {
            proof {
                if all_digits(data@) {
                    lemma_dec_value_mono(data@.take(i as int), data@);
                }
            }
            return None;
        }
        let v10 = v * 10;
        if d > u64::MAX - v10 {
            proof {
                if all_digits(data@) {
                    let t = data@.take(i + 1);
                    assert(t.drop_last() =~= data@.take(i as int));
                    assert(t.last() == data@[i as int]);
                    assert(dec_value(t) == v10 + d);
                    lemma_dec_value_mono(t, data@);
                }
            }
            return None;
        }
        v = v10 + d;
        proof {
            let t = data@.take(i + 1);
            assert(t.drop_last() =~= data@.take(i as int));
            assert(t.last() == data@[i as int]);
        }
        i = i + 1;
    }
    proof {
        assert(data@.take(n as int) =~= data@);
    }
    Some(v)
}

/// A digit string's value only grows as digits are appended; one more
/// digit multiplies it by at least ten.
proof fn lemma_dec_value_mono(prefix: Seq<u8>, whole: Seq<u8>)
    requires
        prefix.len() <= whole.len(),
        forall|i: int| 0 <= i < prefix.len() ==> prefix[i] == whole[i],
        all_digits(whole),
    ensures
        dec_value(whole) >= dec_value(prefix),
        whole.len() > prefix.len() ==> dec_value(whole) >= 10 * dec_value(prefix),
    decreases whole.len(),
{
    if whole.len() > prefix.len() {
        assert forall|i: int|
            0 <= i < whole.drop_last().len() implies 0x30 <= #[trigger] whole.drop_last()[i]
            <= 0x39 by {
            assert(whole.drop_last()[i] == whole[i]);
        }
        lemma_dec_value_mono(prefix, whole.drop_last());
        let a = dec_value(whole.drop_last());
        let b = dec_value(prefix);
        assert(whole[whole.len() - 1] >= 0x30);
        assert(dec_value(whole) == 10 * a + (whole.last() - 0x30));
        assert(10 * a >= 10 * b) by (nonlinear_arith)
            requires
                a >= b,
        ;
    } else {
        assert(prefix =~= whole);
    }
}

/// For digit positions below nine, the place value stays below `2^56`, so one
/// more digit cannot overflow 64 bits.
proof fn lemma_pow128_bound(n: nat)
    requires
        n <= 9,
    ensures
        pow128(n) <= 0x8000000000000000,
        n <= 8 ==> pow128(n) <= 0x100000000000000,
{
    reveal_with_fuel(pow128, 11);
    assert(pow128(0) == 1 && pow128(1) == 128 && pow128(2) == 0x4000 && pow128(3) == 0x200000
        && pow128(4) == 0x10000000 && pow128(5) == 0x800000000 && pow128(6) == 0x40000000000
        && pow128(7) == 0x2000000000000 && pow128(8) == 0x100000000000000 && pow128(9)
        == 0x8000000000000000);
}

} // verus!
