//! Internal-key encoding. A stored key is the user key followed by eight
//! big-endian bytes of `u64::MAX - version`, so that for one user key a
//! larger version sorts strictly before a smaller one.

use vstd::prelude::*;

use crate::codec::{put_u64_be, read_u64_be, u64_be_bytes, u64_of_be};

verus! {

/// Lexicographic comparison of two byte strings; a strict prefix sorts first.
pub open spec fn lex_cmp(a: Seq<u8>, b: Seq<u8>) -> core::cmp::Ordering
    decreases a.len(),
{
    if a.len() == 0 && b.len() == 0 {
        core::cmp::Ordering::Equal
    } else if a.len() == 0 {
        core::cmp::Ordering::Less
    } else if b.len() == 0 {
        core::cmp::Ordering::Greater
    } else if a[0] < b[0] {
        core::cmp::Ordering::Less
    } else if a[0] > b[0] {
        core::cmp::Ordering::Greater
    } else {
        lex_cmp(a.drop_first(), b.drop_first())
    }
}

/// A byte string compares equal to itself.
pub proof fn lemma_lex_cmp_refl(a: Seq<u8>)
    ensures
        lex_cmp(a, a) == core::cmp::Ordering::Equal,
    decreases a.len(),
{
    if a.len() > 0 {
        lemma_lex_cmp_refl(a.drop_first());
    }
}

/// Comparing equal strings yields `Equal` only when they are the same string.
pub proof fn lemma_lex_cmp_eq(a: Seq<u8>, b: Seq<u8>)
    requires
        lex_cmp(a, b) == core::cmp::Ordering::Equal,
    ensures
        a == b,
    decreases a.len(),
{
    if a.len() == 0 && b.len() == 0 {
        assert(a =~= b);
    } else {
        lemma_lex_cmp_eq(a.drop_first(), b.drop_first());
        assert(a =~= seq![a[0]] + a.drop_first());
        assert(b =~= seq![b[0]] + b.drop_first());
    }
}

/// Dropping an equal prefix does not change the comparison.
pub proof fn lemma_lex_cmp_skip(a: Seq<u8>, b: Seq<u8>, i: int)
    requires
        0 <= i <= a.len(),
        i <= b.len(),
        forall|j: int| 0 <= j < i ==> a[j] == b[j],
    ensures
        lex_cmp(a, b) == lex_cmp(a.skip(i), b.skip(i)),
    decreases i,
{
    if i > 0 {
        assert(a.len() > 0 && b.len() > 0 && a[0] == b[0]);
        lemma_lex_cmp_skip(a.drop_first(), b.drop_first(), i - 1);
        assert(a.drop_first().skip(i - 1) =~= a.skip(i));
        assert(b.drop_first().skip(i - 1) =~= b.skip(i));
    } else {
        assert(a.skip(0) =~= a);
        assert(b.skip(0) =~= b);
    }
}

/// Lexicographic order is transitive.
pub proof fn lemma_lex_cmp_trans(a: Seq<u8>, b: Seq<u8>, c: Seq<u8>)
    requires
        lex_cmp(a, b) == core::cmp::Ordering::Less,
        lex_cmp(b, c) == core::cmp::Ordering::Less,
    ensures
        lex_cmp(a, c) == core::cmp::Ordering::Less,
    decreases a.len() + b.len() + c.len(),
{
    if a.len() == 0 {
        assert(b.len() > 0);
        assert(c.len() > 0);
    } else {
        assert(b.len() > 0 && c.len() > 0);
        if a[0] == b[0] && b[0] == c[0] {
            lemma_lex_cmp_trans(a.drop_first(), b.drop_first(), c.drop_first());
        }
    }
}

/// Swapping the arguments swaps `Less` and `Greater`.
pub proof fn lemma_lex_cmp_antisym(a: Seq<u8>, b: Seq<u8>)
    ensures
        (lex_cmp(a, b) == core::cmp::Ordering::Less) <==> (lex_cmp(b, a)
            == core::cmp::Ordering::Greater),
    decreases a.len(),
{
    if a.len() > 0 && b.len() > 0 && a[0] == b[0] {
        lemma_lex_cmp_antisym(a.drop_first(), b.drop_first());
    }
}

/// The big-endian bytes of a smaller value sort lexicographically first.
pub proof fn lemma_u64_be_lex(x: u64, y: u64)
    requires
        x < y,
    ensures
        lex_cmp(u64_be_bytes(x), u64_be_bytes(y)) == core::cmp::Ordering::Less,
{
    let a = u64_be_bytes(x);
    let b = u64_be_bytes(y);
    assert(((x >> 56) & 0xff) < 256 && ((x >> 48) & 0xff) < 256 && ((x >> 40) & 0xff) < 256 && ((x
        >> 32) & 0xff) < 256 && ((x >> 24) & 0xff) < 256 && ((x >> 16) & 0xff) < 256 && ((x >> 8)
        & 0xff) < 256 && (x & 0xff) < 256) by (bit_vector);
    assert(((y >> 56) & 0xff) < 256 && ((y >> 48) & 0xff) < 256 && ((y >> 40) & 0xff) < 256 && ((y
        >> 32) & 0xff) < 256 && ((y >> 24) & 0xff) < 256 && ((y >> 16) & 0xff) < 256 && ((y >> 8)
        & 0xff) < 256 && (y & 0xff) < 256) by (bit_vector);
    assert(a.len() == 8 && b.len() == 8);
    if a[0] != b[0] {
        assert((x >> 56) & 0xff != (y >> 56) & 0xff && x < y ==> (x >> 56) & 0xff < (y >> 56)
            & 0xff) by (bit_vector);
    } else if a[1] != b[1] {
        assert((x >> 56) & 0xff == (y >> 56) & 0xff && (x >> 48) & 0xff != (y >> 48) & 0xff && x
            < y ==> (x >> 48) & 0xff < (y >> 48) & 0xff) by (bit_vector);
        lemma_lex_cmp_skip(a, b, 1);
    } else if a[2] != b[2] {
        assert((x >> 56) & 0xff == (y >> 56) & 0xff && (x >> 48) & 0xff == (y >> 48) & 0xff && (x
            >> 40) & 0xff != (y >> 40) & 0xff && x < y ==> (x >> 40) & 0xff < (y >> 40) & 0xff)
            by (bit_vector);
        lemma_lex_cmp_skip(a, b, 2);
    } else if a[3] != b[3] {
        assert((x >> 56) & 0xff == (y >> 56) & 0xff && (x >> 48) & 0xff == (y >> 48) & 0xff && (x
            >> 40) & 0xff == (y >> 40) & 0xff && (x >> 32) & 0xff != (y >> 32) & 0xff && x < y ==> (
        x >> 32) & 0xff < (y >> 32) & 0xff) by (bit_vector);
        lemma_lex_cmp_skip(a, b, 3);
    } else if a[4] != b[4] {
        assert((x >> 56) & 0xff == (y >> 56) & 0xff && (x >> 48) & 0xff == (y >> 48) & 0xff && (x
            >> 40) & 0xff == (y >> 40) & 0xff && (x >> 32) & 0xff == (y >> 32) & 0xff && (x >> 24)
            & 0xff != (y >> 24) & 0xff && x < y ==> (x >> 24) & 0xff < (y >> 24) & 0xff)
            by (bit_vector);
        lemma_lex_cmp_skip(a, b, 4);
    } else if a[5] != b[5] {
        assert((x >> 56) & 0xff == (y >> 56) & 0xff && (x >> 48) & 0xff == (y >> 48) & 0xff && (x
            >> 40) & 0xff == (y >> 40) & 0xff && (x >> 32) & 0xff == (y >> 32) & 0xff && (x >> 24)
            & 0xff == (y >> 24) & 0xff && (x >> 16) & 0xff != (y >> 16) & 0xff && x < y ==> (x
            >> 16) & 0xff < (y >> 16) & 0xff) by (bit_vector);
        lemma_lex_cmp_skip(a, b, 5);
    } else if a[6] != b[6] {
        assert((x >> 56) & 0xff == (y >> 56) & 0xff && (x >> 48) & 0xff == (y >> 48) & 0xff && (x
            >> 40) & 0xff == (y >> 40) & 0xff && (x >> 32) & 0xff == (y >> 32) & 0xff && (x >> 24)
            & 0xff == (y >> 24) & 0xff && (x >> 16) & 0xff == (y >> 16) & 0xff && (x >> 8) & 0xff
            != (y >> 8) & 0xff && x < y ==> (x >> 8) & 0xff < (y >> 8) & 0xff) by (bit_vector);
        lemma_lex_cmp_skip(a, b, 6);
    } else if a[7] != b[7] {
        assert((x >> 56) & 0xff == (y >> 56) & 0xff && (x >> 48) & 0xff == (y >> 48) & 0xff && (x
            >> 40) & 0xff == (y >> 40) & 0xff && (x >> 32) & 0xff == (y >> 32) & 0xff && (x >> 24)
            & 0xff == (y >> 24) & 0xff && (x >> 16) & 0xff == (y >> 16) & 0xff && (x >> 8) & 0xff
            == (y >> 8) & 0xff && x & 0xff != y & 0xff && x < y ==> x & 0xff < y & 0xff)
            by (bit_vector);
        lemma_lex_cmp_skip(a, b, 7);
    } else {
        assert((x >> 56) & 0xff == (y >> 56) & 0xff && (x >> 48) & 0xff == (y >> 48) & 0xff && (x
            >> 40) & 0xff == (y >> 40) & 0xff && (x >> 32) & 0xff == (y >> 32) & 0xff && (x >> 24)
            & 0xff == (y >> 24) & 0xff && (x >> 16) & 0xff == (y >> 16) & 0xff && (x >> 8) & 0xff
            == (y >> 8) & 0xff && x & 0xff == y & 0xff ==> x == y) by (bit_vector);
    }
}

/// The stored form of `user_key` at `version`.
pub open spec fn internal_key(user_key: Seq<u8>, version: u64) -> Seq<u8> {
    user_key + u64_be_bytes((u64::MAX - version) as u64)
}

/// The user-key part of a stored key.
pub open spec fn spec_parse_key(key: Seq<u8>) -> Seq<u8> {
    if key.len() == 0 {
        Seq::empty()
    } else {
        key.take(key.len() - 8)
    }
}

/// The version part of a stored key; a key shorter than eight bytes carries
/// no version.
pub open spec fn spec_parse_ts(key: Seq<u8>) -> u64 {
    if key.len() < 8 {
        0
    } else {
        (u64::MAX - u64_of_be(key.skip(key.len() - 8))) as u64
    }
}

/// Ordering of two stored keys: by user key first, then by the version bytes,
/// so for one user key a larger version sorts first.
pub open spec fn key_cmp(a: Seq<u8>, b: Seq<u8>) -> core::cmp::Ordering {
    match lex_cmp(a.take(a.len() - 8), b.take(b.len() - 8)) {
        core::cmp::Ordering::Equal => lex_cmp(a.skip(a.len() - 8), b.skip(b.len() - 8)),
        o => o,
    }
}

/// Appends the version bytes to `key`, producing the stored form.
pub fn key_with_ts(key: Vec<u8>, ts: u64) -> (r: Vec<u8>)
    ensures
        r@ == internal_key(key@, ts),
{
    let mut k = key;
    put_u64_be(&mut k, u64::MAX - ts);
    k
}

/// Strips the version bytes, recovering the user key. An empty slice yields
/// an empty key; any other stored key carries at least the eight version
/// bytes.
pub fn parse_key(key: &[u8]) -> (r: Vec<u8>)
    requires
        key@.len() == 0 || key@.len() >= 8,
    ensures
        r@ == spec_parse_key(key@),
{
    let len = key.len();
    if len == 0 {
        return Vec::new();
    }
    let mut r: Vec<u8> = Vec::new();
    let mut i: usize = 0;
    while i < len - 8
        invariant
            len == key@.len(),
            8 <= len,
            i <= len - 8,
            r@ == key@.take(i as int),
        decreases len - 8 - i,
    {
        r.push(key[i]);
        proof {
            assert(key@.take(i + 1) =~= key@.take(i as int).push(key@[i as int]));
        }
        i = i + 1;
    }
    r
}

/// Reads the version out of a stored key; zero when the key is too short to
/// carry one.
pub fn parse_ts(key: &Vec<u8>) -> (r: u64)
    ensures
        r == spec_parse_ts(key@),
{
    let len = key.len();
    if len < 8 {
        return 0;
    }
    let v = read_u64_be(key.as_slice(), len - 8);
    proof {
        assert(key@.subrange(len - 8, len as int) =~= key@.skip(len - 8));
    }
    u64::MAX - v
}

/// Lexicographically compares `a[astart..aend]` with `b[bstart..bend]`.
fn cmp_range(a: &[u8], astart: usize, aend: usize, b: &[u8], bstart: usize, bend: usize) -> (r:
    core::cmp::Ordering)
    requires
        astart <= aend <= a@.len(),
        bstart <= bend <= b@.len(),
    ensures
        r == lex_cmp(a@.subrange(astart as int, aend as int), b@.subrange(bstart as int, bend as int)),
{
    let ghost sa = a@.subrange(astart as int, aend as int);
    let ghost sb = b@.subrange(bstart as int, bend as int);
    let mut i: usize = 0;
    loop
        invariant
            astart <= aend <= a@.len(),
            bstart <= bend <= b@.len(),
            sa == a@.subrange(astart as int, aend as int),
            sb == b@.subrange(bstart as int, bend as int),
            i <= sa.len(),
            i <= sb.len(),
            forall|j: int| 0 <= j < i ==> sa[j] == sb[j],
        decreases sa.len() - i,
    {
        proof {
            lemma_lex_cmp_skip(sa, sb, i as int);
        }
        if astart + i >= aend && bstart + i >= bend {
            proof {
                assert(sa.skip(i as int).len() == 0 && sb.skip(i as int).len() == 0);
            }
            return core::cmp::Ordering::Equal;
        }
        if astart + i >= aend {
            proof {
                assert(sa.skip(i as int).len() == 0 && sb.skip(i as int).len() > 0);
            }
            return core::cmp::Ordering::Less;
        }
        if bstart + i >= bend {
            proof {
                assert(sb.skip(i as int).len() == 0 && sa.skip(i as int).len() > 0);
            }
            return core::cmp::Ordering::Greater;
        }
        let x = a[astart + i];
        let y = b[bstart + i];
        proof {
            assert(sa.skip(i as int)[0] == sa[i as int] && sa[i as int] == a@[astart + i]);
            assert(sb.skip(i as int)[0] == sb[i as int] && sb[i as int] == b@[bstart + i]);
        }
        if x < y {
            return core::cmp::Ordering::Less;
        }
        if x > y {
            return core::cmp::Ordering::Greater;
        }
        i = i + 1;
    }
}

/// Lexicographically compares two byte strings.
pub fn cmp_bytes(a: &[u8], b: &[u8]) -> (r: core::cmp::Ordering)
    ensures
        r == lex_cmp(a@, b@),
{
    let r = cmp_range(a, 0, a.len(), b, 0, b.len());
    proof {
        assert(a@.subrange(0, a@.len() as int) =~= a@);
        assert(b@.subrange(0, b@.len() as int) =~= b@);
    }
    r
}

/// Compares two stored keys: user-key part first, then the version bytes.
pub fn compare_keys(a: &[u8], b: &[u8]) -> (r: core::cmp::Ordering)
    requires
        a@.len() >= 8,
        b@.len() >= 8,
    ensures
        r == key_cmp(a@, b@),
{
    let alen = a.len();
    let blen = b.len();
    let user = cmp_range(a, 0, alen - 8, b, 0, blen - 8);
    proof {
        assert(a@.subrange(0, alen - 8) =~= a@.take(alen - 8));
        assert(b@.subrange(0, blen - 8) =~= b@.take(blen - 8));
        assert(a@.subrange(alen - 8, alen as int) =~= a@.skip(alen - 8));
        assert(b@.subrange(blen - 8, blen as int) =~= b@.skip(blen - 8));
    }
    match user {
        core::cmp::Ordering::Equal => cmp_range(a, alen - 8, alen, b, blen - 8, blen),
        o => o,
    }
}

/// Round trip of the key encoding: the stored form of a user key and version
/// parses back to the same user key and the same version.
pub proof fn lemma_key_roundtrip(user_key: Seq<u8>, version: u64)
    ensures
        spec_parse_key(internal_key(user_key, version)) == user_key,
        spec_parse_ts(internal_key(user_key, version)) == version,
{
    let k = internal_key(user_key, version);
    crate::codec::lemma_u64_be_roundtrip((u64::MAX - version) as u64);
    assert(k.take(k.len() - 8) =~= user_key);
    assert(k.skip(k.len() - 8) =~= u64_be_bytes((u64::MAX - version) as u64));
    if user_key.len() == 0 {
        assert(spec_parse_key(k) =~= user_key);
    }
}

/// For one user key, the stored form of a larger version sorts strictly
/// before the stored form of a smaller version.
pub proof fn lemma_version_ordering(user_key: Seq<u8>, v1: u64, v2: u64)
    requires
        v1 > v2,
    ensures
        key_cmp(internal_key(user_key, v1), internal_key(user_key, v2))
            == core::cmp::Ordering::Less,
{
    let a = internal_key(user_key, v1);
    let b = internal_key(user_key, v2);
    assert(a.take(a.len() - 8) =~= user_key);
    assert(b.take(b.len() - 8) =~= user_key);
    lemma_lex_cmp_refl(user_key);
    assert(a.skip(a.len() - 8) =~= u64_be_bytes((u64::MAX - v1) as u64));
    assert(b.skip(b.len() - 8) =~= u64_be_bytes((u64::MAX - v2) as u64));
    lemma_u64_be_lex((u64::MAX - v1) as u64, (u64::MAX - v2) as u64);
}

} // verus!
