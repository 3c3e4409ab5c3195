//! CRC32C (Castagnoli) checksums, and the small checksum record that blocks,
//! table indexes and manifest change sets carry beside their payload.

use vstd::prelude::*;

use crate::codec::{is_varint_at, lemma_varint_roundtrip, put_varint, get_varint, varint_bytes, varint_value};
use crate::error::Error;

verus! {

/// The CRC32C checksum of a byte string. The polynomial's table makes the
/// value impractical to state; it depends on the bytes alone.
pub uninterp spec fn crc32c_of(data: Seq<u8>) -> u32;

/// Relies on `crc::Crc::<u32>::checksum` with the Castagnoli parameters
/// (`crc-catalog`'s `CRC_32_ISCSI`): the checksum is computed from the input
/// bytes alone.
#[verifier::external_body]
pub(crate) fn crc32c(data: &[u8]) -> (r: u32)
    ensures
        r == crc32c_of(data@),
{
    crc::Crc::<u32>::new(&crc::CRC_32_ISCSI).checksum(data)
}

/// The checksum algorithms a stored checksum record can name.
#[derive(Clone, Copy, Debug, PartialEq, Eq, Structural)]
pub enum Algorithm {
    Crc32c,
    XxHash64,
}

/// A checksum record: the algorithm and the sum it produced.
#[derive(Clone, Copy, Debug, PartialEq, Eq, Structural)]
pub struct Checksum {
    pub algo: Algorithm,
    pub sum: u64,
}

/// Computes the named checksum over `data`. Only CRC32C is implemented; the
/// caller must not ask for anything else.
pub fn calculate_checksum(data: &[u8], ca: Algorithm) -> (r: u64)
    requires
        ca == Algorithm::Crc32c,
    ensures
        r == crc32c_of(data@) as u64,
{
    crc32c(data) as u64
}

/// Checks `data` against a stored checksum record; `Ok` exactly when the
/// recomputed sum equals the recorded one.
pub fn verify_checksum(data: &Vec<u8>, expected: Checksum) -> (r: Result<(), Error>)
    requires
        expected.algo == Algorithm::Crc32c,
    ensures
        r is Ok <==> crc32c_of(data@) as u64 == expected.sum,
        r is Err ==> r == Result::<(), Error>::Err(Error::ChecksumMismatch),
{
    let actual = calculate_checksum(data.as_slice(), expected.algo);
    if actual != expected.sum {
        return Err(Error::ChecksumMismatch);
    }
    Ok(())
}

/// The stored form of a checksum record: one algorithm tag byte, then the
/// sum as a varint.
pub open spec fn checksum_bytes(cs: Checksum) -> Seq<u8> {
    seq![algo_tag(cs.algo)] + varint_bytes(cs.sum as nat)
}

/// The tag byte an algorithm is stored as.
pub open spec fn algo_tag(a: Algorithm) -> u8 {
    match a {
        Algorithm::Crc32c => 0,
        Algorithm::XxHash64 => 1,
    }
}

/// Appends the stored form of `cs` to `buf`.
pub fn encode_checksum(buf: &mut Vec<u8>, cs: Checksum)
    ensures
        final(buf)@ == old(buf)@ + checksum_bytes(cs),
{
    match cs.algo {
        Algorithm::Crc32c => buf.push(0),
        Algorithm::XxHash64 => buf.push(1),
    }
    put_varint(buf, cs.sum);
    assert(buf@ =~= old(buf)@ + checksum_bytes(cs));
}

/// A byte string that holds exactly one checksum record: a known tag byte,
/// then a varint that ends at the end of the string.
pub open spec fn checksum_wf(s: Seq<u8>) -> bool {
    &&& s.len() >= 2
    &&& (s[0] == 0 || s[0] == 1)
    &&& is_varint_at(s, 1, s.len() - 1)
}

/// Reads a checksum record back out of `data`; `None` exactly when `data`
/// does not hold one.
pub fn decode_checksum(data: &[u8]) -> (r: Option<Checksum>)
    ensures
        r is Some <==> checksum_wf(data@),
        match r {
            Some(cs) => {
                &&& data@[0] == algo_tag(cs.algo)
                &&& cs.sum as nat == varint_value(data@.skip(1))
            },
            None => true,
        },
{
    if data.len() < 2 {
        return None;
    }
    let algo = match data[0] {
        0 => Algorithm::Crc32c,
        1 => Algorithm::XxHash64,
        _ => {
            return None;
        },
    };
    match get_varint(data, 1) {
        Some((sum, n)) => {
            if 1 + n != data.len() {
                proof {
                    if checksum_wf(data@) {
                        assert(data@[1 + n - 1] < 128);
                    }
                }
                return None;
            }
            proof {
                assert(data@.subrange(1, 1 + n as int) =~= data@.skip(1));
            }
            Some(Checksum { algo, sum })
        },
        None => None,
    }
}

/// Decoding inverts encoding: the stored form of a checksum record reads
/// back as that record.
pub proof fn lemma_checksum_roundtrip(cs: Checksum)
    ensures
        checksum_bytes(cs)[0] == algo_tag(cs.algo),
        is_varint_at(checksum_bytes(cs), 1, checksum_bytes(cs).len() - 1),
        varint_value(checksum_bytes(cs).skip(1)) == cs.sum as nat,
{
    lemma_varint_roundtrip(cs.sum as nat);
    let s = checksum_bytes(cs);
    let vb = varint_bytes(cs.sum as nat);
    assert(s.skip(1) =~= vb);
    assert forall|i: int| 1 <= i < s.len() - 1 implies #[trigger] s[i] >= 128 by {
        assert(s[i] == vb[i - 1]);
    }
    assert(s[s.len() - 1] == vb[vb.len() - 1]);
    if s.len() - 1 == 10 {
        assert(s[10] == vb[9]);
    }
}

} // verus!
