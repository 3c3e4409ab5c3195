//! Names of the store's files: `<fid>.sst` for tables, zero-padded, and
//! the parsing back of table ids from directory listings.

use vstd::prelude::*;

use vstd::string::StringSliceAdditionalSpecFns;

use crate::codec::{all_digits, dec_bytes, dec_value, parse_u64_dec, u64_to_dec};
use crate::error::Error;

verus! {

/// The characters of an ASCII byte string.
pub open spec fn ascii_view(bytes: Seq<u8>) -> Seq<char> {
    Seq::new(bytes.len(), |i: int| bytes[i] as char)
}

/// Relies on `String::from_utf8`: ASCII bytes form valid UTF-8 and come
/// back as exactly those characters.
#[verifier::external_body]
fn bytes_to_string(v: Vec<u8>) -> (r: String)
    ensures
        (forall|i: int| 0 <= i < v@.len() ==> v@[i] < 128) ==> r@ == ascii_view(v@),
{
    match String::from_utf8(v) {
        Ok(s) => s,
        Err(_) => String::new(),
    }
}

/// The decimal digits of `id`, left-padded with zeros to at least `width`
/// digits.
pub open spec fn padded_dec(id: u64, width: int) -> Seq<u8> {
    let d = dec_bytes(id as nat);
    if d.len() >= width {
        d
    } else {
        Seq::new((width - d.len()) as nat, |i: int| 0x30u8) + d
    }
}

/// The byte suffix `.sst`.
pub open spec fn sst_suffix() -> Seq<u8> {
    seq![0x2eu8, 0x73u8, 0x73u8, 0x74u8]
}

/// Builds the padded decimal bytes of `id` followed by `.sst`.
fn sst_name_bytes(id: u64, width: usize) -> (r: Vec<u8>)
    requires
        width <= 8,
    ensures
        r@ == padded_dec(id, width as int) + sst_suffix(),
        forall|i: int| 0 <= i < r@.len() ==> r@[i] < 128,
{
    let d = u64_to_dec(id);
    proof {
        crate::codec::lemma_dec_roundtrip(id as nat);
    }
    let mut v: Vec<u8> = Vec::new();
    let mut pad: usize = 0;
    let need: usize = if d.len() >= width {
        0
    } else {
        width - d.len()
    };
    while pad < need
        invariant
            pad <= need,
            v@.len() == pad,
            forall|i: int| 0 <= i < pad ==> v@[i] == 0x30u8,
        decreases need - pad,
    {
        v.push(0x30);
        pad = pad + 1;
    }
    crate::codec::extend_from(&mut v, d.as_slice());
    v.push(0x2e);
    v.push(0x73);
    v.push(0x73);
    v.push(0x74);
    proof {
        assert(v@ =~= padded_dec(id, width as int) + sst_suffix());
        assert(crate::codec::all_digits(dec_bytes(id as nat)));
    }
    v
}

/// The file name of table `id`: its decimal digits, at least five, then
/// `.sst`.
pub fn id_to_filename(id: u64) -> (r: String)
    ensures
        r@ == ascii_view(padded_dec(id, 5) + sst_suffix()),
{
    let v = sst_name_bytes(id, 5);
    bytes_to_string(v)
}

/// The path of table `id` inside `dir`: the directory's bytes, a slash,
/// and the table's file name, read back as characters when the directory
/// is plain ASCII.
pub fn new_filename(id: u64, dir: &str) -> (r: String)
    ensures
        (forall|i: int|
            0 <= i < dir.spec_bytes().len() ==> dir.spec_bytes()[i] < 128) ==> r@ == ascii_view(
            dir.spec_bytes() + seq![0x2fu8] + padded_dec(id, 5) + sst_suffix(),
        ),
{
    let mut v: Vec<u8> = Vec::new();
    let db = dir.as_bytes();
    crate::codec::extend_from(&mut v, db);
    v.push(0x2f);
    let name = sst_name_bytes(id, 5);
    crate::codec::extend_from(&mut v, name.as_slice());
    proof {
        assert(v@ =~= dir.spec_bytes() + seq![0x2fu8] + padded_dec(id, 5) + sst_suffix());
    }
    bytes_to_string(v)
}

/// Parses a table id from a file name: decimal digits followed by `.sst`,
/// the value nonzero and within 64 bits. `Err` exactly when the name has
/// another shape.
pub fn parse_file_id(name: &str) -> (r: Result<u64, Error>)
    ensures
        ({
            let b = name.spec_bytes();
            match r {
                Ok(id) => {
                    &&& b.len() >= 5
                    &&& b.subrange(b.len() - 4, b.len() as int) == sst_suffix()
                    &&& all_digits(b.take(b.len() - 4))
                    &&& id as nat == dec_value(b.take(b.len() - 4))
                    &&& id > 0
                },
                Err(e) => {
                    &&& e == Error::BadFileName
                    &&& !(b.len() >= 5 && b.subrange(b.len() - 4, b.len() as int) == sst_suffix()
                        && all_digits(b.take(b.len() - 4)) && 1 <= dec_value(b.take(b.len() - 4))
                        < 0x10000000000000000)
                },
            }
        }),
{
    let bytes = name.as_bytes();
    let n = bytes.len();
    if n < 5 {
        return Err(Error::BadFileName);
    }
    if !(bytes[n - 4] == 0x2e && bytes[n - 3] == 0x73 && bytes[n - 2] == 0x73 && bytes[n - 1]
        == 0x74) {
        proof {
            let b = name.spec_bytes();
            if b.subrange(b.len() - 4, b.len() as int) == sst_suffix() {
                assert(b[b.len() - 4] == b.subrange(b.len() - 4, b.len() as int)[0]);
                assert(b[b.len() - 3] == b.subrange(b.len() - 4, b.len() as int)[1]);
                assert(b[b.len() - 2] == b.subrange(b.len() - 4, b.len() as int)[2]);
                assert(b[b.len() - 1] == b.subrange(b.len() - 4, b.len() as int)[3]);
            }
        }
        return Err(Error::BadFileName);
    }
    proof {
        assert(name.spec_bytes().subrange(
            name.spec_bytes().len() - 4,
            name.spec_bytes().len() as int,
        ) =~= sst_suffix());
    }
    let stem = vstd::slice::slice_subrange(bytes, 0, n - 4);
    proof {
        assert(stem@ =~= name.spec_bytes().take(name.spec_bytes().len() - 4));
    }
    let id = match parse_u64_dec(stem) {
        Some(v) => v,
        None => {
            return Err(Error::BadFileName);
        },
    };
    if id == 0 {
        return Err(Error::BadFileName);
    }
    Ok(id)
}

} // verus!
