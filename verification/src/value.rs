//! The value as a memtable or sorted-table entry stores it: meta bytes, an
//! expiry, and the value bytes (or an encoded value pointer).

use vstd::prelude::*;

use vstd::slice::{slice_subrange, slice_to_vec};

use crate::codec::{
    get_varint, is_varint_at, lemma_varint_at_some, lemma_varint_embed, lemma_varint_roundtrip,
    put_varint, varint_at, varint_bytes, varint_space,
};
use crate::error::Error;

verus! {

/// A stored value with its per-entry metadata. The version is not part of
/// the stored form; it rides along in memory.
pub struct ValueStruct {
    pub meta: u8,
    pub user_meta: u8,
    pub expires_at: u64,
    pub value: Vec<u8>,
    pub version: u64,
}

/// The stored form: meta byte, user-meta byte, expiry varint, value bytes.
pub open spec fn vs_bytes(meta: u8, user_meta: u8, expires_at: u64, value: Seq<u8>) -> Seq<u8> {
    seq![meta, user_meta] + varint_bytes(expires_at as nat) + value
}

impl ValueStruct {
    /// A plain value with zero metadata.
    pub fn new(value: Vec<u8>) -> (r: ValueStruct)
        ensures
            r.meta == 0,
            r.user_meta == 0,
            r.expires_at == 0,
            r.value == value,
            r.version == 0,
    {
        ValueStruct { meta: 0, user_meta: 0, expires_at: 0, value, version: 0 }
    }

    /// The stored form's byte count.
    pub fn encoded_size(&self) -> (r: usize)
        requires
            self.value@.len() + 12 < 0x10000000,
        ensures
            r == vs_bytes(self.meta, self.user_meta, self.expires_at, self.value@).len(),
    {
        proof {
            lemma_varint_roundtrip(self.expires_at as nat);
        }
        let mut scratch: Vec<u8> = Vec::new();
        put_varint(&mut scratch, self.expires_at);
        self.value.len() + 2 + scratch.len()
    }

    /// Encodes the stored form.
    pub fn encode_to_vec(&self) -> (r: Vec<u8>)
        ensures
            r@ == vs_bytes(self.meta, self.user_meta, self.expires_at, self.value@),
    {
        let mut buf: Vec<u8> = Vec::new();
        buf.push(self.meta);
        buf.push(self.user_meta);
        put_varint(&mut buf, self.expires_at);
        crate::codec::extend_from(&mut buf, self.value.as_slice());
        proof {
            assert(buf@ =~= vs_bytes(self.meta, self.user_meta, self.expires_at, self.value@));
        }
        buf
    }

    /// Decodes a stored form: the two meta bytes, then an expiry varint,
    /// then everything left as the value. `Err` exactly when no varint
    /// follows the meta bytes.
    pub fn decode(data: &[u8]) -> (r: Result<ValueStruct, Error>)
        requires
            data@.len() >= 2,
        ensures
            match r {
                Ok(vs) => {
                    &&& varint_at(data@, 2) is Some
                    &&& vs.meta == data@[0]
                    &&& vs.user_meta == data@[1]
                    &&& vs.expires_at as nat == varint_at(data@, 2).unwrap().0
                    &&& vs.value@ == data@.skip(2 + varint_at(data@, 2).unwrap().1)
                    &&& vs.version == 0
                },
                Err(e) => {
                    &&& varint_at(data@, 2) is None
                    &&& e == Error::VLogTruncate
                },
            },
    {
        let meta = data[0];
        let user_meta = data[1];
        let (expires_at, n) = match get_varint(data, 2) {
            Some(p) => p,
            None => {
                return Err(Error::VLogTruncate);
            },
        };
        proof {
            lemma_varint_at_some(data@, 2, n as int);
        }
        let value = slice_to_vec(slice_subrange(data, 2 + n, data.len()));
        proof {
            assert(data@.subrange(2 + n, data@.len() as int) =~= data@.skip(2 + n));
        }
        Ok(ValueStruct { meta, user_meta, expires_at, value, version: 0 })
    }
}

/// Round trip: a stored form, decoded, yields the fields it was encoded
/// from.
pub proof fn lemma_vs_roundtrip(meta: u8, user_meta: u8, expires_at: u64, value: Seq<u8>)
    ensures
        ({
            let s = vs_bytes(meta, user_meta, expires_at, value);
            &&& s.len() >= 3
            &&& s[0] == meta
            &&& s[1] == user_meta
            &&& varint_at(s, 2) == Some(
                (expires_at as nat, varint_space(expires_at as nat) as int),
            )
            &&& s.skip(2 + varint_space(expires_at as nat) as int) == value
        }),
{
    let s = vs_bytes(meta, user_meta, expires_at, value);
    lemma_varint_roundtrip(expires_at as nat);
    let vb = varint_bytes(expires_at as nat);
    assert(s.subrange(2, 2 + vb.len() as int) =~= vb);
    lemma_varint_embed(s, 2, expires_at as nat);
    assert(s.skip(2 + vb.len() as int) =~= value);
}

} // verus!
