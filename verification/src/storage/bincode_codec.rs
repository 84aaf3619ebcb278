//! The values that the multi-version store writes with bincode.
use vstd::prelude::*;

use crate::error::{Error, Result};

verus! {

/// The eight bytes of `v`, least significant first, as bincode writes a `u64`.
pub open spec fn u64_le(v: u64) -> Seq<u8> {
    seq![
        v as u8,
        (v >> 8u64) as u8,
        (v >> 16u64) as u8,
        (v >> 24u64) as u8,
        (v >> 32u64) as u8,
        (v >> 40u64) as u8,
        (v >> 48u64) as u8,
        (v >> 56u64) as u8,
    ]
}

/// The number whose little-endian bytes are the first eight of `b`.
pub open spec fn le_u64(b: Seq<u8>) -> u64 {
    (b[0] as u64) | ((b[1] as u64) << 8u64) | ((b[2] as u64) << 16u64) | ((b[3] as u64) << 24u64)
        | ((b[4] as u64) << 32u64) | ((b[5] as u64) << 40u64) | ((b[6] as u64) << 48u64) | ((
    b[7] as u64) << 56u64)
}

pub proof fn lemma_le_u64_roundtrip(v: u64)
    ensures
        le_u64(u64_le(v)) == v,
        u64_le(v).len() == 8,
{
    let b = u64_le(v);
    let (b0, b1, b2, b3, b4, b5, b6, b7) = (b[0], b[1], b[2], b[3], b[4], b[5], b[6], b[7]);
    assert((b0 as u64) | ((b1 as u64) << 8u64) | ((b2 as u64) << 16u64) | ((b3 as u64) << 24u64)
        | ((b4 as u64) << 32u64) | ((b5 as u64) << 40u64) | ((b6 as u64) << 48u64) | ((b7 as u64)
        << 56u64) == v) by (bit_vector)
        requires
            b0 == v as u8,
            b1 == (v >> 8u64) as u8,
            b2 == (v >> 16u64) as u8,
            b3 == (v >> 24u64) as u8,
            b4 == (v >> 32u64) as u8,
            b5 == (v >> 40u64) as u8,
            b6 == (v >> 48u64) as u8,
            b7 == (v >> 56u64) as u8,
    ;
}

/// How bincode writes an optional byte string: a tag byte, then, for a
/// present string, its length as a `u64` and its bytes.
pub open spec fn option_bytes(o: Option<Seq<u8>>) -> Seq<u8> {
    match o {
        None => seq![0u8],
        Some(v) => seq![1u8] + u64_le(v.len() as u64) + v,
    }
}

/// How bincode reads an optional byte string from the front of `b`
/// (what follows is ignored); `None` where it fails.
pub open spec fn read_option_bytes(b: Seq<u8>) -> Option<Option<Seq<u8>>> {
    if b.len() == 0 {
        None
    } else if b[0] == 0 {
        Some(None)
    } else if b[0] == 1 && b.len() >= 9 {
        let n = le_u64(b.subrange(1, 9));
        if b.len() >= 9 + n {
            Some(Some(b.subrange(9, 9 + n)))
        } else {
            None
        }
    } else {
        None
    }
}

pub proof fn lemma_read_option_bytes(o: Option<Seq<u8>>)
    requires
        o matches Some(v) ==> v.len() <= u64::MAX,
    ensures
        read_option_bytes(option_bytes(o)) == Some(o),
{
    match o {
        None => {},
        Some(v) => {
            let b = option_bytes(o);
            lemma_le_u64_roundtrip(v.len() as u64);
            assert(b.subrange(1, 9) =~= u64_le(v.len() as u64));
            assert(b.subrange(9, 9 + v.len() as int) =~= v);
        },
    }
}

/// `bincode::serialize` of a `u64`.
#[verifier::external_body]
pub fn serialize_u64(v: u64) -> (res: Result<Vec<u8>>)
    ensures
        res is Ok,
        res matches Ok(bytes) ==> bytes@ == u64_le(v),
{
    bincode::serialize(&v).map_err(|e| Error::Internal(e.to_string()))
}

/// `bincode::deserialize` into a `u64`: the first eight bytes, least
/// significant first; it fails on fewer than eight bytes.
#[verifier::external_body]
pub fn deserialize_u64(b: &[u8]) -> (res: Result<u64>)
    ensures
        res is Ok <==> b@.len() >= 8,
        res matches Err(e) ==> e is Internal,
        res matches Ok(v) ==> v == le_u64(b@),
{
    bincode::deserialize::<u64>(b).map_err(|e| Error::Internal(e.to_string()))
}

/// `bincode::serialize` of an optional byte string.
#[verifier::external_body]
pub fn serialize_option_bytes(o: &Option<Vec<u8>>) -> (res: Result<Vec<u8>>)
    ensures
        res is Ok,
        res matches Ok(bytes) ==> bytes@ == option_bytes(
            match o {
                Some(v) => Some(v@),
                None => None,
            },
        ),
{
    bincode::serialize(o).map_err(|e| Error::Internal(e.to_string()))
}

/// `bincode::deserialize` into an optional byte string.
#[verifier::external_body]
pub fn deserialize_option_bytes(b: &[u8]) -> (r: Result<Option<Vec<u8>>>)
    ensures
        match read_option_bytes(b@) {
            Some(Some(v)) => r matches Ok(Some(w)) && w@ == v,
            Some(None) => r matches Ok(None),
            None => r is Err,
        },
        r matches Err(e) ==> e is Internal,
{
    bincode::deserialize::<Option<Vec<u8>>>(b).map_err(|e| Error::Internal(e.to_string()))
}

} // verus!
