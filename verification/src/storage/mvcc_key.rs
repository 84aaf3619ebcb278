//! The keys that the multi-version store writes into its engine.
use vstd::prelude::*;

use super::keycode::{
    be_u64, escape, lemma_be_u64_roundtrip, lemma_u64_be_of_bytes, lemma_unescape_canonical,
    lemma_unescape_escape, push_escaped, push_u64, read_escaped, read_u64, u64_be, unescape,
};
use crate::error::{Error, Result};

verus! {

pub type Version = u64;

/// A key of the multi-version store.
#[derive(Debug, PartialEq)]
pub enum MvccKey {
    /// The next version to hand out.
    NextVersion,
    /// Marks a transaction as active.
    TxnActive(Version),
    /// Records that a transaction wrote a key.
    TxnWrite(Version, Vec<u8>),
    /// A version of a user key.
    Version(Vec<u8>, Version),
}

/// The mathematical form of an `MvccKey`.
pub enum MvccKeyModel {
    NextVersion,
    TxnActive(Version),
    TxnWrite(Version, Seq<u8>),
    Version(Seq<u8>, Version),
}

impl View for MvccKey {
    type V = MvccKeyModel;

    open spec fn view(&self) -> MvccKeyModel {
        match self {
            MvccKey::NextVersion => MvccKeyModel::NextVersion,
            MvccKey::TxnActive(v) => MvccKeyModel::TxnActive(*v),
            MvccKey::TxnWrite(v, k) => MvccKeyModel::TxnWrite(*v, k@),
            MvccKey::Version(k, v) => MvccKeyModel::Version(k@, *v),
        }
    }
}

/// The bytes of a key: a tag byte for the kind, then its parts, user keys
/// escaped and versions big-endian, so that the versions of one user key lie
/// together and in order.
pub open spec fn key_bytes(k: MvccKeyModel) -> Seq<u8> {
    match k {
        MvccKeyModel::NextVersion => seq![0u8],
        MvccKeyModel::TxnActive(v) => seq![1u8] + u64_be(v),
        MvccKeyModel::TxnWrite(v, key) => seq![2u8] + u64_be(v) + escape(key),
        MvccKeyModel::Version(key, v) => seq![3u8] + escape(key) + u64_be(v),
    }
}

/// The key that `b` encodes, if it encodes one and nothing more.
pub open spec fn parse_key(b: Seq<u8>) -> Option<MvccKeyModel> {
    if b.len() == 0 {
        None
    } else if b[0] == 0 {
        if b.len() == 1 {
            Some(MvccKeyModel::NextVersion)
        } else {
            None
        }
    } else if b[0] == 1 {
        if b.len() == 9 {
            Some(MvccKeyModel::TxnActive(be_u64(b.subrange(1, 9))))
        } else {
            None
        }
    } else if b[0] == 2 {
        if b.len() >= 9 {
            match unescape(b.skip(9)) {
                Some((key, n)) => if 9 + n == b.len() {
                    Some(MvccKeyModel::TxnWrite(be_u64(b.subrange(1, 9)), key))
                } else {
                    None
                },
                None => None,
            }
        } else {
            None
        }
    } else if b[0] == 3 {
        match unescape(b.skip(1)) {
            Some((key, n)) => if 1 + n + 8 == b.len() {
                Some(MvccKeyModel::Version(key, be_u64(b.subrange(1 + n as int, 1 + n as int + 8))))
            } else {
                None
            },
            None => None,
        }
    } else {
        None
    }
}

/// Encoding then decoding a key gives it back.
pub proof fn lemma_parse_key_bytes(k: MvccKeyModel)
    ensures
        parse_key(key_bytes(k)) == Some(k),
{
    let b = key_bytes(k);
    match k {
        MvccKeyModel::NextVersion => {},
        MvccKeyModel::TxnActive(v) => {
            lemma_be_u64_roundtrip(v);
            assert(b.subrange(1, 9) =~= u64_be(v));
        },
        MvccKeyModel::TxnWrite(v, key) => {
            lemma_be_u64_roundtrip(v);
            assert(b.subrange(1, 9) =~= u64_be(v));
            assert(b.skip(9) =~= escape(key) + Seq::<u8>::empty());
            lemma_unescape_escape(key, Seq::<u8>::empty());
        },
        MvccKeyModel::Version(key, v) => {
            lemma_be_u64_roundtrip(v);
            assert(b.skip(1) =~= escape(key) + u64_be(v));
            lemma_unescape_escape(key, u64_be(v));
            let n = escape(key).len();
            assert(b.subrange(1 + n as int, 1 + n as int + 8) =~= u64_be(v));
        },
    }
}

/// Whatever decodes as a key is that key's encoding.
pub proof fn lemma_parse_key_canonical(b: Seq<u8>)
    requires
        parse_key(b) is Some,
    ensures
        key_bytes(parse_key(b)->0) == b,
{
    let k = parse_key(b)->0;
    if b[0] == 0 {
        assert(b =~= seq![0u8]);
    } else if b[0] == 1 {
        lemma_u64_be_of_bytes(b.subrange(1, 9));
        assert(b =~= seq![1u8] + b.subrange(1, 9));
    } else if b[0] == 2 {
        lemma_u64_be_of_bytes(b.subrange(1, 9));
        lemma_unescape_canonical(b.skip(9));
        let (_, n) = unescape(b.skip(9))->0;
        assert(b.skip(9).subrange(0, n as int) =~= b.skip(9));
        assert(b =~= seq![2u8] + b.subrange(1, 9) + b.skip(9));
    } else {
        lemma_unescape_canonical(b.skip(1));
        let (_, n) = unescape(b.skip(1))->0;
        lemma_u64_be_of_bytes(b.subrange(1 + n as int, 1 + n as int + 8));
        assert(b.skip(1).subrange(0, n as int) =~= b.subrange(1, 1 + n as int));
        assert(b =~= seq![3u8] + b.subrange(1, 1 + n as int) + b.subrange(1 + n as int, 1 + n as int + 8));
    }
}

/// Decoding is one-to-one on encodings.
pub proof fn lemma_key_bytes_injective(a: MvccKeyModel, b: MvccKeyModel)
    ensures
        key_bytes(a) == key_bytes(b) ==> a == b,
{
    lemma_parse_key_bytes(a);
    lemma_parse_key_bytes(b);
}

impl MvccKey {
    pub fn encode(&self) -> (r: Vec<u8>)
        ensures
            r@ == key_bytes(self@),
    {
        let mut out: Vec<u8> = Vec::new();
        match self {
            MvccKey::NextVersion => {
                out.push(0u8);
            },
            MvccKey::TxnActive(v) => {
                out.push(1u8);
                push_u64(&mut out, *v);
            },
            MvccKey::TxnWrite(v, key) => {
                out.push(2u8);
                push_u64(&mut out, *v);
                push_escaped(&mut out, key.as_slice());
            },
            MvccKey::Version(key, v) => {
                out.push(3u8);
                push_escaped(&mut out, key.as_slice());
                push_u64(&mut out, *v);
            },
        }
        assert(out@ =~= key_bytes(self@));
        out
    }

    /// Decodes a key; fails where `data` is not exactly one key's encoding.
    pub fn decode(data: Vec<u8>) -> (r: Result<Self>)
        ensures
            match parse_key(data@) {
                Some(k) => r matches Ok(key) && key@ == k,
                None => r is Err,
            },
            r matches Err(e) ==> e is Internal,
    {
        let d = data.as_slice();
        if d.len() == 0 {
            return Err(Error::Internal(String::from_str("empty key")));
        }
        let tag = d[0];
        if tag == 0 {
            if d.len() == 1 {
                return Ok(MvccKey::NextVersion);
            }
        } else if tag == 1 {
            if d.len() == 9 {
                return Ok(MvccKey::TxnActive(read_u64(d, 1)));
            }
        } else if tag == 2 {
            if d.len() >= 9 {
                let v = read_u64(d, 1);
                match read_escaped(d, 9) {
                    Some((key, end)) => {
                        if end == d.len() {
                            return Ok(MvccKey::TxnWrite(v, key));
                        }
                    },
                    None => {},
                }
            }
        } else if tag == 3 {
            match read_escaped(d, 1) {
                Some((key, end)) => {
                    if end <= d.len() && d.len() - end == 8 {
                        let v = read_u64(d, end);
                        return Ok(MvccKey::Version(key, v));
                    }
                },
                None => {},
            }
        }
        Err(Error::Internal(String::from_str("unexpected key")))
    }
}

/// A prefix of the keys of one kind.
#[derive(Debug)]
pub enum MvccKeyPrefix {
    NextVersion,
    TxnActive,
    TxnWrite(Version),
    Version(Vec<u8>),
}

/// The bytes of a prefix: every key of the kind it names starts with them.
pub open spec fn prefix_bytes(p: MvccKeyPrefix) -> Seq<u8> {
    match p {
        MvccKeyPrefix::NextVersion => seq![0u8],
        MvccKeyPrefix::TxnActive => seq![1u8],
        MvccKeyPrefix::TxnWrite(v) => seq![2u8] + u64_be(v),
        MvccKeyPrefix::Version(key) => seq![3u8] + escape(key@),
    }
}

impl MvccKeyPrefix {
    pub fn encode(&self) -> (r: Vec<u8>)
        ensures
            r@ == prefix_bytes(*self),
    {
        let mut out: Vec<u8> = Vec::new();
        match self {
            MvccKeyPrefix::NextVersion => {
                out.push(0u8);
            },
            MvccKeyPrefix::TxnActive => {
                out.push(1u8);
            },
            MvccKeyPrefix::TxnWrite(v) => {
                out.push(2u8);
                push_u64(&mut out, *v);
            },
            MvccKeyPrefix::Version(key) => {
                out.push(3u8);
                push_escaped(&mut out, key.as_slice());
            },
        }
        assert(out@ =~= prefix_bytes(*self));
        out
    }
}

} // verus!
