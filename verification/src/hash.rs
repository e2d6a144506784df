//! The info-hash deriver: looks up the `info` entry of a parsed torrent
//! dictionary, re-encodes that sub-tree canonically, and digests it.
//!
//! Because the encoder is canonical — dictionary entries are kept and
//! emitted sorted ascending by raw key bytes — the digest depends only on
//! the logical content of the `info` dictionary, never on the key order of
//! the source bytes.

use vstd::prelude::*;

use sha1::{Digest, Sha1};

use crate::encode::{encode, encoded};
use crate::value::{model_get, view_of, views_of_entries, ParseError, Value};

verus! {

/// The SHA-1 digest of a byte sequence: a function of the bytes alone,
/// twenty bytes long; its definition is the cryptographic algorithm, which
/// this crate calls and does not restate.
pub uninterp spec fn sha1_of(data: Seq<u8>) -> Seq<u8>;

/// Relies on `sha1::Sha1` through the `Digest` trait: the digest depends
/// on the input bytes alone, and is twenty bytes long.
#[verifier::external_body]
fn sha1_digest(data: &[u8]) -> (r: [u8; 20])
    ensures
        r@ == sha1_of(data@),
{
    let mut h = Sha1::new();
    h.update(data);
    h.finalize().into()
}

/// The lowercase hexadecimal digit of a nibble.
pub open spec fn hex_digit(n: u8) -> char {
    if n == 0 {
        '0'
    } else if n == 1 {
        '1'
    } else if n == 2 {
        '2'
    } else if n == 3 {
        '3'
    } else if n == 4 {
        '4'
    } else if n == 5 {
        '5'
    } else if n == 6 {
        '6'
    } else if n == 7 {
        '7'
    } else if n == 8 {
        '8'
    } else if n == 9 {
        '9'
    } else if n == 10 {
        'a'
    } else if n == 11 {
        'b'
    } else if n == 12 {
        'c'
    } else if n == 13 {
        'd'
    } else if n == 14 {
        'e'
    } else {
        'f'
    }
}

/// The lowercase hexadecimal rendering of a byte sequence: two digits per
/// byte, high nibble first.
pub open spec fn hex_of(data: Seq<u8>) -> Seq<char> {
    Seq::new(
        2 * data.len(),
        |i: int|
            if i % 2 == 0 {
                hex_digit(data[i / 2] / 16)
            } else {
                hex_digit(data[i / 2] % 16)
            },
    )
}

/// Relies on `hex::encode`: lowercase hexadecimal, two digits per byte,
/// high nibble first.
#[verifier::external_body]
fn hex_encode(data: &[u8; 20]) -> (r: String)
    ensures
        r@ == hex_of(data@),
{
    hex::encode(data)
}

/// The raw bytes of the `info` key.
pub open spec fn info_key() -> Seq<u8> {
    seq![105u8, 110u8, 102u8, 111u8]
}

/// Derives the torrent's identity from a parsed root dictionary: the
/// SHA-1 digest of the canonical encoding of its `info` entry, raw and as
/// a forty-character lowercase hexadecimal string. Fails with
/// `InvalidFormat` exactly when the root has no `info` entry or that entry
/// is not a dictionary.
pub fn info_hash(root: &Vec<(Vec<u8>, Value)>) -> (r: Result<([u8; 20], String), ParseError>)
    ensures
        match r {
            Ok((digest, hx)) => {
                &&& model_get(views_of_entries(root@), info_key()) matches Some(info)
                    && info is Dictionary && digest@ == sha1_of(encoded(info))
                &&& hx@ == hex_of(digest@)
                &&& hx@.len() == 40
            },
            Err(e) => {
                &&& e == ParseError::InvalidFormat
                &&& match model_get(views_of_entries(root@), info_key()) {
                    Some(info) => !(info is Dictionary),
                    None => true,
                }
            },
        },
{
    let mut key: Vec<u8> = Vec::new();
    key.push(105);
    key.push(110);
    key.push(102);
    key.push(111);
    proof {
        assert(key@ =~= info_key());
    }
    match crate::value::dict_get(root, key.as_slice()) {
        None => Err(ParseError::InvalidFormat),
        Some(v) => match v {
            Value::Dictionary(_) => {
                let enc = encode(v);
                let digest = sha1_digest(enc.as_slice());
                let hx = hex_encode(&digest);
                Ok((digest, hx))
            },
            _ => Err(ParseError::InvalidFormat),
        },
    }
}

} // verus!
