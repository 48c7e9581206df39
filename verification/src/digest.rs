//! Content hashing: the lowercase hex SHA-256 digest that identifies an
//! entry and deduplicates repeated copies.

use sha2::{Digest, Sha256};
use vstd::prelude::*;

use crate::text::utf8;

verus! {

/// The SHA-256 digest of `data`, as the `sha2` crate computes it.
pub uninterp spec fn sha256_of(data: Seq<u8>) -> Seq<u8>;

/// The lowercase hexadecimal digits, in order of value.
pub open spec fn hex_digits() -> Seq<char> {
    seq!['0', '1', '2', '3', '4', '5', '6', '7', '8', '9', 'a', 'b', 'c', 'd', 'e', 'f']
}

/// Lowercase hex encoding: each byte becomes its high nibble, then its low
/// nibble.
pub open spec fn hex_lower(data: Seq<u8>) -> Seq<char>
    decreases data.len(),
{
    if data.len() == 0 {
        Seq::empty()
    } else {
        seq![hex_digits()[(data[0] / 16) as int], hex_digits()[(data[0] % 16) as int]]
            + hex_lower(data.drop_first())
    }
}

/// The identifying hash of a byte string: hex of its SHA-256 digest.
pub open spec fn digest_hex(data: Seq<u8>) -> Seq<char> {
    hex_lower(sha256_of(data))
}

/// The identifying hash of a text: the hash of its UTF-8 bytes.
pub open spec fn text_digest(s: Seq<char>) -> Seq<char> {
    digest_hex(utf8(s))
}

/// `Sha256::digest` of the `sha2` crate. Trusted to return the 32-byte
/// SHA-256 digest of `data`; the digest itself is only named, not computed.
#[verifier::external_body]
fn sha256(data: &[u8]) -> (r: Vec<u8>)
    ensures
        r@ == sha256_of(data@),
        r@.len() == 32,
{
    Sha256::digest(data).to_vec()
}

/// `hex::encode` of the `hex` crate. Trusted to map every byte to two
/// lowercase hex digits, high nibble first, as its table lookup does.
#[verifier::external_body]
fn hex_encode(data: &[u8]) -> (r: String)
    ensures
        r@ == hex_lower(data@),
{
    hex::encode(data)
}

/// Hash of raw bytes (image data).
pub fn hash_bytes(data: &[u8]) -> (r: String)
    ensures
        r@ == digest_hex(data@),
{
    let d = sha256(data);
    hex_encode(d.as_slice())
}

/// Hash of a text, over its UTF-8 bytes.
pub fn hash_text(s: &str) -> (r: String)
    ensures
        r@ == text_digest(s@),
{
    hash_bytes(s.as_bytes())
}

} // verus!
