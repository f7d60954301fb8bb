//! SHA-1 digests of piece bytes, written as lowercase hex, through the `sha1` and `hex` crates.
use sha1::{Digest, Sha1};
use vstd::prelude::*;

verus! {

/// The SHA-1 digest of `data`, as `sha1::Sha1` computes it.
pub uninterp spec fn sha1_digest(data: Seq<u8>) -> Seq<u8>;

/// The lowercase hex digit of a value below 16.
pub open spec fn hex_digit(v: int) -> char {
    if v < 10 {
        (v + 48) as char
    } else {
        (v + 87) as char
    }
}

/// Lowercase hex of `data`, two characters per byte, high half first.
pub open spec fn hex_lower(data: Seq<u8>) -> Seq<char>
    decreases data.len(),
{
    if data.len() == 0 {
        Seq::empty()
    } else {
        hex_lower(data.drop_last()) + seq![hex_digit((data.last() / 16) as int), hex_digit((data.last() % 16) as int)]
    }
}

/// The hash under which a piece of bytes is announced: the lowercase hex of its SHA-1 digest.
pub open spec fn piece_digest(data: Seq<u8>) -> Seq<char> {
    hex_lower(sha1_digest(data))
}

/// Hashes `data` with `sha1::Sha1` (`Digest::digest`). The contract names the digest and
/// states its length, the output size that `sha1` documents for SHA-1 (20 bytes).
#[verifier::external_body]
fn sha1_bytes(data: &[u8]) -> (r: Vec<u8>)
    ensures
        r@ == sha1_digest(data@),
        r@.len() == 20,
{
    Sha1::digest(data).to_vec()
}

/// Encodes `data` with `hex::encode`, which writes each byte as two lowercase hex digits,
/// high half first.
#[verifier::external_body]
fn hex_encode(data: &[u8]) -> (r: String)
    ensures
        r@ == hex_lower(data@),
{
    hex::encode(data)
}

/// The lowercase hex of the SHA-1 digest of `data`.
pub fn piece_hash(data: &[u8]) -> (r: String)
    ensures
        r@ == piece_digest(data@),
{
    let d = sha1_bytes(data);
    hex_encode(d.as_slice())
}

} // verus!
