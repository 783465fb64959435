//! Digest computation for candidates.
//!
//! The MD5 and SHA-256 digests themselves come from the outside crates
//! `md-5` and `sha2`; their results are named by the uninterpreted
//! functions `md5_of` and `sha256_of`. Hex encoding comes from the `hex`
//! crate and has the exact specification `hex_of`.

use vstd::prelude::*;

verus! {

/// The 16 MD5 digest bytes of a byte sequence.
pub uninterp spec fn md5_of(data: Seq<u8>) -> Seq<u8>;

/// The 32 SHA-256 digest bytes of a byte sequence.
pub uninterp spec fn sha256_of(data: Seq<u8>) -> Seq<u8>;

/// The lowercase hex character, as an ASCII byte, of a nibble value.
pub open spec fn hex_digit(n: int) -> u8 {
    if n < 10 {
        (48 + n) as u8
    } else {
        (87 + n) as u8
    }
}

/// Lowercase hex encoding: two digits per input byte, high nibble first,
/// in input order.
pub open spec fn hex_of(data: Seq<u8>) -> Seq<u8> {
    Seq::new(
        2 * data.len(),
        |i: int|
            if i % 2 == 0 {
                hex_digit(data[i / 2] as int / 16)
            } else {
                hex_digit(data[i / 2] as int % 16)
            },
    )
}

/// Relies on `Md5` of the md-5 crate, through its `Digest` trait: the
/// digest of a byte slice is 16 bytes and depends on the input bytes alone.
#[verifier::external_body]
fn md5_digest(data: &Vec<u8>) -> (r: Vec<u8>)
    ensures
        r@ == md5_of(data@),
        r@.len() == 16,
{
    let out = <md5::Md5 as md5::Digest>::digest(data.as_slice());
    out.as_slice().to_vec()
}

/// Relies on `Sha256` of the sha2 crate, through its `Digest` trait: the
/// digest of a byte slice is 32 bytes and depends on the input bytes alone.
#[verifier::external_body]
fn sha256_digest(data: &Vec<u8>) -> (r: Vec<u8>)
    ensures
        r@ == sha256_of(data@),
        r@.len() == 32,
{
    let out = <sha2::Sha256 as sha2::Digest>::digest(data.as_slice());
    out.as_slice().to_vec()
}

/// Relies on `hex::encode`: two lowercase hex digits per input byte, high
/// nibble first, in input order.
#[verifier::external_body]
fn hex_bytes(data: &Vec<u8>) -> (r: Vec<u8>)
    ensures
        r@ == hex_of(data@),
{
    hex::encode(data.as_slice()).into_bytes()
}

/// The lowercase hex encoding of the MD5 digest of `data`.
pub fn md5_hex(data: &Vec<u8>) -> (r: Vec<u8>)
    ensures
        r@ == hex_of(md5_of(data@)),
        r@.len() == 32,
{
    let d = md5_digest(data);
    hex_bytes(&d)
}

/// The lowercase hex encoding of the SHA-256 digest of `data`.
pub fn sha256_hex(data: &Vec<u8>) -> (r: Vec<u8>)
    ensures
        r@ == hex_of(sha256_of(data@)),
        r@.len() == 64,
{
    let d = sha256_digest(data);
    hex_bytes(&d)
}

} // verus!
