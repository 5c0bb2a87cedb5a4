//! Content digests: SHA-1 over bytes, and digests as lowercase hex text.

use vstd::prelude::*;

verus! {

/// The SHA-1 digest of a byte sequence.
pub uninterp spec fn sha1(data: Seq<u8>) -> Seq<u8>;

/// The character for a hex digit's value, in lowercase.
pub open spec fn hex_digit(n: int) -> char {
    seq!['0', '1', '2', '3', '4', '5', '6', '7', '8', '9', 'a', 'b', 'c', 'd', 'e', 'f'][n]
}

/// The lowercase hex text of a byte sequence: two digits for each byte,
/// the high one first.
pub open spec fn hex_lower(data: Seq<u8>) -> Seq<char> {
    Seq::new(
        2 * data.len(),
        |i: int|
            if i % 2 == 0 {
                hex_digit(data[i / 2] as int / 16)
            } else {
                hex_digit(data[i / 2] as int % 16)
            },
    )
}

/// The digest by which a piece is checked: the lowercase hex text of its
/// bytes' SHA-1 digest.
pub open spec fn piece_digest(data: Seq<u8>) -> Seq<char> {
    hex_lower(sha1(data))
}

/// Calls `sha1::Sha1::digest` (through the `Digest` trait) on `data`.
/// Trusted: the twenty bytes that come back are the SHA-1 digest of
/// `data`, which depends on `data` alone.
#[verifier::external_body]
pub(crate) fn sha1_digest(data: &[u8]) -> (out: [u8; 20])
    ensures
        out@ == sha1(data@),
{
    <sha1::Sha1 as sha1::Digest>::digest(data).into()
}

/// Calls `hex::encode` on `data`. Trusted: the text that comes back holds
/// two lowercase hex digits for each byte of `data`, in order, the high
/// digit first.
#[verifier::external_body]
pub(crate) fn hex_encode(data: &[u8]) -> (text: String)
    ensures
        text@ == hex_lower(data@),
{
    hex::encode(data)
}

/// The digest of `data` as lowercase hex text.
pub fn digest_hex(data: &[u8]) -> (text: String)
    ensures
        text@ == piece_digest(data@),
        text@.len() == 40,
{
    let digest = sha1_digest(data);
    hex_encode(digest.as_slice())
}

} // verus!
