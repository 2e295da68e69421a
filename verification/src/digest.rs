//! Content digests: the SHA-256 of a byte string, written in lowercase hex.
use vstd::prelude::*;

verus! {

/// The SHA-256 digest of a byte string.
pub uninterp spec fn sha256(bytes: Seq<u8>) -> Seq<u8>;

/// The lowercase hexadecimal digit of a value below sixteen.
pub open spec fn hex_digit(v: nat) -> char {
    if v < 10 {
        ((v + 48) as u8) as char
    } else {
        ((v - 10 + 97) as u8) as char
    }
}

/// A byte string in lowercase hexadecimal, two digits per byte, high
/// nibble first.
pub open spec fn hex_of(bytes: Seq<u8>) -> Seq<char>
    decreases bytes.len(),
{
    if bytes.len() == 0 {
        seq![]
    } else {
        hex_of(bytes.drop_last()) + seq![
            hex_digit((bytes.last() / 16) as nat),
            hex_digit((bytes.last() % 16) as nat),
        ]
    }
}

/// Hashes bytes with `sha2::Sha256::digest`.
///
/// The contract names the result `sha256` of the input and states the one
/// fact the SHA-256 standard fixes about its shape: thirty-two bytes.
#[verifier::external_body]
fn sha256_bytes(bytes: &[u8]) -> (r: Vec<u8>)
    ensures
        r@ == sha256(bytes@),
        r@.len() == 32,
{
    <sha2::Sha256 as sha2::Digest>::digest(bytes).to_vec()
}

/// Writes bytes as text with `hex::encode`, which maps each byte to two
/// lowercase hexadecimal digits, high nibble first, in order.
#[verifier::external_body]
fn hex_encode(bytes: &[u8]) -> (r: String)
    ensures
        r@ == hex_of(bytes@),
{
    hex::encode(bytes)
}

/// The digest of a byte string as it is recorded: SHA-256 in lowercase hex.
pub fn bytes(value: &[u8]) -> (r: String)
    ensures
        r@ == hex_of(sha256(value@)),
        r@.len() == 64,
{
    let d = sha256_bytes(value);
    proof {
        lemma_hex_len(d@);
    }
    hex_encode(d.as_slice())
}

/// Two digits per byte.
pub proof fn lemma_hex_len(bytes: Seq<u8>)
    ensures
        hex_of(bytes).len() == 2 * bytes.len(),
    decreases bytes.len(),
{
    if bytes.len() > 0 {
        lemma_hex_len(bytes.drop_last());
    }
}

} // verus!
