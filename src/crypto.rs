//! Digests and hexadecimal text.
//!
//! SHA-256 comes from the `sha2` crate and hexadecimal text from the `hex`
//! crate; what they return is stated here over spec functions.

use vstd::prelude::*;
use vstd::string::StringSliceAdditionalSpecFns;
use crate::error::{BitSwapError, BitSwapResult, message};

verus! {

/// The SHA-256 digest of a byte sequence, as computed by the `sha2` crate.
pub uninterp spec fn sha256_of(data: Seq<u8>) -> Seq<u8>;

/// Lowercase hexadecimal digit of a value below 16.
pub open spec fn hex_digit(n: u8) -> char {
    if n < 10 {
        ((n + 48) as u8) as char
    } else {
        ((n + 87) as u8) as char
    }
}

/// Lowercase hexadecimal text of a byte sequence: two digits per byte, high half first.
pub open spec fn hex_of(b: Seq<u8>) -> Seq<char> {
    Seq::new(
        2 * b.len(),
        |i: int|
            if i % 2 == 0 {
                hex_digit(b[i / 2] / 16)
            } else {
                hex_digit(b[i / 2] % 16)
            },
    )
}

/// Whether a byte is a hexadecimal digit of either case.
pub open spec fn is_hex_byte(c: u8) -> bool {
    (48 <= c <= 57) || (65 <= c <= 70) || (97 <= c <= 102)
}

/// Value of a hexadecimal digit of either case.
pub open spec fn hex_value(c: u8) -> u8 {
    if 48 <= c <= 57 {
        (c - 48) as u8
    } else if 65 <= c <= 70 {
        (c - 55) as u8
    } else {
        (c - 87) as u8
    }
}

/// Whether text is a well-formed hexadecimal encoding: even length, only hexadecimal digits.
pub open spec fn is_hex_text(t: Seq<u8>) -> bool {
    t.len() % 2 == 0 && forall|i: int| 0 <= i < t.len() ==> is_hex_byte(#[trigger] t[i])
}

/// The bytes that hexadecimal text of even length stands for.
pub open spec fn bytes_of_hex(t: Seq<u8>) -> Seq<u8> {
    Seq::new(
        t.len() / 2,
        |i: int| (hex_value(t[2 * i]) * 16 + hex_value(t[2 * i + 1])) as u8,
    )
}

/// Lowercase hexadecimal text of the SHA-256 digest of a byte sequence.
pub open spec fn digest_hex(data: Seq<u8>) -> Seq<char> {
    hex_of(sha256_of(data))
}

/// `hex::FromHexError`, the error of `hex::decode`; carried without looking inside.
#[verifier::external_type_specification]
#[verifier::external_body]
pub struct ExFromHexError(hex::FromHexError);

/// Relies on `sha2::Sha256::digest`: the SHA-256 digest of `data`, 32 bytes.
#[verifier::external_body]
pub fn sha256(data: &[u8]) -> (r: [u8; 32])
    ensures
        r@ == sha256_of(data@),
{
    <sha2::Sha256 as sha2::Digest>::digest(data).into()
}

/// Relies on `hex::encode`: two lowercase digits per byte, high half first.
#[verifier::external_body]
fn hex_encode(data: &[u8]) -> (r: String)
    ensures
        r@ == hex_of(data@),
{
    hex::encode(data)
}

/// Relies on `hex::decode`: it fails on text of odd length or with a byte
/// that is not a hexadecimal digit of either case, and otherwise turns each
/// pair of digits into one byte, high half first.
#[verifier::external_body]
fn hex_decode(text: &str) -> (r: Result<Vec<u8>, hex::FromHexError>)
    ensures
        r is Ok <==> is_hex_text(text.spec_bytes()),
        r is Ok ==> r->Ok_0@ == bytes_of_hex(text.spec_bytes()),
{
    hex::decode(text)
}

/// SHA-256 digest of `data` as lowercase hexadecimal text (64 characters).
pub fn sha256_hex(data: &[u8]) -> (r: String)
    ensures
        r@ == digest_hex(data@),
        r@.len() == 64,
{
    let digest = sha256(data);
    hex_encode(digest.as_slice())
}

/// Decodes hexadecimal text of either case into bytes.
pub fn hex_to_bytes(hex_str: &str) -> (r: BitSwapResult<Vec<u8>>)
    ensures
        r is Ok <==> is_hex_text(hex_str.spec_bytes()),
        r is Ok ==> r->Ok_0@ == bytes_of_hex(hex_str.spec_bytes()),
        r is Err ==> r->Err_0 is Crypto,
{
    match hex_decode(hex_str) {
        Ok(bytes) => Ok(bytes),
        Err(_) => Err(BitSwapError::Crypto(message("invalid hex string"))),
    }
}

/// Decodes an info-hash given as hexadecimal text into its 32 bytes.
pub fn info_hash_to_bytes(info_hash: &str) -> (r: BitSwapResult<[u8; 32]>)
    ensures
        r is Ok <==> is_hex_text(info_hash.spec_bytes()) && info_hash.spec_bytes().len() == 64,
        r is Ok ==> r->Ok_0@ == bytes_of_hex(info_hash.spec_bytes()),
        r is Err ==> r->Err_0 is Crypto,
{
    let bytes = hex_to_bytes(info_hash)?;
    if bytes.len() != 32 {
        return Err(BitSwapError::Crypto(message("info hash must be 32 bytes")));
    }
    let mut array = [0u8; 32];
    let mut i: usize = 0;
    while i < 32
        invariant
            bytes@.len() == 32,
            0 <= i <= 32,
            forall|j: int| 0 <= j < i ==> array@[j] == bytes@[j],
        decreases 32 - i,
    {
        array[i] = bytes[i];
        i = i + 1;
    }
    assert(array@ =~= bytes@);
    Ok(array)
}

/// Whether the SHA-256 digest of `data`, as lowercase hexadecimal text, equals `expected_hash`.
pub fn verify_piece_hash(data: &[u8], expected_hash: &str) -> (r: bool)
    ensures
        r == (digest_hex(data@) == expected_hash@),
{
    let calculated = sha256_hex(data);
    let expected = expected_hash.to_owned();
    calculated == expected
}

} // verus!
