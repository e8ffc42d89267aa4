//! Signatures, digests and their hexadecimal notation.

use hmac::{Hmac, KeyInit, Mac};
use sha2::Sha256;
use std::hash::Hasher;
use twox_hash::XxHash32;
use vstd::prelude::*;

use crate::number;

verus! {

/// The HMAC-SHA256 tag of `message` under `key`.
pub uninterp spec fn hmac_sha256(key: Seq<u8>, message: Seq<u8>) -> Seq<u8>;

/// Computes a tag with `hmac::Hmac<Sha256>`: `new_from_slice`, which takes keys of every length,
/// then `update` and `finalize`. Trusted: the tag depends on the key and the message alone.
#[verifier::external_body]
fn hmac_tag(key: &[u8], message: &[u8]) -> (tag: Vec<u8>)
    ensures
        tag@ == hmac_sha256(key@, message@),
{
    let mut mac = Hmac::<Sha256>::new_from_slice(key).expect("HMAC can take key of any size");
    mac.update(message);
    mac.finalize().into_bytes().to_vec()
}

/// Checks a tag with `hmac::Mac::verify_slice`. Trusted: it accepts the whole tag that `finalize`
/// gives for the same key and message, and nothing else.
#[verifier::external_body]
fn hmac_accepts(key: &[u8], message: &[u8], tag: &[u8]) -> (accepted: bool)
    ensures
        accepted == (tag@ == hmac_sha256(key@, message@)),
{
    let mut mac = Hmac::<Sha256>::new_from_slice(key).expect("HMAC can take key of any size");
    mac.update(message);
    mac.verify_slice(tag).is_ok()
}

/// `constant_time_eq::constant_time_eq` says whether two byte strings are equal.
pub assume_specification[ constant_time_eq::constant_time_eq ](a: &[u8], b: &[u8]) -> (res: bool)
    ensures
        res == (a@ == b@),
;

/// The 32-bit xxHash of `data` with `seed`.
pub uninterp spec fn xxh32(seed: u32, data: Seq<u8>) -> u64;

/// Hashes with `twox_hash::XxHash32`: `with_seed`, one `write`, `finish`. Trusted: the digest
/// depends on the seed and the data alone.
#[verifier::external_body]
fn xxh32_digest(seed: u32, data: &[u8]) -> (digest: u64)
    ensures
        digest == xxh32(seed, data@),
{
    let mut hasher = XxHash32::with_seed(seed);
    hasher.write(data);
    hasher.finish()
}

/// The 32-bit xxHash of a text with seed zero, in lower-case hexadecimal without leading zeros.
pub open spec fn short_hash_text(s: Seq<char>) -> Seq<char> {
    number::numeral(xxh32(0, vstd::utf8::encode_utf8(s)) as nat, 16)
}

/// Writes the 32-bit xxHash of `s` in hexadecimal.
pub fn short_hash(s: &str) -> (res: String)
    ensures
        res@ == short_hash_text(s@),
{
    number::to_base(xxh32_digest(0, s.as_bytes()), 16)
}

/// Bytes in lower-case hexadecimal, two digits each.
pub open spec fn hex_text(bytes: Seq<u8>) -> Seq<char> {
    Seq::new(
        2 * bytes.len(),
        |i: int|
            if i % 2 == 0 {
                number::digit(bytes[i / 2] as int / 16)
            } else {
                number::digit(bytes[i / 2] as int % 16)
            },
    )
}

/// Writes bytes in hexadecimal with `hex::encode`. Trusted: two lower-case digits for each byte,
/// the high one first.
#[verifier::external_body]
fn hex_encode(bytes: &[u8]) -> (s: String)
    ensures
        s@ == hex_text(bytes@),
{
    hex::encode(bytes)
}

/// The value of a hexadecimal digit in either case.
pub open spec fn hex_digit(c: char) -> Option<int> {
    if '0' <= c <= '9' {
        Some(c as int - '0' as int)
    } else if 'a' <= c <= 'f' {
        Some(c as int - 'a' as int + 10)
    } else if 'A' <= c <= 'F' {
        Some(c as int - 'A' as int + 10)
    } else {
        None
    }
}

/// The bytes that a hexadecimal text stands for: it has an even number of digits and nothing else.
pub open spec fn hex_bytes(s: Seq<char>) -> Option<Seq<u8>> {
    if s.len() % 2 == 0 && forall|i: int| 0 <= i < s.len() ==> hex_digit(#[trigger] s[i]) is Some {
        Some(
            Seq::new(
                s.len() / 2,
                |i: int| (16 * hex_digit(s[2 * i])->0 + hex_digit(s[2 * i + 1])->0) as u8,
            ),
        )
    } else {
        None
    }
}

/// Reads hexadecimal with `hex::decode`. Trusted: it fails on an odd number of bytes and on any
/// byte that is no digit, and takes digits in either case.
#[verifier::external_body]
fn hex_decode(s: &str) -> (bytes: Option<Vec<u8>>)
    ensures
        bytes is Some <==> hex_bytes(s@) is Some,
        bytes matches Some(b) ==> hex_bytes(s@) == Some(b@),
{
    hex::decode(s).ok()
}

/// What is written in hexadecimal reads back unchanged.
pub proof fn law_hex_reads_back(bytes: Seq<u8>)
    ensures
        hex_bytes(hex_text(bytes)) == Some(bytes),
{
    let s = hex_text(bytes);
    assert forall|d: int| 0 <= d < 16 implies hex_digit(#[trigger] number::digit(d)) == Some(d) by {
    }
    assert forall|i: int| 0 <= i < s.len() implies hex_digit(#[trigger] s[i]) is Some by {
        assert(0 <= bytes[i / 2] as int / 16 < 16);
        assert(0 <= bytes[i / 2] as int % 16 < 16);
    }
    let read = hex_bytes(s)->0;
    assert forall|i: int| 0 <= i < bytes.len() implies read[i] == bytes[i] by {
        assert((2 * i) / 2 == i && (2 * i) % 2 == 0);
        assert((2 * i + 1) / 2 == i && (2 * i + 1) % 2 == 1);
        assert(0 <= bytes[i] as int / 16 < 16);
        assert(0 <= bytes[i] as int % 16 < 16);
        assert(hex_digit(s[2 * i]) == Some(bytes[i] as int / 16));
        assert(hex_digit(s[2 * i + 1]) == Some(bytes[i] as int % 16));
    }
    assert(read =~= bytes);
}

/// The signature of `message` under `key`: the tag in hexadecimal.
pub open spec fn signature_text(key: Seq<u8>, message: Seq<u8>) -> Seq<char> {
    hex_text(hmac_sha256(key, message))
}

/// Signs `message`.
pub fn sign(key: &[u8], message: &[u8]) -> (s: String)
    ensures
        s@ == signature_text(key@, message@),
{
    let tag = hmac_tag(key, message);
    hex_encode(tag.as_slice())
}

/// What became of a signature that was offered.
#[derive(Clone, Copy, PartialEq, Eq, Structural, Debug)]
pub enum SignatureCheck {
    /// It is no hexadecimal.
    Malformed,
    /// It is hexadecimal for something other than the tag.
    Wrong,
    /// It is the tag.
    Valid,
}

/// How `signature` stands to the tag of `message` under `key`.
pub open spec fn signature_check(
    key: Seq<u8>,
    message: Seq<u8>,
    signature: Seq<char>,
) -> SignatureCheck {
    match hex_bytes(signature) {
        None => SignatureCheck::Malformed,
        Some(bytes) => if bytes == hmac_sha256(key, message) {
            SignatureCheck::Valid
        } else {
            SignatureCheck::Wrong
        },
    }
}

/// Checks a signature.
pub fn check_signature(key: &[u8], message: &[u8], signature: &str) -> (res: SignatureCheck)
    ensures
        res == signature_check(key@, message@, signature@),
{
    match hex_decode(signature) {
        None => SignatureCheck::Malformed,
        Some(bytes) => if hmac_accepts(key, message, bytes.as_slice()) {
            SignatureCheck::Valid
        } else {
            SignatureCheck::Wrong
        },
    }
}

/// The signature that [`sign`] gives is valid.
pub proof fn law_signature_is_valid(key: Seq<u8>, message: Seq<u8>)
    ensures
        signature_check(key, message, signature_text(key, message)) == SignatureCheck::Valid,
{
    law_hex_reads_back(hmac_sha256(key, message));
}

/// A short hash is the number of its text's bytes, written with sixteen digits.
pub proof fn law_short_hashes_read_back(s: Seq<char>)
    ensures
        number::numeral_value(short_hash_text(s), 16) == xxh32(0, vstd::utf8::encode_utf8(s)),
{
    number::law_numerals_read_back(xxh32(0, vstd::utf8::encode_utf8(s)) as nat, 16);
}

} // verus!
