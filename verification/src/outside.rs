//! The calls that leave this crate. Every item here is believed by the verifier on the
//! strength of its contract alone, so each one holds a single call and says in its
//! documentation what is claimed of it.

use base64::Engine;
use ed25519_dalek::Signer;
use hmac::Mac;
use sha2::Digest;
use subtle::ConstantTimeEq;
use vstd::prelude::*;

verus! {

/// The 32 bytes that `blake3::hash` returns for an input.
pub uninterp spec fn blake3_digest(data: Seq<u8>) -> Seq<u8>;

/// `blake3::hash`: the digest is 32 bytes long and is a function of the input bytes.
#[verifier::external_body]
pub(crate) fn blake3_hash(data: &[u8]) -> (digest: [u8; 32])
    ensures
        digest@ == blake3_digest(data@),
{
    *blake3::hash(data).as_bytes()
}

/// The 32 bytes that `blake3::keyed_hash` returns for a key and an input.
pub uninterp spec fn blake3_keyed_digest(key: Seq<u8>, data: Seq<u8>) -> Seq<u8>;

/// `blake3::keyed_hash`: the digest is a function of the key and the input bytes.
#[verifier::external_body]
pub(crate) fn blake3_keyed_hash(key: &[u8; 32], data: &[u8]) -> (digest: [u8; 32])
    ensures
        digest@ == blake3_keyed_digest(key@, data@),
{
    *blake3::keyed_hash(key, data).as_bytes()
}

/// The 32 bytes that `blake3::derive_key` returns for a context and key material.
pub uninterp spec fn blake3_derived_key(context: Seq<char>, material: Seq<u8>) -> Seq<u8>;

/// `blake3::derive_key`: the key is a function of the context and the material.
#[verifier::external_body]
pub(crate) fn blake3_derive_key(context: &str, material: &[u8]) -> (key: [u8; 32])
    ensures
        key@ == blake3_derived_key(context@, material@),
{
    blake3::derive_key(context, material)
}

/// The public key that `ed25519_dalek::SigningKey::verifying_key` gives for a seed.
pub uninterp spec fn ed25519_public(seed: Seq<u8>) -> Seq<u8>;

/// `ed25519_dalek::SigningKey::verifying_key`, for the key made from a seed: the public key
/// is a function of the seed.
#[verifier::external_body]
pub(crate) fn ed25519_public_key(seed: &[u8; 32]) -> (key: [u8; 32])
    ensures
        key@ == ed25519_public(seed@),
{
    ed25519_dalek::SigningKey::from_bytes(seed).verifying_key().to_bytes()
}

/// The signature that `ed25519_dalek`'s `SigningKey` gives for a seed and a message.
pub uninterp spec fn ed25519_signature(seed: Seq<u8>, message: Seq<u8>) -> Seq<u8>;

/// `ed25519_dalek::Signer::sign`, for the key made from a seed: signing is deterministic, so
/// the signature is a function of the seed and the message.
#[verifier::external_body]
pub(crate) fn ed25519_sign(seed: &[u8; 32], message: &[u8]) -> (signature: [u8; 64])
    ensures
        signature@ == ed25519_signature(seed@, message@),
{
    ed25519_dalek::SigningKey::from_bytes(seed).sign(message).to_bytes()
}

/// `subtle::ConstantTimeEq::ct_eq` on two runs of 32 bytes: whether they are the same.
#[verifier::external_body]
pub(crate) fn equal_in_constant_time(a: &[u8; 32], b: &[u8; 32]) -> (equal: bool)
    ensures
        equal == (a@ == b@),
{
    bool::from(a.as_slice().ct_eq(b.as_slice()))
}

/// The bytes that `hmac::Hmac<sha2::Sha256>` gives for a key and a message.
pub uninterp spec fn hmac_sha256(key: Seq<u8>, data: Seq<u8>) -> Seq<u8>;

/// `hmac::Hmac` over `sha2::Sha256`, which takes a key of any length: the code is a function
/// of the key and the message.
#[verifier::external_body]
pub(crate) fn hmac_bytes(key: &[u8], data: &[u8]) -> (code: Vec<u8>)
    ensures
        code@ == hmac_sha256(key@, data@),
{
    let mut mac = hmac::Hmac::<sha2::Sha256>::new_from_slice(key).expect("any key length is taken");
    mac.update(data);
    mac.finalize().into_bytes().to_vec()
}

/// The bytes that `sha2::Sha256` gives for an input.
pub uninterp spec fn sha256_digest(data: Seq<u8>) -> Seq<u8>;

/// `sha2::Sha256::digest`: the digest is a function of the input bytes.
#[verifier::external_body]
pub(crate) fn sha256(data: &[u8]) -> (digest: Vec<u8>)
    ensures
        digest@ == sha256_digest(data@),
{
    sha2::Sha256::digest(data).to_vec()
}

/// The text that `chrono` gives for a time in seconds since 1970 and a format; `None` for a
/// time out of its range.
pub uninterp spec fn utc_text(unix_secs: i64, format: Seq<char>) -> Option<Seq<char>>;

/// The view of an optional text.
pub open spec fn text_view(text: Option<String>) -> Option<Seq<char>> {
    match text {
        Some(t) => Some(t@),
        None => None,
    }
}

/// `chrono::DateTime::from_timestamp` and `chrono::DateTime::format`, in UTC: the text is a
/// function of the time and the format. Other formats than these are not asked for, since
/// one that `chrono` does not know would make it panic.
#[verifier::external_body]
pub(crate) fn format_utc(unix_secs: i64, format: &str) -> (text: Option<String>)
    requires
        format@ == "%Y%m%dT%H%M%SZ"@ || format@ == "%Y%m%d"@,
    ensures
        text_view(text) == utc_text(unix_secs, format@),
{
    chrono::DateTime::from_timestamp(unix_secs, 0).map(|t| t.format(format).to_string())
}

/// The text that `base64`'s engine with the URL-safe alphabet and no padding gives for bytes.
pub uninterp spec fn base64_url_text(data: Seq<u8>) -> Seq<char>;

/// `base64::Engine::encode` with `URL_SAFE_NO_PAD`: the text is a function of the bytes.
#[verifier::external_body]
pub(crate) fn base64_url_encode(data: &[u8]) -> (text: String)
    ensures
        text@ == base64_url_text(data@),
{
    base64::engine::general_purpose::URL_SAFE_NO_PAD.encode(data)
}

/// The text that `base64`'s engine with the standard alphabet and padding gives for bytes.
pub uninterp spec fn base64_text(data: Seq<u8>) -> Seq<char>;

/// The bytes that `base64`'s engine with the standard alphabet and padding reads from a text;
/// `None` where the text is not of that form.
pub uninterp spec fn base64_bytes(text: Seq<char>) -> Option<Seq<u8>>;

/// A character of base64's standard alphabet, or its padding.
pub open spec fn is_base64_char(c: char) -> bool {
    'A' <= c <= 'Z' || 'a' <= c <= 'z' || '0' <= c <= '9' || c == '+' || c == '/' || c == '='
}

/// `base64::Engine::encode` with `STANDARD`: the text is a function of the bytes. It has four
/// characters, of the alphabet or padding, for every three bytes begun, and decoding it gives
/// the bytes back.
#[verifier::external_body]
pub(crate) fn base64_encode(data: &[u8]) -> (text: String)
    ensures
        text@ == base64_text(data@),
        base64_bytes(text@) == Some(data@),
        text@.len() == (data@.len() + 2) / 3 * 4,
        forall|i: int| 0 <= i < text@.len() ==> is_base64_char(#[trigger] text@[i]),
{
    base64::engine::general_purpose::STANDARD.encode(data)
}

/// The view of optional bytes.
pub open spec fn bytes_view(bytes: Option<Vec<u8>>) -> Option<Seq<u8>> {
    match bytes {
        Some(b) => Some(b@),
        None => None,
    }
}

/// `base64::Engine::decode` with `STANDARD`: what it reads is a function of the text.
#[verifier::external_body]
pub(crate) fn base64_decode(text: &str) -> (bytes: Option<Vec<u8>>)
    ensures
        bytes_view(bytes) == base64_bytes(text@),
{
    base64::engine::general_purpose::STANDARD.decode(text).ok()
}

/// The JSON string that `serde_json::to_string` gives for a text.
pub uninterp spec fn json_string(text: Seq<char>) -> Seq<char>;

/// `serde_json::to_string` on a text: the JSON string, with its quotes, is a function of the
/// text.
#[verifier::external_body]
pub(crate) fn json_quote(text: &str) -> (quoted: String)
    ensures
        quoted@ == json_string(text@),
{
    serde_json::to_string(text).expect("any text has a JSON string")
}

/// Whether `char::is_alphanumeric` says so of a character.
pub uninterp spec fn alphanumeric(c: char) -> bool;

/// `char::is_alphanumeric`: Unicode's letters and numbers. Of ASCII that is the letters and
/// the digits.
#[verifier::external_body]
pub(crate) fn is_alphanumeric(c: char) -> (r: bool)
    ensures
        r == alphanumeric(c),
        (c as u32) < 128 ==> r == ('0' <= c <= '9' || 'A' <= c <= 'Z' || 'a' <= c <= 'z'),
{
    c.is_alphanumeric()
}

/// `rand::random`: 32 bytes from the thread's generator. Nothing is promised of their values.
#[verifier::external_body]
pub(crate) fn random_salt() -> (salt: [u8; 32]) {
    rand::random::<[u8; 32]>()
}

/// `String::push` appends one character.
pub assume_specification[ String::push ](s: &mut String, c: char)
    ensures
        final(s)@ == old(s)@.push(c),
;

} // verus!
