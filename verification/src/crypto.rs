//! Trusted surface over the outside cryptography crates: AES-256-GCM
//! sealing and opening, the system random source, and standard base64.
//!
//! Every item here is believed, not proved; each doc comment names the
//! outside function it relies on.

use vstd::prelude::*;

verus! {

#[verifier::external_type_specification]
#[verifier::external_body]
pub struct ExUnspecified(aws_lc_rs::error::Unspecified);

#[verifier::external_type_specification]
#[verifier::external_body]
pub struct ExDecodeError(base64::DecodeError);

/// What opening a sealed record returns: a pure function of the key, the
/// nonce and the ciphertext (the authentication tag included). `None`
/// stands for an authentication failure.
pub uninterp spec fn aead_open_of(key: Seq<u8>, nonce: Seq<u8>, ct: Seq<u8>) -> Option<Seq<u8>>;

/// Relies on aws_lc_rs::aead::RandomizedNonceKey::{new, seal_in_place_append_tag}
/// with AES_256_GCM: seals under a fresh random 12-byte nonce, appends the
/// 16-byte tag, and what was sealed opens back to the plaintext under the
/// same key and nonce.
#[verifier::external_body]
pub fn aead_seal(key: &[u8], plaintext: &Vec<u8>) -> (r: Result<
    (Vec<u8>, Vec<u8>),
    aws_lc_rs::error::Unspecified,
>)
    requires
        key@.len() == 32,
    ensures
        r matches Ok(p) ==> p.0@.len() == 12 && p.1@.len() == plaintext@.len() + 16
            && aead_open_of(key@, p.0@, p.1@) == Some(plaintext@),
{
    let k = aws_lc_rs::aead::RandomizedNonceKey::new(&aws_lc_rs::aead::AES_256_GCM, key)?;
    let mut data = plaintext.clone();
    let nonce = k.seal_in_place_append_tag(aws_lc_rs::aead::Aad::empty(), &mut data)?;
    Ok((nonce.as_ref().to_vec(), data))
}

/// Relies on aws_lc_rs::aead::RandomizedNonceKey::{new, open_in_place} and
/// aws_lc_rs::aead::Nonce::try_assume_unique_for_key with AES_256_GCM:
/// opening is deterministic in the key, nonce and ciphertext, and fails
/// exactly when they do not authenticate.
#[verifier::external_body]
pub fn aead_open(key: &[u8], nonce: &Vec<u8>, ct: &Vec<u8>) -> (r: Result<
    Vec<u8>,
    aws_lc_rs::error::Unspecified,
>)
    requires
        key@.len() == 32,
    ensures
        match r {
            Ok(p) => aead_open_of(key@, nonce@, ct@) == Some(p@),
            Err(_) => aead_open_of(key@, nonce@, ct@) is None,
        },
{
    let k = aws_lc_rs::aead::RandomizedNonceKey::new(&aws_lc_rs::aead::AES_256_GCM, key)?;
    let n = aws_lc_rs::aead::Nonce::try_assume_unique_for_key(nonce)?;
    let mut data = ct.clone();
    let out = k.open_in_place(n, aws_lc_rs::aead::Aad::empty(), &mut data)?.to_vec();
    Ok(out)
}

/// Relies on aws_lc_rs::rand::fill: fills a 32-byte buffer from the system
/// random source.
#[verifier::external_body]
pub fn random_bytes_32() -> (r: Result<Vec<u8>, aws_lc_rs::error::Unspecified>)
    ensures
        r matches Ok(v) ==> v@.len() == 32,
{
    let mut buf = [0u8; 32];
    aws_lc_rs::rand::fill(&mut buf)?;
    Ok(buf.to_vec())
}

/// What the standard padded base64 encoding of a byte string is.
pub uninterp spec fn b64_of(b: Seq<u8>) -> Seq<char>;

/// Relies on base64's BASE64_STANDARD engine: encodes with the standard
/// alphabet and padding.
#[verifier::external_body]
pub fn b64_encode(b: &[u8]) -> (r: String)
    ensures
        r@ == b64_of(b@),
{
    base64::Engine::encode(&base64::prelude::BASE64_STANDARD, b)
}

/// Relies on base64's BASE64_STANDARD engine: decoding requires canonical
/// padding and trailing bits, so it succeeds exactly on the canonical
/// encoding of some byte string and returns that byte string.
#[verifier::external_body]
pub fn b64_decode(s: &str) -> (r: Result<Vec<u8>, base64::DecodeError>)
    ensures
        r matches Ok(d) ==> b64_of(d@) == s@,
        r matches Ok(d) ==> forall|x: Seq<u8>| b64_of(x) == s@ ==> x == d@,
        r is Err ==> !(exists|d: Seq<u8>| s@ == b64_of(d)),
{
    base64::Engine::decode(&base64::prelude::BASE64_STANDARD, s)
}

} // verus!
