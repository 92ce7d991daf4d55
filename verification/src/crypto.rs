//! Hashes and signatures.
use crate::bytes::{Digest, PubKey};
use vstd::prelude::*;

verus! {

/// The BLAKE3 hash of a byte string.
pub uninterp spec fn blake3_hash(b: Seq<u8>) -> Seq<u8>;

/// The Ed25519 public key of a secret key.
pub uninterp spec fn ed25519_public(secret: Seq<u8>) -> Seq<u8>;

/// The Ed25519 signature of a message under a secret key.
pub uninterp spec fn ed25519_signature(secret: Seq<u8>, message: Seq<u8>) -> Seq<u8>;

/// Whether 32 bytes are the encoding of an Ed25519 public key.
pub uninterp spec fn ed25519_key_ok(public: Seq<u8>) -> bool;

/// Whether a signature of a message is accepted under a public key.
pub uninterp spec fn ed25519_accepts(public: Seq<u8>, message: Seq<u8>, signature: Seq<u8>) -> bool;

/// Calls `blake3::hash`, whose result depends on its argument alone.
#[verifier::external_body]
pub(crate) fn hash_bytes(b: &[u8]) -> (r: Digest)
    ensures
        r@ == blake3_hash(b@),
{
    blake3::hash(b).into()
}

/// Calls `ed25519_dalek::SigningKey::verifying_key`: the public key of a secret
/// key, which is always a well-formed one.
#[verifier::external_body]
pub(crate) fn public_key_of(secret: &[u8; 32]) -> (r: PubKey)
    ensures
        r@ == ed25519_public(secret@),
        ed25519_key_ok(r@),
{
    ed25519_dalek::SigningKey::from_bytes(secret).verifying_key().to_bytes()
}

/// Calls `ed25519_dalek::Signer::sign`. The signature depends on the key and on
/// the message alone, and is accepted for that message under the key's own
/// public key.
#[verifier::external_body]
pub(crate) fn sign_message(secret: &[u8; 32], message: &[u8]) -> (r: [u8; 64])
    ensures
        r@ == ed25519_signature(secret@, message@),
        ed25519_accepts(ed25519_public(secret@), message@, r@),
{
    let key = ed25519_dalek::SigningKey::from_bytes(secret);
    ed25519_dalek::Signer::sign(&key, message).to_bytes()
}

/// Calls `ed25519_dalek::VerifyingKey::from_bytes`: whether it accepts the bytes.
#[verifier::external_body]
pub(crate) fn key_is_valid(public: &PubKey) -> (r: bool)
    ensures
        r == ed25519_key_ok(public@),
{
    ed25519_dalek::VerifyingKey::from_bytes(public).is_ok()
}

/// Calls `ed25519_dalek::Verifier::verify` with the key that the 32 bytes
/// encode: whether it accepts the signature. Bytes that encode no key accept
/// none.
#[verifier::external_body]
pub(crate) fn signature_is_valid(public: &PubKey, message: &[u8], signature: &[u8; 64]) -> (r: bool)
    ensures
        r == ed25519_accepts(public@, message@, signature@),
        r ==> ed25519_key_ok(public@),
{
    let signature = ed25519_dalek::Signature::from_bytes(signature);
    match ed25519_dalek::VerifyingKey::from_bytes(public) {
        Ok(key) => ed25519_dalek::Verifier::verify(&key, message, &signature).is_ok(),
        Err(_) => false,
    }
}

/// Calls `ed25519_dalek::SigningKey::generate` with the operating system's
/// random source. Nothing is claimed of the key.
#[verifier::external_body]
pub(crate) fn random_signing_key() -> (r: [u8; 32]) {
    ed25519_dalek::SigningKey::generate(&mut rand::rngs::OsRng).to_bytes()
}

/// Calls `rand::RngCore::fill_bytes` with the thread's random source. Nothing is
/// claimed of the bytes.
#[verifier::external_body]
pub(crate) fn random_secret() -> (r: [u8; 32]) {
    let mut secret = [0u8; 32];
    rand::RngCore::fill_bytes(&mut rand::thread_rng(), &mut secret);
    secret
}

/// Calls `uuid::Uuid::new_v4`: sixteen random bytes, but for the bits that mark
/// them as a random identifier.
#[verifier::external_body]
pub(crate) fn random_uuid() -> (r: [u8; 16])
    ensures
        r@[6] / 16 == 4,
        r@[8] / 64 == 2,
{
    uuid::Uuid::new_v4().into_bytes()
}

} // verus!
