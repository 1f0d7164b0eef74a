//! The cryptographic primitives the library calls: BLAKE3 and SHA-256
//! hashing, and Ed25519 public-key checks and signature verification.

use vstd::prelude::*;

verus! {

/// The BLAKE3 hash (32 bytes) of a byte string.
pub uninterp spec fn blake3_digest(bytes: Seq<u8>) -> Seq<u8>;

/// The SHA-256 hash (32 bytes) of a byte string.
pub uninterp spec fn sha256_digest(bytes: Seq<u8>) -> Seq<u8>;

/// Whether 32 bytes are the compressed form of a point on the Ed25519 curve
/// (a usable public key).
pub uninterp spec fn ed25519_public_key_valid(key: Seq<u8>) -> bool;

/// Whether `sig` is a valid Ed25519 signature of `msg` under the public key
/// `key`.
pub uninterp spec fn ed25519_verifies(key: Seq<u8>, msg: Seq<u8>, sig: Seq<u8>) -> bool;

/// The Ed25519 public key (32 bytes, compressed) of the secret key
/// `secret`.
pub uninterp spec fn ed25519_public_of(secret: Seq<u8>) -> Seq<u8>;

/// The signature (64 bytes) that the Ed25519 secret key `secret` gives the
/// message `msg`.
pub uninterp spec fn ed25519_signature(secret: Seq<u8>, msg: Seq<u8>) -> Seq<u8>;

/// Wraps `blake3::hash`; the result is the BLAKE3 hash of the input.
#[verifier::external_body]
pub(crate) fn blake3_hash(bytes: &[u8]) -> (h: [u8; 32])
    ensures
        h@ == blake3_digest(bytes@),
{
    *blake3::hash(bytes).as_bytes()
}

/// Wraps `sha2::Sha256::digest`; the result is the SHA-256 hash of the
/// input.
#[verifier::external_body]
pub(crate) fn sha256_hash(bytes: &[u8]) -> (h: [u8; 32])
    ensures
        h@ == sha256_digest(bytes@),
{
    <sha2::Sha256 as sha2::Digest>::digest(bytes).into()
}

/// Wraps `ed25519_dalek::VerifyingKey::from_bytes`; true exactly when the
/// bytes decompress to a curve point.
#[verifier::external_body]
pub(crate) fn public_key_valid(key: &[u8; 32]) -> (ok: bool)
    ensures
        ok == ed25519_public_key_valid(key@),
{
    ed25519_dalek::VerifyingKey::from_bytes(key).is_ok()
}

/// Wraps `ed25519_dalek::VerifyingKey::verify` (through the `Verifier`
/// trait) on a key given by its valid bytes and a signature given by its 64
/// bytes; true exactly when the signature checks.
#[verifier::external_body]
pub(crate) fn signature_verifies(key: &[u8; 32], msg: &[u8], sig: &[u8; 64]) -> (ok: bool)
    requires
        ed25519_public_key_valid(key@),
    ensures
        ok == ed25519_verifies(key@, msg@, sig@),
{
    match ed25519_dalek::VerifyingKey::from_bytes(key) {
        Ok(vk) => ed25519_dalek::Verifier::verify(&vk, msg, &ed25519_dalek::Signature::from_bytes(sig)).is_ok(),
        Err(_) => false,
    }
}

/// Wraps `ed25519_dalek::SigningKey::from_bytes` and `verifying_key`: the
/// compressed public key of the key with the given 32 secret bytes, which
/// is a point of the curve.
#[verifier::external_body]
pub(crate) fn public_key_of(secret: &[u8; 32]) -> (pk: [u8; 32])
    ensures
        pk@ == ed25519_public_of(secret@),
        ed25519_public_key_valid(pk@),
{
    ed25519_dalek::SigningKey::from_bytes(secret).verifying_key().to_bytes()
}

/// Wraps `ed25519_dalek::SigningKey::sign` (through the `Signer` trait) for
/// the key with the given 32 secret bytes. Ed25519 signing is
/// deterministic, and the signature checks under the key's public key.
#[verifier::external_body]
pub(crate) fn sign_bytes(secret: &[u8; 32], msg: &[u8]) -> (sig: [u8; 64])
    ensures
        sig@ == ed25519_signature(secret@, msg@),
        ed25519_verifies(ed25519_public_of(secret@), msg@, sig@),
{
    ed25519_dalek::Signer::sign(&ed25519_dalek::SigningKey::from_bytes(secret), msg).to_bytes()
}

} // verus!
