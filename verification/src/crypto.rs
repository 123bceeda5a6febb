//! The calls into the `sha2` and `ed25519-dalek` crates.

use ed25519_dalek::Signer as _;
use sha2::Digest as _;
use vstd::prelude::*;

verus! {

/// The SHA-256 digest of `data`.
pub uninterp spec fn sha256_of(data: Seq<u8>) -> Seq<u8>;

/// The Ed25519 public key that belongs to the 32-byte secret key `secret`.
pub uninterp spec fn ed25519_public_key_of(secret: Seq<u8>) -> Seq<u8>;

/// The Ed25519 signature (RFC 8032, deterministic) of `message` under the
/// 32-byte secret key `secret`.
pub uninterp spec fn ed25519_signature_of(secret: Seq<u8>, message: Seq<u8>) -> Seq<u8>;

/// Calls `sha2::Sha256::digest`. Trusted: the result is the digest named by
/// `sha256_of`, 32 bytes long.
#[verifier::external_body]
pub(crate) fn sha256_digest(data: &[u8]) -> (digest: Vec<u8>)
    ensures
        digest@ == sha256_of(data@),
        digest@.len() == 32,
{
    sha2::Sha256::digest(data).to_vec()
}

/// Calls `ed25519_dalek::SigningKey::from_bytes(..).verifying_key().to_bytes()`.
/// Trusted: the result is the key named by `ed25519_public_key_of`, 32 bytes
/// long.
#[verifier::external_body]
pub(crate) fn ed25519_public_key(secret: &[u8]) -> (public: Vec<u8>)
    requires
        secret@.len() == 32,
    ensures
        public@ == ed25519_public_key_of(secret@),
        public@.len() == 32,
{
    let bytes: [u8; 32] = secret.try_into().unwrap();
    ed25519_dalek::SigningKey::from_bytes(&bytes).verifying_key().to_bytes().to_vec()
}

/// Calls `Signer::sign` of `ed25519_dalek::SigningKey` and
/// `Signature::to_bytes`. Trusted: the result is the signature named by
/// `ed25519_signature_of`, 64 bytes long; Ed25519 signing is deterministic,
/// so it depends on the key and the message alone.
#[verifier::external_body]
pub(crate) fn ed25519_sign(secret: &[u8], message: &[u8]) -> (signature: Vec<u8>)
    requires
        secret@.len() == 32,
    ensures
        signature@ == ed25519_signature_of(secret@, message@),
        signature@.len() == 64,
{
    let bytes: [u8; 32] = secret.try_into().unwrap();
    ed25519_dalek::SigningKey::from_bytes(&bytes).sign(message).to_bytes().to_vec()
}

} // verus!
