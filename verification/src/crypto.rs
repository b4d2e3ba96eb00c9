//! The two cryptographic primitives, which the library calls and does not
//! prove: the BLAKE2b-256 digest and the check of an Ed25519 signature.

use vstd::prelude::*;
use crate::primitives::{H256, Public, Signature};

verus! {

/// The BLAKE2b-256 digest of `bytes`.
pub uninterp spec fn blake2_256_digest(bytes: Seq<u8>) -> [u8; 32];

/// Whether `signature` is a valid Ed25519 signature of `message` under the
/// public key `signer`.
pub uninterp spec fn ed25519_valid(signature: Seq<u8>, message: Seq<u8>, signer: Seq<u8>) -> bool;

/// Calls `sp_core::Blake2Hasher::hash`, which hashes `bytes` with BLAKE2b at a
/// digest length of 32 bytes. Trusted: the result depends on `bytes` alone, so
/// it is the digest that `blake2_256_digest` names.
#[verifier::external_body]
pub(crate) fn blake2_256(bytes: &[u8]) -> (digest: H256)
    ensures
        digest == blake2_256_digest(bytes@),
{
    <sp_core::Blake2Hasher as sp_core::Hasher>::hash(bytes).0
}

/// Calls `sp_core::ed25519::Pair::verify`, which parses the key and the
/// signature and answers whether the signature verifies; a key or signature
/// that does not parse gives `false`. Trusted: the answer depends on the three
/// byte strings alone, so it is the one that `ed25519_valid` names.
#[verifier::external_body]
pub(crate) fn ed25519_verify(signature: &Signature, message: &[u8], signer: &Public) -> (valid:
    bool)
    ensures
        valid == ed25519_valid(signature@, message@, signer@),
{
    let signature = sp_core::ed25519::Signature::from_raw(*signature);
    let signer = sp_core::ed25519::Public::from_raw(*signer);
    <sp_core::ed25519::Pair as sp_core::Pair>::verify(&signature, message, &signer)
}

} // verus!
