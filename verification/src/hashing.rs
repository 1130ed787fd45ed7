//! The hash functions that the node takes from outside crates.

use ed25519_dalek::Digest as _;
use vstd::prelude::*;

verus! {

/// What SHA-512 makes of a message.
pub uninterp spec fn sha512_hash(message: Seq<u8>) -> [u8; 64];

/// What BLAKE3 makes of a message, with its default 32-byte output.
pub uninterp spec fn blake3_hash(message: Seq<u8>) -> [u8; 32];

/// Calls `Sha512::digest`, which `ed25519_dalek` re-exports from `sha2`. The result is the
/// SHA-512 hash of the message.
#[verifier::external_body]
pub(crate) fn hash_sha512(message: &[u8]) -> (hash: [u8; 64])
    ensures
        hash == sha512_hash(message@),
{
    ed25519_dalek::Sha512::digest(message)[..].try_into().expect("SHA-512 gives 64 bytes")
}

/// Calls `blake3::hash`. The result is the BLAKE3 hash of the message.
#[verifier::external_body]
pub(crate) fn hash_blake3(message: &[u8]) -> (hash: [u8; 32])
    ensures
        hash == blake3_hash(message@),
{
    *blake3::hash(message).as_bytes()
}

} // verus!
