//! What can go wrong in the consensus and in the mempool.

use vstd::prelude::*;
use crate::coding::CodingError;
use crate::crypto::{Digest, PublicKey};

verus! {

/// Errors of the consensus.
#[derive(Clone, Copy, Debug)]
pub enum ConsensusError {
    /// The block cannot be decoded from the shards at hand.
    ErasureReconstructionFailed,
    /// A shard does not belong to the Merkle root that it came with.
    InvalidMerkleProof,
    /// The bytes do not hold a message.
    SerializationError,
    /// The block is not the one that was announced.
    MalformedBlock(Digest),
    /// The author of a proposal is not the leader of its round.
    WrongLeader { digest: Digest, leader: PublicKey, round: u64 },
    /// The block, vote, timeout or certificate was not signed as it should be.
    InvalidSignature,
    /// The store failed.
    StoreError,
}

/// Errors of the mempool.
#[derive(Clone, Copy, Debug)]
pub enum MempoolError {
    /// The authority has no voting rights.
    UnknownAuthority(PublicKey),
    /// The authority voted more than once.
    AuthorityReuse(PublicKey),
    /// The certificate has too few votes.
    CertificateRequiresQuorum,
    /// The signature is not the author's.
    InvalidSignature,
    /// The shards are not under the Merkle root.
    BadInclusionProof,
    /// The shards are not a code word.
    MalformedCodedBatch,
    /// The shards cannot be decoded.
    CodingError(CodingError),
}

pub type ConsensusResult<T> = Result<T, ConsensusError>;

pub type MempoolResult<T> = Result<T, MempoolError>;

} // verus!
