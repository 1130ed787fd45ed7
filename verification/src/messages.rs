//! The messages of the consensus, as far as its rules read them.

use vstd::prelude::*;
use crate::aggregator::copy_votes;
use crate::coding::{self, Shard};
use crate::crypto::{Digest, PublicKey, Signature};
use crate::erasure::{self, MerkleProof};

verus! {

/// The number of a round.
pub type Round = u64;

/// A certificate that a quorum voted for a block.
#[derive(Debug)]
pub struct QC {
    /// The digest of the block.
    pub hash: Digest,
    /// The round of the block.
    pub round: Round,
    pub votes: Vec<(PublicKey, Signature)>,
}

/// A certificate that a quorum gave a round up.
#[derive(Debug)]
pub struct TC {
    pub round: Round,
    /// Each vote tells the round of the highest certificate that its author knew.
    pub votes: Vec<(PublicKey, Signature, Round)>,
}

/// A block of batches.
#[derive(Debug)]
pub struct Block {
    pub qc: QC,
    pub tc: Option<TC>,
    pub author: PublicKey,
    pub round: Round,
    /// The batches.
    pub payload: Vec<Vec<u8>>,
    pub signature: Signature,
}

/// A vote for a block.
#[derive(Clone, Copy, Debug)]
pub struct Vote {
    pub hash: Digest,
    pub round: Round,
    pub author: PublicKey,
    pub signature: Signature,
}

/// The wish to give a round up.
#[derive(Debug)]
pub struct Timeout {
    pub high_qc: QC,
    pub round: Round,
    pub author: PublicKey,
    pub signature: Signature,
}

/// A block on its way to one node: the shards that are assigned to it.
#[derive(Debug)]
pub struct ErasureProposal {
    pub author: PublicKey,
    pub round: Round,
    pub qc: QC,
    pub tc: Option<TC>,
    /// The signature of the block.
    pub signature: Signature,
    pub merkle_root: [u8; 32],
    pub data_shards: usize,
    pub total_shards: usize,
    /// The number of bytes of the encoded block.
    pub block_len: usize,
    pub shard_indices: Vec<usize>,
    pub shards: Vec<Shard>,
    pub proofs: Vec<MerkleProof>,
}

/// The shards of a block that a node keeps.
#[derive(Debug)]
pub struct StoredFragments {
    pub data_shards: usize,
    pub total_shards: usize,
    pub block_len: usize,
    pub shard_indices: Vec<usize>,
    pub shards: Vec<Shard>,
    pub proofs: Vec<MerkleProof>,
    pub merkle_root: [u8; 32],
}

/// The shards of a block with which a node answers another one that lacks the block.
#[derive(Debug)]
pub struct SyncFragments {
    /// The digest of the block.
    pub digest: Digest,
    pub data_shards: usize,
    pub total_shards: usize,
    pub block_len: usize,
    pub shard_indices: Vec<usize>,
    pub shards: Vec<Shard>,
}

impl QC {
    /// The two certificates say the same.
    pub open spec fn same(&self, other: &QC) -> bool {
        &&& self.hash == other.hash
        &&& self.round == other.round
        &&& self.votes@ == other.votes@
    }

    /// The certificate of the block before the first one.
    pub fn genesis() -> (qc: QC)
        ensures
            qc.round == 0,
            qc.hash@ == Seq::new(32, |i: int| 0u8),
            qc.votes@ == Seq::<(PublicKey, Signature)>::empty(),
    {
        let qc = QC { hash: zero_digest(), round: 0, votes: Vec::new() };
        qc
    }

    /// A copy of the certificate.
    pub fn copy(&self) -> (copy: QC)
        ensures
            copy.same(self),
    {
        QC { hash: self.hash, round: self.round, votes: copy_votes(&self.votes) }
    }
}

/// The digest of which all bytes are zero.
pub fn zero_digest() -> (digest: Digest)
    ensures
        digest@ == Seq::new(32, |i: int| 0u8),
{
    let digest = Digest([0u8; 32]);
    assert(digest@ =~= Seq::new(32, |i: int| 0u8));
    digest
}

impl TC {
    /// The two certificates say the same.
    pub open spec fn same(&self, other: &TC) -> bool {
        &&& self.round == other.round
        &&& self.votes@ == other.votes@
    }

    /// The rounds of the highest certificates that the voters knew.
    pub open spec fn high_rounds(&self) -> Seq<Round> {
        Seq::new(self.votes@.len(), |i: int| self.votes@[i].2)
    }

    /// The rounds of the highest certificates that the voters knew.
    pub fn high_qc_rounds(&self) -> (rounds: Vec<Round>)
        ensures
            rounds@ == self.high_rounds(),
    {
        let mut rounds: Vec<Round> = Vec::new();
        let mut i: usize = 0;
        while i < self.votes.len()
            invariant
                i <= self.votes@.len(),
                rounds@ == self.high_rounds().take(i as int),
            decreases self.votes@.len() - i,
        {
            rounds.push(self.votes[i].2);
            i = i + 1;
            assert(rounds@ =~= self.high_rounds().take(i as int));
        }
        assert(rounds@ =~= self.high_rounds());
        rounds
    }

    /// A copy of the certificate.
    pub fn copy(&self) -> (copy: TC)
        ensures
            copy.same(self),
    {
        let mut votes: Vec<(PublicKey, Signature, Round)> = Vec::new();
        let mut i: usize = 0;
        while i < self.votes.len()
            invariant
                i <= self.votes@.len(),
                votes@ == self.votes@.take(i as int),
            decreases self.votes@.len() - i,
        {
            votes.push((self.votes[i].0, self.votes[i].1, self.votes[i].2));
            i = i + 1;
            assert(votes@ =~= self.votes@.take(i as int));
        }
        assert(votes@ =~= self.votes@);
        TC { round: self.round, votes }
    }
}

/// The two certificates say the same, or there is none.
pub open spec fn same_tc(a: &Option<TC>, b: &Option<TC>) -> bool {
    match (a, b) {
        (Some(a), Some(b)) => a.same(b),
        (None, None) => true,
        _ => false,
    }
}

/// A copy of a certificate, if there is one.
pub fn copy_tc(tc: &Option<TC>) -> (copy: Option<TC>)
    ensures
        same_tc(&copy, tc),
{
    match tc {
        Some(tc) => Some(tc.copy()),
        None => None,
    }
}

/// A copy of a list of proofs.
pub fn copy_proofs(proofs: &Vec<MerkleProof>) -> (copy: Vec<MerkleProof>)
    ensures
        erasure::proof_views(copy@) == erasure::proof_views(proofs@),
{
    let mut copy: Vec<MerkleProof> = Vec::new();
    let mut i: usize = 0;
    while i < proofs.len()
        invariant
            i <= proofs@.len(),
            copy@.len() == i,
            forall|j: int| 0 <= j < i ==> (#[trigger] copy@[j])@ == proofs@[j]@,
        decreases proofs@.len() - i,
    {
        copy.push(proofs[i].copy());
        i = i + 1;
    }
    assert(erasure::proof_views(copy@) =~= erasure::proof_views(proofs@));
    copy
}

/// A copy of a list of shards.
pub fn copy_shards(shards: &Vec<Shard>) -> (copy: Vec<Shard>)
    ensures
        coding::shard_views(copy@) == coding::shard_views(shards@),
{
    let mut copy: Vec<Shard> = Vec::new();
    let mut i: usize = 0;
    while i < shards.len()
        invariant
            i <= shards@.len(),
            copy@.len() == i,
            forall|j: int| 0 <= j < i ==> (#[trigger] copy@[j])@ == shards@[j]@,
        decreases shards@.len() - i,
    {
        copy.push(shards[i].clone());
        i = i + 1;
    }
    assert(coding::shard_views(copy@) =~= coding::shard_views(shards@));
    copy
}

} // verus!
