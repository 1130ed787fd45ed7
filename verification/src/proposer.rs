//! Making blocks and sending them out as fragments.

use vstd::prelude::*;
use crate::bytes::first_32;
use crate::coding::{self, Shard};
use crate::committee::{self, Committee, Stake};
use crate::crypto::{Digest, PublicKey, Signature};
use crate::erasure::{self, encode, reconstruct};
use crate::error::ConsensusResult;
use crate::fragments::{self, cut_fragment};
use crate::hashing::{self, hash_sha512};
use crate::messages::{self, copy_tc, Block, ErasureProposal, Round, QC, TC};
use crate::table::Table;

verus! {

/// What the proposer is told.
#[derive(Debug)]
pub enum ProposerMessage {
    /// To make a block.
    Make(Round, QC, Option<TC>),
    /// To forget batches.
    Cleanup(Vec<Digest>),
}

/// The digest of a batch: SHA-512, cut to 32 bytes.
pub open spec fn batch_hash(batch: Seq<u8>) -> Seq<u8> {
    hashing::sha512_hash(batch)@.take(32)
}

/// The digest is one of a list.
pub open spec fn is_listed(digests: Seq<Digest>, digest: Seq<u8>) -> bool {
    exists|i: int| 0 <= i < digests.len() && (#[trigger] digests[i])@ == digest
}

/// The digest of a batch.
pub fn batch_digest(batch: &[u8]) -> (digest: Digest)
    ensures
        digest@ == batch_hash(batch@),
{
    let hash = hash_sha512(batch);
    Digest(first_32(&hash))
}

/// `proposal` brings a block to a node.
pub open spec fn proposes(
    proposal: &ErasureProposal,
    block_bytes: Seq<u8>,
    k: nat,
    n: nat,
    node: nat,
) -> bool {
    &&& proposal.data_shards == k
    &&& proposal.total_shards == n
    &&& proposal.block_len == block_bytes.len()
    &&& fragments::is_fragment(
        block_bytes,
        k,
        n,
        node,
        proposal.shard_indices@,
        coding::shard_views(proposal.shards@),
        erasure::proof_views(proposal.proofs@),
        proposal.merkle_root@,
    )
}

/// Waits for nodes to acknowledge a block.
#[derive(Debug)]
pub struct AckCounter {
    pub total: Stake,
    pub quorum: Stake,
}

impl AckCounter {
    /// Takes in that nodes with some stake acknowledged the block. The answer is whether there is
    /// a quorum now.
    pub fn on_ack(&mut self, stake: Stake) -> (enough: bool)
        requires
            old(self).total + stake <= u32::MAX,
        ensures
            final(self).total == old(self).total + stake,
            final(self).quorum == old(self).quorum,
            enough == (final(self).total >= final(self).quorum),
    {
        self.total = self.total + stake;
        self.total >= self.quorum
    }
}

/// The batches that one node will propose.
#[derive(Debug)]
pub struct Proposer {
    name: PublicKey,
    committee: Committee,
    /// The batches, by their digests.
    buffer: Table<Vec<u8>>,
}

impl Proposer {
    /// This node.
    pub closed spec fn owner(&self) -> PublicKey {
        self.name
    }

    /// The committee.
    pub closed spec fn members(&self) -> Committee {
        self.committee
    }

    /// The batches, by their digests.
    pub closed spec fn buffered(&self) -> Map<Seq<u8>, Seq<u8>> {
        self.buffer@.map_values(|batch: Vec<u8>| batch@)
    }

    /// Each batch is under its digest.
    pub closed spec fn wf(&self) -> bool {
        &&& self.buffer.wf()
        &&& self.committee.wf()
        &&& forall|digest: Seq<u8>| #[trigger]
            self.buffer@.contains_key(digest) ==> digest == batch_hash(self.buffer@[digest]@)
    }

    /// Everything but the batches is the same.
    pub open spec fn same_setting(&self, other: &Proposer) -> bool {
        &&& self.owner() == other.owner()
        &&& self.members() == other.members()
    }

    /// A proposer without batches.
    pub fn new(name: PublicKey, committee: Committee) -> (proposer: Proposer)
        requires
            committee.wf(),
        ensures
            proposer.wf(),
            proposer.owner() == name,
            proposer.members() == committee,
            proposer.buffered() == Map::<Seq<u8>, Seq<u8>>::empty(),
    {
        let proposer = Proposer { name, committee, buffer: Table::new() };
        assert(proposer.buffered() =~= Map::<Seq<u8>, Seq<u8>>::empty());
        proposer
    }

    /// A batch has come from the mempool.
    pub fn on_batch(&mut self, batch: Vec<u8>)
        requires
            old(self).wf(),
        ensures
            final(self).wf(),
            final(self).same_setting(old(self)),
            final(self).buffered() == old(self).buffered().insert(batch_hash(batch@), batch@),
    {
        let ghost before = self.buffered();
        let digest = batch_digest(&batch);
        self.buffer.insert(digest.to_vec(), batch);
        assert(self.buffered() =~= before.insert(batch_hash(batch@), batch@));
    }

    /// Batches are in blocks already, and are forgotten.
    pub fn on_cleanup(&mut self, digests: &Vec<Digest>)
        requires
            old(self).wf(),
        ensures
            final(self).wf(),
            final(self).same_setting(old(self)),
            forall|digest: Seq<u8>| #[trigger]
                final(self).buffered().contains_key(digest) <==> old(
                    self,
                ).buffered().contains_key(digest) && forall|i: int|
                    0 <= i < digests@.len() ==> (#[trigger] digests@[i])@ != digest,
            forall|digest: Seq<u8>| #[trigger]
                final(self).buffered().contains_key(digest) ==> final(self).buffered()[digest]
                    == old(self).buffered()[digest],
            forall|digest: Seq<u8>| #[trigger]
                final(self).buffered().contains_key(digest) ==> !is_listed(digests@, digest),
    {
        let ghost before = *self;
        let mut i: usize = 0;
        while i < digests.len()
            invariant
                i <= digests@.len(),
                self.wf(),
                self.same_setting(&before),
                forall|digest: Seq<u8>| #[trigger]
                    self.buffer@.contains_key(digest) <==> before.buffer@.contains_key(digest)
                        && forall|j: int| 0 <= j < i ==> (#[trigger] digests@[j])@ != digest,
                forall|digest: Seq<u8>| #[trigger]
                    self.buffer@.contains_key(digest) ==> self.buffer@[digest]
                        == before.buffer@[digest],
            decreases digests@.len() - i,
        {
            let _ = self.buffer.remove(&digests[i].0);
            i = i + 1;
        }
        assert forall|digest: Seq<u8>| #[trigger] self.buffered().contains_key(digest) implies self.buffered()[digest]
            == before.buffered()[digest] by {
            assert(self.buffer@.contains_key(digest));
        }
        assert forall|digest: Seq<u8>| #[trigger]
            self.buffered().contains_key(digest) <==> before.buffered().contains_key(digest)
                && forall|j: int|
                0 <= j < digests@.len() ==> (#[trigger] digests@[j])@ != digest by {
            assert(self.buffered().contains_key(digest) == self.buffer@.contains_key(digest));
        }
    }

    /// The batches of the buffer are in the payload, each once and nothing else, and the buffer
    /// is empty after it.
    pub open spec fn empties_into(&self, after: &Proposer, payload: Seq<Vec<u8>>) -> bool {
        &&& after.buffered() == Map::<Seq<u8>, Seq<u8>>::empty()
        &&& forall|i: int|
            0 <= i < payload.len() ==> self.buffered().contains_pair(
                batch_hash((#[trigger] payload[i])@),
                payload[i]@,
            )
        &&& forall|i: int, j: int|
            0 <= i < j < payload.len() ==> (#[trigger] payload[i])@ != (#[trigger] payload[j])@
        &&& forall|digest: Seq<u8>| #[trigger]
            self.buffered().contains_key(digest) ==> exists|i: int|
                0 <= i < payload.len() && (#[trigger] payload[i])@ == self.buffered()[digest]
    }

    /// Takes all batches out of the buffer.
    pub fn take_payload(&mut self) -> (payload: Vec<Vec<u8>>)
        requires
            old(self).wf(),
        ensures
            final(self).wf(),
            final(self).same_setting(old(self)),
            old(self).empties_into(final(self), payload@),
    {
        let ghost before = *self;
        let mut payload: Vec<Vec<u8>> = Vec::new();
        while self.buffer.len() > 0
            invariant
                before.wf(),
                self.wf(),
                self.same_setting(&before),
                forall|digest: Seq<u8>| #[trigger]
                    self.buffer@.contains_key(digest) ==> before.buffer@.contains_key(digest)
                        && self.buffer@[digest] == before.buffer@[digest],
                forall|i: int|
                    0 <= i < payload@.len() ==> {
                        let digest = batch_hash((#[trigger] payload@[i])@);
                        &&& before.buffer@.contains_key(digest)
                        &&& before.buffer@[digest]@ == payload@[i]@
                        &&& !self.buffer@.contains_key(digest)
                    },
                forall|i: int, j: int|
                    0 <= i < j < payload@.len() ==> (#[trigger] payload@[i])@ != (
                    #[trigger] payload@[j])@,
                forall|digest: Seq<u8>| #[trigger]
                    before.buffer@.contains_key(digest) ==> self.buffer@.contains_key(digest)
                        || exists|i: int|
                        0 <= i < payload@.len() && (#[trigger] payload@[i])@
                            == before.buffer@[digest]@,
            decreases self.buffer.keys().len(),
        {
            let ghost earlier = self.buffer;
            let ghost taken = payload@;
            proof {
                earlier.lemma_keys();
                assert(earlier.keys().contains(earlier.keys()[0]));
            }
            let digest = self.buffer.key_at(0).clone();
            if let Some(batch) = self.buffer.remove(&digest) {
                payload.push(batch);
                assert(payload@[taken.len() as int] == batch);
                assert forall|key: Seq<u8>| #[trigger] before.buffer@.contains_key(key) implies self.buffer@.contains_key(
                    key,
                ) || exists|i: int|
                    0 <= i < payload@.len() && (#[trigger] payload@[i])@ == before.buffer@[key]@ by {
                    if key != digest@ && !earlier@.contains_key(key) {
                        let i = choose|i: int|
                            0 <= i < taken.len() && (#[trigger] taken[i])@ == before.buffer@[key]@;
                        assert(payload@[i] == taken[i]);
                    }
                }
            }
        }
        proof {
            self.buffer.lemma_keys();
            assert forall|digest: Seq<u8>| !self.buffer@.contains_key(digest) by {
                if self.buffer@.contains_key(digest) {
                    assert(self.buffer.keys().contains(digest));
                }
            }
        }
        assert(self.buffered() =~= Map::<Seq<u8>, Seq<u8>>::empty());
        assert forall|digest: Seq<u8>| #[trigger] before.buffered().contains_key(digest) implies exists|
            i: int,
        |
            0 <= i < payload@.len() && (#[trigger] payload@[i])@ == before.buffered()[digest] by {
            assert(before.buffer@.contains_key(digest));
        }
        payload
    }

    /// Drafts a block for a round, which follows on a certificate and, where the round before was
    /// given up, on the certificate of that. It holds all batches of the buffer, and its signature
    /// is still blank.
    pub fn draft_block(&mut self, round: Round, qc: QC, tc: Option<TC>) -> (block: Block)
        requires
            old(self).wf(),
        ensures
            final(self).wf(),
            final(self).same_setting(old(self)),
            block.round == round,
            block.qc == qc,
            block.tc == tc,
            block.author == old(self).owner(),
            block.signature@ == Seq::new(64, |i: int| 0u8),
            old(self).empties_into(final(self), block.payload@),
    {
        let payload = self.take_payload();
        let signature = Signature { part1: [0u8; 32], part2: [0u8; 32] };
        assert(signature@ =~= Seq::new(64, |i: int| 0u8));
        Block { qc, tc, author: self.name, round, payload, signature }
    }

    /// Starts to count the stake of those who acknowledge a block, beginning with this node.
    pub fn start_acks(&self) -> (counter: AckCounter)
        ensures
            counter.total == self.members().stake_of(self.owner()),
            counter.quorum == self.members().quorum,
    {
        AckCounter {
            total: self.committee.stake(&self.name),
            quorum: self.committee.quorum_threshold(),
        }
    }

    /// The messages with which a block is sent to the other nodes. With a quorum of `k` and `n`
    /// nodes the block is coded into `k * n` shards, of which each node gets `k`.
    pub fn make_proposals(
        &self,
        block_bytes: &Vec<u8>,
        round: Round,
        qc: &QC,
        tc: &Option<TC>,
        signature: Signature,
    ) -> (proposals: Vec<(PublicKey, ErasureProposal)>)
        requires
            self.wf(),
            block_bytes@.len() > 0,
            block_bytes@.len() + self.members().quorum <= usize::MAX,
            self.members().quorum > 0,
            self.members().authorities@.len() >= 2,
            self.members().quorum * self.members().authorities@.len() <= coding::MAX_SHARDS,
        ensures
            Seq::new(proposals@.len(), |i: int| proposals@[i].0) == committee::names_without(
                self.members().authorities@,
                self.owner()@,
            ),
            forall|i: int|
                0 <= i < proposals@.len() ==> {
                    let (name, proposal) = #[trigger] proposals@[i];
                    &&& proposal.author == self.owner()
                    &&& proposal.round == round
                    &&& proposal.qc.same(qc)
                    &&& messages::same_tc(&proposal.tc, tc)
                    &&& proposal.signature == signature
                    &&& self.members().place_of(name) is Some
                    &&& proposes(
                        &proposal,
                        block_bytes@,
                        self.members().quorum as nat,
                        (self.members().quorum * self.members().authorities@.len()) as nat,
                        self.members().place_of(name)->0,
                    )
                },
    {
        let k: usize = self.committee.quorum_threshold() as usize;
        let size: usize = self.committee.size();
        assert(k * size > k && k < k * size && k * 2 <= k * size) by (nonlinear_arith)
            requires
                k > 0,
                size >= 2,
        ;
        let n: usize = k * size;
        let ghost authorities = self.committee.authorities@;
        let (shards, merkle_root, proofs) = encode(block_bytes, k, n);
        let ghost word = erasure::encoded_shards(block_bytes@, k as nat, n as nat);
        let mut proposals: Vec<(PublicKey, ErasureProposal)> = Vec::new();
        let mut i: usize = 0;
        assert(Seq::new(proposals@.len(), |j: int| proposals@[j].0) =~= committee::names_without(
            authorities.take(0),
            self.name@,
        ));
        while i < size
            invariant
                i <= size,
                self.wf(),
                size == authorities.len(),
                authorities == self.committee.authorities@,
                k == self.committee.quorum,
                n == k * size,
                0 < k < n <= coding::MAX_SHARDS,
                shards@.len() == n,
                proofs@.len() == n,
                word == erasure::encoded_shards(block_bytes@, k as nat, n as nat),
                word == coding::shard_views(shards@),
                coding::uniform(word, erasure::split_size(block_bytes@.len(), k as nat)),
                merkle_root@ == erasure::merkle_root(erasure::leaf_layer(word)),
                forall|j: int|
                    0 <= j < n ==> (#[trigger] proofs@[j])@ == erasure::merkle_path(
                        erasure::leaf_layer(word),
                        j,
                    ),
                Seq::new(proposals@.len(), |j: int| proposals@[j].0) == committee::names_without(
                    authorities.take(i as int),
                    self.name@,
                ),
                forall|j: int|
                    0 <= j < proposals@.len() ==> {
                        let (name, proposal) = #[trigger] proposals@[j];
                        &&& proposal.author == self.name
                        &&& proposal.round == round
                        &&& proposal.qc.same(qc)
                        &&& messages::same_tc(&proposal.tc, tc)
                        &&& proposal.signature == signature
                        &&& self.committee.place_of(name) is Some
                        &&& proposes(
                            &proposal,
                            block_bytes@,
                            k as nat,
                            n as nat,
                            self.committee.place_of(name)->0,
                        )
                    },
            decreases size - i,
        {
            let ghost sent = Seq::new(proposals@.len(), |j: int| proposals@[j].0);
            let ghost longer = authorities.take(i + 1);
            assert(longer.drop_last() =~= authorities.take(i as int));
            assert(longer.last() == authorities[i as int]);
            let name: PublicKey = self.committee.authorities[i].name;
            if name != self.name {
                assert((i + 1) * k <= n) by (nonlinear_arith)
                    requires
                        i + 1 <= size,
                        n == k * size,
                ;
                assert(i * k + k == (i + 1) * k) by (nonlinear_arith);
                let (shard_indices, node_shards, node_proofs) = cut_fragment(
                    i,
                    k,
                    &shards,
                    &proofs,
                );
                proof {
                    committee::lemma_place_of_member(authorities, i as int);
                    assert(erasure::proof_views(node_proofs@) =~= Seq::new(
                        k as nat,
                        |j: int| erasure::merkle_path(erasure::leaf_layer(word), i * k + j),
                    ));
                }
                let proposal = ErasureProposal {
                    author: self.name,
                    round,
                    qc: qc.copy(),
                    tc: copy_tc(tc),
                    signature,
                    merkle_root,
                    data_shards: k,
                    total_shards: n,
                    block_len: block_bytes.len(),
                    shard_indices,
                    shards: node_shards,
                    proofs: node_proofs,
                };
                proposals.push((name, proposal));
                assert(Seq::new(proposals@.len(), |j: int| proposals@[j].0) =~= sent.push(name));
            }
            i = i + 1;
        }
        assert(authorities.take(i as int) =~= authorities);
        proposals
    }
}

/// Every proposal is enough alone: each of its proofs verifies its shard at its index under its
/// root, and whatever is reconstructed from these shards, in their places and nothing elsewhere,
/// is the block.
pub proof fn law_every_proposal_is_enough(
    proposal: &ErasureProposal,
    block_bytes: Seq<u8>,
    node: nat,
    places: Vec<Option<Shard>>,
    outcome: ConsensusResult<Vec<u8>>,
)
    requires
        0 < proposal.data_shards < proposal.total_shards <= coding::MAX_SHARDS,
        block_bytes.len() > 0,
        proposes(
            proposal,
            block_bytes,
            proposal.data_shards as nat,
            proposal.total_shards as nat,
            node,
        ),
        coding::sparse_views(places@) == fragments::all_placed(
            proposal.shard_indices@,
            coding::shard_views(proposal.shards@),
            proposal.total_shards as nat,
        ),
        call_ensures(
            reconstruct,
            (places, proposal.data_shards, proposal.total_shards, proposal.block_len),
            outcome,
        ),
    ensures
        fragments::all_proved(
            coding::shard_views(proposal.shards@),
            proposal.shard_indices@,
            erasure::proof_views(proposal.proofs@),
            proposal.merkle_root@,
        ),
        outcome is Ok,
        outcome->Ok_0@ == block_bytes,
{
    let (k, n) = (proposal.data_shards as nat, proposal.total_shards as nat);
    fragments::law_fragment_suffices(
        block_bytes,
        k,
        n,
        node,
        proposal.shard_indices@,
        coding::shard_views(proposal.shards@),
        erasure::proof_views(proposal.proofs@),
        proposal.merkle_root@,
    );
    assert(places@.len() == coding::sparse_views(places@).len());
    assert(coding::drawn_from(
        coding::sparse_views(places@),
        erasure::encoded_shards(block_bytes, k, n),
    ));
}

} // verus!
