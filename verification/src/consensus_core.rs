//! The rules of the consensus: rounds, votes, commits and incoming blocks.
//!
//! The network, the store, the timer, the signatures and the collection of votes are elsewhere.
//! What they answer is passed to the functions of [`Core`], which say what has to be done next.
//! Whenever the round has changed the timer has to be reset and the votes for earlier rounds can
//! be forgotten.

use vstd::prelude::*;
use crate::coding;
use crate::committee::Committee;
use crate::crypto::{Digest, PublicKey, Signature};
use crate::erasure::{self, encode, reconstruct};
use crate::error::{ConsensusError, ConsensusResult};
use crate::fragments::{self, check_proofs, cut_fragment, place_shards};
use crate::messages::{
    copy_proofs, copy_shards, zero_digest, Block, ErasureProposal, Round, StoredFragments,
    SyncFragments, Timeout, Vote, QC, TC,
};
use crate::proposer::{self, batch_digest, ProposerMessage};
use crate::table::Table;

verus! {

/// The state of one node.
#[derive(Debug)]
pub struct Core {
    pub name: PublicKey,
    pub committee: Committee,
    pub round: Round,
    pub last_voted_round: Round,
    pub last_committed_round: Round,
    pub high_qc: QC,
    /// The fragments of blocks whose ancestors are not all there, by the digests of the blocks.
    pub pending_fragments: Table<StoredFragments>,
}

/// The round after a certificate for `target` has come.
pub open spec fn advanced(round: Round, target: Round) -> int {
    if target < round {
        round as int
    } else {
        target + 1
    }
}

/// Rounds never go back.
pub proof fn law_rounds_grow(round: Round, target: Round)
    ensures
        advanced(round, target) >= round,
        advanced(round, target) > target,
{
}

/// The block may be voted for after the last vote was in `last_voted`: its round is a later one,
/// and it follows directly on a certified block, or on a round that was given up by nodes none
/// of which knew of a later certificate.
pub open spec fn can_vote(last_voted: Round, block: &Block) -> bool {
    &&& block.round > last_voted
    &&& {
        ||| block.qc.round + 1 == block.round
        ||| match block.tc {
            Some(tc) => {
                &&& tc.round + 1 == block.round
                &&& forall|i: int|
                    0 <= i < tc.votes@.len() ==> block.qc.round >= (#[trigger] tc.votes@[i]).2
            },
            None => false,
        }
    }
}

/// A certificate that a round was given up has votes.
pub open spec fn has_tc_votes(block: &Block) -> bool {
    match block.tc {
        Some(tc) => tc.votes@.len() > 0,
        None => true,
    }
}

/// Each state of the node follows on the one before.
pub open spec fn is_run(states: Seq<Core>) -> bool {
    forall|i: int|
        0 <= i < states.len() - 1 ==> (#[trigger] states[i + 1]).moved_on_from(&states[i])
}

/// Neither the rounds nor the certificate go back in a run, however many calls it has.
pub proof fn law_run_never_goes_back(states: Seq<Core>, i: int, j: int)
    requires
        is_run(states),
        0 <= i <= j < states.len(),
    ensures
        states[j].moved_on_from(&states[i]),
    decreases j - i,
{
    if i < j {
        law_run_never_goes_back(states, i, j - 1);
        assert(states[(j - 1) + 1].moved_on_from(&states[j - 1]));
    }
}

/// No two votes of a run are for blocks of the same round, whatever is taken in between them: a
/// vote is for a block of a later round than all votes before.
pub proof fn law_votes_do_not_contradict(
    states: Seq<Core>,
    i: int,
    first: &Block,
    j: int,
    second: &Block,
)
    requires
        is_run(states),
        0 <= i < j < states.len() - 1,
        can_vote(states[i].last_voted_round, first),
        states[i + 1].last_voted_round == first.round,
        can_vote(states[j].last_voted_round, second),
        states[j + 1].last_voted_round == second.round,
    ensures
        second.round > first.round,
{
    law_run_never_goes_back(states, i + 1, j);
}

/// Two commits of a run have no block in common, whatever is taken in between them: where parents
/// have smaller rounds than their children, every block of the later commit is of a later round
/// than all blocks of the earlier one.
pub proof fn law_commits_do_not_repeat(
    states: Seq<Core>,
    i: int,
    first: &CommitWalk,
    j: int,
    second: &CommitWalk,
    a: int,
    b: int,
)
    requires
        is_run(states),
        0 <= i < j < states.len(),
        first.wf(),
        states[i + 1].last_committed_round == first.blocks()[0].round,
        forall|c: int|
            0 < c < first.blocks().len() ==> (#[trigger] first.blocks()[c]).round
                < first.blocks()[0].round,
        second.wf(),
        second.base() == states[j].last_committed_round,
        0 <= a < first.blocks().len(),
        0 <= b < second.blocks().len(),
    ensures
        second.blocks()[b].round > first.blocks()[a].round,
        second.blocks()[b] != first.blocks()[a],
{
    law_run_never_goes_back(states, i + 1, j);
    assert(second.blocks()[b].round > second.base());
}

/// A block to be committed and those of its ancestors that are not committed yet, each block
/// followed by its parent.
#[derive(Debug)]
pub struct CommitWalk {
    chain: Vec<Block>,
    /// The round up to which all is committed.
    floor: Round,
    /// The round of the ancestor that was found to be committed already.
    reached: Option<Round>,
}

impl CommitWalk {
    /// The block to be committed, its parent, and so on.
    pub closed spec fn blocks(&self) -> Seq<Block> {
        self.chain@
    }

    /// The round up to which all is committed.
    pub closed spec fn base(&self) -> Round {
        self.floor
    }

    /// The round of the ancestor that was found to be committed already.
    pub closed spec fn committed_ancestor(&self) -> Option<Round> {
        self.reached
    }

    /// None of the blocks is committed yet, and the ancestors were taken only as far as they are
    /// needed.
    pub open spec fn wf(&self) -> bool {
        &&& self.blocks().len() > 0
        &&& forall|i: int|
            0 <= i < self.blocks().len() ==> (#[trigger] self.blocks()[i]).round > self.base()
        &&& forall|i: int|
            0 <= i < self.blocks().len() - 1 ==> (#[trigger] self.blocks()[i]).round > self.base()
                + 1
        &&& self.committed_ancestor() matches Some(round) ==> round <= self.base()
    }

    /// All ancestors that are needed are there: the last block is of the round after the last
    /// committed one, or its parent is committed already.
    pub open spec fn done(&self) -> bool {
        self.committed_ancestor() is Some || self.blocks().last().round <= self.base() + 1
    }

    /// The walk went down `chain`, as far as it went.
    pub open spec fn follows(&self, chain: Seq<Block>) -> bool {
        &&& self.blocks().is_prefix_of(chain)
        &&& self.committed_ancestor() matches Some(round) ==> self.blocks().len() < chain.len()
            && chain[self.blocks().len() as int].round == round
    }

    /// The block whose parent is needed next.
    pub fn needs_parent_of(&self) -> (block: Option<&Block>)
        requires
            self.wf(),
        ensures
            block is None <==> self.done(),
            block matches Some(block) ==> *block == self.blocks().last(),
    {
        let last = &self.chain[self.chain.len() - 1];
        if self.reached.is_none() && last.round > 0 && self.floor < last.round - 1 {
            Some(last)
        } else {
            None
        }
    }

    /// Takes in the parent of the last block. A parent that is committed already ends the walk
    /// and is not kept.
    pub fn add_parent(&mut self, parent: Block)
        requires
            old(self).wf(),
            !old(self).done(),
        ensures
            final(self).wf(),
            final(self).base() == old(self).base(),
            if parent.round > old(self).base() {
                &&& final(self).blocks() == old(self).blocks().push(parent)
                &&& final(self).committed_ancestor() is None
            } else {
                &&& final(self).blocks() == old(self).blocks()
                &&& final(self).committed_ancestor() == Some(parent.round)
            },
            forall|chain: Seq<Block>| #[trigger]
                old(self).follows(chain) && old(self).blocks().len() < chain.len()
                    && chain[old(self).blocks().len() as int] == parent ==> final(self).follows(
                    chain,
                ),
    {
        let ghost before = self.blocks();
        if parent.round > self.floor {
            self.chain.push(parent);
            assert forall|chain: Seq<Block>|
                before.is_prefix_of(chain) && before.len() < chain.len() && chain[before.len() as int]
                    == parent implies #[trigger] self.blocks().is_prefix_of(chain) by {
                assert(self.blocks() =~= chain.take((before.len() + 1) as int));
            }
        } else {
            self.reached = Some(parent.round);
        }
    }
}

/// Nothing is left out of a commit: where parents have smaller rounds than their children, every
/// ancestor in a round that was not committed before is among the blocks of the walk.
pub proof fn law_commit_leaves_nothing_out(walk: &CommitWalk, chain: Seq<Block>, i: int)
    requires
        walk.wf(),
        walk.done(),
        walk.follows(chain),
        forall|a: int, b: int|
            0 <= a < b < chain.len() ==> (#[trigger] chain[b]).round < (#[trigger] chain[a]).round,
        0 <= i < chain.len(),
        chain[i].round > walk.base(),
    ensures
        walk.blocks().contains(chain[i]),
{
    let last = walk.blocks().len() - 1;
    assert(walk.blocks()[last] == chain[last]);
    if i > last {
        assert(chain[i].round < chain[last].round);
        if walk.committed_ancestor() is Some {
            assert(chain[last + 1].round <= walk.base());
            if i > last + 1 {
                assert(chain[i].round < chain[last + 1].round);
            }
        }
    } else {
        assert(walk.blocks()[i] == chain[i]);
    }
}

/// What has to be done once the ancestors of a block are there.
#[derive(Debug)]
pub struct BlockPlan {
    /// The fragments of the block, to be written to the store.
    pub fragments: Option<StoredFragments>,
    /// The batches that the proposer has to forget.
    pub cleanup: ProposerMessage,
    /// Whether the grandparent is to be committed.
    pub commit: bool,
}

/// The digests of batches.
pub open spec fn batch_hashes(payload: Seq<Vec<u8>>) -> Seq<Seq<u8>> {
    Seq::new(payload.len(), |i: int| proposer::batch_hash(payload[i]@))
}

/// The contents of digests.
pub open spec fn digest_views(digests: Seq<Digest>) -> Seq<Seq<u8>> {
    Seq::new(digests.len(), |i: int| digests[i]@)
}

/// Adds the digests of the batches of a block.
fn append_digests(digests: &mut Vec<Digest>, payload: &Vec<Vec<u8>>)
    ensures
        digest_views(final(digests)@) == digest_views(old(digests)@) + batch_hashes(payload@),
{
    let ghost before = digest_views(digests@);
    let mut i: usize = 0;
    assert(before + batch_hashes(payload@).take(0) =~= before);
    while i < payload.len()
        invariant
            i <= payload@.len(),
            digest_views(digests@) == before + batch_hashes(payload@).take(i as int),
        decreases payload@.len() - i,
    {
        let ghost earlier = digest_views(digests@);
        digests.push(batch_digest(&payload[i]));
        assert(digest_views(digests@) =~= earlier.push(batch_hashes(payload@)[i as int]));
        i = i + 1;
        assert(digest_views(digests@) =~= before + batch_hashes(payload@).take(i as int));
    }
    assert(batch_hashes(payload@).take(i as int) =~= batch_hashes(payload@));
}

/// The stored fragments are those of a proposal.
pub open spec fn keeps_proposal(stored: &StoredFragments, proposal: &ErasureProposal) -> bool {
    &&& stored.data_shards == proposal.data_shards
    &&& stored.total_shards == proposal.total_shards
    &&& stored.block_len == proposal.block_len
    &&& stored.shard_indices@ == proposal.shard_indices@
    &&& coding::shard_views(stored.shards@) == coding::shard_views(proposal.shards@)
    &&& erasure::proof_views(stored.proofs@) == erasure::proof_views(proposal.proofs@)
    &&& stored.merkle_root == proposal.merkle_root
}

/// What a node keeps of a proposal.
pub fn proposal_to_stored_fragments(proposal: &ErasureProposal) -> (stored: StoredFragments)
    ensures
        keeps_proposal(&stored, proposal),
{
    let shard_indices = proposal.shard_indices.clone();
    assert(shard_indices@ =~= proposal.shard_indices@);
    StoredFragments {
        data_shards: proposal.data_shards,
        total_shards: proposal.total_shards,
        block_len: proposal.block_len,
        shard_indices,
        shards: copy_shards(&proposal.shards),
        proofs: copy_proofs(&proposal.proofs),
        merkle_root: proposal.merkle_root,
    }
}

/// What the shards of a block come to when it is put together.
pub open spec fn assembled(
    indices: Seq<usize>,
    shards: Seq<Seq<u8>>,
    k: nat,
    n: nat,
    block_len: nat,
) -> ConsensusResult<Seq<u8>> {
    let places = fragments::all_placed(indices, shards, n);
    match coding::reconstruction_fault(places, k, n) {
        Some(_) => Err(ConsensusError::ErasureReconstructionFailed),
        None => Ok(erasure::decoded(coding::rs_completed(places, k), k, block_len)),
    }
}

/// The shards can be put in their places, and there is a code for them.
pub open spec fn can_assemble(
    indices: Seq<usize>,
    shards: Seq<Seq<u8>>,
    k: nat,
    n: nat,
) -> bool {
    &&& 0 < k < n <= coding::MAX_SHARDS
    &&& fragments::indices_fit(indices, shards, n)
}

/// Whether the shards can be put in their places, and there is a code for them.
pub fn fits_code(indices: &Vec<usize>, shards: &Vec<coding::Shard>, k: usize, n: usize) -> (fits:
    bool)
    ensures
        fits == can_assemble(indices@, coding::shard_views(shards@), k as nat, n as nat),
{
    if k == 0 || k >= n || n > coding::MAX_SHARDS {
        return false;
    }
    let ghost views = coding::shard_views(shards@);
    let mut i: usize = 0;
    while i < indices.len() && i < shards.len()
        invariant
            i <= fragments::paired_count(indices@, views),
            views == coding::shard_views(shards@),
            forall|j: int| 0 <= j < i ==> (#[trigger] indices@[j]) < n,
        decreases indices@.len() - i,
    {
        if indices[i] >= n {
            assert(!(indices@[i as int] < n));
            return false;
        }
        i = i + 1;
    }
    true
}

/// Puts a block together from its shards. The fragment of any node gives the block.
fn assemble(
    indices: &Vec<usize>,
    shards: &Vec<coding::Shard>,
    k: usize,
    n: usize,
    block_len: usize,
) -> (outcome: ConsensusResult<Vec<u8>>)
    requires
        can_assemble(indices@, coding::shard_views(shards@), k as nat, n as nat),
    ensures
        match assembled(
            indices@,
            coding::shard_views(shards@),
            k as nat,
            n as nat,
            block_len as nat,
        ) {
            Ok(bytes) => outcome is Ok && outcome->Ok_0@ == bytes,
            Err(error) => outcome == Err::<Vec<u8>, ConsensusError>(error),
        },
        forall|
            data: Seq<u8>,
            node: nat,
            proofs: Seq<Seq<(Seq<u8>, bool)>>,
            root: Seq<u8>,
        |
            data.len() == block_len && block_len > 0 && #[trigger] fragments::is_fragment(
                data,
                k as nat,
                n as nat,
                node,
                indices@,
                coding::shard_views(shards@),
                proofs,
                root,
            ) ==> outcome is Ok && outcome->Ok_0@ == data,
{
    let ghost views = coding::shard_views(shards@);
    let places = place_shards(indices, shards, n);
    proof {
        assert forall|
            data: Seq<u8>,
            node: nat,
            proofs: Seq<Seq<(Seq<u8>, bool)>>,
            root: Seq<u8>,
        |
            data.len() == block_len && block_len > 0 && #[trigger] fragments::is_fragment(
                data,
                k as nat,
                n as nat,
                node,
                indices@,
                views,
                proofs,
                root,
            ) implies {
            &&& coding::present_count(coding::sparse_views(places@)) >= k
            &&& coding::drawn_from(
                coding::sparse_views(places@),
                erasure::encoded_shards(data, k as nat, n as nat),
            )
            &&& coding::uniform(
                erasure::encoded_shards(data, k as nat, n as nat),
                erasure::split_size(data.len(), k as nat),
            )
        } by {
            fragments::law_fragment_suffices(
                data,
                k as nat,
                n as nat,
                node,
                indices@,
                views,
                proofs,
                root,
            );
        }
    }
    reconstruct(places, k, n, block_len)
}

/// The stored fragments are those of the node at place `node` for a block.
pub open spec fn keeps_block(
    stored: &StoredFragments,
    block_bytes: Seq<u8>,
    k: nat,
    n: nat,
    node: nat,
    block_len: nat,
) -> bool {
    &&& stored.data_shards == k
    &&& stored.total_shards == n
    &&& stored.block_len == block_len
    &&& fragments::is_fragment(
        block_bytes,
        k,
        n,
        node,
        stored.shard_indices@,
        coding::shard_views(stored.shards@),
        erasure::proof_views(stored.proofs@),
        stored.merkle_root@,
    )
}

impl Core {
    /// The highest certificate is of an earlier round.
    pub open spec fn wf(&self) -> bool {
        &&& self.pending_fragments.wf()
        &&& self.committee.wf()
        &&& self.high_qc.round < self.round
    }

    /// Only the rounds, the certificate and the fragments may differ.
    pub open spec fn same_node(&self, other: &Core) -> bool {
        &&& self.name == other.name
        &&& self.committee == other.committee
    }

    /// Only the current round and the certificate may differ.
    pub open spec fn same_history(&self, other: &Core) -> bool {
        &&& self.same_node(other)
        &&& self.last_voted_round == other.last_voted_round
        &&& self.last_committed_round == other.last_committed_round
    }

    /// This is `before` after something was taken in: neither the rounds nor the certificate have
    /// gone back.
    pub open spec fn moved_on_from(&self, before: &Core) -> bool {
        &&& self.same_node(before)
        &&& self.round >= before.round
        &&& self.last_voted_round >= before.last_voted_round
        &&& self.last_committed_round >= before.last_committed_round
        &&& self.high_qc.round >= before.high_qc.round
    }

    /// A node that starts in the first round.
    pub fn new(name: PublicKey, committee: Committee) -> (core: Core)
        requires
            committee.wf(),
        ensures
            core.wf(),
            core.name == name,
            core.committee == committee,
            core.round == 1,
            core.last_voted_round == 0,
            core.last_committed_round == 0,
            core.high_qc.round == 0,
            core.high_qc.hash@ == Seq::new(32, |i: int| 0u8),
            core.high_qc.votes@ == Seq::<(PublicKey, Signature)>::empty(),
            core.pending_fragments@ == Map::<Seq<u8>, StoredFragments>::empty(),
    {
        Core {
            name,
            committee,
            round: 1,
            last_voted_round: 0,
            last_committed_round: 0,
            high_qc: QC::genesis(),
            pending_fragments: Table::new(),
        }
    }

    /// No block up to round `target` is voted for any more.
    pub fn increase_last_voted_round(&mut self, target: Round)
        ensures
            final(self).moved_on_from(old(self)),
            final(self).last_voted_round == if target > old(self).last_voted_round {
                target
            } else {
                old(self).last_voted_round
            },
            final(self).same_node(old(self)),
            final(self).round == old(self).round,
            final(self).last_committed_round == old(self).last_committed_round,
            final(self).high_qc == old(self).high_qc,
            final(self).pending_fragments == old(self).pending_fragments,
    {
        if target > self.last_voted_round {
            self.last_voted_round = target;
        }
    }

    /// Whether to vote for a block. The vote counts as cast.
    pub fn make_vote(&mut self, block: &Block) -> (vote: bool)
        requires
            has_tc_votes(block),
        ensures
            final(self).moved_on_from(old(self)),
            vote == can_vote(old(self).last_voted_round, block),
            final(self).last_voted_round == if vote {
                block.round
            } else {
                old(self).last_voted_round
            },
            final(self).same_node(old(self)),
            final(self).round == old(self).round,
            final(self).last_committed_round == old(self).last_committed_round,
            final(self).high_qc == old(self).high_qc,
            final(self).pending_fragments == old(self).pending_fragments,
    {
        let safety_rule_1 = block.round > self.last_voted_round;
        let mut safety_rule_2 = block.round > 0 && block.qc.round == block.round - 1;
        if let Some(tc) = &block.tc {
            let rounds = tc.high_qc_rounds();
            let mut highest: Round = rounds[0];
            let mut i: usize = 1;
            while i < rounds.len()
                invariant
                    1 <= i <= rounds@.len(),
                    rounds@ == tc.high_rounds(),
                    exists|j: int| 0 <= j < i && highest == tc.votes@[j].2,
                    forall|j: int| 0 <= j < i ==> highest >= (#[trigger] tc.votes@[j]).2,
                decreases rounds@.len() - i,
            {
                if rounds[i] > highest {
                    highest = rounds[i];
                    assert(highest == tc.votes@[i as int].2);
                }
                i = i + 1;
            }
            let can_extend = block.round > 0 && tc.round == block.round - 1 && block.qc.round
                >= highest;
            safety_rule_2 = safety_rule_2 || can_extend;
        }
        if !(safety_rule_1 && safety_rule_2) {
            return false;
        }
        self.increase_last_voted_round(block.round);
        true
    }

    /// Starts to commit a block, unless it is committed already.
    pub fn begin_commit(&self, block: Block) -> (walk: Option<CommitWalk>)
        ensures
            walk is None <==> self.last_committed_round >= block.round,
            walk matches Some(walk) ==> {
                &&& walk.wf()
                &&& walk.blocks() == seq![block]
                &&& walk.base() == self.last_committed_round
                &&& walk.committed_ancestor() is None
            },
    {
        if self.last_committed_round >= block.round {
            return None;
        }
        let mut chain: Vec<Block> = Vec::new();
        chain.push(block);
        let walk = CommitWalk { chain, floor: self.last_committed_round, reached: None };
        assert(walk.blocks() =~= seq![block]);
        Some(walk)
    }

    /// The newly committed blocks, to be handed to the application in this order: the ancestors,
    /// the nearest first, and then the block itself.
    pub fn finish_commit(&mut self, walk: CommitWalk) -> (committed: Vec<Block>)
        requires
            walk.wf(),
            walk.done(),
            walk.base() == old(self).last_committed_round,
        ensures
            final(self).moved_on_from(old(self)),
            committed@ == walk.blocks().drop_first().push(walk.blocks()[0]),
            forall|i: int|
                0 <= i < committed@.len() ==> (#[trigger] committed@[i]).round > old(
                    self,
                ).last_committed_round,
            final(self).last_committed_round == walk.blocks()[0].round,
            final(self).last_committed_round > old(self).last_committed_round,
            final(self).same_node(old(self)),
            final(self).round == old(self).round,
            final(self).last_voted_round == old(self).last_voted_round,
            final(self).high_qc == old(self).high_qc,
            final(self).pending_fragments == old(self).pending_fragments,
    {
        let mut committed: Vec<Block> = walk.chain;
        let block = committed.remove(0);
        assert(committed@ =~= walk.blocks().drop_first());
        self.last_committed_round = block.round;
        committed.push(block);
        committed
    }

    /// Keeps the certificate if it is the highest.
    pub fn update_high_qc(&mut self, qc: &QC)
        ensures
            final(self).moved_on_from(old(self)),
            if qc.round > old(self).high_qc.round {
                final(self).high_qc.same(qc)
            } else {
                final(self).high_qc == old(self).high_qc
            },
            final(self).same_history(old(self)),
            final(self).round == old(self).round,
            final(self).pending_fragments == old(self).pending_fragments,
    {
        if qc.round > self.high_qc.round {
            self.high_qc = qc.copy();
        }
    }

    /// Goes to the round after `round`, unless that is over.
    pub fn advance_round(&mut self, round: Round)
        requires
            round < u64::MAX,
        ensures
            final(self).moved_on_from(old(self)),
            final(self).round == advanced(old(self).round, round),
            final(self).same_history(old(self)),
            final(self).high_qc == old(self).high_qc,
            final(self).pending_fragments == old(self).pending_fragments,
    {
        if round < self.round {
            return;
        }
        self.round = round + 1;
    }

    /// This is `before` after a certificate was taken in.
    pub open spec fn after_qc(&self, before: &Core, qc: &QC) -> bool {
        &&& self.round == advanced(before.round, qc.round)
        &&& if qc.round > before.high_qc.round {
            self.high_qc.same(qc)
        } else {
            self.high_qc == before.high_qc
        }
        &&& self.same_history(before)
    }

    /// Takes in a certificate for a block.
    pub fn process_qc(&mut self, qc: &QC)
        requires
            old(self).wf(),
            qc.round < u64::MAX,
        ensures
            final(self).moved_on_from(old(self)),
            final(self).wf(),
            final(self).after_qc(old(self), qc),
            final(self).pending_fragments == old(self).pending_fragments,
    {
        self.advance_round(qc.round);
        self.update_high_qc(qc);
    }

    /// Gives the current round up. The answer is the highest certificate and the round, for the
    /// message to be sent to all nodes.
    pub fn local_timeout_round(&mut self) -> (wish: (QC, Round))
        requires
            old(self).wf(),
        ensures
            final(self).moved_on_from(old(self)),
            final(self).wf(),
            wish.0.same(&old(self).high_qc),
            wish.1 == old(self).round,
            final(self).last_voted_round >= old(self).round,
            final(self).last_voted_round == if old(self).round > old(self).last_voted_round {
                old(self).round
            } else {
                old(self).last_voted_round
            },
            forall|block: &Block|
                block.round <= old(self).round ==> !#[trigger] can_vote(
                    final(self).last_voted_round,
                    block,
                ),
            final(self).same_node(old(self)),
            final(self).round == old(self).round,
            final(self).last_committed_round == old(self).last_committed_round,
            final(self).high_qc == old(self).high_qc,
            final(self).pending_fragments == old(self).pending_fragments,
    {
        self.increase_last_voted_round(self.round);
        (self.high_qc.copy(), self.round)
    }

    /// The message to the proposer, if this node leads the current round.
    pub fn propose_if_leader(&self, leader: &PublicKey, tc: Option<TC>) -> (message: Option<
        ProposerMessage,
    >)
        ensures
            message is Some <==> self.name@ == leader@,
            message matches Some(message) ==> match message {
                ProposerMessage::Make(round, qc, with) => {
                    &&& round == self.round
                    &&& qc.same(&self.high_qc)
                    &&& with == tc
                },
                _ => false,
            },
    {
        if self.name == *leader {
            Some(ProposerMessage::Make(self.round, self.high_qc.copy(), tc))
        } else {
            None
        }
    }

    /// Takes in a vote, given what its check came to and what it completed. Late votes are
    /// ignored. The answer is whether the leader of the round that begins has to propose.
    pub fn handle_vote(
        &mut self,
        vote: &Vote,
        verdict: ConsensusResult<()>,
        completed: ConsensusResult<Option<QC>>,
    ) -> (outcome: ConsensusResult<bool>)
        requires
            old(self).wf(),
            vote.round >= old(self).round && verdict is Ok ==> (completed matches Ok(Some(qc))
                ==> qc.round < u64::MAX),
        ensures
            final(self).moved_on_from(old(self)),
            final(self).wf(),
            final(self).pending_fragments == old(self).pending_fragments,
            if vote.round < old(self).round {
                outcome == Ok::<bool, ConsensusError>(false) && *final(self) == *old(self)
            } else {
                match (verdict, completed) {
                    (Err(error), _) => outcome == Err::<bool, ConsensusError>(error)
                        && *final(self) == *old(self),
                    (Ok(_), Err(error)) => outcome == Err::<bool, ConsensusError>(error)
                        && *final(self) == *old(self),
                    (Ok(_), Ok(None)) => outcome == Ok::<bool, ConsensusError>(false)
                        && *final(self) == *old(self),
                    (Ok(_), Ok(Some(qc))) => outcome == Ok::<bool, ConsensusError>(true)
                        && final(self).after_qc(old(self), &qc),
                }
            },
    {
        if vote.round < self.round {
            return Ok(false);
        }
        match verdict {
            Err(error) => Err(error),
            Ok(()) => match completed {
                Err(error) => Err(error),
                Ok(None) => Ok(false),
                Ok(Some(qc)) => {
                    self.process_qc(&qc);
                    Ok(true)
                },
            },
        }
    }

    /// Takes in the wish of a node to give its round up, given what its check came to: the
    /// certificate that it holds. The answer is whether the wish is to be counted. Late wishes are
    /// ignored.
    pub fn handle_timeout(&mut self, timeout: &Timeout, verdict: ConsensusResult<()>) -> (outcome:
        ConsensusResult<bool>)
        requires
            old(self).wf(),
            timeout.round >= old(self).round && verdict is Ok ==> timeout.high_qc.round < u64::MAX,
        ensures
            final(self).moved_on_from(old(self)),
            final(self).wf(),
            final(self).pending_fragments == old(self).pending_fragments,
            if timeout.round < old(self).round {
                outcome == Ok::<bool, ConsensusError>(false) && *final(self) == *old(self)
            } else {
                match verdict {
                    Err(error) => outcome == Err::<bool, ConsensusError>(error) && *final(self)
                        == *old(self),
                    Ok(_) => outcome == Ok::<bool, ConsensusError>(true) && final(self).after_qc(
                        old(self),
                        &timeout.high_qc,
                    ),
                }
            },
    {
        if timeout.round < self.round {
            return Ok(false);
        }
        match verdict {
            Err(error) => {
                return Err(error);
            },
            Ok(()) => {},
        }
        self.process_qc(&timeout.high_qc);
        Ok(true)
    }

    /// A wish to give a round up was counted, and this is what it completed. The answer is the
    /// certificate to be sent to all nodes, with which the leader of the round that begins has to
    /// propose.
    pub fn on_timeout_counted(&mut self, completed: ConsensusResult<Option<TC>>) -> (outcome:
        ConsensusResult<Option<TC>>)
        requires
            old(self).wf(),
            completed matches Ok(Some(tc)) ==> tc.round < u64::MAX,
        ensures
            final(self).moved_on_from(old(self)),
            final(self).wf(),
            outcome == completed,
            match completed {
                Ok(Some(tc)) => {
                    &&& final(self).round == advanced(old(self).round, tc.round)
                    &&& final(self).high_qc == old(self).high_qc
                    &&& final(self).same_history(old(self))
                    &&& final(self).pending_fragments == old(self).pending_fragments
                },
                _ => *final(self) == *old(self),
            },
    {
        match completed {
            Err(error) => Err(error),
            Ok(None) => Ok(None),
            Ok(Some(tc)) => {
                self.advance_round(tc.round);
                Ok(Some(tc))
            },
        }
    }

    /// Takes in a certificate that a round was given up, given what its check came to. The answer
    /// is the certificate with which the leader of the round that begins has to propose, unless
    /// the certificate is late.
    pub fn handle_tc(&mut self, tc: TC, verdict: ConsensusResult<()>) -> (outcome: ConsensusResult<
        Option<TC>,
    >)
        requires
            old(self).wf(),
            verdict is Ok ==> tc.round < u64::MAX,
        ensures
            final(self).moved_on_from(old(self)),
            final(self).wf(),
            final(self).pending_fragments == old(self).pending_fragments,
            match verdict {
                Err(error) => outcome == Err::<Option<TC>, ConsensusError>(error) && *final(self)
                    == *old(self),
                Ok(_) => if tc.round < old(self).round {
                    outcome == Ok::<Option<TC>, ConsensusError>(None) && *final(self) == *old(self)
                } else {
                    &&& outcome == Ok::<Option<TC>, ConsensusError>(Some(tc))
                    &&& final(self).round == tc.round + 1
                    &&& final(self).high_qc == old(self).high_qc
                    &&& final(self).same_history(old(self))
                },
            },
    {
        match verdict {
            Err(error) => {
                return Err(error);
            },
            Ok(()) => {},
        }
        if tc.round < self.round {
            return Ok(None);
        }
        self.advance_round(tc.round);
        Ok(Some(tc))
    }

    /// The batches of three blocks, for the proposer to forget.
    pub fn cleanup_proposer(b0: &Block, b1: &Block, block: &Block) -> (message: ProposerMessage)
        ensures
            match message {
                ProposerMessage::Cleanup(digests) => digest_views(digests@) == batch_hashes(
                    b0.payload@,
                ) + batch_hashes(b1.payload@) + batch_hashes(block.payload@),
                _ => false,
            },
    {
        let mut digests: Vec<Digest> = Vec::new();
        assert(digest_views(digests@) =~= Seq::empty());
        append_digests(&mut digests, &b0.payload);
        append_digests(&mut digests, &b1.payload);
        append_digests(&mut digests, &block.payload);
        assert(digest_views(digests@) =~= batch_hashes(b0.payload@) + batch_hashes(b1.payload@)
            + batch_hashes(block.payload@));
        ProposerMessage::Cleanup(digests)
    }

    /// The parent `b1` and the grandparent `b0` of a block are there. The fragments of the block
    /// are written only now, and the grandparent is committed if the parent is of the next
    /// round.
    pub fn on_ancestors(&mut self, digest: &Digest, b0: &Block, b1: &Block, block: &Block) -> (plan:
        BlockPlan)
        requires
            old(self).wf(),
        ensures
            final(self).moved_on_from(old(self)),
            final(self).wf(),
            plan.fragments == if old(self).pending_fragments@.contains_key(digest@) {
                Some(old(self).pending_fragments@[digest@])
            } else {
                None
            },
            final(self).pending_fragments@ == old(self).pending_fragments@.remove(digest@),
            match plan.cleanup {
                ProposerMessage::Cleanup(digests) => digest_views(digests@) == batch_hashes(
                    b0.payload@,
                ) + batch_hashes(b1.payload@) + batch_hashes(block.payload@),
                _ => false,
            },
            plan.commit == (b0.round + 1 == b1.round),
            final(self).same_history(old(self)),
            final(self).round == old(self).round,
            final(self).high_qc == old(self).high_qc,
    {
        let fragments = self.pending_fragments.remove(&digest.0);
        let cleanup = Core::cleanup_proposer(b0, b1, block);
        let commit = b1.round > 0 && b0.round == b1.round - 1;
        BlockPlan { fragments, cleanup, commit }
    }

    /// Whether to vote for a block whose ancestors are there and processed. Only blocks of the
    /// current round are voted for, and so no vote is ahead of the round.
    pub fn on_processed(&mut self, block: &Block) -> (vote: bool)
        requires
            old(self).wf(),
            block.round == old(self).round ==> has_tc_votes(block),
        ensures
            final(self).moved_on_from(old(self)),
            final(self).wf(),
            vote == (block.round == old(self).round && can_vote(
                old(self).last_voted_round,
                block,
            )),
            final(self).last_voted_round == if vote {
                block.round
            } else {
                old(self).last_voted_round
            },
            old(self).last_voted_round <= old(self).round ==> {
                final(self).last_voted_round <= final(self).round
            },
            final(self).same_node(old(self)),
            final(self).round == old(self).round,
            final(self).last_committed_round == old(self).last_committed_round,
            final(self).high_qc == old(self).high_qc,
            final(self).pending_fragments == old(self).pending_fragments,
    {
        if block.round != self.round {
            return false;
        }
        self.make_vote(block)
    }

    /// The round whose leader gets the votes of the current round: the next one.
    pub fn vote_collecting_round(&self) -> (round: Round)
        requires
            self.round < u64::MAX,
        ensures
            round == self.round + 1,
    {
        self.round + 1
    }

    /// Checks a proposal, given the leader of its round, and puts its block together: the bytes
    /// of the block.
    pub fn check_proposal(proposal: &ErasureProposal, leader: &PublicKey) -> (outcome:
        ConsensusResult<Vec<u8>>)
        requires
            proposal.author@ == leader@ && fragments::all_proved(
                coding::shard_views(proposal.shards@),
                proposal.shard_indices@,
                erasure::proof_views(proposal.proofs@),
                proposal.merkle_root@,
            ) ==> can_assemble(
                proposal.shard_indices@,
                coding::shard_views(proposal.shards@),
                proposal.data_shards as nat,
                proposal.total_shards as nat,
            ),
        ensures
            if proposal.author@ != leader@ {
                match outcome {
                    Err(ConsensusError::WrongLeader { digest, leader, round }) => {
                        &&& digest@ == Seq::new(32, |i: int| 0u8)
                        &&& leader == proposal.author
                        &&& round == proposal.round
                    },
                    _ => false,
                }
            } else if !fragments::all_proved(
                coding::shard_views(proposal.shards@),
                proposal.shard_indices@,
                erasure::proof_views(proposal.proofs@),
                proposal.merkle_root@,
            ) {
                outcome == Err::<Vec<u8>, ConsensusError>(ConsensusError::InvalidMerkleProof)
            } else {
                match assembled(
                    proposal.shard_indices@,
                    coding::shard_views(proposal.shards@),
                    proposal.data_shards as nat,
                    proposal.total_shards as nat,
                    proposal.block_len as nat,
                ) {
                    Ok(bytes) => outcome is Ok && outcome->Ok_0@ == bytes,
                    Err(error) => outcome == Err::<Vec<u8>, ConsensusError>(error),
                }
            },
            forall|block_bytes: Seq<u8>, node: nat|
                {
                    &&& proposal.author@ == leader@
                    &&& block_bytes.len() > 0
                    &&& #[trigger] proposer::proposes(
                        proposal,
                        block_bytes,
                        proposal.data_shards as nat,
                        proposal.total_shards as nat,
                        node,
                    )
                } ==> outcome is Ok && outcome->Ok_0@ == block_bytes,
    {
        if proposal.author != *leader {
            return Err(
                ConsensusError::WrongLeader {
                    digest: zero_digest(),
                    leader: proposal.author,
                    round: proposal.round,
                },
            );
        }
        proof {
            assert forall|block_bytes: Seq<u8>, node: nat| #[trigger]
                proposer::proposes(
                    proposal,
                    block_bytes,
                    proposal.data_shards as nat,
                    proposal.total_shards as nat,
                    node,
                ) implies fragments::all_proved(
                coding::shard_views(proposal.shards@),
                proposal.shard_indices@,
                erasure::proof_views(proposal.proofs@),
                proposal.merkle_root@,
            ) by {
                fragments::law_fragment_suffices(
                    block_bytes,
                    proposal.data_shards as nat,
                    proposal.total_shards as nat,
                    node,
                    proposal.shard_indices@,
                    coding::shard_views(proposal.shards@),
                    erasure::proof_views(proposal.proofs@),
                    proposal.merkle_root@,
                );
            }
        }
        if !check_proofs(
            &proposal.shards,
            &proposal.shard_indices,
            &proposal.proofs,
            &proposal.merkle_root,
        ) {
            return Err(ConsensusError::InvalidMerkleProof);
        }
        assemble(
            &proposal.shard_indices,
            &proposal.shards,
            proposal.data_shards,
            proposal.total_shards,
            proposal.block_len,
        )
    }

    /// Checks a proposal, whatever it holds. The answer is `None` where the block would be put
    /// together but the shards have no places or there is no code for them.
    pub fn checked_proposal(proposal: &ErasureProposal, leader: &PublicKey) -> (outcome: Option<
        ConsensusResult<Vec<u8>>,
    >)
        ensures
            ({
                let views = coding::shard_views(proposal.shards@);
                let proved = fragments::all_proved(
                    views,
                    proposal.shard_indices@,
                    erasure::proof_views(proposal.proofs@),
                    proposal.merkle_root@,
                );
                if proposal.author@ != leader@ {
                    match outcome {
                        Some(Err(ConsensusError::WrongLeader { digest, leader, round })) => {
                            &&& digest@ == Seq::new(32, |i: int| 0u8)
                            &&& leader == proposal.author
                            &&& round == proposal.round
                        },
                        _ => false,
                    }
                } else if !proved {
                    outcome matches Some(Err(ConsensusError::InvalidMerkleProof))
                } else if !can_assemble(
                    proposal.shard_indices@,
                    views,
                    proposal.data_shards as nat,
                    proposal.total_shards as nat,
                ) {
                    outcome is None
                } else {
                    match assembled(
                        proposal.shard_indices@,
                        views,
                        proposal.data_shards as nat,
                        proposal.total_shards as nat,
                        proposal.block_len as nat,
                    ) {
                        Ok(bytes) => outcome matches Some(Ok(found)) && found@ == bytes,
                        Err(error) => outcome == Some(Err::<Vec<u8>, ConsensusError>(error)),
                    }
                }
            }),
    {
        if proposal.author == *leader && check_proofs(
            &proposal.shards,
            &proposal.shard_indices,
            &proposal.proofs,
            &proposal.merkle_root,
        ) && !fits_code(
            &proposal.shard_indices,
            &proposal.shards,
            proposal.data_shards,
            proposal.total_shards,
        ) {
            return None;
        }
        Some(Core::check_proposal(proposal, leader))
    }

    /// The rounds and the certificate after those of a block were taken in.
    pub open spec fn after_block(&self, before: &Core, block: &Block) -> bool {
        &&& self.round == match block.tc {
            Some(tc) => advanced(advanced(before.round, block.qc.round) as u64, tc.round),
            None => advanced(before.round, block.qc.round),
        }
        &&& if block.qc.round > before.high_qc.round {
            self.high_qc.same(&block.qc)
        } else {
            self.high_qc == before.high_qc
        }
        &&& self.same_history(before)
    }

    /// The certificates of a block are of rounds that have a next one.
    pub open spec fn countable(block: &Block) -> bool {
        &&& block.qc.round < u64::MAX
        &&& block.tc matches Some(tc) ==> tc.round < u64::MAX
    }

    /// Takes in the certificates of a block.
    fn process_certificates(&mut self, block: &Block)
        requires
            old(self).wf(),
            Core::countable(block),
        ensures
            final(self).wf(),
            final(self).after_block(old(self), block),
            final(self).pending_fragments == old(self).pending_fragments,
    {
        self.process_qc(&block.qc);
        if let Some(tc) = &block.tc {
            self.advance_round(tc.round);
        }
    }

    /// Takes in the block that the bytes of a proposal hold, given its digest and what its check
    /// came to. The block has to be the one that was announced. Its fragments wait until its
    /// ancestors are there.
    pub fn accept_proposal(
        &mut self,
        proposal: &ErasureProposal,
        block: &Block,
        digest: &Digest,
        verdict: ConsensusResult<()>,
    ) -> (outcome: ConsensusResult<()>)
        requires
            old(self).wf(),
            block.author@ == proposal.author@ && block.round == proposal.round && verdict is Ok
                ==> Core::countable(block),
        ensures
            final(self).moved_on_from(old(self)),
            final(self).wf(),
            if block.author@ != proposal.author@ || block.round != proposal.round {
                &&& outcome == Err::<(), ConsensusError>(ConsensusError::MalformedBlock(*digest))
                &&& *final(self) == *old(self)
            } else {
                match verdict {
                    Err(error) => outcome == Err::<(), ConsensusError>(error) && *final(self)
                        == *old(self),
                    Ok(_) => {
                        let pending = final(self).pending_fragments@;
                        &&& outcome == Ok::<(), ConsensusError>(())
                        &&& final(self).after_block(old(self), block)
                        &&& pending == old(self).pending_fragments@.insert(
                            digest@,
                            pending[digest@],
                        )
                        &&& keeps_proposal(&pending[digest@], proposal)
                    },
                }
            },
    {
        if block.author != proposal.author {
            return Err(ConsensusError::MalformedBlock(*digest));
        }
        if block.round != proposal.round {
            return Err(ConsensusError::MalformedBlock(*digest));
        }
        match verdict {
            Err(error) => {
                return Err(error);
            },
            Ok(()) => {},
        }
        self.process_certificates(block);
        let stored = proposal_to_stored_fragments(proposal);
        let ghost before = self.pending_fragments@;
        self.pending_fragments.insert(digest.to_vec(), stored);
        assert(self.pending_fragments@ =~= before.insert(digest@, stored));
        Ok(())
    }

    /// Puts the block together that another node answered with: the bytes of the block. The
    /// fragment of any node gives the block.
    pub fn assemble_sync(frags: &SyncFragments) -> (outcome: ConsensusResult<Vec<u8>>)
        requires
            can_assemble(
                frags.shard_indices@,
                coding::shard_views(frags.shards@),
                frags.data_shards as nat,
                frags.total_shards as nat,
            ),
        ensures
            match assembled(
                frags.shard_indices@,
                coding::shard_views(frags.shards@),
                frags.data_shards as nat,
                frags.total_shards as nat,
                frags.block_len as nat,
            ) {
                Ok(bytes) => outcome is Ok && outcome->Ok_0@ == bytes,
                Err(error) => outcome == Err::<Vec<u8>, ConsensusError>(error),
            },
            forall|
                block_bytes: Seq<u8>,
                node: nat,
                proofs: Seq<Seq<(Seq<u8>, bool)>>,
                root: Seq<u8>,
            |
                {
                    &&& block_bytes.len() == frags.block_len
                    &&& block_bytes.len() > 0
                    &&& #[trigger] fragments::is_fragment(
                        block_bytes,
                        frags.data_shards as nat,
                        frags.total_shards as nat,
                        node,
                        frags.shard_indices@,
                        coding::shard_views(frags.shards@),
                        proofs,
                        root,
                    )
                } ==> outcome is Ok && outcome->Ok_0@ == block_bytes,
    {
        assemble(
            &frags.shard_indices,
            &frags.shards,
            frags.data_shards,
            frags.total_shards,
            frags.block_len,
        )
    }

    /// The fragments that this node keeps of a block.
    fn own_fragments(
        &self,
        block_bytes: &Vec<u8>,
        k: usize,
        n: usize,
        block_len: usize,
    ) -> (stored: StoredFragments)
        requires
            self.wf(),
            0 < k < n <= coding::MAX_SHARDS,
            block_bytes@.len() > 0,
            block_bytes@.len() + k <= usize::MAX,
            self.committee.place_of(self.name) is Some,
            (self.committee.place_of(self.name)->0 + 1) * k <= n,
        ensures
            keeps_block(
                &stored,
                block_bytes@,
                k as nat,
                n as nat,
                self.committee.place_of(self.name)->0,
                block_len as nat,
            ),
    {
        let node: usize = match self.committee.index(&self.name) {
            Some(index) => index,
            None => 0,
        };
        let (shards, merkle_root, proofs) = encode(block_bytes, k, n);
        let ghost word = erasure::encoded_shards(block_bytes@, k as nat, n as nat);
        assert((node + 1) * k == node * k + k && 0 <= node * k) by (nonlinear_arith)
            requires
                node >= 0,
                k >= 0,
        ;
        let (shard_indices, own_shards, own_proofs) = cut_fragment(node, k, &shards, &proofs);
        assert(erasure::proof_views(own_proofs@) =~= Seq::new(
            k as nat,
            |j: int| erasure::merkle_path(erasure::leaf_layer(word), node * k + j),
        ));
        StoredFragments {
            data_shards: k,
            total_shards: n,
            block_len,
            shard_indices,
            shards: own_shards,
            proofs: own_proofs,
            merkle_root,
        }
    }

    /// Takes in the block that the bytes of an answer hold, given its digest and what its check
    /// came to. The block has to be the one that was asked for. This node keeps its own
    /// fragments of the block, which wait until the ancestors of the block are there.
    pub fn accept_sync(
        &mut self,
        frags: &SyncFragments,
        block_bytes: &Vec<u8>,
        block: &Block,
        digest: &Digest,
        verdict: ConsensusResult<()>,
    ) -> (outcome: ConsensusResult<()>)
        requires
            old(self).wf(),
            digest@ == frags.digest@ && verdict is Ok ==> {
                &&& Core::countable(block)
                &&& 0 < frags.data_shards < frags.total_shards <= coding::MAX_SHARDS
                &&& block_bytes@.len() > 0
                &&& block_bytes@.len() + frags.data_shards <= usize::MAX
                &&& old(self).committee.place_of(old(self).name) is Some
                &&& (old(self).committee.place_of(old(self).name)->0 + 1) * frags.data_shards
                    <= frags.total_shards
            },
        ensures
            final(self).moved_on_from(old(self)),
            final(self).wf(),
            if digest@ != frags.digest@ {
                &&& outcome == Err::<(), ConsensusError>(
                    ConsensusError::MalformedBlock(frags.digest),
                )
                &&& *final(self) == *old(self)
            } else {
                match verdict {
                    Err(error) => outcome == Err::<(), ConsensusError>(error) && *final(self)
                        == *old(self),
                    Ok(_) => {
                        let pending = final(self).pending_fragments@;
                        &&& outcome == Ok::<(), ConsensusError>(())
                        &&& final(self).after_block(old(self), block)
                        &&& pending == old(self).pending_fragments@.insert(
                            digest@,
                            pending[digest@],
                        )
                        &&& keeps_block(
                            &pending[digest@],
                            block_bytes@,
                            frags.data_shards as nat,
                            frags.total_shards as nat,
                            old(self).committee.place_of(old(self).name)->0,
                            frags.block_len as nat,
                        )
                    },
                }
            },
    {
        if *digest != frags.digest {
            return Err(ConsensusError::MalformedBlock(frags.digest));
        }
        match verdict {
            Err(error) => {
                return Err(error);
            },
            Ok(()) => {},
        }
        let stored = self.own_fragments(
            block_bytes,
            frags.data_shards,
            frags.total_shards,
            frags.block_len,
        );
        let ghost before = self.pending_fragments@;
        self.pending_fragments.insert(digest.to_vec(), stored);
        assert(self.pending_fragments@ =~= before.insert(digest@, stored));
        self.process_certificates(block);
        Ok(())
    }
}

} // verus!
