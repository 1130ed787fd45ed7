//! What the rules of the consensus come to, in terms of rounds, votes, certificates and blocks
//! alone.

use vstd::prelude::*;
use crate::coding;
use crate::consensus_core::{self, proposal_to_stored_fragments, BlockPlan, CommitWalk, Core};
use crate::crypto::{Digest, PublicKey};
use crate::erasure;
use crate::error::{ConsensusError, ConsensusResult};
use crate::fragments;
use crate::messages::{
    Block, ErasureProposal, Round, StoredFragments, SyncFragments, Timeout, Vote, QC, TC,
};
use crate::proposer::{self, ProposerMessage};

verus! {

/// `highest` is one of the rounds, and none is higher.
pub open spec fn is_highest(rounds: Seq<Round>, highest: Round) -> bool {
    &&& exists|i: int| 0 <= i < rounds.len() && #[trigger] rounds[i] == highest
    &&& forall|i: int| 0 <= i < rounds.len() ==> #[trigger] rounds[i] <= highest
}

/// The votes and the commits of a node are as before, and so is its name.
pub open spec fn same_past(before: &Core, after: &Core) -> bool {
    &&& after.name == before.name
    &&& after.committee == before.committee
    &&& after.last_voted_round == before.last_voted_round
    &&& after.last_committed_round == before.last_committed_round
}

/// The rounds that the voters knew certificates of are those of the votes, in order.
pub proof fn law_high_rounds_are_those_of_the_votes(tc: &TC, rounds: Vec<Round>)
    requires
        call_ensures(TC::high_qc_rounds, (tc,), rounds),
    ensures
        rounds@.len() == tc.votes@.len(),
        forall|i: int| 0 <= i < tc.votes@.len() ==> #[trigger] rounds@[i] == tc.votes@[i].2,
        tc.high_rounds() == rounds@,
{
}

/// A vote is for a later round than the last one. A block that does not directly follow its
/// certificate gets one only if the round before it was given up and its certificate is at least
/// as high as that of every voter for giving it up.
pub proof fn law_votes_are_safe(block: &Block)
    ensures
        forall|core: &mut Core, vote: bool|
            {
                &&& #[trigger] call_ensures(Core::make_vote, (core, block), vote)
                &&& vote
            } ==> {
                &&& block.round > core.last_voted_round
                &&& final(core).last_voted_round == block.round
                &&& block.qc.round + 1 != block.round ==> {
                    &&& block.tc is Some
                    &&& block.tc->0.round + 1 == block.round
                    &&& forall|i: int|
                        0 <= i < block.tc->0.votes@.len() ==> (
                        #[trigger] block.tc->0.votes@[i]).2 <= block.qc.round
                    &&& forall|highest: Round| #[trigger]
                        is_highest(block.tc->0.high_rounds(), highest) ==> block.qc.round
                            >= highest
                }
            },
{
    if block.tc is Some {
        let tc = block.tc->0;
        assert forall|i: int| 0 <= i < tc.votes@.len() implies tc.high_rounds()[i]
            == (#[trigger] tc.votes@[i]).2 by {}
    }
}

/// Any voter for giving a round up who knew a higher certificate than that of the block forbids
/// the vote, unless the block directly follows its certificate.
pub proof fn law_higher_certificate_forbids_vote(block: &Block, i: int)
    requires
        block.qc.round + 1 != block.round,
        block.tc is Some,
        0 <= i < block.tc->0.votes@.len(),
        block.tc->0.votes@[i].2 > block.qc.round,
    ensures
        forall|core: &mut Core, vote: bool| #[trigger]
            call_ensures(Core::make_vote, (core, block), vote) ==> !vote && *final(core) == *core,
{
    assert forall|core: &mut Core, vote: bool| #[trigger]
        call_ensures(Core::make_vote, (core, block), vote) implies !vote && *final(core)
        == *core by {
        law_votes_are_safe(block);
    }
}

/// A node votes for every block of a later round that directly follows its certificate, or that
/// follows a round that was given up, with a certificate as high as the highest of the voters.
pub proof fn law_votes_are_given(block: &Block, highest: Round)
    requires
        block.qc.round + 1 == block.round || {
            &&& block.tc is Some
            &&& block.tc->0.round + 1 == block.round
            &&& is_highest(block.tc->0.high_rounds(), highest)
            &&& block.qc.round >= highest
        },
    ensures
        forall|core: &mut Core, vote: bool| #[trigger]
            call_ensures(Core::make_vote, (core, block), vote) && block.round
                > core.last_voted_round ==> vote,
{
    if block.tc is Some {
        let tc = block.tc->0;
        assert forall|i: int| 0 <= i < tc.votes@.len() implies tc.high_rounds()[i]
            == (#[trigger] tc.votes@[i]).2 by {}
        if is_highest(tc.high_rounds(), highest) && block.qc.round >= highest {
            assert forall|i: int| 0 <= i < tc.votes@.len() implies block.qc.round
                >= (#[trigger] tc.votes@[i]).2 by {
                assert(tc.high_rounds()[i] <= highest);
            }
        }
    }
}

/// Voting changes nothing but the round of the last vote, and not voting changes nothing.
pub proof fn law_voting_changes_the_last_vote_alone(block: &Block)
    ensures
        forall|core: &mut Core, vote: bool| #[trigger]
            call_ensures(Core::make_vote, (core, block), vote) ==> {
                &&& final(core).name == core.name
                &&& final(core).committee == core.committee
                &&& final(core).round == core.round
                &&& final(core).last_committed_round == core.last_committed_round
                &&& final(core).high_qc == core.high_qc
                &&& final(core).pending_fragments == core.pending_fragments
                &&& !vote ==> final(core).last_voted_round == core.last_voted_round
            },
{
}

/// A processed block gets a vote only in its own round, and then by the same rules.
pub proof fn law_only_the_current_round_gets_votes(block: &Block)
    ensures
        forall|core: &mut Core, vote: bool| #[trigger]
            call_ensures(Core::on_processed, (core, block), vote) ==> {
                &&& vote ==> block.round == core.round && block.round > core.last_voted_round
                &&& vote ==> final(core).last_voted_round == block.round
                &&& !vote ==> final(core).last_voted_round == core.last_voted_round
                &&& block.round == core.round && block.qc.round + 1 == block.round && block.round
                    > core.last_voted_round ==> vote
                &&& final(core).round == core.round
                &&& final(core).last_committed_round == core.last_committed_round
                &&& final(core).high_qc == core.high_qc
                &&& final(core).pending_fragments == core.pending_fragments
            },
        forall|core: &mut Core, other: &mut Core, vote: bool, cast: bool|
            #![trigger call_ensures(Core::on_processed, (core, block), vote), call_ensures(Core::make_vote, (other, block), cast)]
            {
                &&& call_ensures(Core::on_processed, (core, block), vote)
                &&& call_ensures(Core::make_vote, (other, block), cast)
                &&& *core == *other
            } ==> vote == (cast && block.round == core.round),
{
}

/// After one vote, and whatever else raised the round of the last vote, another vote is for a
/// later round.
pub proof fn law_no_two_votes_in_a_round(first: &Block, second: &Block)
    ensures
        forall|core: &mut Core, later: &mut Core|
            #![trigger call_ensures(Core::make_vote, (core, first), true), call_ensures(Core::make_vote, (later, second), true)]
            {
                &&& call_ensures(Core::make_vote, (core, first), true)
                &&& call_ensures(Core::make_vote, (later, second), true)
                &&& later.last_voted_round >= final(core).last_voted_round
            } ==> second.round > first.round,
{
}

/// Once a round is given up, no block of it or of an earlier round gets a vote.
pub proof fn law_given_up_rounds_get_no_votes(block: &Block)
    ensures
        forall|core: &mut Core, later: &mut Core, wish: (QC, Round), vote: bool|
            #![trigger call_ensures(Core::local_timeout_round, (core,), wish), call_ensures(Core::make_vote, (later, block), vote)]
            {
                &&& call_ensures(Core::local_timeout_round, (core,), wish)
                &&& call_ensures(Core::make_vote, (later, block), vote)
                &&& later.last_voted_round >= final(core).last_voted_round
                &&& block.round <= core.round
            } ==> !vote,
        forall|core: &mut Core, wish: (QC, Round)| #[trigger]
            call_ensures(Core::local_timeout_round, (core,), wish) ==> {
                &&& wish.1 == core.round
                &&& wish.0.round == core.high_qc.round
                &&& wish.0.hash == core.high_qc.hash
                &&& wish.0.votes@ == core.high_qc.votes@
                &&& final(core).round == core.round
                &&& final(core).last_voted_round >= core.last_voted_round
                &&& {
                    ||| final(core).last_voted_round == core.last_voted_round
                    ||| final(core).last_voted_round == core.round
                }
                &&& final(core).last_committed_round == core.last_committed_round
                &&& final(core).high_qc == core.high_qc
                &&& final(core).pending_fragments == core.pending_fragments
                &&& final(core).name == core.name
                &&& final(core).committee == core.committee
            },
{
}

/// No block up to a round is voted for any more, and other rounds are as before.
pub proof fn law_last_vote_is_raised(target: Round)
    ensures
        forall|core: &mut Core| #[trigger]
            call_ensures(Core::increase_last_voted_round, (core, target), ()) ==> {
                &&& final(core).last_voted_round >= target
                &&& final(core).last_voted_round >= core.last_voted_round
                &&& final(core).last_voted_round == target || final(core).last_voted_round
                    == core.last_voted_round
                &&& final(core).round == core.round
                &&& final(core).last_committed_round == core.last_committed_round
                &&& final(core).high_qc == core.high_qc
                &&& final(core).name == core.name
                &&& final(core).committee == core.committee
                &&& final(core).pending_fragments == core.pending_fragments
            },
{
}

/// A node goes to the next round that is after the given one, and no further.
pub proof fn law_rounds_advance(target: Round)
    ensures
        forall|core: &mut Core| #[trigger]
            call_ensures(Core::advance_round, (core, target), ()) ==> {
                &&& final(core).round >= core.round
                &&& final(core).round > target
                &&& final(core).round == core.round || final(core).round == target + 1
                &&& same_past(core, final(core))
                &&& final(core).high_qc == core.high_qc
                &&& final(core).pending_fragments == core.pending_fragments
            },
{
}

/// The higher of the certificate of a node and another one is kept.
pub open spec fn keeps_higher(before: &QC, other: &QC, after: &QC) -> bool {
    &&& after.round >= before.round
    &&& after.round >= other.round
    &&& after.round == before.round ==> *after == *before
    &&& after.round != before.round ==> after.hash == other.hash && after.round == other.round
        && after.votes@ == other.votes@
}

/// A certificate takes the node past its round, and is kept if it is the highest.
pub proof fn law_certificates_are_taken_in(qc: &QC)
    ensures
        forall|core: &mut Core| #[trigger]
            call_ensures(Core::process_qc, (core, qc), ()) ==> {
                &&& final(core).round >= core.round
                &&& final(core).round > qc.round
                &&& final(core).round == core.round || final(core).round == qc.round + 1
                &&& keeps_higher(&core.high_qc, qc, &final(core).high_qc)
                &&& same_past(core, final(core))
                &&& final(core).pending_fragments == core.pending_fragments
            },
        forall|core: &mut Core| #[trigger]
            call_ensures(Core::update_high_qc, (core, qc), ()) ==> {
                &&& keeps_higher(&core.high_qc, qc, &final(core).high_qc)
                &&& final(core).round == core.round
                &&& same_past(core, final(core))
                &&& final(core).pending_fragments == core.pending_fragments
            },
{
}

/// After a block with these certificates the node is in a round after both of them, and in the
/// least such round.
pub open spec fn is_past_block(before: &Core, block: &Block, after: &Core) -> bool {
    &&& after.round >= before.round
    &&& after.round > block.qc.round
    &&& block.tc matches Some(tc) ==> after.round > tc.round
    &&& {
        ||| after.round == before.round
        ||| after.round == block.qc.round + 1
        ||| (block.tc matches Some(tc) && after.round == tc.round + 1)
    }
    &&& keeps_higher(&before.high_qc, &block.qc, &after.high_qc)
    &&& same_past(before, after)
}

/// A block that follows a round that was given up, or directly follows its certificate, takes the
/// node to its own round.
pub proof fn law_block_takes_the_node_to_its_round(before: &Core, block: &Block, after: &Core)
    requires
        after.after_block(before, block),
        Core::countable(block),
    ensures
        is_past_block(before, block, after),
        block.tc matches Some(tc) && tc.round + 1 == block.round ==> after.round >= block.round,
        block.qc.round + 1 == block.round ==> after.round >= block.round,
{
}

/// A proposal is accepted exactly if its block is the announced one and passes its check. Then
/// the node is past the certificates of the block, and keeps what the proposal brought until the
/// ancestors of the block are there; otherwise nothing changes.
pub proof fn law_accepted_proposals(
    proposal: &ErasureProposal,
    block: &Block,
    digest: &Digest,
    verdict: ConsensusResult<()>,
)
    requires
        Core::countable(block),
    ensures
        forall|core: &mut Core, outcome: ConsensusResult<()>| #[trigger]
            call_ensures(
                Core::accept_proposal,
                (core, proposal, block, digest, verdict),
                outcome,
            ) ==> {
                &&& outcome is Ok <==> block.author@ == proposal.author@ && block.round
                    == proposal.round && verdict is Ok
                &&& block.author@ == proposal.author@ && block.round == proposal.round
                    && verdict is Err ==> outcome == verdict
                &&& block.author@ != proposal.author@ || block.round != proposal.round
                    ==> outcome == Err::<(), ConsensusError>(
                    ConsensusError::MalformedBlock(*digest),
                )
                &&& outcome is Err ==> *final(core) == *core
                &&& outcome is Ok ==> is_past_block(core, block, final(core))
                &&& outcome is Ok && (block.tc matches Some(tc) && tc.round + 1 == block.round)
                    ==> final(core).round >= block.round
            },
        forall|
            core: &mut Core,
            later: &mut Core,
            outcome: ConsensusResult<()>,
            b0: &Block,
            b1: &Block,
            plan: BlockPlan,
        |
            #![trigger call_ensures(Core::accept_proposal, (core, proposal, block, digest, verdict), outcome), call_ensures(Core::on_ancestors, (later, digest, b0, b1, block), plan)]
            {
                &&& call_ensures(
                    Core::accept_proposal,
                    (core, proposal, block, digest, verdict),
                    outcome,
                )
                &&& outcome is Ok
                &&& later.pending_fragments@ == final(core).pending_fragments@
                &&& call_ensures(Core::on_ancestors, (later, digest, b0, b1, block), plan)
            } ==> plan.fragments is Some && brings_the_same(&plan.fragments->0, proposal),
{
    assert forall|
        core: &mut Core,
        later: &mut Core,
        outcome: ConsensusResult<()>,
        b0: &Block,
        b1: &Block,
        plan: BlockPlan,
    |
        #![trigger call_ensures(Core::accept_proposal, (core, proposal, block, digest, verdict), outcome), call_ensures(Core::on_ancestors, (later, digest, b0, b1, block), plan)]
        {
            &&& call_ensures(
                Core::accept_proposal,
                (core, proposal, block, digest, verdict),
                outcome,
            )
            &&& outcome is Ok
            &&& later.pending_fragments@ == final(core).pending_fragments@
            &&& call_ensures(Core::on_ancestors, (later, digest, b0, b1, block), plan)
        } implies plan.fragments is Some && brings_the_same(&plan.fragments->0, proposal) by {
        let kept = later.pending_fragments@[digest@];
        assert(later.pending_fragments@.contains_key(digest@));
        lemma_kept_is_the_same(&kept, proposal);
    }
}

/// The fragments hold, place by place, what the proposal holds.
pub open spec fn brings_the_same(stored: &StoredFragments, proposal: &ErasureProposal) -> bool {
    &&& stored.data_shards == proposal.data_shards
    &&& stored.total_shards == proposal.total_shards
    &&& stored.block_len == proposal.block_len
    &&& stored.merkle_root == proposal.merkle_root
    &&& stored.shard_indices@.len() == proposal.shard_indices@.len()
    &&& forall|i: int|
        0 <= i < stored.shard_indices@.len() ==> #[trigger] stored.shard_indices@[i]
            == proposal.shard_indices@[i]
    &&& stored.shards@.len() == proposal.shards@.len()
    &&& forall|i: int|
        0 <= i < stored.shards@.len() ==> (#[trigger] stored.shards@[i])@ == proposal.shards@[i]@
    &&& stored.proofs@.len() == proposal.proofs@.len()
    &&& forall|i: int|
        0 <= i < stored.proofs@.len() ==> (#[trigger] stored.proofs@[i]).path@.len()
            == proposal.proofs@[i].path@.len()
    &&& forall|i: int, j: int|
        0 <= i < stored.proofs@.len() && 0 <= j < stored.proofs@[i].path@.len() ==> {
            &&& (#[trigger] stored.proofs@[i].path@[j]).0@ == proposal.proofs@[i].path@[j].0@
            &&& stored.proofs@[i].path@[j].1 == proposal.proofs@[i].path@[j].1
        }
}

proof fn lemma_kept_is_the_same(stored: &StoredFragments, proposal: &ErasureProposal)
    requires
        consensus_core::keeps_proposal(stored, proposal),
    ensures
        brings_the_same(stored, proposal),
{
    let (mine, theirs) = (
        erasure::proof_views(stored.proofs@),
        erasure::proof_views(proposal.proofs@),
    );
    let (kept, brought) = (
        coding::shard_views(stored.shards@),
        coding::shard_views(proposal.shards@),
    );
    assert(mine.len() == stored.proofs@.len() && theirs.len() == proposal.proofs@.len());
    assert(kept.len() == stored.shards@.len() && brought.len() == proposal.shards@.len());
    assert forall|i: int| 0 <= i < stored.shards@.len() implies (#[trigger] stored.shards@[i])@
        == proposal.shards@[i]@ by {
        assert(kept[i] == brought[i]);
    }
    assert forall|i: int| 0 <= i < stored.proofs@.len() implies (
    #[trigger] stored.proofs@[i]).path@.len() == proposal.proofs@[i].path@.len() by {
        assert(mine[i] == theirs[i]);
        assert(mine[i].len() == stored.proofs@[i].path@.len());
        assert(theirs[i].len() == proposal.proofs@[i].path@.len());
    }
    assert forall|i: int, j: int|
        0 <= i < stored.proofs@.len() && 0 <= j < stored.proofs@[i].path@.len() implies {
        &&& (#[trigger] stored.proofs@[i].path@[j]).0@ == proposal.proofs@[i].path@[j].0@
        &&& stored.proofs@[i].path@[j].1 == proposal.proofs@[i].path@[j].1
    } by {
        assert(mine[i] == theirs[i]);
        assert(mine[i][j] == (stored.proofs@[i].path@[j].0@, stored.proofs@[i].path@[j].1));
        assert(theirs[i][j] == (
            proposal.proofs@[i].path@[j].0@,
            proposal.proofs@[i].path@[j].1,
        ));
    }
}

/// What is kept of a proposal is what it brought, and can be checked like it: if every shard is
/// proved at its index under the root, so is every stored shard by the stored proof of the same
/// place; and the fragment of a node is kept as that fragment.
pub proof fn law_what_is_kept_can_be_checked(
    proposal: &ErasureProposal,
    stored: StoredFragments,
)
    requires
        call_ensures(proposal_to_stored_fragments, (proposal,), stored),
    ensures
        brings_the_same(&stored, proposal),
        forall|i: int|
            0 <= i < proposal.shards@.len() && i < proposal.shard_indices@.len() && i
                < proposal.proofs@.len() && erasure::proves_at(
                (#[trigger] proposal.shards@[i])@,
                proposal.shard_indices@[i] as nat,
                proposal.proofs@[i]@,
                proposal.merkle_root@,
            ) ==> erasure::proves_at(
                stored.shards@[i]@,
                stored.shard_indices@[i] as nat,
                stored.proofs@[i]@,
                stored.merkle_root@,
            ),
        fragments::all_proved(
            coding::shard_views(proposal.shards@),
            proposal.shard_indices@,
            erasure::proof_views(proposal.proofs@),
            proposal.merkle_root@,
        ) ==> fragments::all_proved(
            coding::shard_views(stored.shards@),
            stored.shard_indices@,
            erasure::proof_views(stored.proofs@),
            stored.merkle_root@,
        ),
        forall|block_bytes: Seq<u8>, node: nat| #[trigger]
            proposer::proposes(
                proposal,
                block_bytes,
                proposal.data_shards as nat,
                proposal.total_shards as nat,
                node,
            ) ==> consensus_core::keeps_block(
                &stored,
                block_bytes,
                proposal.data_shards as nat,
                proposal.total_shards as nat,
                node,
                block_bytes.len(),
            ),
{
    lemma_kept_is_the_same(&stored, proposal);
    let (mine, theirs) = (
        erasure::proof_views(stored.proofs@),
        erasure::proof_views(proposal.proofs@),
    );
    assert forall|i: int|
        0 <= i < proposal.shards@.len() && i < proposal.shard_indices@.len() && i
            < proposal.proofs@.len() && erasure::proves_at(
            (#[trigger] proposal.shards@[i])@,
            proposal.shard_indices@[i] as nat,
            proposal.proofs@[i]@,
            proposal.merkle_root@,
        ) implies erasure::proves_at(
        stored.shards@[i]@,
        stored.shard_indices@[i] as nat,
        stored.proofs@[i]@,
        stored.merkle_root@,
    ) by {
        assert(mine[i] == theirs[i]);
        assert(stored.shards@[i]@ == proposal.shards@[i]@);
        assert(stored.shard_indices@[i] == proposal.shard_indices@[i]);
    }
}

/// A block of an answer is accepted exactly if it is the one that was asked for and passes its
/// check. Then the node is past the certificates of the block, and the fragments that it keeps
/// are handed out once the ancestors are there: from them alone, put in an answer, the block comes
/// back, and each shard is proved at its place.
pub proof fn law_accepted_answers(
    frags: &SyncFragments,
    block_bytes: &Vec<u8>,
    block: &Block,
    digest: &Digest,
    verdict: ConsensusResult<()>,
)
    requires
        Core::countable(block),
    ensures
        forall|core: &mut Core, outcome: ConsensusResult<()>| #[trigger]
            call_ensures(
                Core::accept_sync,
                (core, frags, block_bytes, block, digest, verdict),
                outcome,
            ) ==> {
                &&& outcome is Ok <==> digest@ == frags.digest@ && verdict is Ok
                &&& digest@ == frags.digest@ && verdict is Err ==> outcome == verdict
                &&& digest@ != frags.digest@ ==> outcome == Err::<(), ConsensusError>(
                    ConsensusError::MalformedBlock(frags.digest),
                )
                &&& outcome is Err ==> *final(core) == *core
                &&& outcome is Ok ==> is_past_block(core, block, final(core))
            },
        forall|
            core: &mut Core,
            later: &mut Core,
            outcome: ConsensusResult<()>,
            b0: &Block,
            b1: &Block,
            plan: BlockPlan,
            answer: SyncFragments,
            assembled: ConsensusResult<Vec<u8>>,
        |
            #![trigger call_ensures(Core::accept_sync, (core, frags, block_bytes, block, digest, verdict), outcome), call_ensures(Core::on_ancestors, (later, digest, b0, b1, block), plan), call_ensures(Core::assemble_sync, (&answer,), assembled)]
            {
                &&& call_ensures(
                    Core::accept_sync,
                    (core, frags, block_bytes, block, digest, verdict),
                    outcome,
                )
                &&& outcome is Ok
                &&& block_bytes@.len() == frags.block_len
                &&& block_bytes@.len() > 0
                &&& later.pending_fragments@ == final(core).pending_fragments@
                &&& call_ensures(Core::on_ancestors, (later, digest, b0, b1, block), plan)
                &&& answer.data_shards == plan.fragments->0.data_shards
                &&& answer.total_shards == plan.fragments->0.total_shards
                &&& answer.block_len == plan.fragments->0.block_len
                &&& answer.shard_indices@ == plan.fragments->0.shard_indices@
                &&& answer.shards@ == plan.fragments->0.shards@
                &&& call_ensures(Core::assemble_sync, (&answer,), assembled)
            } ==> {
                &&& plan.fragments is Some
                &&& assembled is Ok
                &&& assembled->Ok_0@ == block_bytes@
                &&& fragments::all_proved(
                    coding::shard_views(plan.fragments->0.shards@),
                    plan.fragments->0.shard_indices@,
                    erasure::proof_views(plan.fragments->0.proofs@),
                    plan.fragments->0.merkle_root@,
                )
            },
{
    assert forall|
        core: &mut Core,
        later: &mut Core,
        outcome: ConsensusResult<()>,
        b0: &Block,
        b1: &Block,
        plan: BlockPlan,
        answer: SyncFragments,
        assembled: ConsensusResult<Vec<u8>>,
    |
        #![trigger call_ensures(Core::accept_sync, (core, frags, block_bytes, block, digest, verdict), outcome), call_ensures(Core::on_ancestors, (later, digest, b0, b1, block), plan), call_ensures(Core::assemble_sync, (&answer,), assembled)]
        {
            &&& call_ensures(
                Core::accept_sync,
                (core, frags, block_bytes, block, digest, verdict),
                outcome,
            )
            &&& outcome is Ok
            &&& block_bytes@.len() == frags.block_len
            &&& block_bytes@.len() > 0
            &&& later.pending_fragments@ == final(core).pending_fragments@
            &&& call_ensures(Core::on_ancestors, (later, digest, b0, b1, block), plan)
            &&& answer.data_shards == plan.fragments->0.data_shards
            &&& answer.total_shards == plan.fragments->0.total_shards
            &&& answer.block_len == plan.fragments->0.block_len
            &&& answer.shard_indices@ == plan.fragments->0.shard_indices@
            &&& answer.shards@ == plan.fragments->0.shards@
            &&& call_ensures(Core::assemble_sync, (&answer,), assembled)
        } implies {
        &&& plan.fragments is Some
        &&& assembled is Ok
        &&& assembled->Ok_0@ == block_bytes@
        &&& fragments::all_proved(
            coding::shard_views(plan.fragments->0.shards@),
            plan.fragments->0.shard_indices@,
            erasure::proof_views(plan.fragments->0.proofs@),
            plan.fragments->0.merkle_root@,
        )
    } by {
        let kept = later.pending_fragments@[digest@];
        let node = core.committee.place_of(core.name)->0;
        assert(later.pending_fragments@.contains_key(digest@));
        fragments::law_fragment_suffices(
            block_bytes@,
            kept.data_shards as nat,
            kept.total_shards as nat,
            node,
            kept.shard_indices@,
            coding::shard_views(kept.shards@),
            erasure::proof_views(kept.proofs@),
            kept.merkle_root@,
        );
        assert(fragments::is_fragment(
            block_bytes@,
            answer.data_shards as nat,
            answer.total_shards as nat,
            node,
            answer.shard_indices@,
            coding::shard_views(answer.shards@),
            erasure::proof_views(kept.proofs@),
            kept.merkle_root@,
        ));
    }
}

/// Accepting blocks forgets nothing: the fragments of other blocks are kept, and are handed out
/// once.
pub proof fn law_fragments_of_other_blocks_are_kept(
    proposal: &ErasureProposal,
    frags: &SyncFragments,
    block_bytes: &Vec<u8>,
    block: &Block,
    digest: &Digest,
    verdict: ConsensusResult<()>,
    other: Seq<u8>,
)
    requires
        other != digest@,
    ensures
        forall|core: &mut Core, outcome: ConsensusResult<()>| #[trigger]
            call_ensures(
                Core::accept_proposal,
                (core, proposal, block, digest, verdict),
                outcome,
            ) ==> {
                &&& final(core).pending_fragments@.contains_key(other)
                    == core.pending_fragments@.contains_key(other)
                &&& core.pending_fragments@.contains_key(other) ==> final(
                    core).pending_fragments@[other] == core.pending_fragments@[other]
            },
        forall|core: &mut Core, outcome: ConsensusResult<()>| #[trigger]
            call_ensures(
                Core::accept_sync,
                (core, frags, block_bytes, block, digest, verdict),
                outcome,
            ) ==> {
                &&& final(core).pending_fragments@.contains_key(other)
                    == core.pending_fragments@.contains_key(other)
                &&& core.pending_fragments@.contains_key(other) ==> final(
                    core).pending_fragments@[other] == core.pending_fragments@[other]
            },
        forall|core: &mut Core, b0: &Block, b1: &Block, plan: BlockPlan| #[trigger]
            call_ensures(Core::on_ancestors, (core, digest, b0, b1, block), plan) ==> {
                &&& !final(core).pending_fragments@.contains_key(digest@)
                &&& plan.fragments is Some <==> core.pending_fragments@.contains_key(digest@)
                &&& plan.fragments is Some ==> plan.fragments
                    == Some(core.pending_fragments@[digest@])
                &&& final(core).pending_fragments@.contains_key(other)
                    == core.pending_fragments@.contains_key(other)
                &&& core.pending_fragments@.contains_key(other) ==> final(
                    core).pending_fragments@[other] == core.pending_fragments@[other]
            },
{
}

/// The grandparent of a block is to be committed exactly if the parent is of the very next round,
/// and the rounds of the node stay as they are.
pub proof fn law_two_rounds_in_a_row_commit(digest: &Digest, b0: &Block, b1: &Block, block: &Block)
    ensures
        forall|core: &mut Core, plan: BlockPlan| #[trigger]
            call_ensures(Core::on_ancestors, (core, digest, b0, b1, block), plan) ==> {
                &&& plan.commit <==> b1.round == b0.round + 1
                &&& final(core).round == core.round
                &&& final(core).high_qc == core.high_qc
                &&& same_past(core, final(core))
            },
{
}

/// `digests` names batch `i` of `payload` at place `at + i`, by the first half of its SHA-512
/// hash.
pub open spec fn names_batches(digests: Seq<Digest>, at: int, payload: Seq<Vec<u8>>) -> bool {
    forall|i: int, j: int|
        0 <= i < payload.len() && 0 <= j < 32 ==> #[trigger] digests[at + i]@[j]
            == crate::hashing::sha512_hash(payload[i]@)@[j]
}

/// The proposer is told to forget all batches of the three blocks, and nothing else.
pub proof fn law_batches_of_blocks_are_forgotten(
    digest: &Digest,
    b0: &Block,
    b1: &Block,
    block: &Block,
    message: ProposerMessage,
)
    requires
        call_ensures(Core::cleanup_proposer, (b0, b1, block), message),
    ensures
        message is Cleanup,
        ({
            let digests = message->Cleanup_0@;
            let (first, second) = (b0.payload@.len() as int, b1.payload@.len() as int);
            &&& digests.len() == first + second + block.payload@.len()
            &&& names_batches(digests, 0, b0.payload@)
            &&& names_batches(digests, first, b1.payload@)
            &&& names_batches(digests, first + second, block.payload@)
        }),
        forall|core: &mut Core, plan: BlockPlan| #[trigger]
            call_ensures(Core::on_ancestors, (core, digest, b0, b1, block), plan) ==> {
                &&& plan.cleanup is Cleanup
                &&& plan.cleanup->Cleanup_0@.len() == message->Cleanup_0@.len()
                &&& forall|i: int|
                    0 <= i < message->Cleanup_0@.len() ==> (#[trigger] plan.cleanup->Cleanup_0@[i])@
                        == message->Cleanup_0@[i]@
            },
{
    let digests = message->Cleanup_0@;
    let views = consensus_core::digest_views(digests);
    let (one, two, three) = (
        consensus_core::batch_hashes(b0.payload@),
        consensus_core::batch_hashes(b1.payload@),
        consensus_core::batch_hashes(block.payload@),
    );
    assert(views == one + two + three);
    assert(views.len() == digests.len());
    let (first, second) = (b0.payload@.len() as int, b1.payload@.len() as int);
    assert forall|i: int, j: int|
        0 <= i < b0.payload@.len() && 0 <= j < 32 implies #[trigger] digests[0 + i]@[j]
        == crate::hashing::sha512_hash(b0.payload@[i]@)@[j] by {
        assert(views[i] == one[i]);
        assert(views[i] == digests[i]@);
    }
    assert forall|i: int, j: int|
        0 <= i < b1.payload@.len() && 0 <= j < 32 implies #[trigger] digests[first + i]@[j]
        == crate::hashing::sha512_hash(b1.payload@[i]@)@[j] by {
        assert(views[first + i] == two[i]);
        assert(views[first + i] == digests[first + i]@);
    }
    assert forall|i: int, j: int|
        0 <= i < block.payload@.len() && 0 <= j < 32 implies #[trigger] digests[first + second
        + i]@[j] == crate::hashing::sha512_hash(block.payload@[i]@)@[j] by {
        assert(views[first + second + i] == three[i]);
        assert(views[first + second + i] == digests[first + second + i]@);
    }
    assert forall|core: &mut Core, plan: BlockPlan| #[trigger]
        call_ensures(Core::on_ancestors, (core, digest, b0, b1, block), plan) implies {
        &&& plan.cleanup is Cleanup
        &&& plan.cleanup->Cleanup_0@.len() == message->Cleanup_0@.len()
        &&& forall|i: int|
            0 <= i < message->Cleanup_0@.len() ==> (#[trigger] plan.cleanup->Cleanup_0@[i])@
                == message->Cleanup_0@[i]@
    } by {
        let told = plan.cleanup->Cleanup_0@;
        let all = consensus_core::digest_views(told);
        assert(all == views);
        assert(all.len() == told.len());
        assert forall|i: int| 0 <= i < digests.len() implies (#[trigger] told[i])@
            == digests[i]@ by {
            assert(all[i] == views[i]);
        }
    }
}

/// A vote is counted unless it is late or fails its check. One that completes a certificate takes
/// the node past the round of the certificate, and then the leader of the new round has to
/// propose; otherwise nothing changes.
pub proof fn law_votes_are_counted(
    vote: &Vote,
    verdict: ConsensusResult<()>,
    completed: ConsensusResult<Option<QC>>,
)
    ensures
        forall|core: &mut Core, outcome: ConsensusResult<bool>| #[trigger]
            call_ensures(Core::handle_vote, (core, vote, verdict, completed), outcome) ==> {
                &&& outcome == Ok::<bool, ConsensusError>(true) <==> vote.round >= core.round
                    && verdict is Ok && completed is Ok && completed->Ok_0 is Some
                &&& outcome is Err <==> vote.round >= core.round && (verdict is Err
                    || completed is Err)
                &&& outcome is Err && verdict is Err ==> outcome->Err_0 == verdict->Err_0
                &&& outcome is Err && verdict is Ok ==> outcome->Err_0 == completed->Err_0
                &&& outcome != Ok::<bool, ConsensusError>(true) ==> *final(core) == *core
                &&& outcome == Ok::<bool, ConsensusError>(true) && completed->Ok_0->0.round
                    < u64::MAX ==> {
                    let qc = completed->Ok_0->0;
                    &&& final(core).round > qc.round
                    &&& final(core).round >= core.round
                    &&& final(core).round == core.round || final(core).round == qc.round + 1
                    &&& keeps_higher(&core.high_qc, &qc, &final(core).high_qc)
                    &&& same_past(core, final(core))
                    &&& final(core).pending_fragments == core.pending_fragments
                }
            },
{
}

/// A wish to give a round up counts unless it is late or fails its check, and then its
/// certificate is taken in.
pub proof fn law_timeouts_are_counted(timeout: &Timeout, verdict: ConsensusResult<()>)
    requires
        timeout.high_qc.round < u64::MAX,
    ensures
        forall|core: &mut Core, outcome: ConsensusResult<bool>| #[trigger]
            call_ensures(Core::handle_timeout, (core, timeout, verdict), outcome) ==> {
                &&& outcome == Ok::<bool, ConsensusError>(true) <==> timeout.round >= core.round
                    && verdict is Ok
                &&& outcome is Err <==> timeout.round >= core.round && verdict is Err
                &&& outcome is Err ==> outcome->Err_0 == verdict->Err_0
                &&& outcome != Ok::<bool, ConsensusError>(true) ==> *final(core) == *core
                &&& outcome == Ok::<bool, ConsensusError>(true) ==> {
                    &&& final(core).round > timeout.high_qc.round
                    &&& final(core).round >= core.round
                    &&& final(core).round == core.round || final(core).round
                        == timeout.high_qc.round + 1
                    &&& keeps_higher(&core.high_qc, &timeout.high_qc, &final(core).high_qc)
                    &&& same_past(core, final(core))
                    &&& final(core).pending_fragments == core.pending_fragments
                }
            },
{
}

/// A certificate that a round was given up takes the node past that round, whether it was
/// completed here or has come from another node, unless it is late.
pub proof fn law_given_up_rounds_end(
    tc: TC,
    verdict: ConsensusResult<()>,
    completed: ConsensusResult<Option<TC>>,
)
    requires
        tc.round < u64::MAX,
        completed is Ok && completed->Ok_0 is Some ==> completed->Ok_0->0.round < u64::MAX,
    ensures
        forall|core: &mut Core, outcome: ConsensusResult<Option<TC>>| #[trigger]
            call_ensures(Core::handle_tc, (core, tc, verdict), outcome) ==> {
                &&& outcome is Ok && outcome->Ok_0 is Some <==> verdict is Ok && tc.round
                    >= core.round
                &&& outcome is Err <==> verdict is Err
                &&& outcome is Err ==> outcome->Err_0 == verdict->Err_0
                &&& outcome is Ok && outcome->Ok_0 is Some ==> {
                    &&& outcome->Ok_0->0 == tc
                    &&& final(core).round == tc.round + 1
                    &&& final(core).high_qc == core.high_qc
                    &&& same_past(core, final(core))
                    &&& final(core).pending_fragments == core.pending_fragments
                }
                &&& !(outcome is Ok && outcome->Ok_0 is Some) ==> *final(core) == *core
            },
        forall|core: &mut Core, outcome: ConsensusResult<Option<TC>>| #[trigger]
            call_ensures(Core::on_timeout_counted, (core, completed), outcome) ==> {
                &&& outcome == completed
                &&& completed is Ok && completed->Ok_0 is Some ==> {
                    let round = completed->Ok_0->0.round;
                    &&& final(core).round > round
                    &&& final(core).round >= core.round
                    &&& final(core).round == core.round || final(core).round == round + 1
                    &&& final(core).high_qc == core.high_qc
                    &&& same_past(core, final(core))
                    &&& final(core).pending_fragments == core.pending_fragments
                }
                &&& !(completed is Ok && completed->Ok_0 is Some) ==> *final(core) == *core
            },
{
}

/// Only the leader proposes, in the current round, on the highest certificate it knows and on the
/// certificate that the round before was given up; and votes go to the leader of the next round.
pub proof fn law_the_leader_proposes(
    core: &Core,
    leader: &PublicKey,
    tc: Option<TC>,
    message: Option<ProposerMessage>,
    round: Round,
)
    requires
        call_ensures(Core::propose_if_leader, (core, leader, tc), message),
        call_ensures(Core::vote_collecting_round, (core,), round),
    ensures
        message is Some <==> core.name.0@ == leader.0@,
        message is Some ==> {
            &&& message->0 is Make
            &&& message->0->Make_0 == core.round
            &&& message->0->Make_1.round == core.high_qc.round
            &&& message->0->Make_1.hash == core.high_qc.hash
            &&& message->0->Make_1.votes@ == core.high_qc.votes@
            &&& message->0->Make_2 == tc
        },
        round > core.round,
        round - 1 == core.round,
{
}

/// A new node is in the first round, has not voted or committed, knows only the certificate of
/// the block before the first one, and votes for the first block that follows it.
pub proof fn law_a_node_starts(name: PublicKey, committee: crate::committee::Committee, core: Core)
    requires
        call_ensures(Core::new, (name, committee), core),
    ensures
        core.name == name,
        core.committee == committee,
        core.round == 1,
        core.last_voted_round == 0,
        core.last_committed_round == 0,
        core.high_qc.round == 0,
        core.high_qc.votes@.len() == 0,
        forall|i: int| 0 <= i < 32 ==> core.high_qc.hash.0@[i] == 0,
        forall|digest: Seq<u8>| !core.pending_fragments@.contains_key(digest),
        forall|block: &Block, node: &mut Core, vote: bool|
            {
                &&& #[trigger] call_ensures(Core::on_processed, (node, block), vote)
                &&& *node == core
                &&& block.round == 1
                &&& block.qc.round == 0
            } ==> vote,
{
    assert forall|i: int| 0 <= i < 32 implies core.high_qc.hash.0@[i] == 0 by {
        assert(core.high_qc.hash@[i] == Seq::new(32, |j: int| 0u8)[i]);
    }
    law_only_the_current_round_gets_votes_of(core);
}

proof fn law_only_the_current_round_gets_votes_of(core: Core)
    ensures
        forall|block: &Block, node: &mut Core, vote: bool|
            {
                &&& #[trigger] call_ensures(Core::on_processed, (node, block), vote)
                &&& *node == core
                &&& block.round == core.round
                &&& block.qc.round + 1 == block.round
                &&& block.round > core.last_voted_round
            } ==> vote,
{
}

/// The block before the parents, or one of these.
pub open spec fn link(block: Block, parents: Seq<Block>, i: int) -> Block {
    if i == 0 {
        block
    } else {
        parents[i - 1]
    }
}

/// A parent was added to a walk unless it is committed.
spec fn grows_by(before: CommitWalk, parent: Block, after: CommitWalk) -> bool {
    &&& after.base() == before.base()
    &&& if parent.round > before.base() {
        after.blocks() == before.blocks().push(parent) && after.committed_ancestor() is None
    } else {
        after.blocks() == before.blocks() && after.committed_ancestor() is Some
    }
}

/// The blocks of a walk are the block and its parents, as long as these are not committed.
proof fn lemma_walk(core: Core, block: Block, parents: Seq<Block>, walks: Seq<CommitWalk>, i: int)
    requires
        walks.len() == parents.len() + 1,
        call_ensures(Core::begin_commit, (&core, block), Some(walks[0])),
        forall|j: int|
            0 <= j < parents.len() ==> grows_by(walks[j], #[trigger] parents[j], walks[j + 1]),
        0 <= i < walks.len(),
        forall|j: int|
            0 <= j < i - 1 ==> (#[trigger] parents[j]).round > core.last_committed_round,
    ensures
        walks[i].base() == core.last_committed_round,
        i > 0 && parents[i - 1].round <= core.last_committed_round ==> {
            &&& walks[i].blocks() == seq![block] + parents.take(i - 1)
            &&& walks[i].committed_ancestor() is Some
        },
        i > 0 && parents[i - 1].round > core.last_committed_round ==> {
            &&& walks[i].blocks() == seq![block] + parents.take(i)
            &&& walks[i].committed_ancestor() is None
        },
        i == 0 ==> walks[i].blocks() == seq![block] && walks[i].committed_ancestor() is None,
    decreases i,
{
    if i > 0 {
        lemma_walk(core, block, parents, walks, i - 1);
        let parent = parents[i - 1];
        assert(grows_by(walks[i - 1], parent, walks[i]));
        if i > 1 {
            assert(parents[i - 2].round > core.last_committed_round);
        }
        assert(walks[i - 1].blocks() =~= seq![block] + parents.take(i - 1));
        if parents[i - 1].round > core.last_committed_round {
            assert(walks[i].blocks() =~= seq![block] + parents.take(i));
        }
    }
}

/// A commit of a block is begun only if that is of a later round than the last commit, and as long
/// as a parent is needed, that of the last block is taken in. It asks for the parent of the last block as long as that is not of the round after the last commit and no
/// committed parent was found, and what is committed is the parents that were not committed
/// before, the nearest first, and then the block. The round of the block is the last committed
/// one afterwards, and nothing else changes.
pub proof fn law_commits(core: Core, block: Block, parents: Seq<Block>, walks: Seq<CommitWalk>)
    requires
        walks.len() == parents.len() + 1,
        call_ensures(Core::begin_commit, (&core, block), Some(walks[0])),
        forall|i: int|
            #![trigger parents[i]]
            0 <= i < parents.len() ==> exists|walk: &mut CommitWalk|
                #![trigger call_ensures(CommitWalk::add_parent, (walk, parents[i]), ())]
                {
                    &&& *walk == walks[i]
                    &&& *final(walk) == walks[i + 1]
                    &&& call_ensures(CommitWalk::add_parent, (walk, parents[i]), ())
                },
        forall|j: int|
            0 <= j < parents.len() - 1 ==> (#[trigger] parents[j]).round
                > core.last_committed_round,
    ensures
        block.round > core.last_committed_round,
        forall|asked: Option<&Block>|
            #[trigger] call_ensures(CommitWalk::needs_parent_of, (&walks.last(),), asked) ==> {
                let last = link(block, parents, parents.len() as int);
                &&& asked is Some <==> last.round > core.last_committed_round + 1
                &&& asked is Some ==> *asked->0 == last
            },
        forall|node: &mut Core, committed: Vec<Block>|
            {
                &&& #[trigger] call_ensures(
                    Core::finish_commit,
                    (node, walks.last()),
                    committed,
                )
                &&& *node == core
            } ==> {
                let count = if parents.len() > 0 && parents.last().round
                    <= core.last_committed_round {
                    parents.len() - 1
                } else {
                    parents.len() as int
                };
                &&& committed@.len() == count + 1
                &&& forall|i: int| 0 <= i < count ==> #[trigger] committed@[i] == parents[i]
                &&& committed@[count] == block
                &&& forall|i: int|
                    0 <= i < committed@.len() ==> (#[trigger] committed@[i]).round
                        > core.last_committed_round
                &&& final(node).last_committed_round == block.round
                &&& final(node).last_voted_round == core.last_voted_round
                &&& final(node).round == core.round
                &&& final(node).high_qc == core.high_qc
                &&& final(node).name == core.name
                &&& final(node).committee == core.committee
                &&& final(node).pending_fragments == core.pending_fragments
            },
{
    let end = walks.len() - 1;
    assert forall|j: int| 0 <= j < parents.len() implies grows_by(
        walks[j],
        #[trigger] parents[j],
        walks[j + 1],
    ) by {
        let walk = choose|walk: &mut CommitWalk|
            #![trigger call_ensures(CommitWalk::add_parent, (walk, parents[j]), ())]
            {
                &&& *walk == walks[j]
                &&& *final(walk) == walks[j + 1]
                &&& call_ensures(CommitWalk::add_parent, (walk, parents[j]), ())
            };
        assert(call_ensures(CommitWalk::add_parent, (walk, parents[j]), ()));
    }
    lemma_walk(core, block, parents, walks, end);
    let walk = walks.last();
    let blocks = walk.blocks();
    let last = link(block, parents, parents.len() as int);
    let over = parents.len() > 0 && parents.last().round <= core.last_committed_round;
    let count = if over {
        parents.len() - 1
    } else {
        parents.len() as int
    };
    assert(blocks =~= seq![block] + parents.take(count));
    assert(blocks.drop_first().push(blocks[0]) =~= parents.take(count).push(block));
    if !over {
        assert(blocks.last() == last);
    }
    assert forall|node: &mut Core, committed: Vec<Block>|
        {
            &&& #[trigger] call_ensures(Core::finish_commit, (node, walks.last()), committed)
            &&& *node == core
        } implies {
        &&& committed@.len() == count + 1
        &&& forall|i: int| 0 <= i < count ==> #[trigger] committed@[i] == parents[i]
        &&& committed@[count] == block
    } by {
        assert(committed@ == parents.take(count).push(block));
    }
}

/// No commit of a block that is not of a later round than the last one is begun.
pub proof fn law_commits_go_forward(core: &Core, block: Block, walk: Option<CommitWalk>)
    requires
        call_ensures(Core::begin_commit, (core, block), walk),
    ensures
        walk is Some <==> block.round > core.last_committed_round,
{
}

/// Nothing that a node takes in lowers its rounds, the round of its last vote or of its last
/// commit, or the certificate it knows.
pub proof fn law_nothing_goes_back(
    block: &Block,
    walk: CommitWalk,
    qc: &QC,
    vote: &Vote,
    timeout: &Timeout,
    tc: TC,
    digest: &Digest,
    proposal: &ErasureProposal,
    frags: &SyncFragments,
    bytes: &Vec<u8>,
)
    ensures
        forall|core: &mut Core, done: bool| #[trigger]
            call_ensures(Core::make_vote, (core, block), done) ==> rises(core, final(core)),
        forall|core: &mut Core, done: bool| #[trigger]
            call_ensures(Core::on_processed, (core, block), done) ==> rises(core, final(core)),
        forall|core: &mut Core, done: Vec<Block>| #[trigger]
            call_ensures(Core::finish_commit, (core, walk), done) ==> rises(core, final(core)),
        forall|core: &mut Core| #[trigger]
            call_ensures(Core::update_high_qc, (core, qc), ()) ==> rises(core, final(core)),
        forall|core: &mut Core| #[trigger]
            call_ensures(Core::process_qc, (core, qc), ()) ==> rises(core, final(core)),
        forall|core: &mut Core, to: Round| #[trigger]
            call_ensures(Core::advance_round, (core, to), ()) ==> rises(core, final(core)),
        forall|core: &mut Core, to: Round| #[trigger]
            call_ensures(Core::increase_last_voted_round, (core, to), ()) ==> rises(
                core,
                final(core),
            ),
        forall|core: &mut Core, done: (QC, Round)| #[trigger]
            call_ensures(Core::local_timeout_round, (core,), done) ==> rises(core, final(core)),
        forall|
            core: &mut Core,
            verdict: ConsensusResult<()>,
            completed: ConsensusResult<Option<QC>>,
            done: ConsensusResult<bool>,
        |
            #[trigger]
            call_ensures(Core::handle_vote, (core, vote, verdict, completed), done) ==> rises(
                core,
                final(core),
            ),
        forall|core: &mut Core, verdict: ConsensusResult<()>, done: ConsensusResult<bool>|
            #[trigger]
            call_ensures(Core::handle_timeout, (core, timeout, verdict), done) ==> rises(
                core,
                final(core),
            ),
        forall|
            core: &mut Core,
            completed: ConsensusResult<Option<TC>>,
            done: ConsensusResult<Option<TC>>,
        |
            #[trigger]
            call_ensures(Core::on_timeout_counted, (core, completed), done) ==> rises(
                core,
                final(core),
            ),
        forall|core: &mut Core, verdict: ConsensusResult<()>, done: ConsensusResult<Option<TC>>|
            #[trigger]
            call_ensures(Core::handle_tc, (core, tc, verdict), done) ==> rises(core, final(core)),
        forall|core: &mut Core, b0: &Block, b1: &Block, done: BlockPlan| #[trigger]
            call_ensures(Core::on_ancestors, (core, digest, b0, b1, block), done) ==> rises(
                core,
                final(core),
            ),
        forall|core: &mut Core, verdict: ConsensusResult<()>, done: ConsensusResult<()>| #[trigger]
            call_ensures(Core::accept_proposal, (core, proposal, block, digest, verdict), done)
                ==> rises(core, final(core)),
        forall|core: &mut Core, verdict: ConsensusResult<()>, done: ConsensusResult<()>| #[trigger]
            call_ensures(Core::accept_sync, (core, frags, bytes, block, digest, verdict), done)
                ==> rises(core, final(core)),
{
}

/// No round of `after`, nor its certificate, is lower than that of `before`.
pub open spec fn rises(before: &Core, after: &Core) -> bool {
    &&& after.round >= before.round
    &&& after.last_voted_round >= before.last_voted_round
    &&& after.last_committed_round >= before.last_committed_round
    &&& after.high_qc.round >= before.high_qc.round
    &&& after.name == before.name
    &&& after.committee == before.committee
}

/// A proposal is looked at only if it comes from the leader, and its block is put together only if
/// every shard is proved at its index under the root. What is put together from the fragment of
/// any node is the block.
pub proof fn law_proposals_are_checked(
    proposal: &ErasureProposal,
    leader: &PublicKey,
    outcome: ConsensusResult<Vec<u8>>,
    checked: Option<ConsensusResult<Vec<u8>>>,
)
    requires
        call_ensures(Core::check_proposal, (proposal, leader), outcome),
        call_ensures(Core::checked_proposal, (proposal, leader), checked),
    ensures
        outcome is Ok ==> proposal.author.0@ == leader.0@,
        proposal.author.0@ != leader.0@ ==> {
            &&& outcome is Err
            &&& outcome->Err_0 is WrongLeader
            &&& checked is Some
            &&& checked->0 is Err
            &&& checked->0->Err_0 is WrongLeader
        },
        outcome is Ok || (checked is Some && checked->0 is Ok) ==> {
            &&& proposal.shards@.len() <= proposal.shard_indices@.len()
            &&& proposal.shards@.len() <= proposal.proofs@.len()
            &&& forall|i: int|
                0 <= i < proposal.shards@.len() ==> erasure::proves_at(
                    (#[trigger] proposal.shards@[i])@,
                    proposal.shard_indices@[i] as nat,
                    proposal.proofs@[i]@,
                    proposal.merkle_root@,
                )
        },
        proposal.author.0@ == leader.0@ && (exists|i: int|
            0 <= i < proposal.shards@.len() && !(i < proposal.shard_indices@.len() && i
                < proposal.proofs@.len() && erasure::proves_at(
                (#[trigger] proposal.shards@[i])@,
                proposal.shard_indices@[i] as nat,
                proposal.proofs@[i]@,
                proposal.merkle_root@,
            ))) ==> {
            &&& outcome == Err::<Vec<u8>, ConsensusError>(ConsensusError::InvalidMerkleProof)
            &&& checked == Some(
                Err::<Vec<u8>, ConsensusError>(ConsensusError::InvalidMerkleProof),
            )
        },
        forall|block_bytes: Seq<u8>, node: nat|
            {
                &&& proposal.author.0@ == leader.0@
                &&& block_bytes.len() > 0
                &&& #[trigger] proposer::proposes(
                    proposal,
                    block_bytes,
                    proposal.data_shards as nat,
                    proposal.total_shards as nat,
                    node,
                )
            } ==> outcome is Ok && outcome->Ok_0@ == block_bytes,
{
    let (shards, proofs) = (
        coding::shard_views(proposal.shards@),
        erasure::proof_views(proposal.proofs@),
    );
    assert(shards.len() == proposal.shards@.len() && proofs.len() == proposal.proofs@.len());
    let all = fragments::all_proved(
        shards,
        proposal.shard_indices@,
        proofs,
        proposal.merkle_root@,
    );
    assert forall|i: int| 0 <= i < proposal.shards@.len() && all implies erasure::proves_at(
        (#[trigger] proposal.shards@[i])@,
        proposal.shard_indices@[i] as nat,
        proposal.proofs@[i]@,
        proposal.merkle_root@,
    ) by {
        assert(erasure::proves_at(
            shards[i],
            proposal.shard_indices@[i] as nat,
            proofs[i],
            proposal.merkle_root@,
        ));
    }
}

/// A proposal of the leader whose shards are all proved comes to what its shards, put at their
/// indices, reconstruct to; and so does an answer.
pub proof fn law_blocks_are_put_together_from_their_places(
    proposal: &ErasureProposal,
    leader: &PublicKey,
    outcome: ConsensusResult<Vec<u8>>,
    frags: &SyncFragments,
    answer: ConsensusResult<Vec<u8>>,
    places: Vec<Option<coding::Shard>>,
    rebuilt: ConsensusResult<Vec<u8>>,
)
    requires
        call_ensures(Core::check_proposal, (proposal, leader), outcome),
        proposal.author.0@ == leader.0@,
        outcome != Err::<Vec<u8>, ConsensusError>(ConsensusError::InvalidMerkleProof),
        call_ensures(Core::assemble_sync, (frags,), answer),
        frags.shard_indices@ == proposal.shard_indices@,
        frags.shards@ == proposal.shards@,
        frags.data_shards == proposal.data_shards,
        frags.total_shards == proposal.total_shards,
        frags.block_len == proposal.block_len,
        call_ensures(
            fragments::place_shards,
            (&proposal.shard_indices, &proposal.shards, proposal.total_shards),
            places,
        ),
        call_ensures(
            erasure::reconstruct,
            (places, proposal.data_shards, proposal.total_shards, proposal.block_len),
            rebuilt,
        ),
    ensures
        outcome is Ok <==> rebuilt is Ok,
        outcome is Ok ==> outcome->Ok_0@ == rebuilt->Ok_0@,
        outcome is Err ==> outcome->Err_0 == rebuilt->Err_0,
        answer is Ok <==> rebuilt is Ok,
        answer is Ok ==> answer->Ok_0@ == rebuilt->Ok_0@,
        answer is Err ==> answer->Err_0 == rebuilt->Err_0,
{
}

/// Shards can be put together exactly if there are data and parity shards, not more than can be
/// coded, and every shard with an index has a place.
pub proof fn law_codes_that_fit(
    indices: &Vec<usize>,
    shards: &Vec<coding::Shard>,
    k: usize,
    n: usize,
    fits: bool,
)
    requires
        call_ensures(consensus_core::fits_code, (indices, shards, k, n), fits),
    ensures
        fits <==> 0 < k < n <= 256 && forall|i: int|
            0 <= i < indices@.len() && i < shards@.len() ==> #[trigger] indices@[i] < n,
{
    assert(coding::shard_views(shards@).len() == shards@.len());
}

/// A proposal that has nothing wrong with it is checked; one without a place for a shard is left
/// undecided.
pub proof fn law_checked_proposals(
    proposal: &ErasureProposal,
    leader: &PublicKey,
    outcome: ConsensusResult<Vec<u8>>,
    checked: Option<ConsensusResult<Vec<u8>>>,
    fits: bool,
)
    requires
        call_ensures(Core::check_proposal, (proposal, leader), outcome),
        call_ensures(Core::checked_proposal, (proposal, leader), checked),
        call_ensures(
            consensus_core::fits_code,
            (
                &proposal.shard_indices,
                &proposal.shards,
                proposal.data_shards,
                proposal.total_shards,
            ),
            fits,
        ),
    ensures
        fits ==> checked is Some,
        checked is Some ==> {
            &&& (checked->0) is Ok <==> outcome is Ok
            &&& (checked->0) is Ok ==> (checked->0)->Ok_0@ == outcome->Ok_0@
        },
{
}

/// Copies hold what the originals hold.
pub proof fn law_copies_are_the_same(
    qc: &QC,
    qc_copy: QC,
    tc: &TC,
    tc_copy: TC,
    maybe: &Option<TC>,
    maybe_copy: Option<TC>,
)
    requires
        call_ensures(QC::copy, (qc,), qc_copy),
        call_ensures(TC::copy, (tc,), tc_copy),
        call_ensures(crate::messages::copy_tc, (maybe,), maybe_copy),
    ensures
        qc_copy.hash == qc.hash,
        qc_copy.round == qc.round,
        qc_copy.votes@ == qc.votes@,
        tc_copy.round == tc.round,
        tc_copy.votes@ == tc.votes@,
        maybe_copy is Some <==> maybe is Some,
        maybe_copy is Some ==> maybe_copy->0.round == maybe->0.round && maybe_copy->0.votes@
            == maybe->0.votes@,
{
}

/// What a node keeps of a block of an answer is its own fragment: the shards from its place in the
/// committee on, as many as the block has data shards.
pub proof fn law_nodes_keep_their_own_fragment(
    frags: &SyncFragments,
    block_bytes: &Vec<u8>,
    block: &Block,
    digest: &Digest,
    verdict: ConsensusResult<()>,
    place: usize,
)
    ensures
        forall|core: &mut Core, outcome: ConsensusResult<()>|
            {
                &&& #[trigger] call_ensures(
                    Core::accept_sync,
                    (core, frags, block_bytes, block, digest, verdict),
                    outcome,
                )
                &&& outcome is Ok
                &&& call_ensures(
                    crate::committee::Committee::index,
                    (&core.committee, &core.name),
                    Some(place),
                )
                &&& (place + 1) * frags.data_shards <= frags.total_shards
            } ==> {
                let kept = final(core).pending_fragments@[digest.0@];
                &&& final(core).pending_fragments@.contains_key(digest.0@)
                &&& kept.data_shards == frags.data_shards
                &&& kept.total_shards == frags.total_shards
                &&& kept.block_len == frags.block_len
                &&& kept.shard_indices@.len() == frags.data_shards
                &&& kept.shards@.len() == frags.data_shards
                &&& forall|j: int|
                    0 <= j < frags.data_shards ==> #[trigger] kept.shard_indices@[j] == place
                        * frags.data_shards + j
            },
{
    assert forall|core: &mut Core, outcome: ConsensusResult<()>|
        {
            &&& #[trigger] call_ensures(
                Core::accept_sync,
                (core, frags, block_bytes, block, digest, verdict),
                outcome,
            )
            &&& outcome is Ok
            &&& call_ensures(
                crate::committee::Committee::index,
                (&core.committee, &core.name),
                Some(place),
            )
            &&& (place + 1) * frags.data_shards <= frags.total_shards
        } implies {
        let kept = final(core).pending_fragments@[digest.0@];
        &&& final(core).pending_fragments@.contains_key(digest.0@)
        &&& kept.data_shards == frags.data_shards
        &&& kept.total_shards == frags.total_shards
        &&& kept.block_len == frags.block_len
        &&& kept.shard_indices@.len() == frags.data_shards
        &&& kept.shards@.len() == frags.data_shards
        &&& forall|j: int|
            0 <= j < frags.data_shards ==> #[trigger] kept.shard_indices@[j] == place
                * frags.data_shards + j
    } by {
        let kept = final(core).pending_fragments@[digest.0@];
        let k = frags.data_shards as nat;
        let at = place as nat;
        assert(core.committee.place_of(core.name) == Some(at));
        assert((at + 1) * k == at * k + k) by (nonlinear_arith);
        assert(0 <= at * k) by (nonlinear_arith);
        assert(coding::shard_views(kept.shards@).len() == kept.shards@.len());
        assert forall|j: int| 0 <= j < k implies #[trigger] kept.shard_indices@[j] == at * k
            + j by {
            assert(kept.shard_indices@[j] == fragments::run_from(at * k, k)[j]);
        }
    }
}

/// A proposal of another node than the leader is refused with the name of its author and its
/// round, whatever it holds.
pub proof fn law_other_nodes_do_not_lead(
    proposal: &ErasureProposal,
    leader: &PublicKey,
    outcome: ConsensusResult<Vec<u8>>,
    checked: Option<ConsensusResult<Vec<u8>>>,
)
    requires
        call_ensures(Core::check_proposal, (proposal, leader), outcome),
        call_ensures(Core::checked_proposal, (proposal, leader), checked),
    ensures
        proposal.author.0@ != leader.0@ <==> outcome matches Err(
            ConsensusError::WrongLeader { .. },
        ),
        outcome matches Err(ConsensusError::WrongLeader { digest, leader: named, round }) ==> {
            &&& named == proposal.author
            &&& round == proposal.round
            &&& forall|i: int| 0 <= i < 32 ==> #[trigger] digest.0@[i] == 0
        },
        proposal.author.0@ != leader.0@ <==> checked matches Some(
            Err(ConsensusError::WrongLeader { .. }),
        ),
        checked matches Some(
            Err(ConsensusError::WrongLeader { digest, leader: named, round }),
        ) ==> {
            &&& named == proposal.author
            &&& round == proposal.round
            &&& forall|i: int| 0 <= i < 32 ==> #[trigger] digest.0@[i] == 0
        },
{
    assert(proposal.author@ == proposal.author.0@ && leader@ == leader.0@);
}

} // verus!
