use hotstuff::committee::{Authority, Committee};
use hotstuff::consensus_core::{fits_code, proposal_to_stored_fragments, CommitWalk, Core};
use hotstuff::crypto::{Digest, PublicKey, Signature};
use hotstuff::erasure::{encode, reconstruct};
use hotstuff::error::ConsensusError;
use hotstuff::messages::{
    Block, ErasureProposal, Round, SyncFragments, Timeout, Vote, QC, TC,
};
use hotstuff::proposer::{batch_digest, Proposer, ProposerMessage};

fn name(seed: u8) -> PublicKey {
    PublicKey([seed; 32])
}

fn committee() -> Committee {
    let authorities = (1..=4).map(|seed| Authority { name: name(seed), stake: 1 }).collect();
    Committee::new(authorities, 3, 3, 9).unwrap()
}

fn fresh_node() -> Core {
    Core::new(name(2), committee())
}

fn signature() -> Signature {
    Signature { part1: [3; 32], part2: [4; 32] }
}

fn qc(round: Round) -> QC {
    QC { hash: Digest([round as u8; 32]), round, votes: vec![(name(1), signature())] }
}

fn tc(round: Round, high: &[Round]) -> TC {
    TC { round, votes: high.iter().map(|high| (name(1), signature(), *high)).collect() }
}

fn block(round: Round, qc_round: Round, tc: Option<TC>) -> Block {
    Block {
        qc: qc(qc_round),
        tc,
        author: name(1),
        round,
        payload: vec![vec![round as u8; 3]],
        signature: signature(),
    }
}

#[test]
fn a_node_starts_in_the_first_round() {
    let node = fresh_node();
    assert_eq!((node.round, node.last_voted_round, node.last_committed_round), (1, 0, 0));
    assert_eq!(node.high_qc.round, 0);
    assert_eq!(QC::genesis().hash.0, [0; 32]);
}

#[test]
fn votes_follow_the_certified_round() {
    let mut node = fresh_node();
    assert!(node.make_vote(&block(1, 0, None)));
    assert_eq!(node.last_voted_round, 1);
    assert!(!node.make_vote(&block(1, 0, None)));
    assert!(!node.make_vote(&block(5, 3, None)));
    assert_eq!(node.last_voted_round, 1);
    assert!(node.make_vote(&block(5, 4, None)));
    assert!(!node.make_vote(&block(4, 3, None)));
}

#[test]
fn votes_follow_rounds_that_were_given_up() {
    let mut node = fresh_node();
    assert!(!node.make_vote(&block(5, 1, Some(tc(4, &[0, 2, 1])))));
    assert!(!node.make_vote(&block(5, 2, Some(tc(3, &[0, 2, 1])))));
    assert!(node.make_vote(&block(5, 2, Some(tc(4, &[0, 2, 1])))));
    assert_eq!(node.last_voted_round, 5);
}

#[test]
fn only_blocks_of_the_current_round_get_a_vote() {
    let mut node = fresh_node();
    assert!(!node.on_processed(&block(2, 1, None)));
    assert!(node.on_processed(&block(1, 0, None)));
    assert!(!node.on_processed(&block(1, 0, None)));
}

#[test]
fn no_round_gets_two_votes() {
    let mut node = fresh_node();
    assert!(node.make_vote(&block(5, 4, None)));
    node.process_qc(&qc(2));
    assert!(matches!(node.handle_vote(&vote(3), Ok(()), Ok(Some(qc(3)))), Ok(true)));
    assert!(matches!(node.handle_timeout(&timeout(4, 1), Ok(())), Ok(true)));
    assert!(matches!(node.on_timeout_counted(Ok(None)), Ok(None)));
    let walk = node.begin_commit(block(1, 0, None)).unwrap();
    assert_eq!(node.finish_commit(walk).len(), 1);
    for round in 1..=5 {
        assert!(!node.make_vote(&block(round, round - 1, None)));
    }
    assert!(node.make_vote(&block(6, 5, None)));
    assert_eq!((node.last_voted_round, node.last_committed_round, node.round), (6, 1, 4));
}

#[test]
fn certificates_move_the_round() {
    let mut node = fresh_node();
    node.process_qc(&qc(3));
    assert_eq!((node.round, node.high_qc.round), (4, 3));
    node.process_qc(&qc(2));
    assert_eq!((node.round, node.high_qc.round), (4, 3));
    node.advance_round(9);
    assert_eq!((node.round, node.high_qc.round), (10, 3));
    node.advance_round(4);
    assert_eq!(node.round, 10);
    node.process_qc(&qc(5));
    assert_eq!((node.round, node.high_qc.round), (10, 5));
}

#[test]
fn a_round_given_up_gets_no_vote() {
    let mut node = fresh_node();
    node.process_qc(&qc(3));
    let (high, round) = node.local_timeout_round();
    assert_eq!((high.round, round), (3, 4));
    assert_eq!(node.last_voted_round, 4);
    assert!(!node.on_processed(&block(4, 3, None)));
}

fn vote(round: Round) -> Vote {
    Vote { hash: Digest([9; 32]), round, author: name(1), signature: signature() }
}

#[test]
fn votes_complete_certificates() {
    let mut node = fresh_node();
    node.process_qc(&qc(3));
    assert!(matches!(node.handle_vote(&vote(3), Ok(()), Ok(Some(qc(3)))), Ok(false)));
    assert!(matches!(
        node.handle_vote(&vote(4), Err(ConsensusError::InvalidSignature), Ok(None)),
        Err(ConsensusError::InvalidSignature)
    ));
    assert!(matches!(
        node.handle_vote(&vote(4), Ok(()), Err(ConsensusError::StoreError)),
        Err(ConsensusError::StoreError)
    ));
    assert!(matches!(node.handle_vote(&vote(4), Ok(()), Ok(None)), Ok(false)));
    assert_eq!(node.round, 4);
    assert!(matches!(node.handle_vote(&vote(4), Ok(()), Ok(Some(qc(4)))), Ok(true)));
    assert_eq!((node.round, node.high_qc.round), (5, 4));
}

fn timeout(round: Round, high: Round) -> Timeout {
    Timeout { high_qc: qc(high), round, author: name(1), signature: signature() }
}

#[test]
fn timeouts_complete_certificates() {
    let mut node = fresh_node();
    node.process_qc(&qc(3));
    assert!(matches!(node.handle_timeout(&timeout(3, 1), Ok(())), Ok(false)));
    assert!(matches!(
        node.handle_timeout(&timeout(9, 7), Err(ConsensusError::InvalidSignature)),
        Err(ConsensusError::InvalidSignature)
    ));
    assert_eq!(node.round, 4);
    assert!(matches!(node.handle_timeout(&timeout(6, 4), Ok(())), Ok(true)));
    assert_eq!((node.round, node.high_qc.round), (5, 4));
    assert!(matches!(
        node.on_timeout_counted(Err(ConsensusError::StoreError)),
        Err(ConsensusError::StoreError)
    ));
    assert_eq!((node.round, node.high_qc.round), (5, 4));
    match node.on_timeout_counted(Ok(Some(tc(6, &[4])))) {
        Ok(Some(tc)) => assert_eq!(tc.round, 6),
        other => panic!("{:?}", other),
    }
    assert_eq!((node.round, node.high_qc.round), (7, 4));
}

#[test]
fn rounds_that_were_given_up_end() {
    let mut node = fresh_node();
    assert!(matches!(
        node.handle_tc(tc(5, &[1]), Err(ConsensusError::InvalidSignature)),
        Err(ConsensusError::InvalidSignature)
    ));
    assert!(matches!(node.handle_tc(tc(5, &[1]), Ok(())), Ok(Some(_))));
    assert_eq!(node.round, 6);
    assert!(matches!(node.handle_tc(tc(5, &[1]), Ok(())), Ok(None)));
}

#[test]
fn leaders_propose() {
    let mut node = fresh_node();
    node.process_qc(&qc(3));
    assert!(node.propose_if_leader(&name(1), None).is_none());
    match node.propose_if_leader(&name(2), Some(tc(3, &[1]))) {
        Some(ProposerMessage::Make(round, high, Some(with))) => {
            assert_eq!((round, high.round, with.round), (4, 3, 3));
        }
        other => panic!("{:?}", other),
    }
}

fn walk(node: &Core, chain: &[Round]) -> CommitWalk {
    let mut walk = node.begin_commit(block(chain[0], chain[0] - 1, None)).unwrap();
    for round in &chain[1..] {
        assert!(walk.needs_parent_of().is_some());
        walk.add_parent(block(*round, round - 1, None));
    }
    assert!(walk.needs_parent_of().is_none());
    walk
}

#[test]
fn commits_take_all_ancestors() {
    let mut node = fresh_node();
    let first = walk(&node, &[1]);
    let rounds = |blocks: Vec<Block>| blocks.iter().map(|block| block.round).collect::<Vec<_>>();
    assert_eq!(rounds(node.finish_commit(first)), vec![1]);
    let second = walk(&node, &[6, 4, 2]);
    assert_eq!(rounds(node.finish_commit(second)), vec![4, 2, 6]);
    let skipped = walk(&node, &[9, 6]);
    assert_eq!(rounds(node.finish_commit(skipped)), vec![9]);
    let further = walk(&node, &[14, 12, 8]);
    assert_eq!(rounds(node.finish_commit(further)), vec![12, 14]);
    assert_eq!(node.last_committed_round, 14);
    assert!(node.begin_commit(block(6, 5, None)).is_none());
    assert!(node.begin_commit(block(3, 2, None)).is_none());
}

#[test]
fn ancestors_decide_on_the_commit() {
    let mut node = fresh_node();
    let digest = Digest([5; 32]);
    let plan = node.on_ancestors(
        &digest,
        &block(1, 0, None),
        &block(2, 1, None),
        &block(4, 2, None),
    );
    assert!(plan.commit);
    assert!(plan.fragments.is_none());
    match plan.cleanup {
        ProposerMessage::Cleanup(digests) => {
            assert_eq!(digests.len(), 3);
            assert!(digests[0] == batch_digest(&[1, 1, 1]));
            assert!(digests[1] == batch_digest(&[2, 2, 2]));
            assert!(digests[2] == batch_digest(&[4, 4, 4]));
        }
        other => panic!("{:?}", other),
    }
    let gap = node.on_ancestors(
        &digest,
        &block(1, 0, None),
        &block(3, 1, None),
        &block(4, 3, None),
    );
    assert!(!gap.commit);
}

#[test]
fn batches_are_named_by_their_hash() {
    let digest = batch_digest(b"abc");
    assert_eq!(
        digest.0,
        [
            0xdd, 0xaf, 0x35, 0xa1, 0x93, 0x61, 0x7a, 0xba, 0xcc, 0x41, 0x73, 0x49, 0xae, 0x20,
            0x41, 0x31, 0x12, 0xe6, 0xfa, 0x4e, 0x89, 0xa9, 0x7e, 0xa2, 0x0a, 0x9e, 0xee, 0xe6,
            0x4b, 0x55, 0xd3, 0x9a
        ]
    );
}

#[test]
fn a_proposer_buffers_batches() {
    let mut proposer = Proposer::new(name(1), committee());
    for batch in [vec![1], vec![2], vec![3], vec![1]] {
        proposer.on_batch(batch);
    }
    proposer.on_cleanup(&vec![batch_digest(&[2]), batch_digest(&[9])]);
    assert_eq!(proposer.take_payload(), vec![vec![1], vec![3]]);
    assert!(proposer.take_payload().is_empty());
}

#[test]
fn a_draft_takes_all_batches() {
    let mut proposer = Proposer::new(name(1), committee());
    for batch in [vec![1], vec![2, 3], vec![1]] {
        proposer.on_batch(batch);
    }
    let draft = proposer.draft_block(7, qc(5), Some(tc(6, &[5])));
    assert!(draft.author == name(1));
    assert_eq!((draft.round, draft.qc.round), (7, 5));
    assert_eq!(draft.tc.as_ref().unwrap().round, 6);
    assert_eq!(draft.signature.flatten(), [0; 64]);
    let mut payload = draft.payload;
    payload.sort();
    assert_eq!(payload, vec![vec![1], vec![2, 3]]);
    assert!(proposer.draft_block(8, qc(7), None).payload.is_empty());
}

#[test]
fn the_next_leader_gets_the_votes() {
    let mut node = fresh_node();
    assert_eq!(node.vote_collecting_round(), 2);
    node.process_qc(&qc(8));
    assert_eq!(node.vote_collecting_round(), 10);
}

#[test]
fn acknowledgements_make_a_quorum() {
    let mut acks = Proposer::new(name(1), committee()).start_acks();
    assert_eq!(acks.total, 1);
    assert!(!acks.on_ack(1));
    assert!(acks.on_ack(1));
}

fn block_bytes() -> Vec<u8> {
    (0..50).map(|i| (i * 5) as u8).collect()
}

fn proposals() -> Vec<(PublicKey, ErasureProposal)> {
    let proposer = Proposer::new(name(1), committee());
    proposer.make_proposals(&block_bytes(), 7, &qc(6), &Some(tc(6, &[1])), signature())
}

#[test]
fn every_proposal_holds_the_block() {
    let (shards, root, proofs) = encode(&block_bytes(), 3, 12);
    let proposals = proposals();
    assert_eq!(proposals.len(), 3);
    for (i, (to, proposal)) in proposals.iter().enumerate() {
        let node = i + 1;
        assert!(*to == name(node as u8 + 1));
        assert!(proposal.author == name(1));
        assert_eq!((proposal.round, proposal.qc.round), (7, 6));
        assert_eq!(proposal.tc.as_ref().unwrap().round, 6);
        assert_eq!((proposal.data_shards, proposal.total_shards), (3, 12));
        assert_eq!(proposal.block_len, 50);
        assert_eq!(proposal.merkle_root, root);
        assert_eq!(proposal.shard_indices, vec![3 * node, 3 * node + 1, 3 * node + 2]);
        assert_eq!(proposal.shards, shards[3 * node..3 * node + 3].to_vec());
        assert_eq!(proposal.proofs[1].path, proofs[3 * node + 1].path);
        assert_eq!(Core::check_proposal(proposal, &name(1)).unwrap(), block_bytes());
        let mut places: Vec<Option<Vec<u8>>> = vec![None; 12];
        for (index, shard) in proposal.shard_indices.iter().zip(&proposal.shards) {
            places[*index] = Some(shard.clone());
        }
        assert_eq!(reconstruct(places, 3, 12, proposal.block_len).unwrap(), block_bytes());
    }
}

#[test]
fn wrong_proposals_are_refused() {
    let (_, proposal) = proposals().remove(0);
    match Core::check_proposal(&proposal, &name(2)) {
        Err(ConsensusError::WrongLeader { digest, leader, round }) => {
            assert_eq!(digest.0, [0; 32]);
            assert!(leader == name(1));
            assert_eq!(round, 7);
        }
        other => panic!("{:?}", other),
    }
    let (_, mut forged) = proposals().remove(0);
    forged.shards[2][0] ^= 1;
    assert!(matches!(
        Core::check_proposal(&forged, &name(1)),
        Err(ConsensusError::InvalidMerkleProof)
    ));
    let (_, mut short) = proposals().remove(0);
    short.shards.truncate(2);
    short.shard_indices.truncate(2);
    short.proofs.truncate(2);
    assert!(matches!(
        Core::check_proposal(&short, &name(1)),
        Err(ConsensusError::ErasureReconstructionFailed)
    ));
    for missing in 0..3 {
        let (_, mut unproved) = proposals().remove(0);
        unproved.proofs.truncate(missing);
        assert!(matches!(
            Core::check_proposal(&unproved, &name(1)),
            Err(ConsensusError::InvalidMerkleProof)
        ));
    }
    let (_, mut surplus) = proposals().remove(0);
    surplus.proofs.push(proposal.proofs[0].clone());
    surplus.shard_indices.push(0);
    assert_eq!(Core::check_proposal(&surplus, &name(1)).unwrap(), block_bytes());
    let (_, mut moved) = proposals().remove(0);
    moved.shard_indices.swap(0, 1);
    assert!(matches!(
        Core::check_proposal(&moved, &name(1)),
        Err(ConsensusError::InvalidMerkleProof)
    ));
}

#[test]
fn proposals_without_a_code_are_left_undecided() {
    let (_, mut outside) = proposals().remove(0);
    outside.total_shards = 4;
    assert!(Core::checked_proposal(&outside, &name(1)).is_none());
    let (_, mut flat) = proposals().remove(0);
    flat.total_shards = flat.data_shards;
    assert!(Core::checked_proposal(&flat, &name(1)).is_none());
    flat.shards[0][0] ^= 1;
    assert!(matches!(
        Core::checked_proposal(&flat, &name(1)),
        Some(Err(ConsensusError::InvalidMerkleProof))
    ));
    let (_, good) = proposals().remove(0);
    assert!(matches!(Core::checked_proposal(&good, &name(1)), Some(Ok(_))));
    assert!(matches!(
        Core::checked_proposal(&good, &name(3)),
        Some(Err(ConsensusError::WrongLeader { .. }))
    ));
    assert!(fits_code(&vec![0, 5], &vec![vec![1], vec![2]], 2, 6));
    assert!(!fits_code(&vec![0, 6], &vec![vec![1], vec![2]], 2, 6));
    assert!(fits_code(&vec![0, 6], &vec![vec![1]], 2, 6));
}

#[test]
fn accepted_proposals_wait_for_their_ancestors() {
    let mut node = fresh_node();
    let (_, proposal) = proposals().remove(0);
    let digest = Digest([8; 32]);
    let announced = block(7, 6, Some(tc(9, &[1])));
    assert!(matches!(
        node.accept_proposal(&proposal, &block(8, 7, None), &digest, Ok(())),
        Err(ConsensusError::MalformedBlock(wrong)) if wrong == digest
    ));
    let mut stolen = block(7, 6, None);
    stolen.author = name(3);
    assert!(matches!(
        node.accept_proposal(&proposal, &stolen, &digest, Ok(())),
        Err(ConsensusError::MalformedBlock(_))
    ));
    assert!(matches!(
        node.accept_proposal(&proposal, &announced, &digest, Err(ConsensusError::InvalidSignature)),
        Err(ConsensusError::InvalidSignature)
    ));
    assert_eq!(node.round, 1);
    assert!(node.accept_proposal(&proposal, &announced, &digest, Ok(())).is_ok());
    assert_eq!((node.round, node.high_qc.round), (10, 6));
    let plan = node.on_ancestors(
        &digest,
        &block(5, 4, None),
        &block(6, 5, None),
        &announced,
    );
    let stored = plan.fragments.unwrap();
    assert_eq!(stored.shard_indices, proposal.shard_indices);
    assert_eq!(stored.shards, proposal.shards);
    assert_eq!(stored.merkle_root, proposal.merkle_root);
    assert_eq!(stored.proofs.len(), 3);
    let again = proposal_to_stored_fragments(&proposal);
    assert_eq!((again.data_shards, again.total_shards, again.block_len), (3, 12, 50));
}

fn answer(node: usize) -> SyncFragments {
    let (shards, _, _) = encode(&block_bytes(), 3, 12);
    SyncFragments {
        digest: Digest([8; 32]),
        data_shards: 3,
        total_shards: 12,
        block_len: 50,
        shard_indices: (3 * node..3 * node + 3).collect(),
        shards: shards[3 * node..3 * node + 3].to_vec(),
    }
}

#[test]
fn answers_of_other_nodes_give_the_block() {
    for node in 0..4 {
        assert_eq!(Core::assemble_sync(&answer(node)).unwrap(), block_bytes());
    }
    let mut short = answer(1);
    short.shard_indices.truncate(1);
    assert!(matches!(
        Core::assemble_sync(&short),
        Err(ConsensusError::ErasureReconstructionFailed)
    ));
}

#[test]
fn an_answer_becomes_the_fragment_of_this_node() {
    let mut node = fresh_node();
    let frags = answer(3);
    let found = block(7, 6, None);
    assert!(matches!(
        node.accept_sync(&frags, &block_bytes(), &found, &Digest([9; 32]), Ok(())),
        Err(ConsensusError::MalformedBlock(digest)) if digest == Digest([8; 32])
    ));
    assert!(matches!(
        node.accept_sync(
            &frags,
            &block_bytes(),
            &found,
            &frags.digest,
            Err(ConsensusError::InvalidSignature)
        ),
        Err(ConsensusError::InvalidSignature)
    ));
    assert!(node.accept_sync(&frags, &block_bytes(), &found, &frags.digest, Ok(())).is_ok());
    assert_eq!((node.round, node.high_qc.round), (7, 6));
    let (b0, b1) = (block(5, 4, None), block(6, 5, None));
    let stored = node.on_ancestors(&frags.digest, &b0, &b1, &found).fragments.unwrap();
    let (shards, root, _) = encode(&block_bytes(), 3, 12);
    assert_eq!(stored.shard_indices, vec![3, 4, 5]);
    assert_eq!(stored.shards, shards[3..6].to_vec());
    assert_eq!(stored.merkle_root, root);
}
