use ed25519_dalek::{Keypair, PublicKey as DalekKey, SecretKey, Signer};
use hotstuff::aggregator::{
    Aggregator, AggregatorService, BatchCertificate, FullAvailabilityProof,
};
use hotstuff::coded_batch::CodedBatch;
use hotstuff::coding::CodingError;
use hotstuff::committee::{Authority, Committee};
use hotstuff::crypto::{Digest, PublicKey, SecretKey as Secret, Signature};
use hotstuff::error::MempoolError;
use hotstuff::helper::Helper;
use hotstuff::keys::shard_key;
use hotstuff::mempool::{MempoolMessage, CHANNEL_CAPACITY};
use hotstuff::reconstructor::{count_present, ReceivedShard, Reconstructor, ShardOutcome};
use hotstuff::shard_cleaner::ShardCleaner;
use hotstuff::store::{Store, StoreCommand};
use hotstuff::synchronizer::{Synchronizer, TIMER_RESOLUTION};
use hotstuff::voter::{
    on_bundle, BatchVote, EncodedShard, NodesVoter, SelfVoter, MAX_PENDING_VOTES,
};

fn keypair(seed: u8) -> Keypair {
    let secret = SecretKey::from_bytes(&[seed; 32]).unwrap();
    let public = DalekKey::from(&secret);
    Keypair { secret, public }
}

fn name(seed: u8) -> PublicKey {
    PublicKey(keypair(seed).public.to_bytes())
}

fn sign(seed: u8, digest: &Digest) -> Signature {
    let bytes = keypair(seed).sign(&digest.0).to_bytes();
    let mut part1 = [0u8; 32];
    let mut part2 = [0u8; 32];
    part1.copy_from_slice(&bytes[..32]);
    part2.copy_from_slice(&bytes[32..]);
    Signature { part1, part2 }
}

fn committee() -> Committee {
    let authorities = (1..=4).map(|seed| Authority { name: name(seed), stake: 1 }).collect();
    Committee::new(authorities, 3, 3, 5).unwrap()
}

fn vote(seed: u8, root: Digest) -> BatchVote {
    BatchVote::new(root, name(seed), sign(seed, &root))
}

fn votes(seeds: &[u8], root: &Digest) -> Vec<(PublicKey, Signature)> {
    seeds.iter().map(|seed| (name(*seed), sign(*seed, root))).collect()
}

fn key(root: u8, destination: u64) -> Vec<u8> {
    let mut key = vec![root; 32];
    key.extend_from_slice(&destination.to_le_bytes());
    key
}

#[test]
fn committees_have_distinct_members_and_countable_stake() {
    let member = Authority { name: name(1), stake: 1 };
    assert!(Committee::new(vec![member, member], 1, 1, 1).is_none());
    let rich = Authority { name: name(2), stake: u32::MAX };
    assert!(Committee::new(vec![member, rich], 1, 1, 1).is_none());
    let committee = committee();
    assert_eq!(committee.size(), 4);
    assert_eq!(committee.quorum_threshold(), 3);
    assert_eq!(committee.shards(), (3, 5));
    assert_eq!(committee.stake(&name(2)), 1);
    assert_eq!(committee.stake(&name(9)), 0);
    assert_eq!(committee.index(&name(3)), Some(2));
    assert_eq!(committee.index(&name(9)), None);
    assert!(committee.name(1).unwrap() == name(2));
    assert!(committee.name(4).is_none());
    let others = committee.others(&name(2));
    assert!(others == vec![name(1), name(3), name(4)]);
}

#[test]
fn signatures_are_checked() {
    let root = Digest([7; 32]);
    let signature = sign(1, &root);
    assert!(signature.verify(&root, &name(1)));
    assert!(!signature.verify(&root, &name(2)));
    assert!(!signature.verify(&Digest([8; 32]), &name(1)));
    let flat = signature.flatten();
    assert_eq!(flat[..32], signature.part1);
    assert_eq!(flat[32..], signature.part2);
    let (keys, signatures) = Signature::split_votes(&votes(&[1, 2], &root));
    assert_eq!(keys, vec![name(1).0, name(2).0]);
    assert_eq!(signatures[1], sign(2, &root).flatten());
}

fn no_key() -> PublicKey {
    let bytes = (0..=255u8).map(|i| [i; 32]).find(|key| DalekKey::from_bytes(key).is_err());
    PublicKey(bytes.unwrap())
}

#[test]
fn keys_are_points() {
    assert!(name(1).is_valid());
    assert!(!no_key().is_valid());
}

#[test]
fn secrets_give_keys_and_signatures() {
    let digest = Digest([6; 32]);
    for seed in [1, 2, 200u8] {
        let secret = Secret([seed; 32]);
        let signature = Signature::new(&digest, &secret);
        assert_eq!(secret.public_key().0, name(seed).0);
        assert_eq!(signature.flatten(), sign(seed, &digest).flatten());
        assert!(signature.verify(&digest, &secret.public_key()));
        assert!(!signature.verify(&Digest([7; 32]), &secret.public_key()));
    }
}

#[test]
fn genuine_votes_are_accepted() {
    let (committee, root) = (committee(), Digest([6; 32]));
    let votes: Vec<(PublicKey, Signature)> = (1..=4u8)
        .map(|seed| Secret([seed; 32]))
        .map(|secret| (secret.public_key(), Signature::new(&root, &secret)))
        .collect();
    let certificate = BatchCertificate { root, author: name(1), votes: votes[..3].to_vec() };
    let availability = FullAvailabilityProof { root, author: name(1), votes };
    let cleaner = ShardCleaner { name: name(2), committee };
    for _ in 0..8 {
        assert!(certificate.verify(&cleaner.committee).is_ok());
        assert!(availability.verify(&cleaner.committee).is_ok());
        assert_eq!(cleaner.prune(&availability), cleaner.prune_with(&availability, true));
        assert!(cleaner.prune(&availability).is_some());
    }
}

#[test]
fn votes_without_the_form_of_one_are_refused() {
    let members = vec![
        Authority { name: name(1), stake: 1 },
        Authority { name: no_key(), stake: 1 },
    ];
    let committee = Committee::new(members, 2, 1, 1).unwrap();
    let mut forged = certificate(&[1]);
    forged.votes.push((no_key(), sign(1, &forged.root)));
    assert!(matches!(forged.verify(&committee), Err(MempoolError::InvalidSignature)));
    let committee = Committee::new(vec![Authority { name: name(1), stake: 1 }], 1, 1, 1).unwrap();
    let mut large = certificate(&[1]);
    assert!(large.verify(&committee).is_ok());
    large.votes[0].1.part2 = [0xff; 32];
    assert!(matches!(large.verify(&committee), Err(MempoolError::InvalidSignature)));
    large.votes[0].1.part2[31] = 0x1f;
    assert!(matches!(large.verify(&committee), Err(MempoolError::InvalidSignature)));
}

#[test]
fn no_votes_are_enough_where_no_stake_is_needed() {
    let members = vec![Authority { name: name(1), stake: 1 }];
    let committee = Committee::new(members, 0, 1, 1).unwrap();
    assert!(certificate(&[]).verify(&committee).is_ok());
    let nobody = Committee::new(Vec::new(), 0, 1, 1).unwrap();
    assert!(availability(&[]).verify(&nobody).is_ok());
}

#[test]
fn votes_are_checked() {
    let root = Digest([7; 32]);
    assert!(matches!(vote(1, root).verify(&committee()), Ok(())));
    assert!(matches!(
        vote(9, root).verify(&committee()),
        Err(MempoolError::UnknownAuthority(author)) if author == name(9)
    ));
    let mut forged = vote(1, root);
    forged.signature = sign(2, &root);
    assert!(matches!(forged.verify(&committee()), Err(MempoolError::InvalidSignature)));
    assert!(matches!(forged.verify_with(&committee(), true), Ok(())));
}

fn certificate(seeds: &[u8]) -> BatchCertificate {
    let root = Digest([7; 32]);
    BatchCertificate { root, author: name(1), votes: votes(seeds, &root) }
}

fn availability(seeds: &[u8]) -> FullAvailabilityProof {
    let root = Digest([7; 32]);
    FullAvailabilityProof { root, author: name(1), votes: votes(seeds, &root) }
}

#[test]
fn certificates_are_checked() {
    let committee = committee();
    assert!(matches!(certificate(&[1, 2, 3]).verify(&committee), Ok(())));
    assert!(matches!(
        certificate(&[1, 2]).verify(&committee),
        Err(MempoolError::CertificateRequiresQuorum)
    ));
    assert!(matches!(
        certificate(&[1, 2, 1]).verify(&committee),
        Err(MempoolError::AuthorityReuse(author)) if author == name(1)
    ));
    assert!(matches!(
        certificate(&[1, 9, 9]).verify(&committee),
        Err(MempoolError::UnknownAuthority(author)) if author == name(9)
    ));
    let mut forged = certificate(&[1, 2, 3]);
    forged.votes[1].1 = sign(1, &Digest([7; 32]));
    assert!(matches!(forged.verify(&committee), Err(MempoolError::InvalidSignature)));
    assert!(matches!(forged.verify_with(&committee, true), Ok(())));
    assert!(forged == certificate(&[2]));
    let other = BatchCertificate { root: Digest([8; 32]), author: name(1), votes: Vec::new() };
    assert!(forged != other);
}

#[test]
fn certificates_share_a_voter() {
    let (a, b) = (certificate(&[1, 2, 3]), certificate(&[4, 3, 2]));
    assert!(a.verify(&committee()).is_ok() && b.verify(&committee()).is_ok());
    assert!(a.votes.iter().any(|(name, _)| b.votes.iter().any(|(other, _)| name == other)));
}

#[test]
fn availability_proofs_are_checked() {
    let committee = committee();
    assert!(matches!(availability(&[4, 2, 3, 1]).verify(&committee), Ok(())));
    assert!(matches!(
        availability(&[1, 2, 3]).verify(&committee),
        Err(MempoolError::CertificateRequiresQuorum)
    ));
    assert!(matches!(
        availability(&[1, 2, 3, 3]).verify(&committee),
        Err(MempoolError::AuthorityReuse(author)) if author == name(3)
    ));
    assert!(matches!(
        availability(&[1, 2, 3, 9]).verify(&committee),
        Err(MempoolError::UnknownAuthority(_))
    ));
    assert!(matches!(
        availability(&[1, 2, 3, 4]).verify_with(&committee, false),
        Err(MempoolError::InvalidSignature)
    ));
}

#[test]
fn an_aggregator_gives_one_certificate_and_one_proof() {
    let root = Digest([7; 32]);
    let committee = committee();
    let mut aggregator = Aggregator::new(name(1));
    let mut certificates = 0;
    for seed in 1..=4u8 {
        let (certificate, proof) =
            aggregator.append(root, sign(seed, &root), name(seed), &committee).unwrap();
        if let Some(certificate) = certificate {
            certificates += 1;
            assert_eq!(seed, 3);
            assert_eq!(certificate.votes.len(), 3);
            assert!(matches!(certificate.verify(&committee), Ok(())));
        }
        assert_eq!(proof.is_some(), seed == 4);
        if let Some(proof) = proof {
            assert!(matches!(proof.verify(&committee), Ok(())));
        }
    }
    assert_eq!(certificates, 1);
    assert_eq!(aggregator.weight, 4);
    assert!(matches!(
        aggregator.append(root, sign(2, &root), name(2), &committee),
        Err(MempoolError::AuthorityReuse(author)) if author == name(2)
    ));
    assert_eq!(aggregator.votes.len(), 4);
}

#[test]
fn a_run_gives_one_certificate_and_one_proof() {
    let root = Digest([7; 32]);
    let mut service = AggregatorService::new(name(1), committee());
    service.track(&root);
    let vote = |seed: u8, root: Digest| BatchVote::new(root, name(seed), sign(seed, &root));
    let mut forged = vote(2, root);
    forged.signature = sign(3, &root);
    let other = Digest([8; 32]);
    let votes = vec![
        vote(2, root),
        vote(9, root),
        forged,
        vote(2, root),
        vote(3, other),
        vote(1, root),
        vote(4, root),
        vote(1, root),
        vote(3, root),
        vote(3, root),
    ];
    let mut certificates = Vec::new();
    let mut proofs = Vec::new();
    for (i, vote) in votes.iter().enumerate() {
        if i == 3 {
            service.track(&Digest([9; 32]));
        }
        if let Ok((certificate, proof)) = service.on_vote(vote) {
            certificates.extend(certificate.map(|certificate| (i, certificate)));
            proofs.extend(proof.map(|proof| (i, proof)));
        }
    }
    assert_eq!((certificates.len(), proofs.len()), (1, 1));
    assert_eq!((certificates[0].0, proofs[0].0), (6, 8));
    assert_eq!(certificates[0].1.votes.len(), 3);
    assert_eq!(proofs[0].1.votes.len(), 4);
    assert!(certificates[0].1.verify(&committee()).is_ok());
    assert!(proofs[0].1.verify(&committee()).is_ok());
}

#[test]
fn strangers_do_not_stand_in_for_nodes() {
    let (root, committee) = (Digest([7; 32]), committee());
    let mut aggregator = Aggregator::new(name(1));
    for seed in [1, 2, 3u8] {
        assert!(aggregator.append(root, sign(seed, &root), name(seed), &committee).is_ok());
    }
    assert!(matches!(
        aggregator.append(root, sign(9, &root), name(9), &committee),
        Ok((None, None))
    ));
    match aggregator.append(root, sign(4, &root), name(4), &committee) {
        Ok((None, Some(proof))) => {
            assert_eq!(proof.votes.len(), 4);
            assert!(proof.verify(&committee).is_ok());
        }
        other => panic!("{:?}", other),
    }
    assert!(matches!(
        aggregator.append(root, sign(8, &root), name(8), &committee),
        Ok((None, None))
    ));
}

#[test]
fn the_service_collects_votes_for_open_batches() {
    let root = Digest([7; 32]);
    let mut service = AggregatorService::new(name(1), committee());
    assert!(matches!(service.on_vote(&vote(1, root)), Ok((None, None))));
    service.track(&root);
    assert!(matches!(service.on_vote(&vote(1, root)), Ok((None, None))));
    assert!(matches!(
        service.on_vote(&vote(1, root)),
        Err(MempoolError::AuthorityReuse(_))
    ));
    assert!(matches!(
        service.on_vote(&vote(9, root)),
        Err(MempoolError::UnknownAuthority(_))
    ));
    assert!(matches!(
        service.on_checked_vote(&vote(2, root), false),
        Err(MempoolError::InvalidSignature)
    ));
    assert!(matches!(service.on_vote(&vote(2, root)), Ok((None, None))));
    assert!(matches!(service.on_vote(&vote(3, root)), Ok((Some(_), None))));
    assert!(matches!(service.on_vote(&vote(4, root)), Ok((None, Some(_)))));
    assert!(matches!(service.on_vote(&vote(4, root)), Ok((None, None))));
    service.track(&root);
    assert!(matches!(service.on_vote(&vote(4, root)), Ok((None, None))));
}

#[test]
fn keys_of_shards() {
    assert_eq!(shard_key(&Digest([7; 32]), 258), key(7, 258));
    assert_eq!(key(7, 258)[32..], [2, 1, 0, 0, 0, 0, 0, 0]);
    assert_ne!(shard_key(&Digest([7; 32]), 1), shard_key(&Digest([7; 32]), 256));
    assert_ne!(shard_key(&Digest([7; 32]), 1), shard_key(&Digest([8; 32]), 1));
    assert_eq!(
        Synchronizer::shard_key(&Digest([7; 32]), &committee(), &name(3)),
        key(7, 4)
    );
    assert_eq!(
        Synchronizer::shard_key(&Digest([7; 32]), &committee(), &name(9)),
        key(7, 0)
    );
}

#[test]
fn helpers_answer_members() {
    let helper = Helper { name: name(2), committee: committee() };
    let (first, second) = helper.on_request(&Digest([5; 32]), &name(1)).unwrap();
    assert_eq!(first, key(5, 2));
    assert_eq!(second, key(5, 3));
    assert!(helper.on_request(&Digest([5; 32]), &name(9)).is_none());
    let stranger = Helper { name: name(9), committee: committee() };
    let (first, second) = stranger.on_request(&Digest([5; 32]), &name(1)).unwrap();
    assert_eq!((first, second), (key(5, 0), key(5, 1)));
}

#[test]
fn cleaners_drop_the_second_shard() {
    let cleaner = ShardCleaner { name: name(2), committee: committee() };
    assert_eq!(cleaner.prune(&availability(&[1, 2, 3, 4])), Some(key(7, 3)));
    assert_eq!(cleaner.prune(&availability(&[1, 2, 3])), None);
    assert_eq!(cleaner.prune_with(&availability(&[1, 2, 3, 4]), false), None);
    let stranger = ShardCleaner { name: name(9), committee: committee() };
    assert_eq!(stranger.prune(&availability(&[1, 2, 3, 4])), None);
}

#[test]
fn a_synchronizer_asks_again_after_the_delay() {
    let mut synchronizer = Synchronizer::new(name(2), committee(), 500);
    let (a, b) = (Digest([1; 32]), Digest([2; 32]));
    assert_eq!(synchronizer.key_to_read(&a), Some(key(1, 2)));
    assert!(!synchronizer.on_read(&a, true, 1000));
    assert!(synchronizer.on_read(&a, false, 1000));
    assert_eq!(synchronizer.key_to_read(&a), None);
    assert!(synchronizer.on_read(&b, false, 1200));
    assert!(synchronizer.on_timer(1500).is_empty());
    let retry = synchronizer.on_timer(1501);
    assert_eq!(retry.len(), 1);
    assert!(retry[0] == a);
    assert!(synchronizer.on_timer(1502).is_empty());
    synchronizer.on_synced(&a);
    assert_eq!(synchronizer.key_to_read(&a), Some(key(1, 2)));
    let retry = synchronizer.on_timer(9000);
    assert_eq!(retry.len(), 1);
    assert!(retry[0] == b);
    assert_eq!(TIMER_RESOLUTION, 1000);
}

fn received(root: Digest, destination: usize, shard: &[u8]) -> ReceivedShard {
    ReceivedShard { root, destination, shard: shard.to_vec() }
}

#[test]
fn a_reconstructor_puts_a_batch_together() {
    let root = Digest([7; 32]);
    let coded = CodedBatch::new(vec![vec![1, 2, 3, 4, 5, 6, 7]], 7, &committee());
    let mut reconstructor = Reconstructor::new(name(2), committee());
    let shard = |i: usize| received(root, i, &coded.shards[i]);
    assert!(matches!(reconstructor.on_shard(shard(1), true), ShardOutcome::NotMissing));
    reconstructor.on_missing(&root);
    assert!(matches!(
        reconstructor.on_shard(received(root, 8, &[1]), true),
        ShardOutcome::OutOfRange
    ));
    assert!(matches!(reconstructor.on_shard(shard(1), false), ShardOutcome::Invalid));
    assert!(matches!(reconstructor.on_shard(shard(1), true), ShardOutcome::Collected));
    assert!(matches!(reconstructor.on_shard(shard(1), true), ShardOutcome::Collected));
    assert!(matches!(reconstructor.on_shard(shard(6), true), ShardOutcome::Collected));
    match reconstructor.on_shard(shard(4), true) {
        ShardOutcome::Reconstructed(writes) => {
            assert_eq!(writes, vec![(key(7, 2), vec![1]), (vec![7; 32], vec![1])]);
        }
        other => panic!("{:?}", other),
    }
    assert!(matches!(reconstructor.on_shard(shard(5), true), ShardOutcome::NotMissing));
}

#[test]
fn shards_that_are_no_batch_are_given_up() {
    let root = Digest([7; 32]);
    let mut reconstructor = Reconstructor::new(name(2), committee());
    reconstructor.on_missing(&root);
    for i in 0..2 {
        assert!(matches!(
            reconstructor.on_shard(received(root, i, &[1]), true),
            ShardOutcome::Collected
        ));
    }
    assert!(matches!(
        reconstructor.on_shard(received(root, 2, &[1, 2]), true),
        ShardOutcome::Failed(MempoolError::CodingError(CodingError::IncorrectShardSize))
    ));
    assert!(matches!(
        reconstructor.on_shard(received(root, 2, &[1]), true),
        ShardOutcome::NotMissing
    ));
    assert_eq!(count_present(&vec![Some(vec![1]), None, Some(Vec::new())]), 2);
}

#[test]
fn bundles_are_stored_with_a_marker() {
    let root = Digest([3; 32]);
    let first = EncodedShard { root, destination: 4, bytes: vec![10, 11] };
    let second = EncodedShard { root, destination: 5, bytes: vec![12] };
    assert_eq!(
        on_bundle(&root, Ok((first, second))).unwrap(),
        vec![(key(3, 4), vec![10, 11]), (key(3, 5), vec![12]), (vec![3; 32], vec![1])]
    );
}

#[test]
fn refused_bundles_are_not_stored() {
    assert!(matches!(
        on_bundle(&Digest([3; 32]), Err(MempoolError::BadInclusionProof)),
        Err(MempoolError::BadInclusionProof)
    ));
    assert!(matches!(
        on_bundle(&Digest([3; 32]), Err(MempoolError::UnknownAuthority(name(9)))),
        Err(MempoolError::UnknownAuthority(author)) if author == name(9)
    ));
}

#[test]
fn voters_sign_their_name() {
    let root = Digest([7; 32]);
    let own = SelfVoter { name: name(2), committee: committee() };
    assert!(matches!(own.vote(root, sign(2, &root)).verify(&committee()), Ok(())));
    let nodes: NodesVoter<u32> = NodesVoter::new(name(3), committee());
    let cast = nodes.vote(root, sign(3, &root));
    assert!(cast.author == name(3));
    assert!(matches!(cast.verify(&committee()), Ok(())));
}

struct Handle(std::rc::Rc<std::cell::Cell<usize>>);

impl Drop for Handle {
    fn drop(&mut self) {
        self.0.set(self.0.get() - 1);
    }
}

#[test]
fn pending_votes_are_bounded() {
    let live = std::rc::Rc::new(std::cell::Cell::new(0));
    let handle = || {
        live.set(live.get() + 1);
        Handle(live.clone())
    };
    let mut voter: NodesVoter<Handle> = NodesVoter::new(name(1), committee());
    for i in 0..MAX_PENDING_VOTES + 20 {
        voter.keep(&name(2), &Digest([i as u8; 32]), handle());
    }
    assert_eq!(live.get(), MAX_PENDING_VOTES);
    voter.keep(&name(3), &Digest([1; 32]), handle());
    assert_eq!(live.get(), MAX_PENDING_VOTES + 1);
    voter.cleanup(&name(3), &Digest([1; 32]));
    assert_eq!(live.get(), MAX_PENDING_VOTES);
    voter.cleanup(&name(4), &Digest([1; 32]));
    voter.cleanup(&name(2), &Digest([119; 32]));
    assert_eq!(live.get(), MAX_PENDING_VOTES - 1);
}

type Command = StoreCommand<u32, u32>;

#[test]
fn readers_are_answered_by_the_next_write() {
    let mut store: Store<u32> = Store::new();
    let none: Result<Option<Vec<u8>>, u8> = Ok(None);
    for reader in [1, 2] {
        let replies = store.on_command(Command::NotifyRead(vec![5], reader), none.clone());
        assert!(replies.notified.is_empty() && replies.read.is_none());
    }
    let replies = store.on_command(Command::Write(vec![6], vec![0]), none.clone());
    assert!(replies.notified.is_empty());
    let replies = store.on_command(Command::Write(vec![5], vec![9]), none.clone());
    assert_eq!(replies.notified, vec![(1, Ok(vec![9])), (2, Ok(vec![9]))]);
    let replies = store.on_command(Command::Write(vec![5], vec![10]), none);
    assert!(replies.notified.is_empty());
}

#[test]
fn readers_wait_for_the_first_write_to_their_key() {
    let mut store: Store<u32> = Store::new();
    let none: Result<Option<Vec<u8>>, u8> = Ok(None);
    let asked = store.on_command(Command::NotifyRead(vec![5], 1), none.clone());
    assert!(asked.notified.is_empty());
    for command in [
        Command::Write(vec![6], vec![0]),
        Command::Delete(vec![5]),
        Command::Read(vec![5], 7),
        Command::WriteBatch(vec![(vec![7], vec![1]), (vec![8], vec![2])]),
        Command::NotifyRead(vec![5], 2),
    ] {
        assert!(store.on_command(command, none.clone()).notified.is_empty());
    }
    let pairs = vec![(vec![9], vec![0]), (vec![5], vec![3]), (vec![5], vec![4])];
    let replies = store.on_command(Command::WriteBatch(pairs), none.clone());
    assert_eq!(replies.notified, vec![(1, Ok(vec![3])), (2, Ok(vec![3]))]);
    let replies = store.on_command(Command::Write(vec![5], vec![6]), none);
    assert!(replies.notified.is_empty());
}

#[test]
fn a_read_is_answered_with_what_was_found() {
    let mut store: Store<u32> = Store::new();
    let none: Result<Option<Vec<u8>>, u8> = Ok(None);
    store.on_command(Command::Write(vec![5], vec![1]), none.clone());
    let found: Result<Option<Vec<u8>>, u8> = Ok(Some(vec![1]));
    for _ in 0..2 {
        let replies = store.on_command(Command::Read(vec![5], 7), found.clone());
        assert_eq!(replies.read, Some((7, found.clone())));
    }
    store.on_command(Command::Delete(vec![5]), none.clone());
    let replies = store.on_command(Command::Read(vec![5], 8), none.clone());
    assert_eq!(replies.read, Some((8, none)));
}

#[test]
fn readers_are_answered_at_once_if_there_is_a_value() {
    let mut store: Store<u32> = Store::new();
    let found: Result<Option<Vec<u8>>, u8> = Ok(Some(vec![4]));
    let replies = store.on_command(Command::NotifyRead(vec![5], 1), found.clone());
    assert_eq!(replies.notified, vec![(1, Ok(vec![4]))]);
    let replies = store.on_command(Command::Read(vec![5], 7), found.clone());
    assert_eq!(replies.read, Some((7, found)));
    let failed: Result<Option<Vec<u8>>, u8> = Err(3);
    let replies = store.on_command(Command::NotifyRead(vec![5], 2), failed.clone());
    assert_eq!(replies.notified, vec![(2, Err(3))]);
    let replies = store.on_command(Command::Delete(vec![5]), failed);
    assert!(replies.notified.is_empty() && replies.read.is_none());
}

#[test]
fn a_batch_of_writes_answers_in_order() {
    let mut store: Store<u32> = Store::new();
    let none: Result<Option<Vec<u8>>, u8> = Ok(None);
    for (reader, at) in [(1, 8), (2, 9), (3, 8)] {
        store.on_command(Command::NotifyRead(vec![at], reader), none.clone());
    }
    let pairs = vec![(vec![9], vec![90]), (vec![8], vec![80]), (vec![9], vec![91])];
    let replies = store.on_command(Command::WriteBatch(pairs), none);
    assert_eq!(
        replies.notified,
        vec![(2, Ok(vec![90])), (1, Ok(vec![80])), (3, Ok(vec![80]))]
    );
}

#[test]
fn mempool_messages_hold_batches() {
    let MempoolMessage::Batch(batch) = MempoolMessage::Batch(vec![vec![1], vec![2, 3]]);
    assert_eq!(batch, vec![vec![1], vec![2, 3]]);
    assert_eq!(CHANNEL_CAPACITY, 1000);
}
