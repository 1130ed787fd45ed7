use ed25519_dalek::{Keypair, PublicKey as DalekKey, SecretKey, Signer};
use hotstuff::coded_batch::{root_digest, AuthenticatedShard, CodedBatch};
use hotstuff::coding::CodingError;
use hotstuff::committee::{Authority, Committee};
use hotstuff::crypto::{Digest, PublicKey, Signature};
use hotstuff::error::MempoolError;
use hotstuff::smt::{hash_shard, Tree};

fn keypair(seed: u8) -> Keypair {
    let secret = SecretKey::from_bytes(&[seed; 32]).unwrap();
    let public = DalekKey::from(&secret);
    Keypair { secret, public }
}

fn name(seed: u8) -> PublicKey {
    PublicKey(keypair(seed).public.to_bytes())
}

fn sign(seed: u8, digest: &Digest) -> Signature {
    let bytes = keypair(seed).sign(&digest.0).to_bytes();
    let mut part1 = [0u8; 32];
    let mut part2 = [0u8; 32];
    part1.copy_from_slice(&bytes[..32]);
    part2.copy_from_slice(&bytes[32..]);
    Signature { part1, part2 }
}

fn committee() -> Committee {
    let authorities = (1..=4).map(|seed| Authority { name: name(seed), stake: 1 }).collect();
    Committee::new(authorities, 3, 3, 9).unwrap()
}

fn batch() -> Vec<Vec<u8>> {
    vec![vec![1, 2, 3, 4], vec![5, 6, 7], vec![8, 9, 10]]
}

fn coded() -> CodedBatch {
    CodedBatch::new(batch(), 10, &committee())
}

fn bundle(node: usize) -> AuthenticatedShard {
    let coded = coded();
    let tree = coded.commit();
    let signature = sign(1, &root_digest(&tree));
    let shards = coded.shards[3 * node..3 * node + 3].to_vec();
    AuthenticatedShard::new(shards, node, 3, &tree, name(1), signature)
}

fn blake(parts: &[&[u8]]) -> [u8; 32] {
    let mut hasher = blake3::Hasher::new();
    for part in parts {
        hasher.update(part);
    }
    *hasher.finalize().as_bytes()
}

#[test]
fn a_batch_is_coded_with_padding() {
    let coded = coded();
    assert_eq!(coded.shards.len(), 12);
    assert_eq!(coded.shards[0], vec![1, 2, 3, 4]);
    assert_eq!(coded.shards[1], vec![5, 6, 7, 8]);
    assert_eq!(coded.shards[2], vec![9, 10, 0, 0]);
    assert!(coded.shards.iter().all(|shard| shard.len() == 4));
}

#[test]
fn data_shards_are_enough_to_reconstruct() {
    let coded = coded();
    let mut given: Vec<Option<Vec<u8>>> = vec![None; 12];
    for i in [2, 7, 11] {
        given[i] = Some(coded.shards[i].clone());
    }
    let back = CodedBatch::reconstruct(given, &committee()).unwrap();
    assert_eq!(back.shards, coded.shards);
}

#[test]
fn reconstruction_faults() {
    let shards = coded().shards;
    let all: Vec<Option<Vec<u8>>> = shards.iter().cloned().map(Some).collect();
    let outcome = |given: Vec<Option<Vec<u8>>>| CodedBatch::reconstruct(given, &committee()).err();
    assert!(matches!(
        outcome(all[..11].to_vec()),
        Some(MempoolError::CodingError(CodingError::TooFewShards))
    ));
    let mut many = all.clone();
    many.push(None);
    assert!(matches!(
        outcome(many),
        Some(MempoolError::CodingError(CodingError::TooManyShards))
    ));
    let mut empty = all.clone();
    empty[4] = Some(Vec::new());
    assert!(matches!(
        outcome(empty),
        Some(MempoolError::CodingError(CodingError::EmptyShard))
    ));
    let mut odd = all.clone();
    odd[4] = Some(vec![1, 2]);
    assert!(matches!(
        outcome(odd),
        Some(MempoolError::CodingError(CodingError::IncorrectShardSize))
    ));
    let mut few: Vec<Option<Vec<u8>>> = vec![None; 12];
    few[0] = all[0].clone();
    few[5] = all[5].clone();
    assert!(matches!(
        outcome(few),
        Some(MempoolError::CodingError(CodingError::TooFewShardsPresent))
    ));
    let mut forged = all;
    forged[7] = Some(vec![0, 0, 0, 1]);
    assert!(matches!(outcome(forged), Some(MempoolError::MalformedCodedBatch)));
}

#[test]
fn expand_undoes_compress() {
    let mut coded = coded();
    let full = coded.shards.clone();
    coded.compress(&committee());
    assert_eq!(coded.shards, full[..3].to_vec());
    coded.expand(&committee()).unwrap();
    assert_eq!(coded.shards, full);
}

#[test]
fn a_batch_that_cannot_be_expanded_stays() {
    let mut coded = coded();
    coded.shards.truncate(2);
    let before = coded.shards.clone();
    assert!(matches!(
        coded.expand(&committee()),
        Err(MempoolError::CodingError(CodingError::TooFewShards))
    ));
    assert_eq!(coded.shards, before);
}

#[test]
fn leaves_bind_the_position() {
    assert_eq!(hash_shard(b"abc", 0), blake(&[b"abc", &0u64.to_le_bytes()]));
    assert_eq!(hash_shard(b"abc", 258), blake(&[b"abc", &258u64.to_le_bytes()]));
    assert_ne!(hash_shard(b"abc", 0), hash_shard(b"abc", 1));
}

#[test]
fn the_tree_is_padded_with_zeros() {
    let leaves = vec![[1u8; 32], [2u8; 32], [3u8; 32]];
    let tree = Tree::merkle(&leaves);
    assert_eq!(tree.get_height(), 2);
    let left = blake(&[&[1u8; 32], &[2u8; 32]]);
    let right = blake(&[&[3u8; 32], &[0u8; 32]]);
    assert_eq!(tree.get_root(), blake(&[&left, &right]));
}

#[test]
fn a_node_without_leaves_is_padding() {
    let leaves = vec![[1u8; 32], [2u8; 32]];
    let tree = Tree::of_height(&leaves, 3);
    let pair = blake(&[&[1u8; 32], &[2u8; 32]]);
    let four = blake(&[&pair, &[0u8; 32]]);
    assert_eq!(tree.get_height(), 3);
    assert_eq!(tree.get_root(), blake(&[&four, &[0u8; 32]]));
}

#[test]
fn the_padding_beside_the_last_leaf_can_be_proved() {
    let tree = Tree::merkle(&vec![[1u8; 32], [2u8; 32], [3u8; 32]]);
    let whole = tree.prove_range(0, 4);
    let end = tree.prove_range(2, 2);
    assert_eq!((whole.len(), end.len()), (22, 52));
    let pair = blake(&[&[1u8; 32], &[2u8; 32]]);
    assert_eq!(end[end.len() - 32..], pair);
}

#[test]
fn proofs_are_encoded_in_order() {
    let tree = Tree::merkle(&vec![[1u8; 32], [2u8; 32], [3u8; 32]]);
    let mut expected = vec![2, 0, 0, 0, 0, 0, 0, 0, 2, 0, 1, 3, 1, 0, 0, 0, 0, 0, 0, 0];
    expected.extend_from_slice(&blake(&[&[1u8; 32], &[2u8; 32]]));
    assert_eq!(tree.prove_range(2, 2), expected);
    let tall = Tree::of_height(&vec![[1u8; 32], [2u8; 32]], 9);
    let proof = tall.prove_range(1, 1);
    assert_eq!(proof[..20], [1, 0, 0, 0, 0, 0, 0, 0, 9, 0, 0, 1, 9, 0, 0, 0, 0, 0, 0, 0]);
    assert_eq!(proof.len(), 20 + 9 * 32);
    assert_eq!(proof[20..52], [0; 32]);
    assert_eq!(proof[proof.len() - 32..], [1; 32]);
}

#[test]
fn honest_bundles_pass() {
    for node in 0..4 {
        let bundle = bundle(node);
        assert!(matches!(bundle.verify(&committee()), Ok(())));
        assert!(matches!(bundle.checked_verify(&committee()), Some(Ok(()))));
    }
}

#[test]
fn bundles_are_equal_whatever_their_signature() {
    let mut other = bundle(1);
    other.signature = sign(3, &other.root);
    assert!(bundle(1) == other);
    assert!(bundle(1) != bundle(2));
    other.shards[1][0] ^= 1;
    assert!(bundle(1) != other);
}

#[test]
fn pruned_bundles_pass() {
    for node in 0..4 {
        let full = bundle(node);
        let pruned = full.prune_to_anchor_shard(3);
        assert_eq!(pruned.shards, full.shards[..1].to_vec());
        assert_eq!(pruned.node_idx, node);
        assert!(pruned.root == full.root);
        assert!(matches!(pruned.verify(&committee()), Ok(())));
        assert!(full.checked_prune(3).is_some());
        assert!(pruned.checked_prune(3).is_none());
    }
}

#[test]
fn bundles_with_a_known_signature_pass() {
    let coded = coded();
    let tree = coded.commit();
    let root = root_digest(&tree);
    let shards = coded.shards[3..6].to_vec();
    let bundle =
        AuthenticatedShard::make_with_signature(shards, 1, 3, &tree, root, name(2), sign(2, &root));
    assert!(matches!(bundle.verify(&committee()), Ok(())));
}

#[test]
fn bundles_of_strangers_are_refused() {
    let mut bundle = bundle(0);
    bundle.author = name(9);
    assert!(matches!(
        bundle.verify(&committee()),
        Err(MempoolError::UnknownAuthority(author)) if author == name(9)
    ));
}

#[test]
fn bundles_with_a_wrong_signature_are_refused() {
    let mut bundle = bundle(0);
    bundle.author = name(2);
    assert!(matches!(bundle.verify(&committee()), Err(MempoolError::InvalidSignature)));
}

#[test]
fn bundles_with_wrong_contents_are_refused() {
    let mut short = bundle(0);
    short.shards.truncate(2);
    assert!(matches!(short.verify(&committee()), Err(MempoolError::BadInclusionProof)));
    let mut forged = bundle(1);
    forged.shards[2][0] ^= 1;
    assert!(matches!(forged.verify(&committee()), Err(MempoolError::BadInclusionProof)));
    let mut moved = bundle(1);
    moved.node_idx = 2;
    assert!(matches!(moved.verify(&committee()), Err(MempoolError::BadInclusionProof)));
    let mut garbled = bundle(1);
    garbled.proof = vec![1, 2, 3];
    assert!(matches!(garbled.verify(&committee()), Err(MempoolError::BadInclusionProof)));
    let mut empty = bundle(1);
    empty.proof = Vec::new();
    assert!(matches!(empty.verify(&committee()), Err(MempoolError::BadInclusionProof)));
}

#[test]
fn bundles_are_bound_to_their_node() {
    for node in 0..4 {
        for other in (0..4).filter(|other| *other != node) {
            let mut moved = bundle(node);
            moved.node_idx = other;
            assert!(matches!(moved.verify(&committee()), Err(MempoolError::BadInclusionProof)));
            moved.shards = bundle(other).shards;
            assert!(matches!(moved.verify(&committee()), Err(MempoolError::BadInclusionProof)));
            let mut pruned = bundle(node).prune_to_anchor_shard(3);
            pruned.node_idx = other;
            assert!(matches!(pruned.verify(&committee()), Err(MempoolError::BadInclusionProof)));
        }
    }
}

#[test]
fn equal_shards_are_bound_to_their_node() {
    let members = (1..=4).map(|seed| Authority { name: name(seed), stake: 1 }).collect();
    let committee = Committee::new(members, 3, 2, 6).unwrap();
    let coded = CodedBatch { shards: vec![vec![7; 5]; 8] };
    let tree = coded.commit();
    for node in 0..4 {
        let signature = sign(1, &root_digest(&tree));
        let shards = coded.shards[..2].to_vec();
        let mut bundle = AuthenticatedShard::new(shards, node, 2, &tree, name(1), signature);
        assert!(bundle.verify(&committee).is_ok());
        bundle.node_idx = (node + 1) % 4;
        assert!(matches!(bundle.verify(&committee), Err(MempoolError::BadInclusionProof)));
    }
}

#[test]
fn every_changed_shard_is_refused() {
    for (node, shard) in [(0, 0), (1, 2), (2, 1), (3, 2)] {
        let mut changed = bundle(node);
        changed.shards[shard].push(0);
        assert!(matches!(changed.verify(&committee()), Err(MempoolError::BadInclusionProof)));
    }
}

#[test]
fn proofs_may_have_many_indices_without_levels() {
    let mut bundle = bundle(0);
    bundle.shards.truncate(1);
    bundle.root = Digest(hash_shard(&bundle.shards[0], 0));
    bundle.signature = sign(1, &bundle.root);
    bundle.proof = vec![100, 0, 0, 0, 0, 0, 0, 0, 0, 0];
    assert!(matches!(bundle.verify(&committee()), Err(MempoolError::BadInclusionProof)));
    bundle.proof.extend_from_slice(&[0; 8]);
    assert!(matches!(bundle.verify(&committee()), Ok(())));
    assert!(matches!(bundle.checked_verify(&committee()), Some(Ok(()))));
}

#[test]
fn bundles_without_shards_have_no_proof() {
    let tree = coded().commit();
    let root = root_digest(&tree);
    let bundle = AuthenticatedShard::new(Vec::new(), 2, 0, &tree, name(1), sign(1, &root));
    assert!(bundle.proof.is_empty() && bundle.shards.is_empty());
    assert!(matches!(bundle.verify(&committee()), Err(MempoolError::BadInclusionProof)));
}

#[test]
fn proofs_of_other_trees_are_left_undecided() {
    let mut outside = bundle(1);
    outside.node_idx = 100;
    assert!(outside.checked_verify(&committee()).is_none());
    let mut huge = bundle(1);
    huge.node_idx = usize::MAX;
    assert!(huge.checked_verify(&committee()).is_none());
    let mut header = bundle(1);
    header.proof = vec![0xff; 8];
    header.proof.extend_from_slice(&[0, 1, 0, 0]);
    assert!(header.checked_verify(&committee()).is_none());
}

#[test]
fn the_check_on_decoded_proofs() {
    let coded = coded();
    let mut bundle = bundle(0);
    bundle.shards = vec![coded.shards[0].clone()];
    let leaf = hash_shard(&bundle.shards[0], 0);
    bundle.root = Digest(blake(&[&leaf, &[7u8; 32]]));
    let proof = Some((Some(1usize), vec![[7u8; 32]]));
    assert!(matches!(bundle.verify_decoded(&committee(), true, &proof), Ok(())));
    assert!(matches!(
        bundle.verify_decoded(&committee(), false, &proof),
        Err(MempoolError::InvalidSignature)
    ));
    let exhausted = Some((Some(1usize), Vec::new()));
    assert!(matches!(
        bundle.verify_decoded(&committee(), true, &exhausted),
        Err(MempoolError::BadInclusionProof)
    ));
    assert!(matches!(
        bundle.verify_decoded(&committee(), true, &None),
        Err(MempoolError::BadInclusionProof)
    ));
    assert!(matches!(
        bundle.verify_decoded(&committee(), true, &Some((None, vec![[7u8; 32]]))),
        Err(MempoolError::BadInclusionProof)
    ));
}
