use ed25519_dalek::{Digest as _, Sha512};
use hotstuff::error::ConsensusError;
use hotstuff::erasure::{
    encode, encode_shards, hash_leaf, hash_node, merkle_root_and_proofs, reconstruct, shard_size,
    verify_proof, MerkleProof,
};

fn cut(parts: &[&[u8]]) -> [u8; 32] {
    let mut hasher = Sha512::new();
    for part in parts {
        hasher.update(part);
    }
    let mut out = [0u8; 32];
    out.copy_from_slice(&hasher.finalize()[..32]);
    out
}

fn message(len: usize) -> Vec<u8> {
    (0..len).map(|i| (i * 7 + 3) as u8).collect()
}

#[test]
fn shard_size_rounds_up() {
    assert_eq!(shard_size(10, 3), 4);
    assert_eq!(shard_size(9, 3), 3);
    assert_eq!(shard_size(1, 5), 1);
    assert_eq!(shard_size(0, 5), 0);
}

#[test]
fn leaf_and_node_hashes_are_separated() {
    assert_eq!(hash_leaf(b"abc"), cut(&[b"\x00", b"abc"]));
    assert_eq!(hash_node(&[1; 32], &[2; 32]), cut(&[b"\x01", &[1; 32], &[2; 32]]));
    assert_ne!(hash_leaf(b""), [0u8; 32]);
}

#[test]
fn encoding_keeps_the_data_and_pads_it() {
    let data = message(10);
    let shards = encode_shards(&data, 3, 5);
    assert_eq!(shards.len(), 5);
    assert_eq!(shards[0], data[0..4].to_vec());
    assert_eq!(shards[1], data[4..8].to_vec());
    assert_eq!(shards[2], vec![data[8], data[9], 0, 0]);
    assert!(shards.iter().all(|shard| shard.len() == 4));
    assert!(shards[3] != shards[4]);
}

#[test]
fn without_parity_the_data_is_only_cut() {
    let data = message(10);
    let (shards, root, proofs) = encode(&data, 3, 3);
    let padded = vec![data[8], data[9], 0, 0];
    assert_eq!(shards, vec![data[..4].to_vec(), data[4..8].to_vec(), padded]);
    assert_eq!(encode_shards(&data, 3, 3), shards);
    assert_eq!(merkle_root_and_proofs(&shards).0, root);
    assert_eq!(proofs.len(), 3);
    for i in 0..3 {
        assert!(verify_proof(&shards[i], i, &proofs[i], &root));
    }
    assert_eq!(encode(&[9], 1, 1).0, vec![vec![9]]);
}

#[test]
fn any_k_shards_give_the_data_back() {
    let data = message(100);
    let (shards, _, _) = encode(&data, 3, 7);
    for a in 0..7 {
        for b in a + 1..7 {
            for c in b + 1..7 {
                let mut given: Vec<Option<Vec<u8>>> = vec![None; 7];
                for i in [a, b, c] {
                    given[i] = Some(shards[i].clone());
                }
                assert_eq!(reconstruct(given, 3, 7, 100).unwrap(), data);
            }
        }
    }
}

#[test]
fn too_few_shards_are_not_enough() {
    let data = message(20);
    let (shards, _, _) = encode(&data, 3, 5);
    let given = vec![Some(shards[0].clone()), None, None, Some(shards[3].clone()), None];
    assert!(matches!(
        reconstruct(given, 3, 5, 20),
        Err(ConsensusError::ErasureReconstructionFailed)
    ));
}

#[test]
fn shards_of_different_sizes_are_refused() {
    let given = vec![Some(vec![1, 2]), Some(vec![3]), Some(vec![4, 5]), None];
    assert!(matches!(
        reconstruct(given, 2, 4, 4),
        Err(ConsensusError::ErasureReconstructionFailed)
    ));
}

#[test]
fn block_len_trims_the_padding() {
    let data = message(5);
    let (shards, _, _) = encode(&data, 2, 4);
    let given: Vec<Option<Vec<u8>>> = shards.into_iter().map(Some).collect();
    assert_eq!(reconstruct(given.clone(), 2, 4, 5).unwrap(), data);
    assert_eq!(reconstruct(given.clone(), 2, 4, 3).unwrap(), data[..3].to_vec());
    assert_eq!(reconstruct(given, 2, 4, 9).unwrap().len(), 6);
}

#[test]
fn merkle_tree_of_three_shards() {
    let shards = vec![vec![1u8], vec![2u8], vec![3u8]];
    let leaves: Vec<[u8; 32]> = shards.iter().map(|shard| hash_leaf(shard)).collect();
    let left = hash_node(&leaves[0], &leaves[1]);
    let right = hash_node(&leaves[2], &leaves[2]);
    let (root, proofs) = merkle_root_and_proofs(&shards);
    assert_eq!(root, hash_node(&left, &right));
    assert_eq!(proofs[0].path, vec![(leaves[1], false), (right, false)]);
    assert_eq!(proofs[1].path, vec![(leaves[0], true), (right, false)]);
    assert_eq!(proofs[2].path, vec![(leaves[2], false), (left, true)]);
}

#[test]
fn merkle_tree_of_one_shard_is_its_leaf() {
    let (root, proofs) = merkle_root_and_proofs(&[vec![9u8; 4]]);
    assert_eq!(root, hash_leaf(&[9u8; 4]));
    assert_eq!(proofs.len(), 1);
    assert!(proofs[0].path.is_empty());
    assert!(verify_proof(&[9u8; 4], 0, &proofs[0], &root));
}

#[test]
fn honest_proofs_pass_and_others_do_not() {
    let (shards, root, proofs) = encode(&message(64), 4, 9);
    for i in 0..9 {
        assert!(verify_proof(&shards[i], i, &proofs[i], &root));
        assert!(!verify_proof(&shards[i], i, &proofs[(i + 1) % 9], &root));
        assert!(!verify_proof(&shards[i], i, &proofs[i], &[0u8; 32]));
        for j in (0..9).filter(|j| *j != i) {
            assert!(!verify_proof(&shards[i], j, &proofs[i], &root));
        }
        assert!(!verify_proof(&shards[i], i + 16, &proofs[i], &root));
    }
    let mut wrong = shards[2].clone();
    wrong[0] ^= 1;
    assert!(!verify_proof(&wrong, 2, &proofs[2], &root));
}

#[test]
fn the_path_spells_the_index() {
    let (shards, root, proofs) = encode(&message(64), 4, 8);
    assert!(verify_proof(&shards[5], 5, &proofs[5], &root));
    assert!(!verify_proof(&shards[5], 0, &proofs[5], &root));
    let directions: Vec<bool> = proofs[5].path.iter().map(|step| step.1).collect();
    assert_eq!(directions, vec![true, false, true]);
    let copy: MerkleProof = proofs[5].copy();
    assert_eq!(copy.path, proofs[5].path);
}

#[test]
fn a_root_commits_to_its_shards() {
    let shards = vec![vec![1u8], vec![2u8], vec![3u8]];
    let (root, proofs) = merkle_root_and_proofs(&shards);
    let leaves: Vec<[u8; 32]> = shards.iter().map(|shard| hash_leaf(shard)).collect();
    let (left, right) =
        (hash_node(&leaves[0], &leaves[1]), hash_node(&leaves[2], &leaves[2]));
    // The children of a node are no shard, whatever the length of the path.
    let children = [leaves[0], leaves[1]].concat();
    let short = MerkleProof { path: proofs[0].path[1..].to_vec() };
    assert!(!verify_proof(&children, 0, &short, &root));
    assert!(!verify_proof(&[left, right].concat(), 0, &MerkleProof { path: Vec::new() }, &root));
    let mut long = proofs[0].copy();
    long.path.insert(0, (leaves[0], false));
    assert!(!verify_proof(&shards[0], 0, &long, &root));
    // A last node without a partner is its own partner.
    let last = MerkleProof { path: vec![(leaves[2], true), (left, true)] };
    assert!(verify_proof(&shards[2], 3, &last, &root));
    assert!(!verify_proof(&shards[1], 3, &last, &root));
}
