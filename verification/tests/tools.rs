use hotstuff::block_sizes::{payload_bytes, stats, tally};
use hotstuff::bytes::{bytes_eq, u64_from_le_bytes, u64_le_bytes};
use hotstuff::coded_batch::CodedBatch;
use hotstuff::committee::{Authority, Committee};
use hotstuff::crypto::{Digest, PublicKey, Signature};
use hotstuff::erasure::encode_shards;
use hotstuff::inspector::{average, summarize, Totals};
use hotstuff::merkle_bench::{
    build_batch_proof, build_individual_proofs, build_shards, build_tree, checked_batch_current,
    checked_option_a, checked_option_b, root_node, verify_batch_current, verify_option_a,
    verify_option_b, DATA_SHARDS, N, TOTAL_SHARDS,
};
use hotstuff::messages::{Block, QC};
use hotstuff::simple_sharding::{commit, rs_encode, shard_counts};
use hotstuff::smt::{
    batch_in_bounds, header_in_bounds, indices_in_bounds, leaves_fit, path_in_bounds,
};
use hotstuff::table::Table;

#[test]
fn shards_are_numbered() {
    let shards = build_shards();
    assert_eq!(shards.len(), TOTAL_SHARDS);
    assert_eq!(N * DATA_SHARDS, TOTAL_SHARDS);
    for (i, shard) in shards.iter().enumerate() {
        assert_eq!(shard.len(), 1024);
        assert_eq!(shard[0] as usize, i);
        assert!(shard[1..].iter().all(|byte| *byte == 0));
    }
}

#[test]
fn trees_have_the_least_height() {
    let shards = build_shards();
    assert_eq!(build_tree(&shards).get_height(), 7);
    assert_eq!(build_tree(&shards[..64].to_vec()).get_height(), 6);
    assert_eq!(build_tree(&shards[..65].to_vec()).get_height(), 7);
    assert_eq!(build_tree(&shards[..1].to_vec()).get_height(), 1);
}

#[test]
fn all_checks_accept_honest_proofs() {
    let shards = build_shards();
    let tree = build_tree(&shards);
    let root = root_node(&tree);
    for node in 0..N {
        let start = node * DATA_SHARDS;
        let own = shards[start..start + DATA_SHARDS].to_vec();
        let single = build_individual_proofs(&tree, node);
        let batch = build_batch_proof(&tree, node);
        assert!(verify_option_a(&own, start, &single, &root));
        assert!(verify_batch_current(&own, start, &batch, &root));
        assert!(verify_option_b(&own, start, tree.get_height(), &batch, &root));
        assert_eq!(checked_option_a(&own, start, &single, &root), Some(true));
        assert_eq!(checked_batch_current(&own, start, &batch, &root), Some(true));
        assert_eq!(
            checked_option_b(&own, start, tree.get_height(), &batch, &root),
            Some(true)
        );
    }
}

#[test]
fn all_checks_refuse_forged_shards() {
    let shards = build_shards();
    let tree = build_tree(&shards);
    let root = root_node(&tree);
    let mut own = shards[7..14].to_vec();
    own[6][100] = 1;
    let single = build_individual_proofs(&tree, 1);
    let batch = build_batch_proof(&tree, 1);
    assert!(!verify_option_a(&own, 7, &single, &root));
    assert!(!verify_batch_current(&own, 7, &batch, &root));
    assert!(!verify_option_b(&own, 7, 7, &batch, &root));
    let other = build_batch_proof(&tree, 2);
    let own = shards[7..14].to_vec();
    assert!(!verify_batch_current(&own, 7, &other, &root));
    assert!(!verify_option_b(&own, 7, 7, &other, &root));
    assert!(!verify_option_b(&own, 7, 7, &batch, &[0; 32]));
}

#[test]
fn proofs_that_cannot_be_read_are_left_undecided() {
    let shards = build_shards();
    let tree = build_tree(&shards);
    let root = root_node(&tree);
    let own = shards[..7].to_vec();
    let garbage = vec![1u8, 2, 3];
    assert_eq!(checked_option_b(&own, 0, 7, &garbage, &root), None);
    assert_eq!(checked_batch_current(&own, 0, &garbage, &root), None);
    assert_eq!(checked_option_a(&own, 0, &vec![garbage.clone()], &root), None);
    let mut single = build_individual_proofs(&tree, 0);
    single[3] = garbage;
    assert_eq!(checked_option_a(&own, 0, &single, &root), None);
    single[1] = single[2].clone();
    assert_eq!(checked_option_a(&own, 0, &single, &root), Some(false));
    let batch = build_batch_proof(&tree, 0);
    assert_eq!(checked_option_b(&own, 122, 7, &batch, &root), None);
}

#[test]
fn no_shards_lead_to_no_root() {
    let tree = build_tree(&build_shards());
    let batch = build_batch_proof(&tree, 0);
    for height in [0, 7] {
        assert!(!verify_option_b(&Vec::new(), 3, height, &batch, &root_node(&tree)));
        assert_eq!(
            checked_option_b(&Vec::new(), 3, height, &batch, &root_node(&tree)),
            Some(false)
        );
    }
}

#[test]
fn a_tree_without_shards_is_padding() {
    let tree = build_tree(&Vec::new());
    assert_eq!(tree.get_height(), 1);
    assert_eq!(root_node(&tree), [0; 32]);
    assert!(tree.prove_range(0, 0).is_empty());
}

#[test]
fn indices_with_stray_bits_are_left_undecided() {
    let shards = build_shards();
    let tree = build_tree(&shards);
    let mut batch = build_batch_proof(&tree, 1);
    let own = shards[7..14].to_vec();
    assert!(indices_in_bounds(&batch, 7));
    batch[12] |= 0x80;
    assert!(!indices_in_bounds(&batch, 7));
    assert_eq!(checked_batch_current(&own, 7, &batch, &root_node(&tree)), None);
    assert!(!batch_in_bounds(&batch, 7) && batch_in_bounds(&batch, 6));
    let fewer = own[..6].to_vec();
    assert_eq!(checked_batch_current(&fewer, 7, &batch, &root_node(&tree)), Some(false));
    let mut single = build_individual_proofs(&tree, 1).remove(0);
    single[10] |= 0x80;
    let first = own[..1].to_vec();
    assert_eq!(checked_batch_current(&first, 7, &single, &root_node(&tree)), Some(true));
    assert_eq!(checked_option_a(&first, 7, &vec![single], &root_node(&tree)), Some(true));
    let mut path = [0u8; 32];
    assert!(path_in_bounds(&path, 0));
    path[1] = 3;
    assert!(path_in_bounds(&path, 10));
    assert!(!path_in_bounds(&path, 9));
    assert!(path_in_bounds(&[0xff; 32], 256));
}

#[test]
fn headers_of_proofs() {
    assert!(header_in_bounds(&[]));
    assert!(header_in_bounds(&build_batch_proof(&build_tree(&build_shards()), 0)));
    let mut many = vec![0xffu8; 8];
    many.extend_from_slice(&[0, 1]);
    assert!(!header_in_bounds(&many));
    many[8] = 0;
    many[9] = 0;
    assert!(!header_in_bounds(&many));
    many[..8].copy_from_slice(&u64_le_bytes(100));
    assert!(header_in_bounds(&many));
    assert!(leaves_fit(5, 3, 3));
    assert!(!leaves_fit(6, 3, 3));
    assert!(!leaves_fit(usize::MAX, 1, 256));
    assert!(leaves_fit(usize::MAX - 1, 1, 64));
}

#[test]
fn a_third_of_the_shards_holds_the_data() {
    assert_eq!(shard_counts(10), (3, 7));
    assert_eq!(shard_counts(12), (4, 8));
    let data: Vec<u8> = (0..100).collect();
    let shards = rs_encode(&data, 3, 7);
    assert_eq!(shards, encode_shards(&data, 3, 10));
    assert_eq!(shards[0], data[..34].to_vec());
    let tree = commit(&shards);
    assert_eq!(tree.get_height(), 4);
    assert_eq!(tree.get_root(), build_tree(&shards).get_root());
}

#[test]
fn coding_data_is_coding_a_batch_of_it() {
    let members = vec![Authority { name: PublicKey([1; 32]), stake: 1 }];
    let committee = Committee::new(members, 1, 3, 7).unwrap();
    for len in [1, 29, 30, 31] {
        let data: Vec<u8> = (0..len).collect();
        let shards = rs_encode(&data, 3, 7);
        assert!(shards.iter().all(|shard| shard.len() == (data.len() + 2) / 3));
        let size = data.len();
        assert_eq!(CodedBatch::new(vec![data], size, &committee).shards, shards);
    }
}

#[test]
fn entries_are_summed_up() {
    let entries = vec![(64, 100), (32, 10), (40, 1), (64, 36), (32, 20), (0, 5)];
    let summary = summarize(&entries);
    assert_eq!((summary.shard_keys, summary.shard_bytes), (2, 264));
    assert_eq!((summary.other_keys, summary.other_bytes), (4, 140));
    let lengths: Vec<(usize, u64, u64)> =
        summary.key_lengths.iter().map(|(len, (count, bytes))| (*len, *count, *bytes)).collect();
    assert_eq!(lengths, vec![(0, 1, 5), (32, 2, 94), (40, 1, 41)]);
    let mut totals = Totals { shard_keys: 1, shard_bytes: 2, other_keys: 3, other_bytes: 4 };
    totals.add_database(&summary);
    assert_eq!((totals.shard_keys, totals.shard_bytes), (3, 266));
    assert_eq!((totals.other_keys, totals.other_bytes), (7, 144));
    assert_eq!(average(264, 2), 132);
    assert_eq!(average(0, 0), 0);
    assert!(summarize(&Vec::new()).key_lengths.is_empty());
}

fn block(round: u64, payload: Vec<Vec<u8>>) -> Block {
    Block {
        qc: QC { hash: Digest([0; 32]), round: 0, votes: Vec::new() },
        tc: None,
        author: PublicKey([0; 32]),
        round,
        payload,
        signature: Signature { part1: [0; 32], part2: [0; 32] },
    }
}

#[test]
fn sizes_of_blocks() {
    let blocks = vec![
        block(0, vec![vec![1]]),
        block(1, Vec::new()),
        block(2, vec![vec![1, 2], vec![3]]),
        block(3, vec![Vec::new()]),
        block(4, vec![vec![0; 8]]),
    ];
    let (empty, sizes) = tally(&blocks);
    assert_eq!((empty, sizes.clone()), (2, vec![3, 8]));
    let stats_of = stats(&sizes).unwrap();
    assert_eq!((stats_of.total, stats_of.average), (11, 5));
    assert_eq!((stats_of.smallest, stats_of.largest), (3, 8));
    assert!(stats(&Vec::new()).is_none());
    assert_eq!(payload_bytes(&vec![vec![1, 2], vec![3]]), 3);
}

#[test]
fn little_endian_numbers() {
    assert_eq!(u64_le_bytes(0x0102_0304_0506_0708), vec![8, 7, 6, 5, 4, 3, 2, 1]);
    assert_eq!(u64_from_le_bytes(&[8, 7, 6, 5, 4, 3, 2, 1]), 0x0102_0304_0506_0708);
    assert_eq!(u64_from_le_bytes(&[1, 2]), 513);
    assert_eq!(u64_from_le_bytes(&[0xff; 8]), u64::MAX);
    assert!(bytes_eq(&[1, 2], &[1, 2]));
    assert!(!bytes_eq(&[1, 2], &[1, 3]));
    assert!(!bytes_eq(&[1, 2], &[1, 2, 3]));
}

#[test]
fn tables_keep_the_order_of_their_keys() {
    let mut table: Table<u32> = Table::new();
    table.insert(vec![2], 20);
    table.insert(vec![1], 10);
    table.insert(vec![2], 21);
    assert_eq!(table.len(), 2);
    assert_eq!(table.key_at(0), &vec![2]);
    assert_eq!(table.get(&[2]), Some(&21));
    assert!(!table.contains(&[3]));
    assert_eq!(table.remove(&[2]), Some(21));
    assert_eq!(table.remove(&[2]), None);
    assert_eq!(table.value_at(0), &10);
}
