//! One shard for each node: a third of the shards, rounded down, holds the data.

use vstd::prelude::*;
use crate::coded_batch::{hash_shards, Batch, CodedBatch};
use crate::coding::{self, Shard};
use crate::committee::Committee;
use crate::erasure::{self, encode_shards};
use crate::smt::{self, Tree};

verus! {

/// The numbers of data and of parity shards for `nodes` nodes.
pub fn shard_counts(nodes: usize) -> (counts: (usize, usize))
    ensures
        counts.0 == nodes / 3,
        counts.0 + counts.1 == nodes,
{
    (nodes / 3, nodes - nodes / 3)
}

/// Codes `data` into shards of equal size.
pub fn rs_encode(data: &[u8], data_shards: usize, parity_shards: usize) -> (shards: Vec<Shard>)
    requires
        coding::valid_code(data_shards as nat, parity_shards as nat),
        data@.len() > 0,
        data@.len() + data_shards <= usize::MAX,
    ensures
        coding::shard_views(shards@) == erasure::encoded_shards(
            data@,
            data_shards as nat,
            (data_shards + parity_shards) as nat,
        ),
        shards@.len() == data_shards + parity_shards,
        coding::uniform(
            coding::shard_views(shards@),
            erasure::split_size(data@.len(), data_shards as nat),
        ),
{
    encode_shards(data, data_shards, data_shards + parity_shards)
}

/// Coding data alone is the same as coding a batch that holds nothing else: the shards are those of
/// the coded batch, as many as the code has, and each of the least size that holds the data.
pub proof fn law_same_as_coded_batch(
    data: &[u8],
    committee: &Committee,
    shards: Vec<Shard>,
    batch: Batch,
    coded: CodedBatch,
)
    requires
        committee.has_code(),
        data@.len() > 0,
        data@.len() + committee.data_shards <= usize::MAX,
        call_ensures(rs_encode, (data, committee.data_shards, committee.parity_shards), shards),
        batch@.len() == 1,
        batch@[0]@ == data@,
        call_ensures(CodedBatch::new, (batch, data@.len() as usize, committee), coded),
    ensures
        coding::shard_views(shards@) == coded@,
        shards@.len() == committee.data_shards + committee.parity_shards,
        coding::uniform(
            coded@,
            erasure::split_size(data@.len(), committee.data_shards as nat),
        ),
{
    let all = coding::shard_views(batch@);
    assert(all.drop_last() =~= Seq::empty());
    assert(coding::joined(all.drop_last()) =~= Seq::empty());
    assert(coding::joined(all) =~= data@);
}

/// The Merkle tree over shards.
pub fn commit(shards: &Vec<Shard>) -> (tree: Tree)
    requires
        2 <= shards@.len() <= u32::MAX,
    ensures
        tree.leaves() == smt::shard_leaves(coding::shard_views(shards@), 0),
        0 < tree.height() <= 32,
        smt::width((tree.height() - 1) as nat) < shards@.len() <= smt::width(tree.height()),
{
    let leaves = hash_shards(shards, 0);
    Tree::merkle(&leaves)
}

} // verus!
