//! The keys under which shards are stored.
//!
//! A batch is coded into two shards for each node: node `i` holds the shards `2 * i` and
//! `2 * i + 1`. Each shard is stored under the root of its batch followed by its own number. The
//! root alone is the key of a marker that the batch is there.

use vstd::prelude::*;
use crate::bytes::{self, append_bytes, u64_le_bytes};
use crate::committee::Committee;
use crate::crypto::{Digest, PublicKey};

verus! {

/// The key of a shard.
pub open spec fn shard_key_of(root: Seq<u8>, destination: nat) -> Seq<u8> {
    root + bytes::le_bytes(destination, 8)
}

/// The number of a node, zero for a stranger.
pub open spec fn node_number(committee: &Committee, name: PublicKey) -> nat {
    match committee.place_of(name) {
        Some(place) => place,
        None => 0,
    }
}

/// The marker that a batch is there.
pub open spec fn marker() -> Seq<u8> {
    seq![1u8]
}

/// Different shards have different keys.
pub proof fn law_shard_keys_differ(
    root_a: Seq<u8>,
    destination_a: u64,
    root_b: Seq<u8>,
    destination_b: u64,
)
    requires
        shard_key_of(root_a, destination_a as nat) == shard_key_of(root_b, destination_b as nat),
    ensures
        root_a == root_b,
        destination_a == destination_b,
{
    let (tail_a, tail_b) = (
        bytes::le_bytes(destination_a as nat, 8),
        bytes::le_bytes(destination_b as nat, 8),
    );
    bytes::lemma_le_bytes_len(destination_a as nat, 8);
    bytes::lemma_le_bytes_len(destination_b as nat, 8);
    let key = shard_key_of(root_a, destination_a as nat);
    let cut = key.len() - 8;
    assert(root_a =~= key.take(cut));
    assert(root_b =~= key.take(cut));
    assert(tail_a =~= key.skip(cut));
    assert(tail_b =~= key.skip(cut));
    assert(vstd::arithmetic::power::pow(256, 8) == 0x1_0000_0000_0000_0000) by {
        reveal_with_fuel(vstd::arithmetic::power::pow, 9);
    }
    bytes::lemma_le_bytes_injective(destination_a as nat, destination_b as nat, 8);
}

/// The key of a shard is not the key of a marker.
pub proof fn law_shard_key_is_no_root(root: Digest, destination: u64, other: Digest)
    ensures
        shard_key_of(root@, destination as nat) != other@,
{
    bytes::lemma_le_bytes_len(destination as nat, 8);
    assert(shard_key_of(root@, destination as nat).len() == 40);
    assert(other@.len() == 32);
}

/// The key of a shard.
pub fn shard_key(root: &Digest, destination: usize) -> (key: Vec<u8>)
    ensures
        key@ == shard_key_of(root@, destination as nat),
{
    let mut key: Vec<u8> = root.to_vec();
    let suffix = u64_le_bytes(destination as u64);
    append_bytes(&mut key, &suffix);
    assert(key@ =~= shard_key_of(root@, destination as nat));
    key
}

/// The number of a node, zero for a stranger.
pub fn node_index(committee: &Committee, name: &PublicKey) -> (index: usize)
    requires
        committee.wf(),
    ensures
        index == node_number(committee, *name),
        2 * index < usize::MAX,
{
    match committee.index(name) {
        Some(index) => index,
        None => 0,
    }
}

/// The marker that a batch is there.
pub fn make_marker() -> (value: Vec<u8>)
    ensures
        value@ == marker(),
{
    let mut value: Vec<u8> = Vec::new();
    value.push(1u8);
    assert(value@ =~= marker());
    value
}

} // verus!
