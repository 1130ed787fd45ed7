//! Erasure coding of blocks, and the Merkle tree that commits to the shards of a block.

use vstd::prelude::*;
use crate::bytes::{append_bytes, bytes_eq, first_32};
use crate::coding::{self, rs_encode, rs_reconstruct, Shard};
use crate::error::{ConsensusError, ConsensusResult};
use crate::hashing::hash_sha512;

verus! {

/// A Merkle authentication path, from the leaf to the root. Each step holds the hash of the
/// sibling node and whether the sibling sits to the left of the current node.
#[derive(Clone, Debug)]
pub struct MerkleProof {
    pub path: Vec<([u8; 32], bool)>,
}

/// The contents of a path.
pub open spec fn path_view(path: Seq<([u8; 32], bool)>) -> Seq<(Seq<u8>, bool)> {
    Seq::new(path.len(), |i: int| (path[i].0@, path[i].1))
}

impl View for MerkleProof {
    type V = Seq<(Seq<u8>, bool)>;

    open spec fn view(&self) -> Seq<(Seq<u8>, bool)> {
        path_view(self.path@)
    }
}

impl MerkleProof {
    /// A copy of the path.
    pub fn copy(&self) -> (copy: MerkleProof)
        ensures
            copy@ == self@,
    {
        let mut path: Vec<([u8; 32], bool)> = Vec::new();
        let mut i: usize = 0;
        while i < self.path.len()
            invariant
                i <= self.path@.len(),
                path@ == self.path@.take(i as int),
            decreases self.path@.len() - i,
        {
            path.push((self.path[i].0, self.path[i].1));
            i = i + 1;
            assert(path@ =~= self.path@.take(i as int));
        }
        assert(path@ =~= self.path@);
        MerkleProof { path }
    }
}

/// The contents of a list of paths.
pub open spec fn proof_views(proofs: Seq<MerkleProof>) -> Seq<Seq<(Seq<u8>, bool)>> {
    Seq::new(proofs.len(), |i: int| proofs[i]@)
}

/// The hash of a leaf: SHA-512 of the byte 0 and the data, cut to 32 bytes.
pub open spec fn leaf_hash(data: Seq<u8>) -> Seq<u8> {
    crate::hashing::sha512_hash(seq![0u8] + data)@.take(32)
}

/// The hash of an inner node: SHA-512 of the byte 1 and the two children, cut to 32 bytes.
pub open spec fn node_hash(left: Seq<u8>, right: Seq<u8>) -> Seq<u8> {
    crate::hashing::sha512_hash(seq![1u8] + left + right)@.take(32)
}

/// The leaf layer of the tree over `shards`.
pub open spec fn leaf_layer(shards: Seq<Seq<u8>>) -> Seq<Seq<u8>> {
    Seq::new(shards.len(), |i: int| leaf_hash(shards[i]))
}

/// The right partner of node `left` of a layer: a node without one is paired with itself.
pub open spec fn right_partner(layer: Seq<Seq<u8>>, left: int) -> Seq<u8> {
    if left + 1 < layer.len() {
        layer[left + 1]
    } else {
        layer[left]
    }
}

/// The layer above `layer`.
pub open spec fn parent_layer(layer: Seq<Seq<u8>>) -> Seq<Seq<u8>> {
    Seq::new(
        ((layer.len() + 1) / 2) as nat,
        |p: int| node_hash(layer[2 * p], right_partner(layer, 2 * p)),
    )
}

/// The root of the tree that has `layer` as a layer.
pub open spec fn merkle_root(layer: Seq<Seq<u8>>) -> Seq<u8>
    decreases layer.len(),
{
    if layer.len() <= 1 {
        layer[0]
    } else {
        merkle_root(parent_layer(layer))
    }
}

/// The sibling of node `index` of a layer.
pub open spec fn sibling(layer: Seq<Seq<u8>>, index: int) -> Seq<u8> {
    if index % 2 == 0 {
        right_partner(layer, index)
    } else {
        layer[index - 1]
    }
}

/// The authentication path of node `index` of a layer.
pub open spec fn merkle_path(layer: Seq<Seq<u8>>, index: int) -> Seq<(Seq<u8>, bool)>
    decreases layer.len(),
{
    if layer.len() <= 1 {
        Seq::empty()
    } else {
        seq![(sibling(layer, index), index % 2 == 1)] + merkle_path(parent_layer(layer), index / 2)
    }
}

/// The parent of `current` and its sibling.
pub open spec fn climb_step(current: Seq<u8>, step: (Seq<u8>, bool)) -> Seq<u8> {
    if step.1 {
        node_hash(step.0, current)
    } else {
        node_hash(current, step.0)
    }
}

/// The root to which `path` leads from `current`.
pub open spec fn path_root(current: Seq<u8>, path: Seq<(Seq<u8>, bool)>) -> Seq<u8>
    decreases path.len(),
{
    if path.len() == 0 {
        current
    } else {
        path_root(climb_step(current, path[0]), path.drop_first())
    }
}

/// `proof` shows that `shard` is under `root`.
pub open spec fn proves(shard: Seq<u8>, path: Seq<(Seq<u8>, bool)>, root: Seq<u8>) -> bool {
    path_root(leaf_hash(shard), path) == root
}

/// The directions of `path` are those from position `index` up: the sibling is to the left where
/// the position is odd, and the position is halved at each step.
pub open spec fn leads_to(path: Seq<(Seq<u8>, bool)>, index: nat) -> bool
    decreases path.len(),
{
    if path.len() == 0 {
        index == 0
    } else {
        path[0].1 == (index % 2 == 1) && leads_to(path.drop_first(), index / 2)
    }
}

/// `path` shows that `shard` is at position `index` under `root`.
pub open spec fn proves_at(
    shard: Seq<u8>,
    index: nat,
    path: Seq<(Seq<u8>, bool)>,
    root: Seq<u8>,
) -> bool {
    proves(shard, path, root) && leads_to(path, index)
}

/// A path is that of one position only.
pub proof fn law_path_has_one_position(path: Seq<(Seq<u8>, bool)>, i: nat, j: nat)
    requires
        leads_to(path, i),
        leads_to(path, j),
    ensures
        i == j,
    decreases path.len(),
{
    if path.len() > 0 {
        law_path_has_one_position(path.drop_first(), i / 2, j / 2);
    }
}

/// The path of each node of a layer leads to the root.
pub proof fn lemma_path_reaches_root(layer: Seq<Seq<u8>>, index: int)
    requires
        0 <= index < layer.len(),
    ensures
        path_root(layer[index], merkle_path(layer, index)) == merkle_root(layer),
        leads_to(merkle_path(layer, index), index as nat),
    decreases layer.len(),
{
    if layer.len() > 1 {
        let above = parent_layer(layer);
        let path = merkle_path(layer, index);
        lemma_path_reaches_root(above, index / 2);
        assert(path.drop_first() =~= merkle_path(above, index / 2));
        if index % 2 == 1 {
            assert(2 * (index / 2) == index - 1);
        } else {
            assert(2 * (index / 2) == index);
        }
        assert(climb_step(layer[index], path[0]) == above[index / 2]);
    }
}

/// Every shard is authentic at its position, by the path of that position, and this path proves
/// it at no other position.
pub proof fn law_honest_proofs_verify(shards: Seq<Seq<u8>>, index: int)
    requires
        0 <= index < shards.len(),
    ensures
        proves_at(
            shards[index],
            index as nat,
            merkle_path(leaf_layer(shards), index),
            merkle_root(leaf_layer(shards)),
        ),
        forall|other: nat|
            other != index ==> !#[trigger] proves_at(
                shards[index],
                other,
                merkle_path(leaf_layer(shards), index),
                merkle_root(leaf_layer(shards)),
            ),
{
    let path = merkle_path(leaf_layer(shards), index);
    lemma_path_reaches_root(leaf_layer(shards), index);
    assert forall|other: nat| other != index implies !#[trigger] proves_at(
        shards[index],
        other,
        path,
        merkle_root(leaf_layer(shards)),
    ) by {
        if leads_to(path, other) {
            law_path_has_one_position(path, index as nat, other);
        }
    }
}

/// Two different messages that have the same hash, cut to 32 bytes.
pub open spec fn hash_collision(a: Seq<u8>, b: Seq<u8>) -> bool {
    &&& a != b
    &&& crate::hashing::sha512_hash(a)@.take(32) == crate::hashing::sha512_hash(b)@.take(32)
}

/// A message of the first set and another one of the second have the same hash.
pub open spec fn messages_collide(a: Set<Seq<u8>>, b: Set<Seq<u8>>) -> bool {
    exists|x: Seq<u8>, y: Seq<u8>|
        a.contains(x) && b.contains(y) && #[trigger] hash_collision(x, y)
}

/// What is hashed for a leaf.
pub open spec fn leaf_message(shard: Seq<u8>) -> Seq<u8> {
    seq![0u8] + shard
}

/// What is hashed for a step of a path.
pub open spec fn step_message(current: Seq<u8>, step: (Seq<u8>, bool)) -> Seq<u8> {
    if step.1 {
        seq![1u8] + step.0 + current
    } else {
        seq![1u8] + current + step.0
    }
}

/// What is hashed on the way up a path.
pub open spec fn path_messages(current: Seq<u8>, path: Seq<(Seq<u8>, bool)>) -> Set<Seq<u8>>
    decreases path.len(),
{
    if path.len() == 0 {
        Set::empty()
    } else {
        path_messages(climb_step(current, path[0]), path.drop_first()).insert(
            step_message(current, path[0]),
        )
    }
}

/// What is hashed to check that a shard is authentic.
pub open spec fn proof_messages(shard: Seq<u8>, path: Seq<(Seq<u8>, bool)>) -> Set<Seq<u8>> {
    path_messages(leaf_hash(shard), path).insert(leaf_message(shard))
}

/// What is hashed for the parent of the nodes `2 * p` and `2 * p + 1` of a layer.
pub open spec fn node_message(layer: Seq<Seq<u8>>, p: int) -> Seq<u8> {
    seq![1u8] + layer[2 * p] + right_partner(layer, 2 * p)
}

/// What is hashed for the layers above `layer`.
pub open spec fn layer_messages(layer: Seq<Seq<u8>>) -> Set<Seq<u8>>
    decreases layer.len(),
{
    if layer.len() <= 1 {
        Set::empty()
    } else {
        layer_messages(parent_layer(layer)).union(
            Seq::new(parent_layer(layer).len(), |p: int| node_message(layer, p)).to_set(),
        )
    }
}

/// What is hashed for the tree over shards.
pub open spec fn tree_messages(shards: Seq<Seq<u8>>) -> Set<Seq<u8>> {
    layer_messages(leaf_layer(shards)).union(
        Seq::new(shards.len(), |i: int| leaf_message(shards[i])).to_set(),
    )
}

/// The siblings of a path are 32 bytes long.
pub open spec fn path_sized(path: Seq<(Seq<u8>, bool)>) -> bool {
    forall|i: int| 0 <= i < path.len() ==> (#[trigger] path[i]).0.len() == 32
}

proof fn lemma_collide_grows(
    a: Set<Seq<u8>>,
    b: Set<Seq<u8>>,
    more_a: Set<Seq<u8>>,
    more_b: Set<Seq<u8>>,
)
    requires
        messages_collide(a, b),
        a.subset_of(more_a),
        b.subset_of(more_b),
    ensures
        messages_collide(more_a, more_b),
{
    let (x, y) = choose|x: Seq<u8>, y: Seq<u8>|
        a.contains(x) && b.contains(y) && #[trigger] hash_collision(x, y);
    assert(more_a.contains(x) && more_b.contains(y) && hash_collision(x, y));
}

proof fn lemma_tail_sized(path: Seq<(Seq<u8>, bool)>)
    requires
        path_sized(path),
        path.len() > 0,
    ensures
        path_sized(path.drop_first()),
{
    let tail = path.drop_first();
    assert forall|i: int| 0 <= i < tail.len() implies (#[trigger] tail[i]).0.len() == 32 by {
        assert(tail[i] == path[i + 1]);
    }
}

proof fn lemma_position_binds(
    a: Seq<u8>,
    b: Seq<u8>,
    index: nat,
    path_a: Seq<(Seq<u8>, bool)>,
    path_b: Seq<(Seq<u8>, bool)>,
)
    requires
        path_a.len() == path_b.len(),
        path_sized(path_a),
        path_sized(path_b),
        leads_to(path_a, index),
        leads_to(path_b, index),
        path_root(a, path_a) == path_root(b, path_b),
    ensures
        a == b || messages_collide(path_messages(a, path_a), path_messages(b, path_b)),
    decreases path_a.len(),
{
    if path_a.len() > 0 {
        let (sa, sb) = (path_a[0].0, path_b[0].0);
        let (tail_a, tail_b) = (path_a.drop_first(), path_b.drop_first());
        let (up_a, up_b) = (climb_step(a, path_a[0]), climb_step(b, path_b[0]));
        lemma_tail_sized(path_a);
        lemma_tail_sized(path_b);
        lemma_position_binds(up_a, up_b, index / 2, tail_a, tail_b);
        if up_a == up_b {
            let (x, y) = (step_message(a, path_a[0]), step_message(b, path_b[0]));
            if x != y {
                assert(hash_collision(x, y));
            } else if path_a[0].1 {
                assert(a =~= x.skip(33));
                assert(b =~= y.skip(33));
            } else {
                assert(x.len() == a.len() + 33 && y.len() == b.len() + 33);
                assert(a =~= x.subrange(1, x.len() - 32));
                assert(b =~= y.subrange(1, y.len() - 32));
            }
        } else {
            lemma_collide_grows(
                path_messages(up_a, tail_a),
                path_messages(up_b, tail_b),
                path_messages(a, path_a),
                path_messages(b, path_b),
            );
        }
    }
}

/// A root binds the shards: if two shards are proved at one position under one root, by paths of
/// one length, they are the same, or two of the messages that are hashed to check them collide.
pub proof fn law_root_binds_shards(
    a: Seq<u8>,
    b: Seq<u8>,
    index: nat,
    path_a: Seq<(Seq<u8>, bool)>,
    path_b: Seq<(Seq<u8>, bool)>,
    root: Seq<u8>,
)
    requires
        path_a.len() == path_b.len(),
        path_sized(path_a),
        path_sized(path_b),
        proves_at(a, index, path_a, root),
        proves_at(b, index, path_b, root),
    ensures
        a == b || messages_collide(proof_messages(a, path_a), proof_messages(b, path_b)),
{
    lemma_position_binds(leaf_hash(a), leaf_hash(b), index, path_a, path_b);
    if leaf_hash(a) == leaf_hash(b) {
        let (x, y) = (leaf_message(a), leaf_message(b));
        if x == y {
            assert(a =~= x.skip(1));
            assert(b =~= y.skip(1));
        } else {
            assert(hash_collision(x, y));
        }
    } else {
        lemma_collide_grows(
            path_messages(leaf_hash(a), path_a),
            path_messages(leaf_hash(b), path_b),
            proof_messages(a, path_a),
            proof_messages(b, path_b),
        );
    }
}

/// The number of layers above `layer`.
pub open spec fn levels(layer: Seq<Seq<u8>>) -> nat
    decreases layer.len(),
{
    if layer.len() <= 1 {
        0
    } else {
        1 + levels(parent_layer(layer))
    }
}

/// The layer `level` layers above `layer`.
pub open spec fn layer_above(layer: Seq<Seq<u8>>, level: nat) -> Seq<Seq<u8>>
    decreases level,
{
    if level == 0 {
        layer
    } else {
        layer_above(parent_layer(layer), (level - 1) as nat)
    }
}

/// `hash` is that of one of the messages, which is that of an inner node.
spec fn is_node_of(message: Seq<u8>, messages: Set<Seq<u8>>, hash: Seq<u8>) -> bool {
    &&& messages.contains(message)
    &&& message.len() > 0
    &&& message[0] == 1
    &&& crate::hashing::sha512_hash(message)@.take(32) == hash
}

/// `hash` is that of an inner node for which one of the messages was hashed.
spec fn is_inner_hash(messages: Set<Seq<u8>>, hash: Seq<u8>) -> bool {
    exists|message: Seq<u8>| #[trigger] is_node_of(message, messages, hash)
}

/// All hashes of a layer have 32 bytes.
pub open spec fn layer_sized(layer: Seq<Seq<u8>>) -> bool {
    forall|i: int| 0 <= i < layer.len() ==> (#[trigger] layer[i]).len() == 32
}

/// Whoever leads a hash up to the root of a layer, in as many steps as there are layers, starts
/// at a hash of that layer, and at the one of its position if there is one.
proof fn lemma_path_starts_in_layer(
    layer: Seq<Seq<u8>>,
    current: Seq<u8>,
    path: Seq<(Seq<u8>, bool)>,
    index: nat,
)
    requires
        layer.len() > 0,
        layer_sized(layer),
        path_sized(path),
        path.len() == levels(layer),
        leads_to(path, index),
        path_root(current, path) == merkle_root(layer),
    ensures
        messages_collide(path_messages(current, path), layer_messages(layer)) || {
            &&& layer.contains(current)
            &&& index < layer.len() ==> current == layer[index as int]
        },
    decreases layer.len(),
{
    if layer.len() <= 1 {
        assert(layer[0] == current);
    } else {
        let above = parent_layer(layer);
        let up = climb_step(current, path[0]);
        let tail = path.drop_first();
        lemma_tail_sized(path);
        assert(layer_sized(above));
        lemma_path_starts_in_layer(above, up, tail, index / 2);
        let made = Seq::new(above.len(), |p: int| node_message(layer, p));
        if messages_collide(path_messages(up, tail), layer_messages(above)) {
            lemma_collide_grows(
                path_messages(up, tail),
                layer_messages(above),
                path_messages(current, path),
                layer_messages(layer),
            );
        } else {
            let p = if index < layer.len() {
                index as int / 2
            } else {
                choose|p: int| 0 <= p < above.len() && above[p] == up
            };
            assert(0 <= p < above.len() && above[p] == up);
            let (x, y) = (step_message(current, path[0]), node_message(layer, p));
            assert(made[p] == y);
            assert(made.to_set().contains(y));
            if x != y {
                assert(hash_collision(x, y));
                assert(path_messages(current, path).contains(x));
                assert(layer_messages(layer).contains(y));
            } else {
                let (left, right) = (layer[2 * p], right_partner(layer, 2 * p));
                assert(left.len() == 32 && right.len() == 32);
                assert(left =~= y.subrange(1, 33) && right =~= y.subrange(33, 65));
                assert(y.len() == 65 && x.len() == 33 + current.len());
                if path[0].1 {
                    assert(current =~= x.subrange(33, 65));
                } else {
                    assert(current =~= x.subrange(1, 33));
                }
                assert(layer[2 * p] == left);
                if 2 * p + 1 < layer.len() {
                    assert(layer[2 * p + 1] == right);
                }
            }
        }
    }
}

/// Going up a path in two parts. What the first part leads to is the hash of an inner node.
proof fn lemma_path_split(current: Seq<u8>, path: Seq<(Seq<u8>, bool)>, n: int, index: nat)
    requires
        0 <= n <= path.len(),
        path_sized(path),
        leads_to(path, index),
    ensures
        path_root(path_root(current, path.take(n)), path.skip(n)) == path_root(current, path),
        path_messages(path_root(current, path.take(n)), path.skip(n)).subset_of(
            path_messages(current, path),
        ),
        path_sized(path.skip(n)),
        exists|rest: nat| #[trigger] leads_to(path.skip(n), rest),
        n > 0 ==> is_inner_hash(path_messages(current, path), path_root(current, path.take(n))),
    decreases n,
{
    if n == 0 {
        assert(path.take(0) =~= Seq::empty());
        assert(path.skip(0) =~= path);
        assert(leads_to(path.skip(0), index));
    } else {
        let (up, tail) = (climb_step(current, path[0]), path.drop_first());
        lemma_tail_sized(path);
        lemma_path_split(up, tail, n - 1, index / 2);
        assert(path.take(n).drop_first() =~= tail.take(n - 1));
        assert(path.skip(n) =~= tail.skip(n - 1));
        assert(path.take(n)[0] == path[0]);
        if n == 1 {
            let message = step_message(current, path[0]);
            assert(tail.take(0) =~= Seq::empty());
            assert(path_root(current, path.take(n)) == up);
            assert(is_node_of(message, path_messages(current, path), up));
        } else {
            let reached = path_root(up, tail.take(n - 1));
            let message = choose|message: Seq<u8>| #[trigger]
                is_node_of(message, path_messages(up, tail), reached);
            assert(is_node_of(message, path_messages(current, path), reached));
        }
    }
}

/// The layers above a layer are layers of the same tree, and consist of hashes of inner nodes.
proof fn lemma_layer_above(layer: Seq<Seq<u8>>, level: nat)
    requires
        layer.len() > 0,
        layer_sized(layer),
        level <= levels(layer),
    ensures
        layer_above(layer, level).len() > 0,
        layer_sized(layer_above(layer, level)),
        merkle_root(layer_above(layer, level)) == merkle_root(layer),
        levels(layer_above(layer, level)) == levels(layer) - level,
        layer_messages(layer_above(layer, level)).subset_of(layer_messages(layer)),
        level > 0 ==> forall|i: int|
            0 <= i < layer_above(layer, level).len() ==> is_inner_hash(
                layer_messages(layer),
                #[trigger] layer_above(layer, level)[i],
            ),
    decreases level,
{
    if level > 0 {
        let above = parent_layer(layer);
        let top = layer_above(layer, level);
        assert(layer_sized(above));
        lemma_layer_above(above, (level - 1) as nat);
        let made = Seq::new(above.len(), |p: int| node_message(layer, p));
        assert forall|i: int| 0 <= i < top.len() implies is_inner_hash(
            layer_messages(layer),
            #[trigger] top[i],
        ) by {
            if level == 1 {
                let message = node_message(layer, i);
                assert(top == above);
                assert(made[i] == message);
                assert(made.to_set().contains(message));
                assert(is_node_of(message, layer_messages(layer), top[i]));
            } else {
                let message = choose|message: Seq<u8>| #[trigger]
                    is_node_of(message, layer_messages(above), top[i]);
                assert(is_node_of(message, layer_messages(layer), top[i]));
            }
        }
    }
}

/// A root commits to all shards: if a shard is proved at some position under the root of the tree
/// over a list of shards, by a path of any length, it is one of them, and the one at that position
/// if there is one, or a message that is hashed to check it collides with one that is hashed for
/// the tree.
pub proof fn law_root_commits_to_shards(
    shards: Seq<Seq<u8>>,
    shard: Seq<u8>,
    index: nat,
    path: Seq<(Seq<u8>, bool)>,
)
    requires
        shards.len() > 0,
        path_sized(path),
        proves_at(shard, index, path, merkle_root(leaf_layer(shards))),
    ensures
        messages_collide(proof_messages(shard, path), tree_messages(shards)) || {
            &&& shards.contains(shard)
            &&& index < shards.len() ==> shard == shards[index as int]
        },
{
    let leaves = leaf_layer(shards);
    let hash = leaf_hash(shard);
    let (climbed, height) = (path.len() as int, levels(leaves) as int);
    let made = Seq::new(shards.len(), |i: int| leaf_message(shards[i]));
    assert(layer_sized(leaves));
    let x = leaf_message(shard);
    if climbed == height {
        lemma_path_starts_in_layer(leaves, hash, path, index);
        if messages_collide(path_messages(hash, path), layer_messages(leaves)) {
            lemma_collide_grows(
                path_messages(hash, path),
                layer_messages(leaves),
                proof_messages(shard, path),
                tree_messages(shards),
            );
        } else {
            let i = if index < shards.len() {
                index as int
            } else {
                choose|i: int| 0 <= i < leaves.len() && leaves[i] == hash
            };
            let y = leaf_message(shards[i]);
            assert(made[i] == y);
            assert(made.to_set().contains(y));
            if x == y {
                assert(shard =~= x.skip(1));
                assert(shards[i] =~= y.skip(1));
            } else {
                assert(hash_collision(x, y));
            }
        }
    } else if climbed < height {
        let level = (height - climbed) as nat;
        let layer = layer_above(leaves, level);
        lemma_layer_above(leaves, level);
        lemma_path_starts_in_layer(layer, hash, path, index);
        if messages_collide(path_messages(hash, path), layer_messages(layer)) {
            lemma_collide_grows(
                path_messages(hash, path),
                layer_messages(layer),
                proof_messages(shard, path),
                tree_messages(shards),
            );
        } else {
            let i = choose|i: int| 0 <= i < layer.len() && layer[i] == hash;
            let y = choose|message: Seq<u8>| #[trigger]
                is_node_of(message, layer_messages(leaves), hash);
            assert(x[0] == 0 && y[0] == 1);
            assert(hash_collision(x, y));
        }
    } else {
        let n = climbed - height;
        let (reached, rest) = (path_root(hash, path.take(n)), path.skip(n));
        lemma_path_split(hash, path, n, index);
        let place = choose|place: nat| #[trigger] leads_to(rest, place);
        lemma_path_starts_in_layer(leaves, reached, rest, place);
        if messages_collide(path_messages(reached, rest), layer_messages(leaves)) {
            lemma_collide_grows(
                path_messages(reached, rest),
                layer_messages(leaves),
                proof_messages(shard, path),
                tree_messages(shards),
            );
        } else {
            let i = choose|i: int| 0 <= i < leaves.len() && leaves[i] == reached;
            let y = leaf_message(shards[i]);
            assert(made[i] == y);
            assert(made.to_set().contains(y));
            let z = choose|message: Seq<u8>| #[trigger]
                is_node_of(message, path_messages(hash, path), reached);
            assert(y[0] == 0 && z[0] == 1);
            assert(hash_collision(z, y));
        }
    }
}

/// Hashes a leaf.
pub fn hash_leaf(data: &[u8]) -> (hash: [u8; 32])
    ensures
        hash@ == leaf_hash(data@),
{
    let mut message: Vec<u8> = Vec::new();
    message.push(0u8);
    append_bytes(&mut message, data);
    assert(message@ =~= seq![0u8] + data@);
    let full = hash_sha512(&message);
    first_32(&full)
}

/// Hashes an inner node.
pub fn hash_node(left: &[u8; 32], right: &[u8; 32]) -> (hash: [u8; 32])
    ensures
        hash@ == node_hash(left@, right@),
{
    let mut message: Vec<u8> = Vec::new();
    message.push(1u8);
    append_bytes(&mut message, left);
    append_bytes(&mut message, right);
    assert(message@ =~= seq![1u8] + left@ + right@);
    let full = hash_sha512(&message);
    first_32(&full)
}

/// Whether `shard` at position `index` is authentic under `root`: the path leads from it to the
/// root, and the directions of the path are those of the position.
pub fn verify_proof(shard: &[u8], index: usize, proof: &MerkleProof, root: &[u8; 32]) -> (valid:
    bool)
    ensures
        valid == proves_at(shard@, index as nat, proof@, root@),
{
    let mut current: [u8; 32] = hash_leaf(shard);
    let mut position: usize = index;
    let mut i: usize = 0;
    assert(proof@.skip(0) =~= proof@);
    while i < proof.path.len()
        invariant
            i <= proof.path.len(),
            path_root(current@, proof@.skip(i as int)) == path_root(leaf_hash(shard@), proof@),
            leads_to(proof@.skip(i as int), position as nat) == leads_to(proof@, index as nat),
        decreases proof.path.len() - i,
    {
        let sibling_is_left = proof.path[i].1;
        let ghost rest = proof@.skip(i as int);
        assert(rest[0] == (proof.path@[i as int].0@, sibling_is_left));
        assert(rest.drop_first() =~= proof@.skip(i + 1));
        if sibling_is_left != (position % 2 == 1) {
            return false;
        }
        if sibling_is_left {
            current = hash_node(&proof.path[i].0, &current);
        } else {
            current = hash_node(&current, &proof.path[i].0);
        }
        position = position / 2;
        i = i + 1;
    }
    position == 0 && bytes_eq(&current, root)
}

/// The contents of a list of hashes.
pub open spec fn hash_views(hashes: Seq<[u8; 32]>) -> Seq<Seq<u8>> {
    Seq::new(hashes.len(), |i: int| hashes[i]@)
}

/// The hashes of the shards.
fn hash_leaves(shards: &[Shard]) -> (leaves: Vec<[u8; 32]>)
    ensures
        hash_views(leaves@) == leaf_layer(coding::shard_views(shards@)),
{
    let mut leaves: Vec<[u8; 32]> = Vec::new();
    let mut i: usize = 0;
    while i < shards.len()
        invariant
            i <= shards.len(),
            leaves@.len() == i,
            forall|j: int| 0 <= j < i ==> (#[trigger] leaves@[j])@ == leaf_hash(shards@[j]@),
        decreases shards.len() - i,
    {
        leaves.push(hash_leaf(&shards[i]));
        i = i + 1;
    }
    assert(hash_views(leaves@) =~= leaf_layer(coding::shard_views(shards@)));
    leaves
}

/// The layer above `layer`.
fn hash_parents(layer: &Vec<[u8; 32]>) -> (parents: Vec<[u8; 32]>)
    ensures
        hash_views(parents@) == parent_layer(hash_views(layer@)),
{
    let mut parents: Vec<[u8; 32]> = Vec::new();
    let mut left: usize = 0;
    while left < layer.len()
        invariant
            left % 2 == 0,
            left <= layer.len() + 1,
            parents@.len() == left / 2,
            forall|p: int|
                0 <= p < left / 2 ==> (#[trigger] parents@[p])@ == parent_layer(
                    hash_views(layer@),
                )[p],
        decreases layer.len() + 1 - left,
    {
        let parent = if layer.len() - left > 1 {
            hash_node(&layer[left], &layer[left + 1])
        } else {
            hash_node(&layer[left], &layer[left])
        };
        assert(parent@ == parent_layer(hash_views(layer@))[left as int / 2]);
        parents.push(parent);
        if layer.len() - left > 1 {
            left = left + 2;
        } else {
            assert(parents@.len() == parent_layer(hash_views(layer@)).len());
            assert(hash_views(parents@) =~= parent_layer(hash_views(layer@)));
            return parents;
        }
    }
    assert(hash_views(parents@) =~= parent_layer(hash_views(layer@)));
    parents
}

/// `layers` are the layers of the tree over the first of them, from the bottom up.
spec fn stacked(layers: Seq<Vec<[u8; 32]>>) -> bool {
    &&& layers.len() > 0
    &&& forall|j: int|
        0 < j < layers.len() ==> hash_views((#[trigger] layers[j])@) == parent_layer(
            hash_views(layers[j - 1]@),
        )
    &&& forall|j: int| 0 <= j < layers.len() ==> (#[trigger] layers[j])@.len() > 0
}

/// The authentication path of a leaf, read off the layers of the tree.
fn path_of_leaf(layers: &Vec<Vec<[u8; 32]>>, leaf: usize) -> (proof: MerkleProof)
    requires
        stacked(layers@),
        layers@.last()@.len() == 1,
        forall|j: int| 0 <= j < layers@.len() - 1 ==> (#[trigger] layers@[j])@.len() > 1,
        leaf < layers@[0]@.len(),
    ensures
        proof@ == merkle_path(hash_views(layers@[0]@), leaf as int),
{
    let mut path: Vec<([u8; 32], bool)> = Vec::new();
    let mut index: usize = leaf;
    let mut level: usize = 0;
    let ghost full = merkle_path(hash_views(layers@[0]@), leaf as int);
    assert(path_view(path@) + full =~= full);
    while level < layers.len() - 1
        invariant
            level < layers@.len(),
            stacked(layers@),
            layers@.last()@.len() == 1,
            forall|j: int| 0 <= j < layers@.len() - 1 ==> (#[trigger] layers@[j])@.len() > 1,
            index < layers@[level as int]@.len(),
            full == merkle_path(hash_views(layers@[0]@), leaf as int),
            full == path_view(path@) + merkle_path(
                hash_views(layers@[level as int]@),
                index as int,
            ),
        decreases layers@.len() - level,
    {
        let layer = &layers[level];
        let ghost below = hash_views(layer@);
        assert(layers@[level as int]@.len() > 1);
        let found = if index % 2 == 0 {
            if layer.len() - index > 1 {
                layer[index + 1]
            } else {
                layer[index]
            }
        } else {
            layer[index - 1]
        };
        assert(found@ == sibling(below, index as int));
        let ghost step = (sibling(below, index as int), index % 2 == 1);
        let ghost before = path_view(path@);
        path.push((found, index % 2 == 1));
        assert(path_view(path@) =~= before.push(step));
        assert(hash_views(layers@[level + 1]@) == parent_layer(below));
        assert(layers@[level + 1]@.len() == parent_layer(below).len());
        assert(full =~= before.push(step) + merkle_path(parent_layer(below), index as int / 2));
        index = index / 2;
        level = level + 1;
    }
    assert(full =~= path_view(path@));
    MerkleProof { path }
}

/// Builds the Merkle tree over `shards` and returns its root and the proof of each shard.
pub fn merkle_root_and_proofs(shards: &[Shard]) -> (tree: ([u8; 32], Vec<MerkleProof>))
    requires
        shards@.len() > 0,
    ensures
        tree.0@ == merkle_root(leaf_layer(coding::shard_views(shards@))),
        tree.1@.len() == shards@.len(),
        forall|i: int|
            0 <= i < shards@.len() ==> (#[trigger] tree.1@[i])@ == merkle_path(
                leaf_layer(coding::shard_views(shards@)),
                i,
            ),
{
    let ghost leaves = leaf_layer(coding::shard_views(shards@));
    let mut layers: Vec<Vec<[u8; 32]>> = Vec::new();
    let mut top: Vec<[u8; 32]> = hash_leaves(shards);
    assert(top@.len() == hash_views(top@).len());
    while top.len() > 1
        invariant
            top@.len() > 0,
            stacked(layers@.push(top)),
            forall|j: int| 0 <= j < layers@.len() ==> (#[trigger] layers@[j])@.len() > 1,
            hash_views(layers@.push(top)[0]@) == leaves,
            merkle_root(hash_views(top@)) == merkle_root(leaves),
        decreases top@.len(),
    {
        let next = hash_parents(&top);
        assert(next@.len() == hash_views(next@).len());
        let ghost before = layers@.push(top);
        layers.push(top);
        assert(layers@ =~= before);
        let ghost after = layers@.push(next);
        assert forall|j: int| 0 < j < after.len() implies hash_views((#[trigger] after[j])@)
            == parent_layer(hash_views(after[j - 1]@)) by {
            if j < before.len() {
                assert(after[j] == before[j]);
            }
            assert(after[j - 1] == before[j - 1]);
        }
        top = next;
    }
    let root: [u8; 32] = top[0];
    let ghost before = layers@.push(top);
    layers.push(top);
    assert(layers@ =~= before);
    assert(layers@[0]@.len() == hash_views(layers@[0]@).len());
    let mut proofs: Vec<MerkleProof> = Vec::new();
    let mut i: usize = 0;
    while i < shards.len()
        invariant
            i <= shards@.len(),
            stacked(layers@),
            layers@.last()@.len() == 1,
            forall|j: int| 0 <= j < layers@.len() - 1 ==> (#[trigger] layers@[j])@.len() > 1,
            layers@[0]@.len() == shards@.len(),
            hash_views(layers@[0]@) == leaves,
            proofs@.len() == i,
            forall|j: int| 0 <= j < i ==> (#[trigger] proofs@[j])@ == merkle_path(leaves, j),
        decreases shards@.len() - i,
    {
        proofs.push(path_of_leaf(&layers, i));
        i = i + 1;
    }
    (root, proofs)
}

/// The size of each shard when `data_len` bytes are split into `k` pieces.
pub fn shard_size(data_len: usize, k: usize) -> (size: usize)
    requires
        k > 0,
        data_len + k <= usize::MAX,
    ensures
        size == split_size(data_len as nat, k as nat),
{
    (data_len + k - 1) / k
}

/// The least size of `k` pieces that together hold `data_len` bytes.
pub open spec fn split_size(data_len: nat, k: nat) -> nat {
    ((data_len + k - 1) / k as int) as nat
}

/// Piece `i` of `data` when it is cut into pieces of `size` bytes, filled up with zeros.
pub open spec fn data_shard(data: Seq<u8>, size: nat, i: int) -> Seq<u8> {
    Seq::new(
        size,
        |j: int|
            if i * size + j < data.len() {
                data[i * size + j]
            } else {
                0u8
            },
    )
}

/// The `k` data shards of `data`.
pub open spec fn data_shards(data: Seq<u8>, k: nat) -> Seq<Seq<u8>> {
    Seq::new(k, |i: int| data_shard(data, split_size(data.len(), k), i))
}

/// All `n` shards of `data`: the data shards, followed by their parity shards if there are more
/// shards.
pub open spec fn encoded_shards(data: Seq<u8>, k: nat, n: nat) -> Seq<Seq<u8>> {
    if n == k {
        data_shards(data, k)
    } else {
        coding::code_word(data_shards(data, k), (n - k) as nat)
    }
}

/// The shards are large enough to hold the data, and not much larger.
pub proof fn lemma_split_size(data_len: nat, k: nat)
    requires
        k > 0,
    ensures
        data_len <= k * split_size(data_len, k) < data_len + k,
        data_len > 0 ==> split_size(data_len, k) > 0,
{
    let size = split_size(data_len, k) as int;
    vstd::arithmetic::div_mod::lemma_fundamental_div_mod(data_len + k - 1, k as int);
    vstd::arithmetic::div_mod::lemma_mod_bound(data_len + k - 1, k as int);
    assert(k * size == data_len + k - 1 - (data_len + k - 1) % k as int);
    if data_len > 0 && size <= 0 {
        assert(k * size <= 0) by (nonlinear_arith)
            requires
                size <= 0,
                k > 0,
        ;
    }
}

/// Cutting data into shards loses nothing: the data shards, joined and cut to the length of the
/// data, are the data.
pub proof fn law_split_then_join(data: Seq<u8>, k: nat)
    requires
        k > 0,
    ensures
        coding::joined(data_shards(data, k)).len() >= data.len(),
        coding::joined(data_shards(data, k)).take(data.len() as int) == data,
{
    let size = split_size(data.len(), k);
    let shards = data_shards(data, k);
    lemma_split_size(data.len(), k);
    assert(coding::uniform(shards, size));
    coding::lemma_joined_len(shards, size);
    let all = coding::joined(shards);
    assert forall|x: int| 0 <= x < data.len() implies #[trigger] all.take(data.len() as int)[x]
        == data[x] by {
        let (i, j) = (x / size as int, x % size as int);
        vstd::arithmetic::div_mod::lemma_fundamental_div_mod(x, size as int);
        vstd::arithmetic::div_mod::lemma_mod_bound(x, size as int);
        vstd::arithmetic::div_mod::lemma_div_pos_is_pos(x, size as int);
        vstd::arithmetic::mul::lemma_mul_is_commutative(size as int, i);
        assert(i < k) by (nonlinear_arith)
            requires
                i * size + j == x,
                0 <= j,
                x < k * size,
                size > 0,
        ;
        coding::lemma_joined_index(shards, size, i, j);
    }
    assert(all.take(data.len() as int) =~= data);
}

/// Encodes `data` with `k` data shards out of `n`.
pub fn encode_shards(data: &[u8], k: usize, n: usize) -> (shards: Vec<Shard>)
    requires
        0 < k <= n <= coding::MAX_SHARDS,
        data@.len() > 0,
        data@.len() + k <= usize::MAX,
    ensures
        coding::shard_views(shards@) == encoded_shards(data@, k as nat, n as nat),
        shards@.len() == n,
        split_size(data@.len(), k as nat) > 0,
        coding::uniform(coding::shard_views(shards@), split_size(data@.len(), k as nat)),
{
    let size = shard_size(data.len(), k);
    proof {
        lemma_split_size(data@.len(), k as nat);
    }
    let mut shards: Vec<Shard> = Vec::new();
    let mut i: usize = 0;
    while i < k
        invariant
            i <= k,
            size == split_size(data@.len(), k as nat),
            k * size <= usize::MAX,
            shards@.len() == i,
            forall|x: int|
                0 <= x < i ==> (#[trigger] shards@[x])@ == data_shard(data@, size as nat, x),
        decreases k - i,
    {
        proof {
            assert(i * size + size <= k * size && 0 <= i * size) by (nonlinear_arith)
                requires
                    0 <= i < k,
                    0 <= size,
            ;
        }
        let start = i * size;
        let mut shard: Vec<u8> = Vec::new();
        let mut j: usize = 0;
        while j < size
            invariant
                j <= size,
                start == i * size,
                start + size <= usize::MAX,
                shard@ == data_shard(data@, size as nat, i as int).take(j as int),
            decreases size - j,
        {
            let byte: u8 = if start + j < data.len() {
                data[start + j]
            } else {
                0u8
            };
            shard.push(byte);
            j = j + 1;
            assert(shard@ =~= data_shard(data@, size as nat, i as int).take(j as int));
        }
        assert(shard@ =~= data_shard(data@, size as nat, i as int));
        shards.push(shard);
        i = i + 1;
    }
    assert(coding::shard_views(shards@) =~= data_shards(data@, k as nat));
    while i < n
        invariant
            k <= i <= n,
            shards@.len() == i,
            coding::shard_views(shards@).take(k as int) == data_shards(data@, k as nat),
            coding::uniform(coding::shard_views(shards@), size as nat),
        decreases n - i,
    {
        let ghost before = coding::shard_views(shards@);
        let parity: Vec<u8> = vec![0u8; size];
        shards.push(parity);
        assert(coding::shard_views(shards@) =~= before.push(parity@));
        assert(coding::shard_views(shards@).take(k as int) =~= before.take(k as int));
        i = i + 1;
    }
    assert(coding::shard_views(shards@)[0].len() == size);
    if k < n {
        rs_encode(&mut shards, k, n - k);
    } else {
        assert(coding::shard_views(shards@).take(k as int) =~= coding::shard_views(shards@));
    }
    shards
}

/// Encodes `data` with `k` data shards out of `n`: all shards, the Merkle root that commits to
/// them, and the proof of each.
pub fn encode(data: &[u8], k: usize, n: usize) -> (coded: (Vec<Shard>, [u8; 32], Vec<MerkleProof>))
    requires
        0 < k <= n <= coding::MAX_SHARDS,
        data@.len() > 0,
        data@.len() + k <= usize::MAX,
    ensures
        coding::shard_views(coded.0@) == encoded_shards(data@, k as nat, n as nat),
        coded.0@.len() == n,
        coding::uniform(coding::shard_views(coded.0@), split_size(data@.len(), k as nat)),
        coded.1@ == merkle_root(leaf_layer(encoded_shards(data@, k as nat, n as nat))),
        coded.2@.len() == n,
        forall|i: int|
            0 <= i < n ==> (#[trigger] coded.2@[i])@ == merkle_path(
                leaf_layer(encoded_shards(data@, k as nat, n as nat)),
                i,
            ),
{
    let shards = encode_shards(data, k, n);
    let (root, proofs) = merkle_root_and_proofs(&shards);
    (shards, root, proofs)
}

/// The `block_len` bytes that the first `k` shards hold.
pub open spec fn decoded(shards: Seq<Seq<u8>>, k: nat, block_len: nat) -> Seq<u8> {
    let data = coding::joined(shards.take(k as int));
    if block_len < data.len() {
        data.take(block_len as int)
    } else {
        data
    }
}

/// Reconstructs `block_len` bytes from those of the `n` shards that are there. Whatever was
/// encoded comes back from any `k` of its shards.
pub fn reconstruct(
    shards_opt: Vec<Option<Shard>>,
    k: usize,
    n: usize,
    block_len: usize,
) -> (outcome: ConsensusResult<Vec<u8>>)
    requires
        0 < k < n <= coding::MAX_SHARDS,
    ensures
        match coding::reconstruction_fault(
            coding::sparse_views(shards_opt@),
            k as nat,
            n as nat,
        ) {
            Some(_) => outcome == Err::<Vec<u8>, ConsensusError>(
                ConsensusError::ErasureReconstructionFailed,
            ),
            None => outcome is Ok && outcome->Ok_0@ == decoded(
                coding::rs_completed(coding::sparse_views(shards_opt@), k as nat),
                k as nat,
                block_len as nat,
            ),
        },
        forall|data: Seq<u8>|
            {
                &&& data.len() == block_len
                &&& block_len > 0
                &&& shards_opt@.len() == n
                &&& coding::present_count(coding::sparse_views(shards_opt@)) >= k
                &&& coding::uniform(
                    encoded_shards(data, k as nat, n as nat),
                    split_size(data.len(), k as nat),
                )
                &&& coding::drawn_from(
                    coding::sparse_views(shards_opt@),
                    #[trigger] encoded_shards(data, k as nat, n as nat),
                )
            } ==> outcome is Ok && outcome->Ok_0@ == data,
{
    let ghost given = coding::sparse_views(shards_opt@);
    let mut shards = shards_opt;
    let outcome = rs_reconstruct(&mut shards, k, n - k);
    proof {
        assert forall|data: Seq<u8>|
            {
                &&& data.len() == block_len
                &&& block_len > 0
                &&& given.len() == n
                &&& coding::present_count(given) >= k
                &&& coding::uniform(
                    encoded_shards(data, k as nat, n as nat),
                    split_size(data.len(), k as nat),
                )
                &&& coding::drawn_from(
                    given,
                    #[trigger] encoded_shards(data, k as nat, n as nat),
                )
            } implies coding::reconstruction_fault(given, k as nat, n as nat) is None && decoded(
            coding::rs_completed(given, k as nat),
            k as nat,
            block_len as nat,
        ) == data by {
            let word = encoded_shards(data, k as nat, n as nat);
            let size = split_size(data.len(), k as nat);
            lemma_split_size(data.len(), k as nat);
            coding::lemma_drawn_sizes(given, word, size);
            let source = data_shards(data, k as nat);
            assert(coding::from_code_word(given, source, (n - k) as nat, size));
            assert(word.take(k as int) =~= source);
            law_split_then_join(data, k as nat);
        }
    }
    if outcome.is_err() {
        return Err(ConsensusError::ErasureReconstructionFailed);
    }
    let ghost full = coding::complete_views(shards@);
    let mut data: Vec<u8> = Vec::new();
    let mut i: usize = 0;
    assert(coding::joined(full.take(0)) =~= Seq::empty());
    while i < k
        invariant
            i <= k < n,
            shards@.len() == n,
            coding::is_complete(shards@),
            full == coding::complete_views(shards@),
            data@ == coding::joined(full.take(i as int)),
        decreases k - i,
    {
        assert(shards@[i as int] is Some);
        if let Some(shard) = &shards[i] {
            append_bytes(&mut data, shard);
            assert(full[i as int] == shard@);
        }
        assert(full.take(i + 1).drop_last() =~= full.take(i as int));
        i = i + 1;
    }
    data.truncate(block_len);
    assert(data@ =~= decoded(full, k as nat, block_len as nat));
    Ok(data)
}

} // verus!
