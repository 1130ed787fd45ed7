//! The Merkle trees over coded batches, as the `smtree` crate builds them: nodes are BLAKE3
//! hashes, and positions without a leaf below them are padded with zeros.

use smtree::index::TreeIndex;
use smtree::node_template::MTreeNodeSmt;
use smtree::pad_secret::ALL_ZEROS_SECRET;
use smtree::proof::MerkleProof;
use smtree::traits::{InclusionProvable, Mergeable, Serializable};
use smtree::tree::SparseMerkleTree;
use vstd::prelude::*;
use crate::proof_layout;
use vstd::slice::slice_subrange;
use crate::bytes::{append_bytes, u64_from_le_bytes, u64_le_bytes};
use crate::hashing::hash_blake3;

verus! {

#[verifier::external_type_specification]
#[verifier::external_body]
pub struct ExHasher(blake3::Hasher);

#[verifier::external_type_specification]
#[verifier::external_body]
#[verifier::reject_recursive_types(D)]
pub struct ExMTreeNodeSmt<D>(smtree::node_template::MTreeNodeSmt<D>);

#[verifier::external_type_specification]
#[verifier::external_body]
#[verifier::reject_recursive_types(P)]
pub struct ExSparseMerkleTree<P>(smtree::tree::SparseMerkleTree<P>);

/// The tree type of the crate, with BLAKE3 nodes.
type RawTree = SparseMerkleTree<MTreeNodeSmt<blake3::Hasher>>;

/// The proof type of the crate, with BLAKE3 nodes.
type RawProof = MerkleProof<MTreeNodeSmt<blake3::Hasher>>;

/// The parent of two nodes.
pub open spec fn merged(left: Seq<u8>, right: Seq<u8>) -> Seq<u8> {
    crate::hashing::blake3_hash(left + right)@
}

/// The number of bytes of a word of the machine.
pub open spec fn word_bytes() -> nat {
    (usize::BITS / 8) as nat
}

/// What is hashed for `shard` at `position`: the shard and the little-endian bytes of the
/// position, as many as a word has.
pub open spec fn shard_message(shard: Seq<u8>, position: nat) -> Seq<u8> {
    shard + crate::bytes::le_bytes(position, word_bytes())
}

/// The leaf that stands for `shard` at `position`.
pub open spec fn shard_leaf(shard: Seq<u8>, position: nat) -> Seq<u8> {
    crate::hashing::blake3_hash(shard_message(shard, position))@
}

/// The node of a position below which there is no leaf.
pub open spec fn padding() -> Seq<u8> {
    Seq::new(32, |i: int| 0u8)
}

/// The number of leaves below a node, `level` levels above them.
pub open spec fn width(level: nat) -> nat
    decreases level,
{
    if level == 0 {
        1
    } else {
        2 * width((level - 1) as nat)
    }
}

/// Node `position` of a tree over `leaves`, `level` levels above the leaves.
pub open spec fn tree_node(leaves: Seq<Seq<u8>>, level: nat, position: nat) -> Seq<u8>
    decreases level,
{
    if position * width(level) >= leaves.len() {
        padding()
    } else if level == 0 {
        leaves[position as int]
    } else {
        merged(
            tree_node(leaves, (level - 1) as nat, 2 * position),
            tree_node(leaves, (level - 1) as nat, 2 * position + 1),
        )
    }
}

/// The number of parents of `len` nodes from `lo` on.
pub open spec fn parent_count(lo: nat, len: nat) -> nat {
    ((lo + len + 1) / 2 - lo / 2) as nat
}

/// The siblings that a proof for the nodes `lo..lo + len` of a level needs at this level, from
/// left to right.
pub open spec fn level_siblings(leaves: Seq<Seq<u8>>, level: nat, lo: nat, len: nat) -> Seq<Seq<u8>> {
    let left = if lo % 2 == 1 {
        seq![tree_node(leaves, level, (lo - 1) as nat)]
    } else {
        Seq::empty()
    };
    let right = if (lo + len) % 2 == 1 {
        seq![tree_node(leaves, level, lo + len)]
    } else {
        Seq::empty()
    };
    left + right
}

/// The siblings that a proof for the nodes `lo..lo + len` of a level needs at this level and the
/// `height` levels from it upwards, the upper levels first.
pub open spec fn range_siblings(
    leaves: Seq<Seq<u8>>,
    level: nat,
    lo: nat,
    len: nat,
    height: nat,
) -> Seq<Seq<u8>>
    decreases height,
{
    if height == 0 {
        Seq::empty()
    } else {
        range_siblings(leaves, level + 1, lo / 2, parent_count(lo, len), (height - 1) as nat)
            + level_siblings(leaves, level, lo, len)
    }
}

/// The leaves of a tree, from left to right.
pub uninterp spec fn tree_leaves(tree: RawTree) -> Seq<Seq<u8>>;

/// The number of levels of a tree above its leaves.
pub uninterp spec fn tree_height(tree: RawTree) -> nat;

/// The number of bytes that the path of an index takes.
pub open spec fn path_len(height: nat) -> nat {
    ((height + 7) / 8) as nat
}

/// Step `i` of the way from a root down to the leaf at `position`, `height` levels below: 0 to the
/// left, 1 to the right.
pub open spec fn direction(height: nat, position: nat, i: nat) -> nat {
    position / width((height - 1 - i) as nat) % 2
}

/// The first `bits` of the directions of byte `b` of a path, from the lowest bit up.
pub open spec fn path_byte(height: nat, position: nat, b: nat, bits: nat) -> nat
    decreases bits,
{
    if bits == 0 {
        0
    } else {
        path_byte(height, position, b, (bits - 1) as nat) + direction(
            height,
            position,
            (8 * b + bits - 1) as nat,
        ) * width((bits - 1) as nat)
    }
}

/// The path of the leaf at `position`: the directions from the root down, eight in each byte.
pub open spec fn index_path(height: nat, position: nat) -> Seq<u8> {
    Seq::new(
        path_len(height),
        |b: int| path_byte(height, position, b as nat, bits_in_byte(height, b)) as u8,
    )
}

/// The encoding of a proof for the leaves `start..start + count` of a tree of the given height:
/// the number of leaves in eight bytes, the height in two, the paths of the leaves, the number of
/// siblings in eight bytes, and the siblings.
pub open spec fn encoded_proof(
    height: nat,
    start: nat,
    count: nat,
    siblings: Seq<Seq<u8>>,
) -> Seq<u8> {
    crate::bytes::le_bytes(count, 8) + crate::bytes::le_bytes(height, 2) + crate::coding::joined(
        Seq::new(count, |i: int| index_path(height, (start + i) as nat)),
    ) + crate::bytes::le_bytes(siblings.len(), 8) + crate::coding::joined(siblings)
}

/// The number of indices that an encoded proof announces.
pub open spec fn announced_count(bytes: Seq<u8>) -> nat {
    crate::bytes::le_value(bytes.take(8))
}

/// The height that an encoded proof announces.
pub open spec fn announced_height(bytes: Seq<u8>) -> nat {
    crate::bytes::le_value(bytes.subrange(8, 10))
}

/// Where the siblings of an encoded proof begin, with their number.
pub open spec fn siblings_at(bytes: Seq<u8>) -> int {
    (10 + announced_count(bytes) * path_len(announced_height(bytes))) as int
}

/// The number of siblings that an encoded proof announces.
pub open spec fn announced_siblings(bytes: Seq<u8>) -> nat {
    crate::bytes::le_value(bytes.subrange(siblings_at(bytes), siblings_at(bytes) + 8))
}

/// What an encoded proof holds, on a machine with words of the given size: the height of the
/// first index, if there is an index, and the siblings; `None` where the bytes encode no proof.
/// No bytes encode a proof without indices. All other bytes begin with the number of indices and
/// their height and end with the siblings, and can be read only if a word has eight bytes.
pub open spec fn decoded_proof(bytes: Seq<u8>, word_bits: nat) -> Option<
    (Option<nat>, Seq<Seq<u8>>),
> {
    let at = siblings_at(bytes) + 8;
    if bytes.len() == 0 {
        Some((None, Seq::empty()))
    } else if word_bits < 64 || bytes.len() < 18 {
        None
    } else if announced_height(bytes) > 256 || at > bytes.len() {
        None
    } else if bytes.len() != at + 32 * announced_siblings(bytes) {
        None
    } else {
        Some(
            (
                if announced_count(bytes) > 0 {
                    Some(announced_height(bytes))
                } else {
                    None
                },
                Seq::new(
                    announced_siblings(bytes),
                    |i: int| bytes.subrange(at + 32 * i, at + 32 * i + 32),
                ),
            ),
        )
    }
}

/// The paths of the indices of an encoded proof, on a machine with words of the given size: 32
/// bytes for each index, with the directions from the root down in the bits of each byte from the
/// lowest one up. There are none where the bytes encode no proof.
pub open spec fn decoded_paths(bytes: Seq<u8>, word_bits: nat) -> Seq<Seq<u8>> {
    let len = path_len(announced_height(bytes));
    if bytes.len() == 0 || decoded_proof(bytes, word_bits) is None {
        Seq::empty()
    } else {
        Seq::new(
            announced_count(bytes),
            |i: int|
                bytes.subrange(10 + i * len, 10 + i * len + len) + Seq::new(
                    (32 - len) as nat,
                    |j: int| 0u8,
                ),
        )
    }
}

/// How many of the directions of a path are in byte `b`, if it has `height` of them.
pub open spec fn bits_in_byte(height: nat, b: int) -> nat {
    if height >= 8 * b + 8 {
        8
    } else if height <= 8 * b {
        0
    } else {
        (height - 8 * b) as nat
    }
}

/// A path has no bits beyond its `height` directions.
pub open spec fn path_fits(path: Seq<u8>, height: nat) -> bool {
    forall|b: int| 0 <= b < path.len() ==> (#[trigger] path[b]) < width(bits_in_byte(height, b))
}

/// The indices of an encoded proof have no bits beyond their height.
pub open spec fn clean_indices(bytes: Seq<u8>, word_bits: nat) -> bool {
    decoded_proof(bytes, word_bits) matches Some((Some(height), _)) ==> forall|i: int|
        0 <= i < decoded_paths(bytes, word_bits).len() ==> path_fits(
            #[trigger] decoded_paths(bytes, word_bits)[i],
            height,
        )
}

/// An encoded proof can be checked for a number of leaves: if it has as many indices, they have a
/// height, and several of them have no bits beyond it.
pub open spec fn batch_checkable(bytes: Seq<u8>, leaves: nat) -> bool {
    decoded_paths(bytes, usize::BITS as nat).len() == leaves ==> {
        &&& decoded_proof(bytes, usize::BITS as nat) matches Some((Some(height), _)) ==> height > 0
        &&& leaves > 1 ==> clean_indices(bytes, usize::BITS as nat)
    }
}

/// The number of indices that an encoded proof announces takes no more bytes than can be
/// counted. Where the indices take no bytes, a vector of as many indices, of 40 bytes each, can be
/// filled, with room for twice as many as it grows.
pub open spec fn header_fits(bytes: Seq<u8>) -> bool {
    bytes.len() >= 10 && announced_height(bytes) <= 256 ==> {
        &&& announced_count(bytes) * path_len(announced_height(bytes)) <= usize::MAX
        &&& announced_height(bytes) == 0 ==> announced_count(bytes) * 80 <= isize::MAX
    }
}

/// Whether the header of an encoded proof fits.
pub fn header_in_bounds(bytes: &[u8]) -> (fits: bool)
    ensures
        fits == header_fits(bytes@),
{
    if bytes.len() < 10 {
        return true;
    }
    let count: u64 = u64_from_le_bytes(slice_subrange(bytes, 0, 8));
    let height: u64 = u64_from_le_bytes(slice_subrange(bytes, 8, 10));
    assert(bytes@.subrange(0, 8) =~= bytes@.take(8));
    if height > 256 {
        return true;
    }
    let index_size: u64 = (height + 7) / 8;
    assert(0 <= count * index_size <= 0xffff_ffff_ffff_ffff * 32) by (nonlinear_arith)
        requires
            0 <= count <= 0xffff_ffff_ffff_ffff,
            0 <= index_size <= 32,
    ;
    count as u128 * index_size as u128 <= usize::MAX as u128 && (height != 0 || count as u128 * 80
        <= isize::MAX as u128)
}

/// Whether `count` leaves from `start` on fit below a root `height` levels up.
pub fn leaves_fit(start: usize, count: usize, height: usize) -> (fits: bool)
    ensures
        fits == (start + count <= usize::MAX && start + count <= width(height as nat)),
{
    let mut rest: usize = match start.checked_add(count) {
        Some(end) => end,
        None => {
            return false;
        },
    };
    let mut left: usize = height;
    while left > 0
        invariant
            start + count <= width(height as nat) <==> rest <= width(left as nat),
        decreases left,
    {
        rest = rest / 2 + rest % 2;
        left = left - 1;
    }
    rest <= 1
}

/// Every node has 32 bytes.
pub open spec fn node_sized(nodes: Seq<Seq<u8>>) -> bool {
    forall|i: int| 0 <= i < nodes.len() ==> (#[trigger] nodes[i]).len() == 32
}

/// Calls `SparseMerkleTree::new_merkle_tree`: the leaves stand next to each other from the left,
/// and the height is the least with which they fit. A single leaf makes the call fail.
#[verifier::external_body]
fn raw_merkle_tree(leaves: &Vec<[u8; 32]>) -> (tree: RawTree)
    requires
        2 <= leaves@.len() <= u32::MAX,
    ensures
        tree_leaves(tree) == crate::erasure::hash_views(leaves@),
        0 < tree_height(tree) <= 32,
        width((tree_height(tree) - 1) as nat) < leaves@.len() <= width(tree_height(tree)),
{
    let nodes: Vec<_> = leaves.iter().map(|leaf| MTreeNodeSmt::new(leaf.to_vec())).collect();
    RawTree::new_merkle_tree(&nodes)
}

/// Calls `SparseMerkleTree::construct_smt_nodes` on a new tree of the given height, with the
/// leaves next to each other from the left and the zero padding secret. Without leaves the tree
/// stays as it is.
#[verifier::external_body]
fn raw_tree_of_height(leaves: &Vec<[u8; 32]>, height: usize) -> (tree: RawTree)
    requires
        0 < height <= 64,
        leaves@.len() <= width(height as nat),
    ensures
        tree_leaves(tree) == crate::erasure::hash_views(leaves@),
        tree_height(tree) == height,
{
    let index = |i: usize| TreeIndex::from_u64(height, i as u64);
    let node = |leaf: &[u8; 32]| MTreeNodeSmt::new(leaf.to_vec());
    let list: Vec<_> = leaves.iter().enumerate().map(|(i, leaf)| (index(i), node(leaf))).collect();
    let mut tree = RawTree::new(height);
    let _ = tree.construct_smt_nodes(&list, &ALL_ZEROS_SECRET);
    tree
}

/// Calls `SparseMerkleTree::get_height`.
#[verifier::external_body]
fn raw_height(tree: &RawTree) -> (height: usize)
    ensures
        height == tree_height(*tree),
{
    tree.get_height()
}

/// Calls `SparseMerkleTree::get_root`: the root is the node above all leaves, where inner nodes
/// are merged from their children and nodes without leaves are padding.
#[verifier::external_body]
fn raw_root(tree: &RawTree) -> (root: [u8; 32])
    requires
        tree_leaves(*tree).len() <= width(tree_height(*tree)),
        node_sized(tree_leaves(*tree)),
    ensures
        root@ == tree_node(tree_leaves(*tree), tree_height(*tree), 0),
{
    tree.get_root().serialize().try_into().expect("a node has 32 bytes")
}

/// The number of nodes at the level of the leaves: a last leaf without a sibling has one of
/// padding.
pub open spec fn bottom_nodes(leaves: Seq<Seq<u8>>) -> nat {
    leaves.len() + leaves.len() % 2
}

/// Calls `MerkleProof::generate_inclusion_proof` for neighbouring leaves, and encodes the proof
/// with `serialize`. The siblings come in the order of a breadth-first walk from the root. The
/// proof for no leaves is encoded in no bytes.
#[verifier::external_body]
fn raw_range_proof(tree: &RawTree, start: usize, count: usize) -> (proof: Vec<u8>)
    requires
        0 < tree_height(*tree) <= 64,
        tree_leaves(*tree).len() <= width(tree_height(*tree)),
        node_sized(tree_leaves(*tree)),
        start + count <= bottom_nodes(tree_leaves(*tree)),
    ensures
        proof@ == if count == 0 {
            Seq::<u8>::empty()
        } else {
            encoded_proof(
                tree_height(*tree),
                start as nat,
                count as nat,
                range_siblings(
                    tree_leaves(*tree),
                    0,
                    start as nat,
                    count as nat,
                    tree_height(*tree),
                ),
            )
        },
{
    let index = |i: usize| TreeIndex::from_u64(tree.get_height(), i as u64);
    let list: Vec<TreeIndex> = (start..start + count).map(index).collect();
    RawProof::generate_inclusion_proof(tree, &list).expect("the leaves are there").serialize()
}

/// Calls `MerkleProof::set_siblings` on a new proof for one leaf, and encodes the proof with
/// `serialize`.
#[verifier::external_body]
fn raw_leaf_proof(height: usize, position: usize, siblings: &Vec<[u8; 32]>) -> (proof: Vec<u8>)
    requires
        height <= 256,
        position < width(height as nat),
    ensures
        proof@ == encoded_proof(
            height as nat,
            position as nat,
            1,
            crate::erasure::hash_views(siblings@),
        ),
{
    let mut proof = RawProof::new(TreeIndex::from_u64(height, position as u64));
    proof.set_siblings(siblings.iter().map(|node| MTreeNodeSmt::new(node.to_vec())).collect());
    proof.serialize()
}

/// The encoded proof for one leaf. It can be decoded again where words have 64 bits.
pub(crate) fn encode_leaf_proof(height: usize, position: usize, siblings: &Vec<[u8; 32]>) -> (proof:
    Vec<u8>)
    requires
        height <= 256,
        position < width(height as nat),
    ensures
        proof@ == encoded_proof(
            height as nat,
            position as nat,
            1,
            crate::erasure::hash_views(siblings@),
        ),
        header_fits(proof@),
        usize::BITS == 64 ==> decoded_proof(proof@, 64) == Some(
            (Some(height as nat), crate::erasure::hash_views(siblings@)),
        ),
{
    let proof = raw_leaf_proof(height, position, siblings);
    assert(proof@.len() == proof.len());
    proof {
        proof_layout::lemma_encoded(
            height as nat,
            position as nat,
            1,
            crate::erasure::hash_views(siblings@),
        );
    }
    proof
}

/// Calls `MerkleProof::deserialize` and reads the height of the first index and the siblings.
/// The height is at most 256.
#[verifier::external_body]
pub(crate) fn decode_proof(bytes: &[u8]) -> (proof: Option<(Option<usize>, Vec<[u8; 32]>)>)
    requires
        header_fits(bytes@),
    ensures
        match (decoded_proof(bytes@, usize::BITS as nat), proof) {
            (None, None) => true,
            (Some((height, siblings)), Some((found_height, found_siblings))) => {
                &&& crate::erasure::hash_views(found_siblings@) == siblings
                &&& match (height, found_height) {
                    (None, None) => true,
                    (Some(expected), Some(found)) => found == expected && found <= 256,
                    _ => false,
                }
            },
            _ => false,
        },
{
    let proof = RawProof::deserialize(bytes).ok()?;
    let nodes = proof.get_path_siblings().iter().map(|node| node.serialize().try_into());
    let siblings = nodes.collect::<Result<Vec<_>, _>>().expect("a node has 32 bytes");
    Some((proof.get_indexes().first().map(|index| index.get_height()), siblings))
}

/// The direction at bit `i` of a path.
pub open spec fn path_bit(path: Seq<u8>, i: nat) -> nat {
    path[(i / 8) as int] as nat / width(i % 8) % 2
}

/// The node above `node`, `height` levels up, along a path and with the siblings from the root
/// down.
pub open spec fn leaf_root(
    path: Seq<u8>,
    siblings: Seq<Seq<u8>>,
    node: Seq<u8>,
    height: nat,
) -> Seq<u8>
    decreases height,
{
    if height == 0 {
        node
    } else {
        let beside = siblings[height - 1];
        let up = if path_bit(path, (height - 1) as nat) == 0 {
            merged(node, beside)
        } else {
            merged(beside, node)
        };
        leaf_root(path, siblings, up, (height - 1) as nat)
    }
}

/// Whether an encoded proof for one leaf is accepted, on a machine with words of the given size:
/// it has one index and a sibling for each level, and leads from the leaf to the root. `None`
/// where the bytes encode no proof.
pub open spec fn leaf_proof_accepted(
    bytes: Seq<u8>,
    word_bits: nat,
    leaf: Seq<u8>,
    root: Seq<u8>,
) -> Option<bool> {
    match decoded_proof(bytes, word_bits) {
        None => None,
        Some((height, siblings)) => Some(
            {
                let paths = decoded_paths(bytes, word_bits);
                &&& paths.len() == 1
                &&& height == Some(siblings.len())
                &&& leaf_root(paths[0], siblings, leaf, siblings.len()) == root
            },
        ),
    }
}

/// Whether an encoded proof for several leaves is accepted, on a machine with words of the given
/// size; `None` where the bytes encode no proof.
pub uninterp spec fn batch_proof_accepted(
    bytes: Seq<u8>,
    word_bits: nat,
    leaves: Seq<Seq<u8>>,
    root: Seq<u8>,
) -> Option<bool>;

/// The number of siblings that lead from the nodes `lo..lo + len` to a root `height` levels up.
pub open spec fn siblings_needed(lo: nat, len: nat, height: nat) -> nat
    decreases height,
{
    if height == 0 {
        0
    } else {
        lo % 2 + (lo + len) % 2 + siblings_needed(
            lo / 2,
            parent_count(lo, len),
            (height - 1) as nat,
        )
    }
}

/// A list of siblings has the right length and leads from the leaves to the root.
pub open spec fn exact_proof(
    start: nat,
    leaves: Seq<Seq<u8>>,
    siblings: Seq<Seq<u8>>,
    height: nat,
    root: Seq<u8>,
) -> bool {
    &&& siblings.len() == siblings_needed(start, leaves.len(), height)
    &&& crate::range_proof::range_root(start, leaves, siblings, height) == Some(root)
}

/// The leaves `start..start + count` are below a root `height` levels up, and the siblings are
/// nodes.
pub open spec fn provable(
    start: nat,
    count: nat,
    height: nat,
    siblings: Seq<Seq<u8>>,
) -> bool {
    &&& 0 < height <= 64
    &&& start + count <= width(height)
    &&& node_sized(siblings)
}

/// Calls `MerkleProof::deserialize` and `MerkleProof::verify`. A proof is accepted if it has one
/// index and a sibling for each level, and these lead from the leaf to the root along the path of
/// the index.
#[verifier::external_body]
pub(crate) fn check_leaf_proof(bytes: &[u8], leaf: &[u8; 32], root: &[u8; 32]) -> (accepted: Option<
    bool,
>)
    requires
        header_fits(bytes@),
    ensures
        accepted == leaf_proof_accepted(bytes@, usize::BITS as nat, leaf@, root@),
{
    let proof = RawProof::deserialize(bytes).ok()?;
    let node = |hash: &[u8; 32]| MTreeNodeSmt::new(hash.to_vec());
    Some(proof.verify(&node(leaf), &node(root)))
}

/// Calls `MerkleProof::deserialize` and `MerkleProof::verify_batch`. A proof that encodes
/// neighbouring indices and siblings is accepted for as many leaves if the siblings lead from
/// these to the root and none is left over. With as many leaves as indices, the call fails on a
/// tree without levels, and on several indices with bits beyond their height.
#[verifier::external_body]
pub(crate) fn check_batch_proof(bytes: &[u8], leaves: &Vec<[u8; 32]>, root: &[u8; 32]) -> (accepted:
    Option<bool>)
    requires
        header_fits(bytes@),
        batch_checkable(bytes@, leaves@.len()),
    ensures
        accepted == batch_proof_accepted(
            bytes@,
            usize::BITS as nat,
            crate::erasure::hash_views(leaves@),
            root@,
        ),
        accepted is None <==> decoded_proof(bytes@, usize::BITS as nat) is None,
        usize::BITS == 64 ==> forall|height: nat, start: nat, siblings: Seq<Seq<u8>>|
            {
                &&& bytes@ == #[trigger] encoded_proof(height, start, leaves@.len(), siblings)
                &&& leaves@.len() > 0
                &&& provable(start, leaves@.len(), height, siblings)
            } ==> accepted == Some(
                exact_proof(
                    start,
                    crate::erasure::hash_views(leaves@),
                    siblings,
                    height,
                    root@,
                ),
            ),
{
    let proof = RawProof::deserialize(bytes).ok()?;
    let node = |hash: &[u8; 32]| MTreeNodeSmt::new(hash.to_vec());
    Some(proof.verify_batch(&leaves.iter().map(node).collect::<Vec<_>>(), &node(root)))
}

/// Calls `MerkleProof::deserialize` and `TreeIndex::get_path` for each index.
#[verifier::external_body]
fn decode_paths(bytes: &[u8]) -> (paths: Vec<[u8; 32]>)
    requires
        header_fits(bytes@),
    ensures
        crate::erasure::hash_views(paths@) == decoded_paths(bytes@, usize::BITS as nat),
{
    match RawProof::deserialize(bytes) {
        Ok(proof) => proof.get_indexes().iter().map(|index| index.get_path()).collect(),
        Err(_) => Vec::new(),
    }
}

/// Whether a path has no bits beyond its `height` directions.
pub fn path_in_bounds(path: &[u8; 32], height: usize) -> (fits: bool)
    ensures
        fits == path_fits(path@, height as nat),
{
    let mut b: usize = 0;
    while b < 32
        invariant
            b <= 32,
            forall|c: int|
                0 <= c < b ==> (#[trigger] path@[c]) < width(bits_in_byte(height as nat, c)),
        decreases 32 - b,
    {
        let bits: usize = if height >= 8 * b + 8 {
            8
        } else if height <= 8 * b {
            0
        } else {
            height - 8 * b
        };
        let mut bound: u32 = 1;
        let mut i: usize = 0;
        while i < bits
            invariant
                i <= bits <= 8,
                bound == width(i as nat),
                bound <= 256,
                i == 8 || bound <= 128,
            decreases bits - i,
        {
            proof {
                lemma_small_widths();
            }
            bound = 2 * bound;
            i = i + 1;
        }
        if path[b] as u32 >= bound {
            assert(!(path@[b as int] < width(bits_in_byte(height as nat, b as int))));
            return false;
        }
        b = b + 1;
    }
    true
}

proof fn lemma_small_widths()
    ensures
        width(0) == 1,
        width(1) == 2,
        width(2) == 4,
        width(3) == 8,
        width(4) == 16,
        width(5) == 32,
        width(6) == 64,
        width(7) == 128,
        width(8) == 256,
{
    reveal_with_fuel(width, 9);
}

/// Whether an encoded proof can be checked for a number of leaves.
pub fn batch_in_bounds(bytes: &[u8], leaves: usize) -> (checkable: bool)
    requires
        header_fits(bytes@),
    ensures
        checkable == batch_checkable(bytes@, leaves as nat),
{
    let paths = decode_paths(bytes);
    assert(paths@.len() == decoded_paths(bytes@, usize::BITS as nat).len());
    if paths.len() != leaves {
        return true;
    }
    match decode_proof(bytes) {
        Some((Some(height), _)) => height > 0 && (leaves <= 1 || indices_in_bounds(bytes, height)),
        _ => true,
    }
}

/// Whether the indices of an encoded proof, of the given height, have no bits beyond it.
pub fn indices_in_bounds(bytes: &[u8], height: usize) -> (clean: bool)
    requires
        header_fits(bytes@),
    ensures
        clean == forall|i: int|
            0 <= i < decoded_paths(bytes@, usize::BITS as nat).len() ==> path_fits(
                #[trigger] decoded_paths(bytes@, usize::BITS as nat)[i],
                height as nat,
            ),
{
    let paths = decode_paths(bytes);
    let ghost all = decoded_paths(bytes@, usize::BITS as nat);
    let mut i: usize = 0;
    while i < paths.len()
        invariant
            i <= paths@.len(),
            all == crate::erasure::hash_views(paths@),
            all == decoded_paths(bytes@, usize::BITS as nat),
            forall|j: int| 0 <= j < i ==> path_fits(#[trigger] all[j], height as nat),
        decreases paths@.len() - i,
    {
        if !path_in_bounds(&paths[i], height) {
            assert(!path_fits(all[i as int], height as nat));
            return false;
        }
        i = i + 1;
    }
    true
}

/// Calls `Mergeable::merge`: the parent of two nodes is the BLAKE3 hash of their concatenation.
#[verifier::external_body]
pub(crate) fn merge(left: &[u8; 32], right: &[u8; 32]) -> (parent: [u8; 32])
    ensures
        parent@ == merged(left@, right@),
{
    let node = |hash: &[u8; 32]| MTreeNodeSmt::<blake3::Hasher>::new(hash.to_vec());
    let parent = Mergeable::merge(&node(left), &node(right));
    parent.serialize().try_into().expect("a node has 32 bytes")
}

/// The leaf of `shard` at `position`.
pub fn hash_shard(shard: &[u8], position: usize) -> (leaf: [u8; 32])
    ensures
        leaf@ == shard_leaf(shard@, position as nat),
{
    let mut message: Vec<u8> = Vec::new();
    append_bytes(&mut message, shard);
    let mut suffix = u64_le_bytes(position as u64);
    proof {
        crate::bytes::lemma_le_bytes_prefix(position as nat, word_bytes(), 8);
    }
    suffix.truncate((usize::BITS / 8) as usize);
    append_bytes(&mut message, &suffix);
    assert(message@ =~= shard_message(shard@, position as nat));
    hash_blake3(&message)
}

/// The leaves of a list of shards, the first of which is at `start`.
pub open spec fn shard_leaves(shards: Seq<Seq<u8>>, start: nat) -> Seq<Seq<u8>> {
    Seq::new(shards.len(), |i: int| shard_leaf(shards[i], (start + i) as nat))
}

/// A Merkle tree over hashes.
pub struct Tree {
    raw: RawTree,
}

impl Tree {
    /// The leaves, from left to right.
    pub closed spec fn leaves(&self) -> Seq<Seq<u8>> {
        tree_leaves(self.raw)
    }

    /// The number of levels above the leaves.
    pub closed spec fn height(&self) -> nat {
        tree_height(self.raw)
    }

    /// The root.
    pub open spec fn root(&self) -> Seq<u8> {
        tree_node(self.leaves(), self.height(), 0)
    }

    #[verifier::type_invariant]
    spec fn inv(self) -> bool {
        &&& 0 < tree_height(self.raw) <= 64
        &&& tree_leaves(self.raw).len() <= width(tree_height(self.raw))
        &&& node_sized(tree_leaves(self.raw))
    }

    /// Builds the tree over `leaves`, of the least height with which they fit.
    pub fn merkle(leaves: &Vec<[u8; 32]>) -> (tree: Tree)
        requires
            2 <= leaves@.len() <= u32::MAX,
        ensures
            tree.leaves() == crate::erasure::hash_views(leaves@),
            0 < tree.height() <= 32,
            width((tree.height() - 1) as nat) < leaves@.len() <= width(tree.height()),
    {
        let raw = raw_merkle_tree(leaves);
        Tree { raw }
    }

    /// Builds the tree of the given height over `leaves`.
    pub fn of_height(leaves: &Vec<[u8; 32]>, height: usize) -> (tree: Tree)
        requires
            0 < height <= 64,
            leaves@.len() <= width(height as nat),
        ensures
            tree.leaves() == crate::erasure::hash_views(leaves@),
            tree.height() == height,
    {
        let raw = raw_tree_of_height(leaves, height);
        Tree { raw }
    }

    /// The number of levels above the leaves.
    pub fn get_height(&self) -> (height: usize)
        ensures
            height == self.height(),
            0 < height <= 64,
            self.leaves().len() <= width(height as nat),
            node_sized(self.leaves()),
    {
        proof {
            use_type_invariant(self);
        }
        raw_height(&self.raw)
    }

    /// The root.
    pub fn get_root(&self) -> (root: [u8; 32])
        ensures
            root@ == self.root(),
    {
        proof {
            use_type_invariant(self);
        }
        raw_root(&self.raw)
    }

    /// The encoded proof for the leaves `start..start + count`.
    pub fn prove_range(&self, start: usize, count: usize) -> (proof: Vec<u8>)
        requires
            start + count <= bottom_nodes(self.leaves()),
        ensures
            count == 0 ==> proof@ == Seq::<u8>::empty() && decoded_proof(
                proof@,
                usize::BITS as nat,
            ) == Some((None::<nat>, Seq::<Seq<u8>>::empty())),
            count > 0 ==> proof@ == encoded_proof(
                self.height(),
                start as nat,
                count as nat,
                range_siblings(self.leaves(), 0, start as nat, count as nat, self.height()),
            ),
            header_fits(proof@),
            usize::BITS == 64 ==> clean_indices(proof@, 64),
            usize::BITS == 64 && count > 0 ==> decoded_proof(proof@, 64) == Some(
                (
                    Some(self.height()),
                    range_siblings(self.leaves(), 0, start as nat, count as nat, self.height()),
                ),
            ),
    {
        proof {
            use_type_invariant(self);
        }
        let proof = raw_range_proof(&self.raw, start, count);
        assert(proof@.len() == proof.len());
        proof {
            let siblings = range_siblings(
                self.leaves(),
                0,
                start as nat,
                count as nat,
                self.height(),
            );
            crate::range_proof::lemma_range_siblings_sized(
                self.leaves(),
                0,
                start as nat,
                count as nat,
                self.height(),
            );
            if count > 0 {
                proof_layout::lemma_encoded(self.height(), start as nat, count as nat, siblings);
            }
        }
        proof
    }
}

} // verus!
