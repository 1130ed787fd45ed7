//! What coding a block, proving its shards and sending it out come to, in terms of bytes, places
//! and hashes alone.

use vstd::prelude::*;
use crate::coding::{self, Shard};
use crate::committee_laws;
use crate::consensus_core::Core;
use crate::crypto::{Digest, PublicKey, Signature};
use crate::erasure::{
    self, encode, encode_shards, hash_leaf, hash_node, merkle_root_and_proofs, reconstruct,
    shard_size, verify_proof, MerkleProof,
};
use crate::error::{ConsensusError, ConsensusResult};
use crate::fragments::{self, check_proofs, cut_fragment, place_shards};
use crate::messages::{Block, ErasureProposal, Round, QC, TC};
use crate::proposer::{self, batch_digest, AckCounter, Proposer};

verus! {

/// The size of a shard is the least with which the shards hold the data.
pub proof fn law_shards_are_no_larger_than_needed(data_len: usize, k: usize, size: usize)
    requires
        call_ensures(shard_size, (data_len, k), size),
        k > 0,
    ensures
        size * k >= data_len,
        size > 0 ==> (size - 1) * k < data_len,
{
    erasure::lemma_split_size(data_len as nat, k as nat);
    assert(k * size == size * k) by (nonlinear_arith);
    assert((size - 1) * k == size * k - k) by (nonlinear_arith);
}

/// The shards hold the data, byte after byte, and then zeros.
pub open spec fn holds_data(shards: Seq<Shard>, data: Seq<u8>, k: int, size: int) -> bool {
    &&& size > 0
    &&& size * k >= data.len()
    &&& (size - 1) * k < data.len()
    &&& forall|i: int| 0 <= i < shards.len() ==> (#[trigger] shards[i])@.len() == size
    &&& forall|i: int, j: int|
        0 <= i < k && 0 <= j < size && i * size + j < data.len() ==> #[trigger] shards[i]@[j]
            == data[i * size + j]
    &&& forall|i: int, j: int|
        0 <= i < k && 0 <= j < size && i * size + j >= data.len() ==> #[trigger] shards[i]@[j]
            == 0
}

/// Coding data gives the data itself, in the first shards, and as many shards as were asked for.
pub proof fn law_the_first_shards_are_the_data(data: &[u8], k: usize, n: usize, shards: Vec<Shard>)
    requires
        call_ensures(encode_shards, (data, k, n), shards),
        0 < k <= n,
        data@.len() > 0,
    ensures
        shards@.len() == n,
        exists|size: int| #[trigger] holds_data(shards@, data@, k as int, size),
{
    let size = erasure::split_size(data@.len(), k as nat);
    let views = coding::shard_views(shards@);
    let pieces = erasure::data_shards(data@, k as nat);
    erasure::lemma_split_size(data@.len(), k as nat);
    assert(k * size == size * k) by (nonlinear_arith);
    assert((size - 1) * k == size * k - k) by (nonlinear_arith);
    assert forall|i: int| 0 <= i < shards@.len() implies (#[trigger] shards@[i])@.len() == size by {
        assert(views[i].len() == size);
    }
    assert forall|i: int, j: int| 0 <= i < k && 0 <= j < size implies #[trigger] shards@[i]@[j]
        == (if i * size + j < data@.len() {
        data@[i * size + j]
    } else {
        0u8
    }) by {
        assert(views[i] == pieces[i]);
        assert(pieces[i] == erasure::data_shard(data@, size, i));
    }
    assert(holds_data(shards@, data@, k as int, size as int));
}

/// What is coded comes with the root and the proofs of the tree over the shards: each shard passes
/// its check at its own place with its own proof, and with that proof at no other place.
pub proof fn law_coded_shards_are_proved(
    data: &[u8],
    k: usize,
    n: usize,
    coded: (Vec<Shard>, [u8; 32], Vec<MerkleProof>),
    shard: &[u8],
    i: usize,
    place: usize,
    valid: bool,
)
    requires
        call_ensures(encode, (data, k, n), coded),
        0 < k <= n,
        i < n,
        shard@ == coded.0@[i as int]@,
        call_ensures(verify_proof, (shard, place, &coded.2@[i as int], &coded.1), valid),
    ensures
        valid <==> place == i,
        coded.0@.len() == n,
        coded.2@.len() == n,
{
    let word = erasure::encoded_shards(data@, k as nat, n as nat);
    assert(word.len() == coding::shard_views(coded.0@).len());
    assert(word[i as int] == coded.0@[i as int]@);
    erasure::law_honest_proofs_verify(word, i as int);
}

/// The places where there is a shard.
pub open spec fn places_taken(places: Seq<Option<Shard>>) -> Set<int> {
    Set::new(|i: int| 0 <= i < places.len() && places[i] is Some)
}

/// The shards that are there are counted.
pub proof fn lemma_present(shards: Seq<Option<Seq<u8>>>)
    ensures
        Set::new(|i: int| 0 <= i < shards.len() && shards[i] is Some).finite(),
        coding::present_count(shards) == Set::new(
            |i: int| 0 <= i < shards.len() && shards[i] is Some,
        ).len(),
    decreases shards.len(),
{
    let all = Set::new(|i: int| 0 <= i < shards.len() && shards[i] is Some);
    if shards.len() == 0 {
        assert(all =~= Set::empty());
    } else {
        let front = shards.drop_last();
        let fewer = Set::new(|i: int| 0 <= i < front.len() && front[i] is Some);
        lemma_present(front);
        if shards.last() is Some {
            assert(all =~= fewer.insert(shards.len() - 1));
        } else {
            assert(all =~= fewer);
        }
    }
}

/// The places that are taken are counted.
pub proof fn lemma_places_taken(places: Seq<Option<Shard>>)
    ensures
        places_taken(places).finite(),
        coding::present_count(coding::sparse_views(places)) == places_taken(places).len(),
{
    let views = coding::sparse_views(places);
    lemma_present(views);
    assert(places_taken(places) =~= Set::new(
        |i: int| 0 <= i < views.len() && views[i] is Some,
    ));
}

/// Any `k` of the coded shards give the data back, and fewer do not.
pub proof fn law_any_shards_give_the_data_back(
    data: &[u8],
    k: usize,
    n: usize,
    coded: (Vec<Shard>, [u8; 32], Vec<MerkleProof>),
    places: Vec<Option<Shard>>,
    outcome: ConsensusResult<Vec<u8>>,
)
    requires
        call_ensures(encode, (data, k, n), coded),
        call_ensures(reconstruct, (places, k, n, data@.len() as usize), outcome),
        0 < k < n,
        data@.len() > 0,
        data@.len() <= usize::MAX,
        places@.len() == n,
        forall|i: int|
            0 <= i < n && (#[trigger] places@[i]) is Some ==> places@[i]->0@ == coded.0@[i]@,
    ensures
        places_taken(places@).len() >= k ==> outcome is Ok && outcome->Ok_0@ == data@,
        places_taken(places@).len() < k ==> outcome == Err::<Vec<u8>, ConsensusError>(
            ConsensusError::ErasureReconstructionFailed,
        ),
{
    let word = erasure::encoded_shards(data@, k as nat, n as nat);
    let views = coding::sparse_views(places@);
    lemma_places_taken(places@);
    assert(word.len() == coding::shard_views(coded.0@).len());
    assert forall|i: int| 0 <= i < views.len() && (#[trigger] views[i]) is Some implies i
        < word.len() && views[i]->0 == word[i] by {
        assert(places@[i] is Some);
        assert(word[i] == coded.0@[i]@);
    }
    assert(coding::drawn_from(views, word));
}

/// Too few or too many places, or fewer shards than data shards, give nothing.
pub proof fn law_incomplete_shards_give_nothing(
    places: Vec<Option<Shard>>,
    k: usize,
    n: usize,
    block_len: usize,
    outcome: ConsensusResult<Vec<u8>>,
)
    requires
        call_ensures(reconstruct, (places, k, n, block_len), outcome),
    ensures
        places@.len() != n || places_taken(places@).len() < k || (exists|i: int|
            0 <= i < places@.len() && (#[trigger] places@[i]) is Some && places@[i]->0@.len() == 0)
            ==> outcome == Err::<Vec<u8>, ConsensusError>(
            ConsensusError::ErasureReconstructionFailed,
        ),
        outcome is Ok ==> outcome->Ok_0@.len() <= block_len,
{
    lemma_places_taken(places@);
    let views = coding::sparse_views(places@);
    assert(views.len() == places@.len());
    if exists|i: int|
        0 <= i < places@.len() && (#[trigger] places@[i]) is Some && places@[i]->0@.len() == 0 {
        let i = choose|i: int|
            0 <= i < places@.len() && (#[trigger] places@[i]) is Some && places@[i]->0@.len()
                == 0;
        assert(views[i] == Some(places@[i]->0@));
        lemma_empty_shard_is_a_fault(views, i);
    }
}

proof fn lemma_empty_shard_is_a_fault(shards: Seq<Option<Seq<u8>>>, i: int)
    requires
        0 <= i < shards.len(),
        shards[i] is Some,
        shards[i]->0.len() == 0,
    ensures
        coding::size_fault(shards) is Some,
    decreases shards.len(),
{
    if i < shards.len() - 1 {
        assert(shards.drop_last()[i] == shards[i]);
        lemma_empty_shard_is_a_fault(shards.drop_last(), i);
    }
}

/// A leaf is hashed behind a zero byte and a node behind a one, so no leaf is a node.
pub proof fn law_leaves_and_nodes_are_told_apart(
    data: &[u8],
    leaf: [u8; 32],
    left: &[u8; 32],
    right: &[u8; 32],
    node: [u8; 32],
)
    requires
        call_ensures(hash_leaf, (data,), leaf),
        call_ensures(hash_node, (left, right), node),
    ensures
        forall|j: int|
            0 <= j < 32 ==> #[trigger] leaf@[j] == crate::hashing::sha512_hash(
                seq![0u8] + data@,
            )@[j],
        forall|j: int|
            0 <= j < 32 ==> #[trigger] node@[j] == crate::hashing::sha512_hash(
                seq![1u8] + left@ + right@,
            )@[j],
        leaf@ == node@ ==> erasure::hash_collision(
            seq![0u8] + data@,
            seq![1u8] + left@ + right@,
        ),
{
    let (x, y) = (seq![0u8] + data@, seq![1u8] + left@ + right@);
    assert(x[0] == 0 && y[0] == 1);
}

/// The path of a shard begins with the leaf beside its own: to the right of an even place, where
/// the last one stands for itself, and to the left of an odd one. A tree of one shard is its leaf.
pub proof fn law_paths_begin_with_the_neighbour(
    shards: &[Shard],
    tree: ([u8; 32], Vec<MerkleProof>),
    i: int,
    beside: &[u8],
    leaf: [u8; 32],
)
    requires
        call_ensures(merkle_root_and_proofs, (shards,), tree),
        0 <= i < shards@.len(),
        beside@ == if i % 2 == 1 {
            shards@[i - 1]@
        } else if i + 1 < shards@.len() {
            shards@[i + 1]@
        } else {
            shards@[i]@
        },
        call_ensures(hash_leaf, (beside,), leaf),
    ensures
        tree.1@.len() == shards@.len(),
        shards@.len() == 1 ==> tree.1@[i].path@.len() == 0 && tree.0@ == leaf@,
        shards@.len() > 1 ==> {
            &&& tree.1@[i].path@.len() > 0
            &&& tree.1@[i].path@[0].0@ == leaf@
            &&& tree.1@[i].path@[0].1 <==> i % 2 == 1
        },
{
    let leaves = erasure::leaf_layer(coding::shard_views(shards@));
    let path = erasure::merkle_path(leaves, i);
    assert(tree.1@[i]@ == path);
    assert(path.len() == tree.1@[i].path@.len());
    if shards@.len() > 1 {
        assert(path[0] == (erasure::sibling(leaves, i), i % 2 == 1));
        assert(path[0] == (tree.1@[i].path@[0].0@, tree.1@[i].path@[0].1));
    }
}

/// All paths of a tree have one length, with which the places can just be told apart.
pub proof fn law_paths_are_as_long_as_needed(
    shards: &[Shard],
    tree: ([u8; 32], Vec<MerkleProof>),
    i: int,
)
    requires
        call_ensures(merkle_root_and_proofs, (shards,), tree),
        0 <= i < shards@.len(),
    ensures
        shards@.len() <= crate::smt::width(tree.1@[i].path@.len()),
        tree.1@[i].path@.len() > 0 ==> shards@.len() > crate::smt::width(
            (tree.1@[i].path@.len() - 1) as nat,
        ),
{
    let leaves = erasure::leaf_layer(coding::shard_views(shards@));
    assert(tree.1@[i]@ == erasure::merkle_path(leaves, i));
    assert(tree.1@[i]@.len() == tree.1@[i].path@.len());
    lemma_path_len(leaves, i);
}

proof fn lemma_path_len(layer: Seq<Seq<u8>>, i: int)
    requires
        0 <= i < layer.len(),
    ensures
        layer.len() <= crate::smt::width(erasure::merkle_path(layer, i).len()),
        erasure::merkle_path(layer, i).len() > 0 ==> layer.len() > crate::smt::width(
            (erasure::merkle_path(layer, i).len() - 1) as nat,
        ),
    decreases layer.len(),
{
    if layer.len() > 1 {
        let above = erasure::parent_layer(layer);
        lemma_path_len(above, i / 2);
        let (path, rest) = (
            erasure::merkle_path(layer, i),
            erasure::merkle_path(above, i / 2),
        );
        assert(path.len() == rest.len() + 1);
        assert(crate::smt::width(path.len()) == 2 * crate::smt::width(rest.len()));
        if rest.len() > 0 {
            assert(crate::smt::width(rest.len()) == 2 * crate::smt::width(
                (rest.len() - 1) as nat,
            ));
        }
    }
}

/// A proof of one step more leads to a root of a node over the root of the shorter one.
pub proof fn law_proofs_go_up_step_by_step(
    shard: &[u8],
    index: usize,
    short: &MerkleProof,
    long: &MerkleProof,
    root: &[u8; 32],
    beside: [u8; 32],
    left: bool,
    above: [u8; 32],
    longer_index: usize,
    valid: bool,
    valid_above: bool,
)
    requires
        call_ensures(verify_proof, (shard, index, short, root), valid),
        long.path@ == short.path@.push((beside, left)),
        left ==> call_ensures(hash_node, (&beside, root), above),
        !left ==> call_ensures(hash_node, (root, &beside), above),
        call_ensures(verify_proof, (shard, longer_index, long, &above), valid_above),
        longer_index == index + (if left {
            crate::smt::width(short.path@.len())
        } else {
            0
        }),
        valid,
    ensures
        valid_above,
{
    assert(long@ =~= short@.push((beside@, left)));
    lemma_longer_path(
        erasure::leaf_hash(shard@),
        index as nat,
        short@,
        (beside@, left),
        longer_index as nat,
    );
}

proof fn lemma_longer_path(
    current: Seq<u8>,
    index: nat,
    path: Seq<(Seq<u8>, bool)>,
    step: (Seq<u8>, bool),
    longer: nat,
)
    requires
        erasure::leads_to(path, index),
        longer == index + (if step.1 {
            crate::smt::width(path.len())
        } else {
            0
        }),
    ensures
        erasure::path_root(current, path.push(step)) == erasure::climb_step(
            erasure::path_root(current, path),
            step,
        ),
        erasure::leads_to(path.push(step), longer),
    decreases path.len(),
{
    let all = path.push(step);
    if path.len() == 0 {
        assert(all.drop_first() =~= Seq::empty());
        assert(erasure::path_root(erasure::climb_step(current, step), Seq::empty())
            == erasure::climb_step(current, step));
        assert(crate::smt::width(0) == 1);
        assert(all[0] == step);
        assert(erasure::leads_to(all.drop_first(), longer / 2));
    } else {
        assert(all[0] == path[0]);
        assert(all.drop_first() =~= path.drop_first().push(step));
        let half = crate::smt::width((path.len() - 1) as nat);
        assert(crate::smt::width(path.len()) == 2 * half);
        lemma_longer_path(
            erasure::climb_step(current, path[0]),
            index / 2,
            path.drop_first(),
            step,
            longer / 2,
        );
    }
}

/// Nothing but the leaf of a shard itself is proved by the empty path, and at the first place.
pub proof fn law_the_empty_path_proves_the_leaf(
    shard: &[u8],
    index: usize,
    empty: &MerkleProof,
    root: &[u8; 32],
    leaf: [u8; 32],
    valid: bool,
)
    requires
        call_ensures(verify_proof, (shard, index, empty, root), valid),
        call_ensures(hash_leaf, (shard,), leaf),
        empty.path@.len() == 0,
    ensures
        valid <==> index == 0 && root@ == leaf@,
{
}

/// The shards of node `i` are the next `k` after those of the nodes before it, each with its place
/// and its proof.
pub proof fn law_fragments_are_cut_in_order(
    node: usize,
    k: usize,
    shards: &Vec<Shard>,
    proofs: &Vec<MerkleProof>,
    fragment: (Vec<usize>, Vec<Shard>, Vec<MerkleProof>),
)
    requires
        call_ensures(cut_fragment, (node, k, shards, proofs), fragment),
        (node + 1) * k <= shards@.len(),
        shards@.len() <= usize::MAX,
        proofs@.len() == shards@.len(),
    ensures
        fragment.0@.len() == k,
        fragment.1@.len() == k,
        fragment.2@.len() == k,
        forall|j: int| 0 <= j < k ==> #[trigger] fragment.0@[j] == node * k + j,
        forall|j: int|
            0 <= j < k ==> (#[trigger] fragment.1@[j])@ == shards@[fragment.0@[j] as int]@,
        forall|j: int|
            0 <= j < k ==> (#[trigger] fragment.2@[j])@ == proofs@[fragment.0@[j] as int]@,
{
    let start = node * k;
    assert((node + 1) * k == start + k) by (nonlinear_arith)
        requires
            start == node * k,
    ;
    assert(0 <= start) by (nonlinear_arith)
        requires
            start == node * k,
            node >= 0,
            k >= 0,
    ;
    let (views, paths) = (coding::shard_views(fragment.1@), erasure::proof_views(fragment.2@));
    assert(views.len() == fragment.1@.len() && paths.len() == fragment.2@.len());
    assert forall|j: int| 0 <= j < k implies #[trigger] fragment.0@[j] == start + j by {
        assert(fragment.0@[j] == fragments::run_from(start as nat, k as nat)[j]);
    }
    assert forall|j: int| 0 <= j < k implies (#[trigger] fragment.1@[j])@
        == shards@[fragment.0@[j] as int]@ by {
        assert(views[j] == coding::shard_views(shards@)[start + j]);
        assert(fragment.0@[j] == start + j);
    }
    assert forall|j: int| 0 <= j < k implies (#[trigger] fragment.2@[j])@
        == proofs@[fragment.0@[j] as int]@ by {
        assert(paths[j] == erasure::proof_views(proofs@)[start + j]);
        assert(fragment.0@[j] == start + j);
    }
}

/// Every shard is put at its index, where the last of several for one place stays, and all other
/// places are empty.
pub proof fn law_shards_are_put_at_their_index(
    indices: &Vec<usize>,
    shards: &Vec<Shard>,
    total: usize,
    places: Vec<Option<Shard>>,
)
    requires
        call_ensures(place_shards, (indices, shards, total), places),
        indices@.len() == shards@.len(),
        forall|i: int| 0 <= i < indices@.len() ==> #[trigger] indices@[i] < total,
    ensures
        places@.len() == total,
        forall|i: int|
            {
                &&& 0 <= i < indices@.len()
                &&& forall|j: int| i < j < indices@.len() ==> indices@[j] != indices@[i]
            } ==> places@[(#[trigger] indices@[i]) as int] is Some && places@[indices@[i] as int]->0@
                == shards@[i]@,
        forall|p: int|
            {
                &&& 0 <= p < total
                &&& forall|i: int| 0 <= i < indices@.len() ==> #[trigger] indices@[i] != p
            } ==> (#[trigger] places@[p]) is None,
{
    let views = coding::shard_views(shards@);
    let found = coding::sparse_views(places@);
    lemma_placed(indices@, views, total as nat, indices@.len());
    assert(found.len() == places@.len());
    assert forall|i: int|
        {
            &&& 0 <= i < indices@.len()
            &&& forall|j: int| i < j < indices@.len() ==> indices@[j] != indices@[i]
        } implies places@[(#[trigger] indices@[i]) as int] is Some
        && places@[indices@[i] as int]->0@ == shards@[i]@ by {
        assert(found[indices@[i] as int] == Some(views[i]));
    }
    assert forall|p: int|
        {
            &&& 0 <= p < total
            &&& forall|i: int| 0 <= i < indices@.len() ==> #[trigger] indices@[i] != p
        } implies (#[trigger] places@[p]) is None by {
        assert(found[p] is None);
    }
}

proof fn lemma_placed(indices: Seq<usize>, shards: Seq<Seq<u8>>, total: nat, m: nat)
    requires
        m <= indices.len(),
        m <= shards.len(),
        forall|i: int| 0 <= i < m ==> #[trigger] indices[i] < total,
    ensures
        fragments::placed(indices, shards, total, m).len() == total,
        forall|i: int|
            {
                &&& 0 <= i < m
                &&& forall|j: int| i < j < m ==> indices[j] != indices[i]
            } ==> fragments::placed(indices, shards, total, m)[(#[trigger] indices[i]) as int]
                == Some(shards[i]),
        forall|p: int|
            {
                &&& 0 <= p < total
                &&& forall|i: int| 0 <= i < m ==> #[trigger] indices[i] != p
            } ==> (#[trigger] fragments::placed(indices, shards, total, m)[p]) is None,
    decreases m,
{
    if m > 0 {
        lemma_placed(indices, shards, total, (m - 1) as nat);
        let fewer = fragments::placed(indices, shards, total, (m - 1) as nat);
        let all = fragments::placed(indices, shards, total, m);
        assert forall|i: int|
            {
                &&& 0 <= i < m
                &&& forall|j: int| i < j < m ==> indices[j] != indices[i]
            } implies all[(#[trigger] indices[i]) as int] == Some(shards[i]) by {
            if i < m - 1 {
                assert(indices[m - 1] != indices[i]);
            }
        }
        assert forall|p: int|
            {
                &&& 0 <= p < total
                &&& forall|i: int| 0 <= i < m ==> #[trigger] indices[i] != p
            } implies (#[trigger] all[p]) is None by {
            assert(indices[m - 1] != p);
            assert(fewer[p] is None);
        }
    }
}

/// A list of shards passes exactly if each of them has an index and a proof, and passes its check
/// with these.
pub proof fn law_all_shards_are_checked(
    shards: &Vec<Shard>,
    indices: &Vec<usize>,
    proofs: &Vec<MerkleProof>,
    root: &[u8; 32],
    authentic: bool,
)
    requires
        call_ensures(check_proofs, (shards, indices, proofs, root), authentic),
    ensures
        authentic ==> shards@.len() <= indices@.len() && shards@.len() <= proofs@.len(),
        forall|i: int, shard: &[u8], valid: bool|
            {
                &&& 0 <= i < shards@.len()
                &&& i < indices@.len()
                &&& i < proofs@.len()
                &&& shard@ == shards@[i]@
                &&& #[trigger] call_ensures(
                    verify_proof,
                    (shard, indices@[i], &proofs@[i], root),
                    valid,
                )
            } ==> (authentic ==> valid),
        !authentic ==> shards@.len() > indices@.len() || shards@.len() > proofs@.len() || exists|
            i: int,
        |
            0 <= i < shards@.len() && !erasure::proves_at(
                (#[trigger] shards@[i])@,
                indices@[i] as nat,
                proofs@[i]@,
                root@,
            ),
{
    let (views, paths) = (coding::shard_views(shards@), erasure::proof_views(proofs@));
    assert(views.len() == shards@.len() && paths.len() == proofs@.len());
    assert forall|i: int, shard: &[u8], valid: bool|
        {
            &&& authentic
            &&& 0 <= i < shards@.len()
            &&& i < indices@.len()
            &&& i < proofs@.len()
            &&& shard@ == shards@[i]@
            &&& #[trigger] call_ensures(
                verify_proof,
                (shard, indices@[i], &proofs@[i], root),
                valid,
            )
        } implies valid by {
        assert(views[i] == shard@);
        assert(paths[i] == proofs@[i]@);
    }
    if !authentic && shards@.len() <= indices@.len() && shards@.len() <= proofs@.len() {
        let i = choose|i: int|
            0 <= i < views.len() && !erasure::proves_at(
                #[trigger] views[i],
                indices@[i] as nat,
                paths[i],
                root@,
            );
        assert(views[i] == shards@[i]@);
        assert(!erasure::proves_at(
            shards@[i]@,
            indices@[i] as nat,
            proofs@[i]@,
            root@,
        ));
    }
}

/// A batch is named by the first half of its SHA-512 hash.
pub proof fn law_batches_are_named_by_their_hash(batch: &[u8], digest: Digest)
    requires
        call_ensures(batch_digest, (batch,), digest),
    ensures
        forall|j: int|
            0 <= j < 32 ==> #[trigger] digest.0@[j] == crate::hashing::sha512_hash(batch@)@[j],
{
    assert forall|j: int| 0 <= j < 32 implies #[trigger] digest.0@[j]
        == crate::hashing::sha512_hash(batch@)@[j] by {
        assert(digest@[j] == proposer::batch_hash(batch@)[j]);
    }
}

/// Acknowledgements are enough exactly once the stake of the node and of all who acknowledged
/// adds up to the quorum.
pub proof fn law_acknowledgements_add_up(stake: u32)
    ensures
        forall|acks: &mut AckCounter, enough: bool| #[trigger]
            call_ensures(AckCounter::on_ack, (acks, stake), enough) ==> {
                &&& final(acks).total == acks.total + stake
                &&& final(acks).quorum == acks.quorum
                &&& enough <==> acks.total + stake >= acks.quorum
            },
        forall|proposer: &Proposer, acks: AckCounter, own: u32|
            {
                &&& #[trigger] call_ensures(Proposer::start_acks, (proposer,), acks)
                &&& #[trigger] call_ensures(
                    crate::committee::Committee::stake,
                    (&proposer.members(), &proposer.owner()),
                    own,
                )
            } ==> acks.total == own && acks.quorum == proposer.members().quorum,
{
}

/// A batch that came is in the next payload, once, and in none after that.
pub proof fn law_batches_are_proposed_once(batch: Vec<u8>)
    ensures
        forall|first: &mut Proposer, second: &mut Proposer, payload: Vec<Vec<u8>>|
            #![trigger call_ensures(Proposer::on_batch, (first, batch), ()), call_ensures(Proposer::take_payload, (second,), payload)]
            {
                &&& call_ensures(Proposer::on_batch, (first, batch), ())
                &&& *second == *final(first)
                &&& call_ensures(Proposer::take_payload, (second,), payload)
            } ==> {
                &&& exists|i: int| 0 <= i < payload@.len() && (#[trigger] payload@[i])@ == batch@
                &&& forall|i: int, j: int|
                    0 <= i < j < payload@.len() ==> (#[trigger] payload@[i])@ != (
                    #[trigger] payload@[j])@
            },
        forall|
            first: &mut Proposer,
            second: &mut Proposer,
            payload: Vec<Vec<u8>>,
            rest: Vec<Vec<u8>>,
        |
            #![trigger call_ensures(Proposer::take_payload, (first,), payload), call_ensures(Proposer::take_payload, (second,), rest)]
            {
                &&& call_ensures(Proposer::take_payload, (first,), payload)
                &&& *second == *final(first)
                &&& call_ensures(Proposer::take_payload, (second,), rest)
            } ==> rest@.len() == 0,
{
    assert forall|first: &mut Proposer, second: &mut Proposer, payload: Vec<Vec<u8>>|
        #![trigger call_ensures(Proposer::on_batch, (first, batch), ()), call_ensures(Proposer::take_payload, (second,), payload)]
        {
            &&& call_ensures(Proposer::on_batch, (first, batch), ())
            &&& *second == *final(first)
            &&& call_ensures(Proposer::take_payload, (second,), payload)
        } implies exists|i: int|
        0 <= i < payload@.len() && (#[trigger] payload@[i])@ == batch@ by {
        let digest = proposer::batch_hash(batch@);
        assert(second.buffered().contains_key(digest));
        assert(second.buffered()[digest] == batch@);
    }
    assert forall|
        first: &mut Proposer,
        second: &mut Proposer,
        payload: Vec<Vec<u8>>,
        rest: Vec<Vec<u8>>,
    |
        #![trigger call_ensures(Proposer::take_payload, (first,), payload), call_ensures(Proposer::take_payload, (second,), rest)]
        {
            &&& call_ensures(Proposer::take_payload, (first,), payload)
            &&& *second == *final(first)
            &&& call_ensures(Proposer::take_payload, (second,), rest)
        } implies rest@.len() == 0 by {
        if rest@.len() > 0 {
            assert(second.buffered().contains_pair(
                proposer::batch_hash(rest@[0]@),
                rest@[0]@,
            ));
        }
    }
}

/// The batch is one of the payload.
pub open spec fn holds_batch(payload: Seq<Vec<u8>>, batch: Seq<u8>) -> bool {
    exists|i: int| 0 <= i < payload.len() && (#[trigger] payload[i])@ == batch
}

/// A further batch joins the payload, next to all batches of other hashes that would have been
/// proposed without it, and to no others.
pub proof fn law_batches_do_not_push_others_out(batch: Vec<u8>)
    ensures
        forall|
            first: &mut Proposer,
            alone: &mut Proposer,
            second: &mut Proposer,
            without: Vec<Vec<u8>>,
            payload: Vec<Vec<u8>>,
        |
            #![trigger call_ensures(Proposer::on_batch, (first, batch), ()), call_ensures(Proposer::take_payload, (alone,), without), call_ensures(Proposer::take_payload, (second,), payload)]
            {
                &&& call_ensures(Proposer::on_batch, (first, batch), ())
                &&& *alone == *first
                &&& call_ensures(Proposer::take_payload, (alone,), without)
                &&& *second == *final(first)
                &&& call_ensures(Proposer::take_payload, (second,), payload)
            } ==> {
                &&& holds_batch(payload@, batch@)
                &&& forall|i: int|
                    0 <= i < without@.len() && crate::hashing::sha512_hash(
                        (#[trigger] without@[i])@,
                    )@.take(32) != crate::hashing::sha512_hash(batch@)@.take(32) ==> holds_batch(
                        payload@,
                        without@[i]@,
                    )
                &&& forall|j: int|
                    0 <= j < payload@.len() ==> (#[trigger] payload@[j])@ == batch@ || holds_batch(
                        without@,
                        payload@[j]@,
                    )
            },
{
    assert forall|
        first: &mut Proposer,
        alone: &mut Proposer,
        second: &mut Proposer,
        without: Vec<Vec<u8>>,
        payload: Vec<Vec<u8>>,
    |
        #![trigger call_ensures(Proposer::on_batch, (first, batch), ()), call_ensures(Proposer::take_payload, (alone,), without), call_ensures(Proposer::take_payload, (second,), payload)]
        {
            &&& call_ensures(Proposer::on_batch, (first, batch), ())
            &&& *alone == *first
            &&& call_ensures(Proposer::take_payload, (alone,), without)
            &&& *second == *final(first)
            &&& call_ensures(Proposer::take_payload, (second,), payload)
        } implies {
        &&& holds_batch(payload@, batch@)
        &&& forall|i: int|
            0 <= i < without@.len() && crate::hashing::sha512_hash(
                (#[trigger] without@[i])@,
            )@.take(32) != crate::hashing::sha512_hash(batch@)@.take(32) ==> holds_batch(
                payload@,
                without@[i]@,
            )
        &&& forall|j: int|
            0 <= j < payload@.len() ==> (#[trigger] payload@[j])@ == batch@ || holds_batch(
                without@,
                payload@[j]@,
            )
    } by {
        let digest = proposer::batch_hash(batch@);
        assert(second.buffered() == first.buffered().insert(digest, batch@));
        assert(second.buffered().contains_key(digest));
        assert forall|i: int|
            0 <= i < without@.len() && crate::hashing::sha512_hash(
                (#[trigger] without@[i])@,
            )@.take(32) != crate::hashing::sha512_hash(batch@)@.take(32) implies holds_batch(
            payload@,
            without@[i]@,
        ) by {
            let other = proposer::batch_hash(without@[i]@);
            assert(alone.buffered().contains_pair(other, without@[i]@));
            assert(second.buffered().contains_key(other));
            assert(second.buffered()[other] == without@[i]@);
        }
        assert forall|j: int| 0 <= j < payload@.len() implies (#[trigger] payload@[j])@ == batch@
            || holds_batch(without@, payload@[j]@) by {
            let other = proposer::batch_hash(payload@[j]@);
            assert(second.buffered().contains_pair(other, payload@[j]@));
            if other != digest {
                assert(alone.buffered().contains_key(other));
                assert(alone.buffered()[other] == payload@[j]@);
            }
        }
    }
}

/// A batch that is in a block already is not proposed, and all others still are.
pub proof fn law_cleaned_batches_are_not_proposed(
    batch: &[u8],
    digest: Digest,
    digests: &Vec<Digest>,
)
    requires
        call_ensures(batch_digest, (batch,), digest),
    ensures
        forall|first: &mut Proposer, second: &mut Proposer, payload: Vec<Vec<u8>>, i: int|
            #![trigger call_ensures(Proposer::on_cleanup, (first, digests), ()), call_ensures(Proposer::take_payload, (second,), payload), payload@[i]]
            {
                &&& call_ensures(Proposer::on_cleanup, (first, digests), ())
                &&& *second == *final(first)
                &&& call_ensures(Proposer::take_payload, (second,), payload)
                &&& exists|d: int| 0 <= d < digests@.len() && (#[trigger] digests@[d])@ == digest@
                &&& 0 <= i < payload@.len()
            } ==> payload@[i]@ != batch@,
        forall|
            before: &mut Proposer,
            first: &mut Proposer,
            second: &mut Proposer,
            had: Vec<Vec<u8>>,
            payload: Vec<Vec<u8>>,
            i: int,
        |
            #![trigger call_ensures(Proposer::take_payload, (before,), had), call_ensures(Proposer::on_cleanup, (first, digests), ()), call_ensures(Proposer::take_payload, (second,), payload), had@[i]]
            {
                &&& *first == *before
                &&& call_ensures(Proposer::take_payload, (before,), had)
                &&& call_ensures(Proposer::on_cleanup, (first, digests), ())
                &&& *second == *final(first)
                &&& call_ensures(Proposer::take_payload, (second,), payload)
                &&& 0 <= i < had@.len()
                &&& had@[i]@ == batch@
                &&& forall|d: int| 0 <= d < digests@.len() ==> (#[trigger] digests@[d])@ != digest@
            } ==> exists|j: int| 0 <= j < payload@.len() && (#[trigger] payload@[j])@ == batch@,
{
    assert forall|first: &mut Proposer, second: &mut Proposer, payload: Vec<Vec<u8>>, i: int|
        #![trigger call_ensures(Proposer::on_cleanup, (first, digests), ()), call_ensures(Proposer::take_payload, (second,), payload), payload@[i]]
        {
            &&& call_ensures(Proposer::on_cleanup, (first, digests), ())
            &&& *second == *final(first)
            &&& call_ensures(Proposer::take_payload, (second,), payload)
            &&& exists|d: int| 0 <= d < digests@.len() && (#[trigger] digests@[d])@ == digest@
            &&& 0 <= i < payload@.len()
        } implies payload@[i]@ != batch@ by {
        if payload@[i]@ == batch@ {
            assert(second.buffered().contains_pair(
                proposer::batch_hash(payload@[i]@),
                payload@[i]@,
            ));
            assert(second.buffered().contains_key(digest@));
            let d = choose|d: int|
                0 <= d < digests@.len() && (#[trigger] digests@[d])@ == digest@;
            assert(0 <= d < digests@.len() && digests@[d]@ == digest@);
            assert(digests@.contains(digests@[d]));
        }
    }
    assert forall|
        before: &mut Proposer,
        first: &mut Proposer,
        second: &mut Proposer,
        had: Vec<Vec<u8>>,
        payload: Vec<Vec<u8>>,
        i: int,
    |
        #![trigger call_ensures(Proposer::take_payload, (before,), had), call_ensures(Proposer::on_cleanup, (first, digests), ()), call_ensures(Proposer::take_payload, (second,), payload), had@[i]]
        {
            &&& *first == *before
            &&& call_ensures(Proposer::take_payload, (before,), had)
            &&& call_ensures(Proposer::on_cleanup, (first, digests), ())
            &&& *second == *final(first)
            &&& call_ensures(Proposer::take_payload, (second,), payload)
            &&& 0 <= i < had@.len()
            &&& had@[i]@ == batch@
            &&& forall|d: int| 0 <= d < digests@.len() ==> (#[trigger] digests@[d])@ != digest@
        } implies exists|j: int|
        0 <= j < payload@.len() && (#[trigger] payload@[j])@ == batch@ by {
        assert(before.buffered().contains_pair(proposer::batch_hash(had@[i]@), had@[i]@));
        assert(second.buffered().contains_key(digest@));
        assert(second.buffered()[digest@] == batch@);
    }
}

/// A drafted block is for the round and on the certificates that were asked for, by this node, and
/// holds what the payload would have held.
pub proof fn law_drafts_hold_the_payload(round: Round, qc: QC, tc: Option<TC>)
    ensures
        forall|proposer: &mut Proposer, block: Block| #[trigger]
            call_ensures(Proposer::draft_block, (proposer, round, qc, tc), block) ==> {
                &&& block.round == round
                &&& block.qc == qc
                &&& block.tc == tc
                &&& block.author == proposer.owner()
            },
        forall|first: &mut Proposer, second: &mut Proposer, batch: Vec<u8>, block: Block|
            #![trigger call_ensures(Proposer::on_batch, (first, batch), ()), call_ensures(Proposer::draft_block, (second, round, qc, tc), block)]
            {
                &&& call_ensures(Proposer::on_batch, (first, batch), ())
                &&& *second == *final(first)
                &&& call_ensures(Proposer::draft_block, (second, round, qc, tc), block)
            } ==> exists|i: int|
                0 <= i < block.payload@.len() && (#[trigger] block.payload@[i])@ == batch@,
        forall|first: &mut Proposer, second: &mut Proposer, block: Block, rest: Vec<Vec<u8>>|
            #![trigger call_ensures(Proposer::draft_block, (first, round, qc, tc), block), call_ensures(Proposer::take_payload, (second,), rest)]
            {
                &&& call_ensures(Proposer::draft_block, (first, round, qc, tc), block)
                &&& *second == *final(first)
                &&& call_ensures(Proposer::take_payload, (second,), rest)
            } ==> rest@.len() == 0,
{
    assert forall|first: &mut Proposer, second: &mut Proposer, batch: Vec<u8>, block: Block|
        #![trigger call_ensures(Proposer::on_batch, (first, batch), ()), call_ensures(Proposer::draft_block, (second, round, qc, tc), block)]
        {
            &&& call_ensures(Proposer::on_batch, (first, batch), ())
            &&& *second == *final(first)
            &&& call_ensures(Proposer::draft_block, (second, round, qc, tc), block)
        } implies exists|i: int|
        0 <= i < block.payload@.len() && (#[trigger] block.payload@[i])@ == batch@ by {
        let digest = proposer::batch_hash(batch@);
        assert(second.buffered().contains_key(digest));
        assert(second.buffered()[digest] == batch@);
    }
    assert forall|first: &mut Proposer, second: &mut Proposer, block: Block, rest: Vec<Vec<u8>>|
        #![trigger call_ensures(Proposer::draft_block, (first, round, qc, tc), block), call_ensures(Proposer::take_payload, (second,), rest)]
        {
            &&& call_ensures(Proposer::draft_block, (first, round, qc, tc), block)
            &&& *second == *final(first)
            &&& call_ensures(Proposer::take_payload, (second,), rest)
        } implies rest@.len() == 0 by {
        if rest@.len() > 0 {
            assert(second.buffered().contains_pair(
                proposer::batch_hash(rest@[0]@),
                rest@[0]@,
            ));
        }
    }
}

/// Every other node gets one proposal, which holds the shards of its own place, as many as a
/// quorum has stake; the proposal passes its check, and the block comes back from it.
pub proof fn law_every_node_gets_the_block(
    proposer: &Proposer,
    block_bytes: &Vec<u8>,
    round: Round,
    qc: &QC,
    tc: &Option<TC>,
    signature: Signature,
    proposals: Vec<(PublicKey, ErasureProposal)>,
    i: int,
    outcome: ConsensusResult<Vec<u8>>,
)
    requires
        call_ensures(
            Proposer::make_proposals,
            (proposer, block_bytes, round, qc, tc, signature),
            proposals,
        ),
        block_bytes@.len() > 0,
        0 <= i < proposals@.len(),
        call_ensures(Core::check_proposal, (&proposals@[i].1, &proposer.owner()), outcome),
    ensures
        outcome is Ok,
        outcome->Ok_0@ == block_bytes@,
        proposals@.map_values(|sent: (PublicKey, ErasureProposal)| sent.0)
            == committee_laws::names_but(proposer.members().authorities@, proposer.owner()@),
        ({
            let (to, proposal) = proposals@[i];
            let k = proposer.members().quorum as int;
            &&& proposal.author == proposer.owner()
            &&& proposal.round == round
            &&& proposal.qc.round == qc.round
            &&& proposal.qc.hash == qc.hash
            &&& proposal.qc.votes@ == qc.votes@
            &&& proposal.tc is Some <==> tc is Some
            &&& proposal.tc is Some ==> proposal.tc->0.round == tc->0.round
                && proposal.tc->0.votes@ == tc->0.votes@
            &&& proposal.signature == signature
            &&& proposal.data_shards == k
            &&& proposal.total_shards == k * proposer.members().authorities@.len()
            &&& proposal.block_len == block_bytes@.len()
            &&& proposal.shards@.len() == k
            &&& proposal.shard_indices@.len() == k
            &&& exists|place: int|
                {
                    &&& 0 <= place < proposer.members().authorities@.len()
                    &&& (#[trigger] proposer.members().authorities@[place]).name@ == to@
                    &&& forall|j: int|
                        0 <= j < k ==> #[trigger] proposal.shard_indices@[j] == place * k + j
                }
        }),
{
    let (to, proposal) = proposals@[i];
    let authorities = proposer.members().authorities@;
    let k = proposer.members().quorum as nat;
    let place = proposer.members().place_of(to)->0;
    crate::committee::lemma_place(authorities, to@);
    committee_laws::lemma_names_without(authorities, proposer.owner()@);
    let names = Seq::new(proposals@.len(), |j: int| proposals@[j].0);
    assert(names =~= proposals@.map_values(|sent: (PublicKey, ErasureProposal)| sent.0));
    assert(proposer::proposes(
        &proposal,
        block_bytes@,
        proposal.data_shards as nat,
        proposal.total_shards as nat,
        place,
    ));
    assert(proposal.shards@.len() == coding::shard_views(proposal.shards@).len());
    assert((place + 1) * k == place * k + k) by (nonlinear_arith);
    assert(0 <= place * k) by (nonlinear_arith);
    assert forall|j: int| 0 <= j < k implies #[trigger] proposal.shard_indices@[j] == place * k
        + j by {
        assert(proposal.shard_indices@[j] == fragments::run_from(place * k, k)[j]);
    }
    assert(authorities[place as int].name@ == to@);
}

/// What is reconstructed with a shorter length is the beginning of what is reconstructed with a
/// longer one, of that length if there is as much.
pub proof fn law_the_length_cuts_the_padding(
    places: Vec<Option<Shard>>,
    k: usize,
    n: usize,
    short: usize,
    long: usize,
    less: ConsensusResult<Vec<u8>>,
    more: ConsensusResult<Vec<u8>>,
)
    requires
        call_ensures(reconstruct, (places, k, n, short), less),
        call_ensures(reconstruct, (places, k, n, long), more),
        short <= long,
    ensures
        less is Ok <==> more is Ok,
        less is Ok ==> less->Ok_0@.is_prefix_of(more->Ok_0@),
        less is Ok && more->Ok_0@.len() >= short ==> less->Ok_0@.len() == short,
        less is Ok && more->Ok_0@.len() < short ==> less->Ok_0@ == more->Ok_0@,
{
}

/// Indices without a shard, and shards without an index, do not count.
pub proof fn law_surplus_indices_do_not_count(
    indices: &Vec<usize>,
    shards: &Vec<Shard>,
    fewer_indices: &Vec<usize>,
    fewer_shards: &Vec<Shard>,
    total: usize,
    places: Vec<Option<Shard>>,
    fewer_places: Vec<Option<Shard>>,
    m: int,
)
    requires
        call_ensures(place_shards, (indices, shards, total), places),
        call_ensures(place_shards, (fewer_indices, fewer_shards, total), fewer_places),
        m == if indices@.len() < shards@.len() {
            indices@.len() as int
        } else {
            shards@.len() as int
        },
        fewer_indices@ == indices@.take(m),
        fewer_shards@ == shards@.take(m),
    ensures
        places@.len() == fewer_places@.len(),
        forall|p: int|
            0 <= p < places@.len() ==> {
                &&& (#[trigger] places@[p]) is Some <==> fewer_places@[p] is Some
                &&& places@[p] is Some ==> places@[p]->0@ == fewer_places@[p]->0@
            },
{
    let (views, fewer) = (coding::shard_views(shards@), coding::shard_views(fewer_shards@));
    lemma_placed_prefix(indices@, views, fewer_indices@, fewer, total as nat, m as nat);
    let (a, b) = (coding::sparse_views(places@), coding::sparse_views(fewer_places@));
    assert(a == b);
    assert(a.len() == places@.len() && b.len() == fewer_places@.len());
    assert forall|p: int| 0 <= p < places@.len() implies {
        &&& (#[trigger] places@[p]) is Some <==> fewer_places@[p] is Some
        &&& places@[p] is Some ==> places@[p]->0@ == fewer_places@[p]->0@
    } by {
        assert(a[p] == b[p]);
    }
}

proof fn lemma_placed_prefix(
    indices: Seq<usize>,
    shards: Seq<Seq<u8>>,
    fewer_indices: Seq<usize>,
    fewer_shards: Seq<Seq<u8>>,
    total: nat,
    m: nat,
)
    requires
        m <= indices.len(),
        m <= shards.len(),
        m <= fewer_indices.len(),
        m <= fewer_shards.len(),
        forall|i: int| 0 <= i < m ==> indices[i] == #[trigger] fewer_indices[i],
        forall|i: int| 0 <= i < m ==> shards[i] == #[trigger] fewer_shards[i],
    ensures
        fragments::placed(indices, shards, total, m) == fragments::placed(
            fewer_indices,
            fewer_shards,
            total,
            m,
        ),
    decreases m,
{
    if m > 0 {
        lemma_placed_prefix(
            indices,
            shards,
            fewer_indices,
            fewer_shards,
            total,
            (m - 1) as nat,
        );
        assert(indices[m - 1] == fewer_indices[m - 1]);
        assert(shards[m - 1] == fewer_shards[m - 1]);
    }
}

} // verus!
