//! Three ways to check the Merkle proofs of the shards of a node: one proof for each shard, one
//! proof for all of them as the `smtree` crate checks it, and the same proof checked bottom-up.

use vstd::prelude::*;
use crate::bytes::bytes_eq;
use crate::coded_batch::hash_shards;
use crate::coding::{self, Shard};
use crate::erasure;
use crate::proof_layout;
use crate::range_proof::{self, climb};
use crate::smt::{
    self, batch_in_bounds, check_batch_proof, check_leaf_proof, decode_proof, hash_shard,
    header_in_bounds, leaves_fit, Tree,
};

verus! {

/// The number of nodes.
pub const N: usize = 10;

/// The number of nodes that may fail.
pub const F: usize = 3;

/// The number of shards of a node.
pub const DATA_SHARDS: usize = 7;

/// The number of shards of all nodes.
pub const TOTAL_SHARDS: usize = 70;

/// The number of bytes of a shard.
pub const SHARD_SIZE: usize = 1_024;

/// Shard `i`: its number in two bytes, and zeros.
pub open spec fn numbered_shard(i: nat) -> Seq<u8> {
    Seq::new(
        SHARD_SIZE as nat,
        |b: int|
            if b == 0 {
                (i % 256) as u8
            } else if b == 1 {
                ((i / 256) % 256) as u8
            } else {
                0
            },
    )
}

/// The shards to be proved.
pub fn build_shards() -> (shards: Vec<Shard>)
    ensures
        coding::shard_views(shards@) == Seq::new(
            TOTAL_SHARDS as nat,
            |i: int| numbered_shard(i as nat),
        ),
{
    let mut shards: Vec<Shard> = Vec::new();
    let mut i: usize = 0;
    while i < TOTAL_SHARDS
        invariant
            i <= TOTAL_SHARDS,
            shards@.len() == i,
            forall|j: int| 0 <= j < i ==> (#[trigger] shards@[j])@ == numbered_shard(j as nat),
        decreases TOTAL_SHARDS - i,
    {
        let mut shard: Shard = Vec::new();
        shard.push((i % 256) as u8);
        shard.push(((i / 256) % 256) as u8);
        while shard.len() < SHARD_SIZE
            invariant
                2 <= shard@.len() <= SHARD_SIZE,
                forall|b: int|
                    0 <= b < shard@.len() ==> (#[trigger] shard@[b]) == numbered_shard(
                        i as nat,
                    )[b],
            decreases SHARD_SIZE - shard@.len(),
        {
            shard.push(0u8);
        }
        assert(shard@ =~= numbered_shard(i as nat));
        shards.push(shard);
        i = i + 1;
    }
    assert(coding::shard_views(shards@) =~= Seq::new(
        TOTAL_SHARDS as nat,
        |j: int| numbered_shard(j as nat),
    ));
    shards
}

/// A tree whose leaves can be counted has less than 64 levels.
#[verifier::rlimit(40)]
#[verifier::spinoff_prover]
proof fn lemma_countable_width(height: nat)
    requires
        height >= 64,
    ensures
        smt::width(height) > usize::MAX,
    decreases height,
{
    if height == 64 {
        reveal_with_fuel(smt::width, 65);
    } else {
        lemma_countable_width((height - 1) as nat);
    }
}

/// The least height of a tree with `count` leaves, at least one.
fn least_height(count: usize) -> (height: usize)
    ensures
        0 < height <= 64,
        count <= smt::width(height as nat),
        height == 1 || smt::width((height - 1) as nat) < count,
{
    let mut height: usize = 1;
    let mut size: usize = 2;
    assert(smt::width(1) == 2 * smt::width(0) && smt::width(0) == 1);
    while size < count
        invariant
            0 < height <= 63,
            2 <= size,
            size == smt::width(height as nat),
            height == 1 || smt::width((height - 1) as nat) < count,
        decreases usize::MAX - size,
    {
        if size > usize::MAX / 2 {
            return height + 1;
        }
        size = 2 * size;
        height = height + 1;
        proof {
            if height > 63 {
                lemma_countable_width(height as nat);
            }
        }
    }
    height
}

/// The tree over shards.
pub fn build_tree(shards: &Vec<Shard>) -> (tree: Tree)
    ensures
        tree.leaves() == smt::shard_leaves(coding::shard_views(shards@), 0),
        0 < tree.height() <= 64,
        shards@.len() <= smt::width(tree.height()),
        tree.height() == 1 || smt::width((tree.height() - 1) as nat) < shards@.len(),
{
    let height: usize = least_height(shards.len());
    let leaves = hash_shards(shards, 0);
    Tree::of_height(&leaves, height)
}

/// The root of a tree.
pub fn root_node(tree: &Tree) -> (root: [u8; 32])
    ensures
        root@ == tree.root(),
{
    tree.get_root()
}

/// `bytes` is the proof that a tree gives for neighbouring leaves.
pub open spec fn proves_range(bytes: Seq<u8>, tree: &Tree, start: nat, count: nat) -> bool {
    let siblings = smt::range_siblings(tree.leaves(), 0, start, count, tree.height());
    &&& bytes == smt::encoded_proof(tree.height(), start, count, siblings)
    &&& smt::header_fits(bytes)
    &&& usize::BITS == 64 ==> smt::clean_indices(bytes, 64)
    &&& usize::BITS == 64 ==> smt::decoded_proof(bytes, 64) == Some(
        (Some(tree.height()), siblings),
    )
}

/// A proof for each shard of a node.
pub fn build_individual_proofs(tree: &Tree, node_idx: usize) -> (proofs: Vec<Vec<u8>>)
    requires
        (node_idx + 1) * DATA_SHARDS <= smt::bottom_nodes(tree.leaves()),
        (node_idx + 1) * DATA_SHARDS <= usize::MAX,
    ensures
        proofs@.len() == DATA_SHARDS,
        forall|j: int|
            0 <= j < DATA_SHARDS ==> proves_range(
                (#[trigger] proofs@[j])@,
                tree,
                (node_idx * DATA_SHARDS + j) as nat,
                1,
            ),
{
    let mut proofs: Vec<Vec<u8>> = Vec::new();
    let mut j: usize = 0;
    while j < DATA_SHARDS
        invariant
            j <= DATA_SHARDS,
            (node_idx + 1) * DATA_SHARDS <= smt::bottom_nodes(tree.leaves()),
            (node_idx + 1) * DATA_SHARDS <= usize::MAX,
            proofs@.len() == j,
            forall|i: int|
                0 <= i < j ==> proves_range(
                    (#[trigger] proofs@[i])@,
                    tree,
                    (node_idx * DATA_SHARDS + i) as nat,
                    1,
                ),
        decreases DATA_SHARDS - j,
    {
        proofs.push(tree.prove_range(node_idx * DATA_SHARDS + j, 1));
        j = j + 1;
    }
    proofs
}

/// One proof for all shards of a node.
pub fn build_batch_proof(tree: &Tree, node_idx: usize) -> (proof: Vec<u8>)
    requires
        (node_idx + 1) * DATA_SHARDS <= smt::bottom_nodes(tree.leaves()),
        (node_idx + 1) * DATA_SHARDS <= usize::MAX,
    ensures
        proves_range(proof@, tree, (node_idx * DATA_SHARDS) as nat, DATA_SHARDS as nat),
{
    tree.prove_range(node_idx * DATA_SHARDS, DATA_SHARDS)
}

/// The number of shards that have a proof.
pub open spec fn proved_count(shards: Seq<Vec<u8>>, proofs: Seq<Vec<u8>>) -> nat {
    if shards.len() < proofs.len() {
        shards.len()
    } else {
        proofs.len()
    }
}

/// The proof of shard `i` is accepted.
pub open spec fn leaf_accepted(
    shards: Seq<Vec<u8>>,
    start: nat,
    proofs: Seq<Vec<u8>>,
    root: Seq<u8>,
    i: int,
) -> bool {
    smt::leaf_proof_accepted(
        proofs[i]@,
        usize::BITS as nat,
        smt::shard_leaf(shards[i]@, (start + i) as nat),
        root,
    ) == Some(true)
}

/// Each of the shards that have a proof is accepted with it.
pub open spec fn all_leaves_accepted(
    shards: Seq<Vec<u8>>,
    start: nat,
    proofs: Seq<Vec<u8>>,
    root: Seq<u8>,
) -> bool {
    forall|i: int|
        0 <= i < proved_count(shards, proofs) ==> #[trigger] leaf_accepted(
            shards,
            start,
            proofs,
            root,
            i,
        )
}

/// The proof can be decoded.
pub open spec fn decodable(bytes: Seq<u8>) -> bool {
    &&& smt::header_fits(bytes)
    &&& smt::decoded_proof(bytes, usize::BITS as nat) is Some
}

/// The shards are leaves of the tree from `start` on, and the tree gave the proof of each.
pub open spec fn proved_by_tree(
    shards: Seq<Vec<u8>>,
    start: nat,
    proofs: Seq<Vec<u8>>,
    tree: &Tree,
) -> bool {
    &&& 0 < tree.height() <= 64
    &&& tree.leaves().len() <= smt::width(tree.height())
    &&& smt::node_sized(tree.leaves())
    &&& start + shards.len() <= tree.leaves().len()
    &&& forall|i: int|
        0 <= i < proved_count(shards, proofs) ==> {
            &&& tree.leaves()[start + i] == smt::shard_leaf(
                (#[trigger] shards[i])@,
                (start + i) as nat,
            )
            &&& proves_range(proofs[i]@, tree, (start + i) as nat, 1)
        }
}

/// The siblings that a tree gives for neighbouring leaves are as many as are needed, and lead
/// from these to its root.
pub proof fn law_tree_gives_exact_proofs(tree: &Tree, start: nat, count: nat)
    requires
        count > 0,
        start + count <= tree.leaves().len() <= smt::width(tree.height()),
        smt::node_sized(tree.leaves()),
    ensures
        smt::exact_proof(
            start,
            tree.leaves().subrange(start as int, (start + count) as int),
            smt::range_siblings(tree.leaves(), 0, start, count, tree.height()),
            tree.height(),
            tree.root(),
        ),
{
    let leaves = tree.leaves();
    lemma_range_siblings(leaves, 0, start, count, tree.height());
    assert((start + count - 1) * smt::width(0) == start + count - 1) by (nonlinear_arith)
        requires
            smt::width(0) == 1,
    ;
    range_proof::law_tree_siblings_reach_root(leaves, 0, start, count, tree.height());
    let nodes = range_proof::level_nodes(leaves, 0, start, count);
    assert forall|i: int| 0 <= i < count implies #[trigger] nodes[i] == leaves[start + i] by {
        assert((start + i) as nat * smt::width(0) == start + i) by (nonlinear_arith)
            requires
                smt::width(0) == 1,
                start + i >= 0,
        ;
    }
    assert(nodes =~= leaves.subrange(start as int, (start + count) as int));
}

/// The proofs can be decoded, up to the first that is not accepted.
pub open spec fn readable(
    shards: Seq<Vec<u8>>,
    start: nat,
    proofs: Seq<Vec<u8>>,
    root: Seq<u8>,
) -> bool {
    forall|i: int|
        0 <= i < proved_count(shards, proofs) && (forall|j: int|
            0 <= j < i ==> leaf_accepted(shards, start, proofs, root, j)) ==> decodable(
            (#[trigger] proofs[i])@,
        )
}

/// Checks each shard with a proof of its own.
pub fn verify_option_a(
    shards: &Vec<Shard>,
    start: usize,
    proofs: &Vec<Vec<u8>>,
    root: &[u8; 32],
) -> (accepted: bool)
    requires
        start + shards@.len() <= usize::MAX,
        readable(shards@, start as nat, proofs@, root@),
    ensures
        accepted == (forall|i: int|
            0 <= i < proved_count(shards@, proofs@) ==> leaf_accepted(
                shards@,
                start as nat,
                proofs@,
                root@,
                i,
            )),
        accepted == all_leaves_accepted(shards@, start as nat, proofs@, root@),
        forall|tree: &Tree|
            usize::BITS == 64 && #[trigger] proved_by_tree(shards@, start as nat, proofs@, tree)
                && root@ == tree.root() ==> accepted,
{
    let mut i: usize = 0;
    while i < shards.len() && i < proofs.len()
        invariant
            i <= proved_count(shards@, proofs@),
            start + shards@.len() <= usize::MAX,
            readable(shards@, start as nat, proofs@, root@),
            forall|j: int| 0 <= j < i ==> leaf_accepted(shards@, start as nat, proofs@, root@, j),
        decreases shards@.len() - i,
    {
        assert(decodable(proofs@[i as int]@));
        let leaf = hash_shard(&shards[i], start + i);
        let outcome = check_leaf_proof(&proofs[i], &leaf, root);
        proof {
            assert forall|tree: &Tree|
                usize::BITS == 64 && #[trigger] proved_by_tree(
                    shards@,
                    start as nat,
                    proofs@,
                    tree,
                ) && root@ == tree.root() implies outcome == Some(true) by {
                let place = (start + i) as nat;
                assert(shards@[i as int]@ == shards@[i as int]@);
                law_tree_gives_exact_proofs(tree, place, 1);
                lemma_range_siblings(tree.leaves(), 0, place, 1, tree.height());
                assert(tree.leaves().subrange(place as int, (place + 1) as int) =~= seq![leaf@]);
                assert(proofs@[i as int]@.len() == proofs@[i as int].len());
                proof_layout::law_leaf_proof_accepted(
                    tree.height(),
                    place,
                    smt::range_siblings(tree.leaves(), 0, place, 1, tree.height()),
                    leaf@,
                    root@,
                );
            }
        }
        match outcome {
            Some(true) => {
                assert(leaf_accepted(shards@, start as nat, proofs@, root@, i as int));
            },
            _ => {
                assert(!leaf_accepted(shards@, start as nat, proofs@, root@, i as int));
                return false;
            },
        }
        i = i + 1;
    }
    true
}

/// Checks each shard with a proof of its own; `None` if a proof that is reached cannot be
/// decoded.
pub fn checked_option_a(
    shards: &Vec<Shard>,
    start: usize,
    proofs: &Vec<Vec<u8>>,
    root: &[u8; 32],
) -> (accepted: Option<bool>)
    requires
        start + shards@.len() <= usize::MAX,
    ensures
        accepted is Some <==> readable(shards@, start as nat, proofs@, root@),
        accepted matches Some(accepted) ==> accepted == (forall|i: int|
            0 <= i < proved_count(shards@, proofs@) ==> leaf_accepted(
                shards@,
                start as nat,
                proofs@,
                root@,
                i,
            )),
{
    let mut i: usize = 0;
    let mut all = true;
    while i < shards.len() && i < proofs.len() && all
        invariant
            i <= proved_count(shards@, proofs@),
            start + shards@.len() <= usize::MAX,
            all ==> forall|j: int|
                0 <= j < i ==> leaf_accepted(shards@, start as nat, proofs@, root@, j),
            all ==> forall|j: int| 0 <= j < i ==> decodable((#[trigger] proofs@[j])@),
            !all ==> i > 0 && !leaf_accepted(shards@, start as nat, proofs@, root@, i - 1)
                && forall|j: int| 0 <= j < i ==> decodable((#[trigger] proofs@[j])@),
        decreases shards@.len() - i,
    {
        if !header_in_bounds(&proofs[i]) {
            assert(!decodable(proofs@[i as int]@));
            return None;
        }
        let leaf = hash_shard(&shards[i], start + i);
        match check_leaf_proof(&proofs[i], &leaf, root) {
            None => {
                assert(!decodable(proofs@[i as int]@));
                return None;
            },
            Some(accepted) => {
                all = accepted;
                assert(leaf_accepted(shards@, start as nat, proofs@, root@, i as int) == accepted);
            },
        }
        i = i + 1;
    }
    assert(readable(shards@, start as nat, proofs@, root@));
    Some(verify_option_a(shards, start, proofs, root))
}

/// Checks all shards with one proof, as the `smtree` crate does.
pub fn verify_batch_current(
    shards: &Vec<Shard>,
    start: usize,
    batch_proof: &Vec<u8>,
    root: &[u8; 32],
) -> (accepted: bool)
    requires
        start + shards@.len() <= usize::MAX,
        decodable(batch_proof@),
        smt::batch_checkable(batch_proof@, shards@.len()),
    ensures
        accepted == (smt::batch_proof_accepted(
            batch_proof@,
            usize::BITS as nat,
            smt::shard_leaves(coding::shard_views(shards@), start as nat),
            root@,
        ) == Some(true)),
        forall|tree: &Tree|
            {
                &&& usize::BITS == 64
                &&& shards@.len() > 0
                &&& #[trigger] proves_range(batch_proof@, tree, start as nat, shards@.len())
                &&& 0 < tree.height() <= 64
                &&& start + shards@.len() <= smt::width(tree.height())
                &&& smt::node_sized(tree.leaves())
            } ==> accepted == (range_proof::range_root(
                start as nat,
                smt::shard_leaves(coding::shard_views(shards@), start as nat),
                smt::range_siblings(
                    tree.leaves(),
                    0,
                    start as nat,
                    shards@.len(),
                    tree.height(),
                ),
                tree.height(),
            ) == Some(root@)),
{
    let leaves = hash_shards(shards, start);
    let ghost views = erasure::hash_views(leaves@);
    let outcome = check_batch_proof(batch_proof, &leaves, root);
    proof {
        assert forall|tree: &Tree|
            {
                &&& usize::BITS == 64
                &&& shards@.len() > 0
                &&& #[trigger] proves_range(batch_proof@, tree, start as nat, shards@.len())
                &&& 0 < tree.height() <= 64
                &&& start + shards@.len() <= smt::width(tree.height())
                &&& smt::node_sized(tree.leaves())
            } implies (outcome == Some(true)) == (range_proof::range_root(
            start as nat,
            views,
            smt::range_siblings(tree.leaves(), 0, start as nat, shards@.len(), tree.height()),
            tree.height(),
        ) == Some(root@)) by {
            let siblings = smt::range_siblings(
                tree.leaves(),
                0,
                start as nat,
                shards@.len(),
                tree.height(),
            );
            lemma_range_siblings(tree.leaves(), 0, start as nat, shards@.len(), tree.height());
            assert(smt::provable(start as nat, shards@.len(), tree.height(), siblings));
        }
    }
    match outcome {
        Some(accepted) => accepted,
        None => false,
    }
}

/// A proof that a tree gives has as many siblings as are needed, and they are nodes.
proof fn lemma_range_siblings(leaves: Seq<Seq<u8>>, level: nat, lo: nat, len: nat, height: nat)
    requires
        smt::node_sized(leaves),
    ensures
        smt::range_siblings(leaves, level, lo, len, height).len() == smt::siblings_needed(
            lo,
            len,
            height,
        ),
        smt::node_sized(smt::range_siblings(leaves, level, lo, len, height)),
    decreases height,
{
    if height > 0 {
        let count = smt::parent_count(lo, len);
        lemma_range_siblings(leaves, level + 1, lo / 2, count, (height - 1) as nat);
        let above = smt::range_siblings(leaves, level + 1, lo / 2, count, (height - 1) as nat);
        let here = smt::level_siblings(leaves, level, lo, len);
        if lo % 2 == 1 {
            lemma_node_size(leaves, level, (lo - 1) as nat);
        }
        if (lo + len) % 2 == 1 {
            lemma_node_size(leaves, level, lo + len);
        }
        let all = smt::range_siblings(leaves, level, lo, len, height);
        assert(all =~= above + here);
        assert(smt::node_sized(here));
        assert forall|i: int| 0 <= i < all.len() implies (#[trigger] all[i]).len() == 32 by {
            if i < above.len() {
                assert(all[i] == above[i]);
            } else {
                assert(all[i] == here[i - above.len()]);
            }
        }
    }
}

proof fn lemma_node_size(leaves: Seq<Seq<u8>>, level: nat, position: nat)
    requires
        smt::node_sized(leaves),
    ensures
        smt::tree_node(leaves, level, position).len() == 32,
{
    if position * smt::width(level) < leaves.len() && level == 0 {
        assert(position * smt::width(0) == position) by (nonlinear_arith)
            requires
                smt::width(0) == 1,
        ;
        assert(leaves[position as int].len() == 32);
    }
}

/// Checks all shards with one proof, as the `smtree` crate does; `None` if the proof cannot be
/// decoded, or if it has as many indices as there are shards, and these have no height or have
/// bits beyond it.
pub fn checked_batch_current(
    shards: &Vec<Shard>,
    start: usize,
    batch_proof: &Vec<u8>,
    root: &[u8; 32],
) -> (accepted: Option<bool>)
    requires
        start + shards@.len() <= usize::MAX,
    ensures
        accepted == if decodable(batch_proof@) && smt::batch_checkable(
            batch_proof@,
            shards@.len(),
        ) {
            smt::batch_proof_accepted(
                batch_proof@,
                usize::BITS as nat,
                smt::shard_leaves(coding::shard_views(shards@), start as nat),
                root@,
            )
        } else {
            None
        },
{
    if !header_in_bounds(batch_proof) {
        return None;
    }
    if decode_proof(batch_proof).is_none() || !batch_in_bounds(batch_proof, shards.len()) {
        return None;
    }
    let leaves = hash_shards(shards, start);
    let outcome = check_batch_proof(batch_proof, &leaves, root);
    match outcome {
        Some(_) => Some(verify_batch_current(shards, start, batch_proof, root)),
        None => None,
    }
}

/// Whether the siblings of a proof lead from the shards to the root.
pub fn range_accepted(
    shards: &Vec<Shard>,
    start: usize,
    height: usize,
    siblings: &Vec<[u8; 32]>,
    root: &[u8; 32],
) -> (accepted: bool)
    requires
        range_proof::in_range(start as nat, shards@.len(), height as nat),
        start + shards@.len() <= usize::MAX,
    ensures
        accepted == (range_proof::range_root(
            start as nat,
            smt::shard_leaves(coding::shard_views(shards@), start as nat),
            erasure::hash_views(siblings@),
            height as nat,
        ) == Some(root@)),
{
    let leaves = hash_shards(shards, start);
    match climb(start, leaves, siblings, height) {
        Some(found) => bytes_eq(&found, root),
        None => false,
    }
}

/// Checks all shards with one proof, bottom-up. Nothing leads to the root if there are no shards.
pub fn verify_option_b(
    shards: &Vec<Shard>,
    start: usize,
    height: usize,
    batch_proof: &Vec<u8>,
    root: &[u8; 32],
) -> (accepted: bool)
    requires
        shards@.len() > 0 ==> range_proof::in_range(
            start as nat,
            shards@.len(),
            height as nat,
        ),
        start + shards@.len() <= usize::MAX,
        decodable(batch_proof@),
    ensures
        match smt::decoded_proof(batch_proof@, usize::BITS as nat) {
            Some((_, siblings)) => accepted == (shards@.len() > 0 && range_proof::range_root(
                start as nat,
                smt::shard_leaves(coding::shard_views(shards@), start as nat),
                siblings,
                height as nat,
            ) == Some(root@)),
            None => false,
        },
{
    match decode_proof(batch_proof) {
        Some((_, siblings)) => shards.len() > 0 && range_accepted(
            shards,
            start,
            height,
            &siblings,
            root,
        ),
        None => false,
    }
}

/// Checks all shards with one proof, bottom-up; `None` if the proof cannot be decoded, or there
/// are no places for the shards in a tree of that height.
pub fn checked_option_b(
    shards: &Vec<Shard>,
    start: usize,
    height: usize,
    batch_proof: &Vec<u8>,
    root: &[u8; 32],
) -> (accepted: Option<bool>)
    ensures
        accepted is Some <==> decodable(batch_proof@) && (shards@.len() > 0
            ==> range_proof::in_range(start as nat, shards@.len(), height as nat)) && start
            + shards@.len() <= usize::MAX,
        accepted matches Some(accepted) ==> match smt::decoded_proof(
            batch_proof@,
            usize::BITS as nat,
        ) {
            Some((_, siblings)) => accepted == (shards@.len() > 0 && range_proof::range_root(
                start as nat,
                smt::shard_leaves(coding::shard_views(shards@), start as nat),
                siblings,
                height as nat,
            ) == Some(root@)),
            None => false,
        },
{
    if (shards.len() > 0 && !leaves_fit(start, shards.len(), height)) || !header_in_bounds(
        batch_proof,
    ) {
        return None;
    }
    match decode_proof(batch_proof) {
        Some(_) => Some(verify_option_b(shards, start, height, batch_proof, root)),
        None => None,
    }
}

} // verus!
