//! Cutting a block into fragments, one for each node, and putting it together again.
//!
//! With `k` data shards out of `k * n`, node `i` gets the shards `i * k..(i + 1) * k`, which are
//! enough to get the block back.

use vstd::prelude::*;
use crate::coding::{self, Shard};
use crate::erasure::{self, MerkleProof};

verus! {

/// The places of `total` shards, with the first `m` of `shards` put where `indices` say.
pub open spec fn placed(
    indices: Seq<usize>,
    shards: Seq<Seq<u8>>,
    total: nat,
    m: nat,
) -> Seq<Option<Seq<u8>>>
    decreases m,
{
    if m == 0 {
        crate::reconstructor::no_shards(total)
    } else {
        placed(indices, shards, total, (m - 1) as nat).update(
            indices[m - 1] as int,
            Some(shards[m - 1]),
        )
    }
}

/// The number of shards that have an index.
pub open spec fn paired_count(indices: Seq<usize>, shards: Seq<Seq<u8>>) -> nat {
    if indices.len() < shards.len() {
        indices.len()
    } else {
        shards.len()
    }
}

/// The places of `total` shards, with `shards` put where `indices` say, as far as both go.
pub open spec fn all_placed(indices: Seq<usize>, shards: Seq<Seq<u8>>, total: nat) -> Seq<
    Option<Seq<u8>>,
> {
    placed(indices, shards, total, paired_count(indices, shards))
}

/// Every index is a place.
pub open spec fn indices_fit(indices: Seq<usize>, shards: Seq<Seq<u8>>, total: nat) -> bool {
    forall|i: int| 0 <= i < paired_count(indices, shards) ==> (#[trigger] indices[i]) < total
}

/// Puts shards where the indices say.
pub fn place_shards(indices: &Vec<usize>, shards: &Vec<Shard>, total: usize) -> (places: Vec<
    Option<Shard>,
>)
    requires
        indices_fit(indices@, coding::shard_views(shards@), total as nat),
    ensures
        coding::sparse_views(places@) == all_placed(
            indices@,
            coding::shard_views(shards@),
            total as nat,
        ),
        places@.len() == total,
{
    let ghost views = coding::shard_views(shards@);
    let mut places: Vec<Option<Shard>> = crate::reconstructor::empty_places(total);
    let mut i: usize = 0;
    while i < indices.len() && i < shards.len()
        invariant
            i <= paired_count(indices@, views),
            views == coding::shard_views(shards@),
            places@.len() == total,
            indices_fit(indices@, views, total as nat),
            coding::sparse_views(places@) == placed(indices@, views, total as nat, i as nat),
        decreases indices@.len() - i,
    {
        let ghost before = coding::sparse_views(places@);
        assert(indices@[i as int] < total);
        places[indices[i]] = Some(shards[i].clone());
        assert(coding::sparse_views(places@) =~= before.update(
            indices@[i as int] as int,
            Some(views[i as int]),
        ));
        i = i + 1;
    }
    places
}

/// The indices from `start` on.
pub open spec fn run_from(start: nat, count: nat) -> Seq<usize> {
    Seq::new(count, |i: int| (start + i) as usize)
}

/// Shards with neighbouring indices fill these places and no others.
proof fn lemma_run_placed(start: nat, shards: Seq<Seq<u8>>, total: nat, m: nat)
    requires
        start + shards.len() <= total <= usize::MAX,
        m <= shards.len(),
    ensures
        placed(run_from(start, shards.len()), shards, total, m).len() == total,
        forall|i: int|
            0 <= i < total ==> #[trigger] placed(
                run_from(start, shards.len()),
                shards,
                total,
                m,
            )[i] == if start <= i < start + m {
                Some(shards[i - start])
            } else {
                None
            },
    decreases m,
{
    if m > 0 {
        lemma_run_placed(start, shards, total, (m - 1) as nat);
        assert(run_from(start, shards.len())[m - 1] == start + m - 1);
    }
}

/// The number of places that are filled when those of a run are.
proof fn lemma_run_count(places: Seq<Option<Seq<u8>>>, start: nat, count: nat)
    requires
        forall|i: int|
            0 <= i < places.len() ==> ((#[trigger] places[i]) is Some <==> start <= i < start
                + count),
    ensures
        coding::present_count(places) == if places.len() <= start {
            0
        } else if places.len() <= start + count {
            (places.len() - start) as nat
        } else {
            count
        },
    decreases places.len(),
{
    if places.len() > 0 {
        let front = places.drop_last();
        assert forall|i: int| 0 <= i < front.len() implies ((#[trigger] front[i]) is Some <==> start
            <= i < start + count) by {
            assert(front[i] == places[i]);
        }
        lemma_run_count(front, start, count);
        assert(places.last() == places[places.len() - 1]);
    }
}

/// The fragment of a node: the shards of `data` that are assigned to it, with their places, the
/// root that commits to all shards and the proofs.
pub open spec fn is_fragment(
    data: Seq<u8>,
    k: nat,
    n: nat,
    node: nat,
    indices: Seq<usize>,
    shards: Seq<Seq<u8>>,
    proofs: Seq<Seq<(Seq<u8>, bool)>>,
    root: Seq<u8>,
) -> bool {
    let word = erasure::encoded_shards(data, k, n);
    let leaves = erasure::leaf_layer(word);
    &&& word.len() == n
    &&& coding::uniform(word, erasure::split_size(data.len(), k))
    &&& (node + 1) * k <= n <= usize::MAX
    &&& indices == run_from(node * k, k)
    &&& shards == word.subrange((node * k) as int, (node * k + k) as int)
    &&& proofs == Seq::new(k, |i: int| erasure::merkle_path(leaves, node * k + i))
    &&& root == erasure::merkle_root(leaves)
}

/// Every shard has an index and a proof that it is authentic at that position under the root.
/// Indices and proofs beyond the shards do not matter.
pub open spec fn all_proved(
    shards: Seq<Seq<u8>>,
    indices: Seq<usize>,
    proofs: Seq<Seq<(Seq<u8>, bool)>>,
    root: Seq<u8>,
) -> bool {
    &&& shards.len() <= indices.len()
    &&& shards.len() <= proofs.len()
    &&& forall|i: int|
        0 <= i < shards.len() ==> erasure::proves_at(
            #[trigger] shards[i],
            indices[i] as nat,
            proofs[i],
            root,
        )
}

/// The shards of a fragment are authentic, they can be put in their places, and these have all
/// that is needed to get the data back.
pub proof fn law_fragment_suffices(
    data: Seq<u8>,
    k: nat,
    n: nat,
    node: nat,
    indices: Seq<usize>,
    shards: Seq<Seq<u8>>,
    proofs: Seq<Seq<(Seq<u8>, bool)>>,
    root: Seq<u8>,
)
    requires
        is_fragment(data, k, n, node, indices, shards, proofs, root),
    ensures
        all_proved(shards, indices, proofs, root),
        indices_fit(indices, shards, n),
        all_placed(indices, shards, n).len() == n,
        coding::present_count(all_placed(indices, shards, n)) == k,
        coding::drawn_from(all_placed(indices, shards, n), erasure::encoded_shards(data, k, n)),
{
    let word = erasure::encoded_shards(data, k, n);
    let start = node * k;
    assert((node + 1) * k == start + k) by (nonlinear_arith)
        requires
            start == node * k,
    ;
    assert forall|i: int| 0 <= i < shards.len() implies erasure::proves_at(
        #[trigger] shards[i],
        indices[i] as nat,
        proofs[i],
        root,
    ) by {
        erasure::law_honest_proofs_verify(word, start + i);
        assert(indices[i] == start + i);
    }
    let places = all_placed(indices, shards, n);
    lemma_run_placed(start, shards, n, k);
    lemma_run_count(places, start, k);
}

/// Whether every shard has an index and a proof that it is authentic at that position.
pub fn check_proofs(
    shards: &Vec<Shard>,
    indices: &Vec<usize>,
    proofs: &Vec<MerkleProof>,
    root: &[u8; 32],
) -> (authentic: bool)
    ensures
        authentic == all_proved(
            coding::shard_views(shards@),
            indices@,
            erasure::proof_views(proofs@),
            root@,
        ),
{
    let ghost views = coding::shard_views(shards@);
    let ghost paths = erasure::proof_views(proofs@);
    assert(views.len() == shards@.len() && paths.len() == proofs@.len());
    if shards.len() > indices.len() || shards.len() > proofs.len() {
        return false;
    }
    let mut i: usize = 0;
    while i < shards.len()
        invariant
            i <= shards@.len(),
            shards@.len() <= indices@.len(),
            shards@.len() <= proofs@.len(),
            views == coding::shard_views(shards@),
            paths == erasure::proof_views(proofs@),
            forall|j: int|
                0 <= j < i ==> erasure::proves_at(
                    #[trigger] views[j],
                    indices@[j] as nat,
                    paths[j],
                    root@,
                ),
        decreases shards@.len() - i,
    {
        if !erasure::verify_proof(&shards[i], indices[i], &proofs[i], root) {
            assert(!erasure::proves_at(
                views[i as int],
                indices@[i as int] as nat,
                paths[i as int],
                root@,
            ));
            return false;
        }
        i = i + 1;
    }
    true
}

/// The shards of a node, with their places and proofs, out of all shards of a block.
pub fn cut_fragment(
    node: usize,
    k: usize,
    shards: &Vec<Shard>,
    proofs: &Vec<MerkleProof>,
) -> (fragment: (Vec<usize>, Vec<Shard>, Vec<MerkleProof>))
    requires
        (node + 1) * k <= shards@.len(),
        proofs@.len() == shards@.len(),
    ensures
        fragment.0@ == run_from((node * k) as nat, k as nat),
        coding::shard_views(fragment.1@) == coding::shard_views(shards@).subrange(
            node * k,
            node * k + k,
        ),
        erasure::proof_views(fragment.2@) == erasure::proof_views(proofs@).subrange(
            node * k,
            node * k + k,
        ),
{
    assert((node + 1) * k == node * k + k) by (nonlinear_arith);
    assert(0 <= node * k) by (nonlinear_arith)
        requires
            node >= 0,
            k >= 0,
    ;
    let total: usize = shards.len();
    assert(node * k + k <= total);
    let start: usize = node * k;
    let mut indices: Vec<usize> = Vec::new();
    let mut own_shards: Vec<Shard> = Vec::new();
    let mut own_proofs: Vec<MerkleProof> = Vec::new();
    let mut i: usize = 0;
    while i < k
        invariant
            i <= k,
            start == node * k,
            start + k <= shards@.len(),
            start + k <= usize::MAX,
            proofs@.len() == shards@.len(),
            indices@.len() == i,
            own_shards@.len() == i,
            own_proofs@.len() == i,
            forall|j: int| 0 <= j < i ==> (#[trigger] indices@[j]) == start + j,
            forall|j: int| 0 <= j < i ==> (#[trigger] own_shards@[j])@ == shards@[start + j]@,
            forall|j: int| 0 <= j < i ==> (#[trigger] own_proofs@[j])@ == proofs@[start + j]@,
        decreases k - i,
    {
        indices.push(start + i);
        own_shards.push(shards[start + i].clone());
        own_proofs.push(proofs[start + i].copy());
        i = i + 1;
    }
    assert(indices@ =~= run_from(start as nat, k as nat));
    assert(coding::shard_views(own_shards@) =~= coding::shard_views(shards@).subrange(
        start as int,
        start + k,
    ));
    assert(erasure::proof_views(own_proofs@) =~= erasure::proof_views(proofs@).subrange(
        start as int,
        start + k,
    ));
    (indices, own_shards, own_proofs)
}

} // verus!
