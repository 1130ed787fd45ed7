//! What coding a batch, bundling its shards and checking bundles comes to, in terms of bytes,
//! places and stake alone.

use vstd::prelude::*;
use crate::block_laws;
use crate::coded_batch::{
    self, root_digest, AuthenticatedShard, Batch, CodedBatch, DecodedProof,
};
use crate::coding::{self, Shard};
use crate::committee::Committee;
use crate::committee_laws;
use crate::crypto::{self, Digest, PublicKey, Signature};
use crate::erasure;
use crate::error::{MempoolError, MempoolResult};
use crate::mempool_laws;
use crate::smt::{self, hash_shard, Tree};
use crate::vote_laws;

verus! {

/// The transactions of a batch, one after the other.
pub open spec fn all_transactions(batch: Seq<Vec<u8>>) -> Seq<u8> {
    batch.map_values(|transaction: Vec<u8>| transaction@).flatten()
}

/// The transactions are joined in order.
pub proof fn lemma_all_transactions(batch: Seq<Vec<u8>>)
    ensures
        coding::joined(coding::shard_views(batch)) == all_transactions(batch),
{
    let views = coding::shard_views(batch);
    assert(views =~= batch.map_values(|transaction: Vec<u8>| transaction@));
    lemma_flatten(views);
    views.lemma_flatten_and_flatten_alt_are_equivalent();
}

proof fn lemma_flatten(views: Seq<Seq<u8>>)
    ensures
        coding::joined(views) == views.flatten_alt(),
    decreases views.len(),
{
    if views.len() > 0 {
        lemma_flatten(views.drop_last());
        assert(coding::joined(views) =~= views.flatten_alt());
    }
}

/// A coded batch has as many shards as the committee wants, and the first ones hold the
/// transactions, one after the other.
pub proof fn law_a_coded_batch_holds_the_transactions(
    batch: Batch,
    batch_size: usize,
    committee: &Committee,
    coded: CodedBatch,
)
    requires
        call_ensures(CodedBatch::new, (batch, batch_size, committee), coded),
        committee.data_shards > 0,
        committee.parity_shards > 0,
        all_transactions(batch@).len() > 0,
    ensures
        coded.shards@.len() == committee.data_shards + committee.parity_shards,
        exists|size: int| #[trigger]
            block_laws::holds_data(
                coded.shards@,
                all_transactions(batch@),
                committee.data_shards as int,
                size,
            ),
{
    let data = all_transactions(batch@);
    let (k, n) = (
        committee.data_shards as nat,
        (committee.data_shards + committee.parity_shards) as nat,
    );
    lemma_all_transactions(batch@);
    let size = erasure::split_size(data.len(), k);
    let views = coding::shard_views(coded.shards@);
    let pieces = erasure::data_shards(data, k);
    assert(views.len() == coded.shards@.len());
    erasure::lemma_split_size(data.len(), k);
    assert(k * size == size * k) by (nonlinear_arith);
    assert((size - 1) * k == size * k - k) by (nonlinear_arith);
    assert(views[0] == pieces[0]);
    assert(pieces[0] == erasure::data_shard(data, size, 0));
    assert forall|i: int| 0 <= i < coded.shards@.len() implies (
    #[trigger] coded.shards@[i])@.len() == size by {
        assert(views[i].len() == views[0].len());
    }
    assert forall|i: int, j: int| 0 <= i < k && 0 <= j < size implies #[trigger] coded.shards@[i]@[j]
        == (if i * size + j < data.len() {
        data[i * size + j]
    } else {
        0u8
    }) by {
        assert(views[i] == pieces[i]);
        assert(pieces[i] == erasure::data_shard(data, size, i));
    }
    assert(block_laws::holds_data(coded.shards@, data, k as int, size as int));
}

/// A coded batch comes back from as many of its shards as it has data shards, and from no fewer.
/// Whatever comes back keeps the shards that were given, in their places, and has as many shards of
/// one size; and the parity shards are those of the data shards.
pub proof fn law_a_coded_batch_comes_back(
    batch: Batch,
    batch_size: usize,
    committee: &Committee,
    coded: CodedBatch,
    given: Vec<Option<Shard>>,
    outcome: MempoolResult<CodedBatch>,
)
    requires
        call_ensures(CodedBatch::new, (batch, batch_size, committee), coded),
        call_ensures(CodedBatch::reconstruct, (given, committee), outcome),
        committee.data_shards > 0,
        given@.len() == committee.data_shards + committee.parity_shards,
    ensures
        block_laws::places_taken(given@).len() >= committee.data_shards && (forall|i: int|
            0 <= i < given@.len() && (#[trigger] given@[i]) is Some ==> given@[i]->0@
                == coded.shards@[i]@) ==> {
            &&& outcome is Ok
            &&& outcome->Ok_0.shards@.len() == coded.shards@.len()
            &&& forall|i: int|
                0 <= i < coded.shards@.len() ==> (#[trigger] outcome->Ok_0.shards@[i])@
                    == coded.shards@[i]@
        },
        block_laws::places_taken(given@).len() < committee.data_shards ==> outcome is Err,
        outcome is Ok ==> forall|i: int|
            0 <= i < given@.len() && (#[trigger] given@[i]) is Some ==> i
                < outcome->Ok_0.shards@.len() && outcome->Ok_0.shards@[i]@ == given@[i]->0@,
        outcome is Ok ==> forall|i: int|
            0 <= i < outcome->Ok_0.shards@.len() ==> (#[trigger] outcome->Ok_0.shards@[i])@.len()
                == outcome->Ok_0.shards@[0]@.len(),
        outcome is Ok ==> ({
            let all = outcome->Ok_0.shards@.map_values(|shard: Vec<u8>| shard@);
            all == all.take(committee.data_shards as int) + coding::rs_parity(
                all.take(committee.data_shards as int),
                committee.parity_shards as nat,
            )
        }),
{
    let views = coding::sparse_views(given@);
    let word = coding::shard_views(coded.shards@);
    block_laws::lemma_places_taken(given@);
    assert(views.len() == given@.len() && word.len() == coded.shards@.len());
    if forall|i: int|
        0 <= i < given@.len() && (#[trigger] given@[i]) is Some ==> given@[i]->0@
            == coded.shards@[i]@ {
        assert forall|i: int| 0 <= i < views.len() && (#[trigger] views[i]) is Some implies i
            < word.len() && views[i]->0 == word[i] by {
            assert(given@[i] is Some);
        }
        assert(coding::drawn_from(views, word));
        if block_laws::places_taken(given@).len() >= committee.data_shards {
            assert(outcome->Ok_0@ == word);
            assert(outcome->Ok_0@.len() == outcome->Ok_0.shards@.len());
            assert forall|i: int| 0 <= i < coded.shards@.len() implies (
            #[trigger] outcome->Ok_0.shards@[i])@ == coded.shards@[i]@ by {
                assert(outcome->Ok_0@[i] == word[i]);
            }
        }
    }
    if outcome is Ok {
        let full = outcome->Ok_0@;
        assert(full.len() == outcome->Ok_0.shards@.len());
        assert forall|i: int| 0 <= i < given@.len() && (#[trigger] given@[i]) is Some implies i
            < outcome->Ok_0.shards@.len() && outcome->Ok_0.shards@[i]@ == given@[i]->0@ by {
            assert(views[i] == Some(given@[i]->0@));
        }
        assert forall|i: int| 0 <= i < outcome->Ok_0.shards@.len() implies (
        #[trigger] outcome->Ok_0.shards@[i])@.len() == outcome->Ok_0.shards@[0]@.len() by {
            assert(full[i].len() == full[0].len());
        }
        assert(full =~= outcome->Ok_0.shards@.map_values(|shard: Vec<u8>| shard@));
    }
}

/// Compressing a coded batch keeps its data shards, and expanding that gives the whole batch back.
pub proof fn law_expanding_undoes_compressing(
    batch: Batch,
    batch_size: usize,
    committee: &Committee,
    coded: CodedBatch,
)
    requires
        call_ensures(CodedBatch::new, (batch, batch_size, committee), coded),
        committee.data_shards > 0,
    ensures
        forall|whole: &mut CodedBatch|
            {
                &&& #[trigger] call_ensures(CodedBatch::compress, (whole, committee), ())
                &&& whole.shards@.len() >= committee.data_shards
            } ==> {
                &&& final(whole).shards@.len() == committee.data_shards
                &&& forall|i: int|
                    0 <= i < committee.data_shards ==> (#[trigger] final(whole).shards@[i])@
                        == whole.shards@[i]@
            },
        forall|whole: &mut CodedBatch, less: &mut CodedBatch, outcome: MempoolResult<()>|
            #![trigger call_ensures(CodedBatch::compress, (whole, committee), ()), call_ensures(CodedBatch::expand, (less, committee), outcome)]
            {
                &&& *whole == coded
                &&& call_ensures(CodedBatch::compress, (whole, committee), ())
                &&& *less == *final(whole)
                &&& call_ensures(CodedBatch::expand, (less, committee), outcome)
            } ==> {
                &&& outcome is Ok
                &&& final(less).shards@.len() == coded.shards@.len()
                &&& forall|i: int|
                    0 <= i < coded.shards@.len() ==> (#[trigger] final(less).shards@[i])@
                        == coded.shards@[i]@
            },
        forall|batch: &mut CodedBatch, outcome: MempoolResult<()>| #[trigger]
            call_ensures(CodedBatch::expand, (batch, committee), outcome) && outcome is Err
                ==> *final(batch) == *batch,
{
    assert forall|whole: &mut CodedBatch|
        {
            &&& #[trigger] call_ensures(CodedBatch::compress, (whole, committee), ())
            &&& whole.shards@.len() >= committee.data_shards
        } implies {
        &&& final(whole).shards@.len() == committee.data_shards
        &&& forall|i: int|
            0 <= i < committee.data_shards ==> (#[trigger] final(whole).shards@[i])@
                == whole.shards@[i]@
    } by {
        let (before, after) = (whole@, final(whole)@);
        let shards = final(whole).shards@;
        assert(before.len() == whole.shards@.len());
        assert(after.len() == shards.len());
        assert forall|i: int| 0 <= i < committee.data_shards implies (#[trigger] shards[i])@
            == whole.shards@[i]@ by {
            assert(after[i] == before[i]);
        }
    }
    assert forall|whole: &mut CodedBatch, less: &mut CodedBatch, outcome: MempoolResult<()>|
        #![trigger call_ensures(CodedBatch::compress, (whole, committee), ()), call_ensures(CodedBatch::expand, (less, committee), outcome)]
        {
            &&& *whole == coded
            &&& call_ensures(CodedBatch::compress, (whole, committee), ())
            &&& *less == *final(whole)
            &&& call_ensures(CodedBatch::expand, (less, committee), outcome)
        } implies {
        &&& outcome is Ok
        &&& final(less).shards@.len() == coded.shards@.len()
        &&& forall|i: int|
            0 <= i < coded.shards@.len() ==> (#[trigger] final(less).shards@[i])@
                == coded.shards@[i]@
    } by {
        let word = coded@;
        let (k, parity) = (committee.data_shards as nat, committee.parity_shards as nat);
        coded_batch::law_expand_undoes_compress(word, k, parity);
        assert(less@ =~= word.take(k as int));
        let full = final(less)@;
        let shards = final(less).shards@;
        assert(full == word);
        assert(full.len() == shards.len() && word.len() == coded.shards@.len());
        assert forall|i: int| 0 <= i < coded.shards@.len() implies (#[trigger] shards[i])@
            == coded.shards@[i]@ by {
            assert(full[i] == word[i]);
        }
    }
}

/// A leaf is the BLAKE3 hash of the shard, followed by its position in as many bytes as a word
/// has, the lowest first.
pub proof fn law_leaves_hold_the_shard_and_its_position(
    shard: &[u8],
    position: usize,
    leaf: [u8; 32],
)
    requires
        call_ensures(hash_shard, (shard, position), leaf),
        usize::BITS == 64,
    ensures
        exists|message: Seq<u8>|
            {
                &&& #[trigger] mempool_laws::is_key_of(message, shard@, position as int)
                &&& leaf@ == crate::hashing::blake3_hash(message)@
            },
{
    let message = smt::shard_message(shard@, position as nat);
    mempool_laws::lemma_key(shard@, position as nat);
    assert(message =~= crate::keys::shard_key_of(shard@, position as nat));
    assert(mempool_laws::is_key_of(message, shard@, position as int));
}

/// What a bundle is made of is in it, and the digest of a tree is its root.
pub proof fn law_bundles_are_made_as_asked(
    shards: Vec<Shard>,
    node_idx: usize,
    data_shards: usize,
    tree: &Tree,
    author: PublicKey,
    signature: Signature,
    bundle: AuthenticatedShard,
    root: Digest,
    same: AuthenticatedShard,
)
    requires
        call_ensures(
            AuthenticatedShard::new,
            (shards, node_idx, data_shards, tree, author, signature),
            bundle,
        ),
        call_ensures(root_digest, (tree,), root),
        call_ensures(
            AuthenticatedShard::make_with_signature,
            (shards, node_idx, data_shards, tree, root, author, signature),
            same,
        ),
    ensures
        bundle.shards@ == shards@,
        bundle.node_idx == node_idx,
        bundle.author == author,
        bundle.signature == signature,
        bundle.root.0@ == root.0@,
        same.shards@ == shards@,
        same.node_idx == node_idx,
        same.author == author,
        same.signature == signature,
        same.root == root,
        same.proof@ == bundle.proof@,
{
}

/// What the check of a bundle comes to before its proof is looked at: it passes only if the author
/// has stake, the signature is the author's, and there are as many shards as in a full or in a
/// pruned bundle; each fault comes in this order.
pub proof fn law_bundles_are_checked_in_order(
    bundle: &AuthenticatedShard,
    committee: &Committee,
    signature_valid: bool,
    held: &DecodedProof,
    outcome: MempoolResult<()>,
)
    requires
        call_ensures(
            AuthenticatedShard::verify_decoded,
            (bundle, committee, signature_valid, held),
            outcome,
        ),
        committee_laws::all_differ(committee.authorities@),
    ensures
        ({
            let stake = vote_laws::listed_stake(committee.authorities@, bundle.author.0@);
            let count = bundle.shards@.len();
            &&& stake == 0 <==> outcome == Err::<(), MempoolError>(
                MempoolError::UnknownAuthority(bundle.author),
            )
            &&& stake > 0 && !signature_valid <==> outcome == Err::<(), MempoolError>(
                MempoolError::InvalidSignature,
            )
            &&& outcome is Ok ==> count > 0 && (count == 1 || count == committee.data_shards)
            &&& outcome is Ok ==> held is Some && (held->0).0 is Some
            &&& stake > 0 && signature_valid && (count == 0 || (count != 1 && count
                != committee.data_shards) || held is None || (held->0).0 is None) ==> outcome
                == Err::<(), MempoolError>(MempoolError::BadInclusionProof)
        }),
        forall|checked: MempoolResult<()>|
            {
                &&& #[trigger] call_ensures(
                    AuthenticatedShard::verify,
                    (bundle, committee),
                    checked,
                )
                &&& bundle.decoded() == coded_batch::proof_view(*held)
                &&& signature_valid == crypto::signature_accepted(
                    bundle.root.0@,
                    bundle.author.0@,
                    bundle.signature.part1@ + bundle.signature.part2@,
                )
            } ==> checked == outcome,
{
    vote_laws::lemma_listed_stake(committee.authorities@, bundle.author.0@);
}

/// A tree with a single level: the bundle of one shard passes exactly if the root is hashed from
/// its leaf and the sibling, on the side of its place.
pub proof fn law_a_pair_is_hashed_in_order(
    bundle: &AuthenticatedShard,
    committee: &Committee,
    held: &DecodedProof,
    leaf: [u8; 32],
    shard: &[u8],
    beside: [u8; 32],
    outcome: MempoolResult<()>,
)
    requires
        call_ensures(AuthenticatedShard::verify_decoded, (bundle, committee, true, held), outcome),
        committee_laws::all_differ(committee.authorities@),
        vote_laws::listed_stake(committee.authorities@, bundle.author.0@) > 0,
        bundle.shards@.len() == 1,
        committee.data_shards == 1,
        bundle.node_idx < 2,
        shard@ == bundle.shards@[0]@,
        call_ensures(hash_shard, (shard, bundle.node_idx), leaf),
        *held matches Some((Some(height), siblings)) && height == 1 && siblings@ == seq![beside],
    ensures
        outcome is Ok <==> bundle.root.0@ == crate::hashing::blake3_hash(
            if bundle.node_idx == 0 {
                leaf@ + beside@
            } else {
                beside@ + leaf@
            },
        )@,
{
    vote_laws::lemma_listed_stake(committee.authorities@, bundle.author.0@);
    let siblings = (held->0).1;
    let views = erasure::hash_views(siblings@);
    assert(views =~= seq![beside@]);
    let start = bundle.node_idx as nat;
    assert(bundle.start(1) == start) by (nonlinear_arith)
        requires
            bundle.start(1) == bundle.node_idx as nat * 1,
            start == bundle.node_idx as nat,
    ;
    assert(bundle.shard_views()[0] == shard@);
    let nodes = bundle.leaves(1);
    assert(nodes =~= seq![leaf@]);
    let pairs = crate::range_proof::paired(start, nodes, views);
    if start == 0 {
        assert(pairs =~= seq![leaf@, beside@]);
    } else {
        assert(pairs =~= seq![beside@, leaf@]);
    }
    let up = crate::range_proof::parents(pairs);
    assert(up[0] == smt::merged(pairs[0], pairs[1]));
    reveal_with_fuel(crate::range_proof::range_root, 2);
    assert(crate::range_proof::range_root(start, nodes, views, 1) == Some(up[0]));
}

/// Pruning a bundle keeps its first shard, and all that says where it belongs.
pub proof fn law_pruning_keeps_the_first_shard(
    bundle: &AuthenticatedShard,
    data_shards: usize,
    pruned: AuthenticatedShard,
    checked: Option<AuthenticatedShard>,
)
    requires
        call_ensures(AuthenticatedShard::prune_to_anchor_shard, (bundle, data_shards), pruned),
        call_ensures(AuthenticatedShard::checked_prune, (bundle, data_shards), checked),
        bundle.shards@.len() > 0,
    ensures
        pruned.shards@.len() == 1,
        pruned.shards@[0]@ == bundle.shards@[0]@,
        pruned.node_idx == bundle.node_idx,
        pruned.root == bundle.root,
        pruned.author == bundle.author,
        pruned.signature == bundle.signature,
        checked is Some ==> {
            &&& bundle.shards@.len() == data_shards
            &&& (checked->0).shards@.len() == 1
            &&& (checked->0).shards@[0]@ == bundle.shards@[0]@
            &&& (checked->0).proof@ == pruned.proof@
            &&& (checked->0).node_idx == bundle.node_idx
            &&& (checked->0).root == bundle.root
        },
        bundle.shards@.len() != data_shards || data_shards == 0 ==> checked is None,
{
    assert(pruned.shard_views()[0] == pruned.shards@[0]@);
    assert(bundle.shard_views()[0] == bundle.shards@[0]@);
    if checked is Some {
        assert((checked->0).shard_views()[0] == (checked->0).shards@[0]@);
    }
}

/// The bundle that is made for a node out of a coded batch passes the whole check, if its author
/// has stake and its signature is accepted; so does what is left of it after pruning. This is so
/// where words have 64 bits.
pub proof fn law_made_bundles_pass(
    coded: CodedBatch,
    tree: Tree,
    committee: &Committee,
    node_idx: usize,
    shards: Vec<Shard>,
    author: PublicKey,
    signature: Signature,
    bundle: AuthenticatedShard,
    outcome: Option<MempoolResult<()>>,
    pruned: AuthenticatedShard,
    pruned_outcome: Option<MempoolResult<()>>,
)
    requires
        usize::BITS == 64,
        call_ensures(CodedBatch::commit, (&coded,), tree),
        committee.data_shards > 0,
        committee_laws::all_differ(committee.authorities@),
        vote_laws::listed_stake(committee.authorities@, author.0@) > 0,
        (node_idx + 1) * committee.data_shards <= coded.shards@.len(),
        coded.shards@.len() <= usize::MAX,
        shards@.len() == committee.data_shards,
        forall|j: int|
            0 <= j < shards@.len() ==> (#[trigger] shards@[j])@ == coded.shards@[node_idx
                * committee.data_shards + j]@,
        call_ensures(
            AuthenticatedShard::new,
            (shards, node_idx, committee.data_shards, &tree, author, signature),
            bundle,
        ),
        crypto::signature_accepted(
            bundle.root.0@,
            author.0@,
            signature.part1@ + signature.part2@,
        ),
        call_ensures(AuthenticatedShard::checked_verify, (&bundle, committee), outcome),
        call_ensures(
            AuthenticatedShard::prune_to_anchor_shard,
            (&bundle, committee.data_shards),
            pruned,
        ),
        call_ensures(AuthenticatedShard::checked_verify, (&pruned, committee), pruned_outcome),
    ensures
        outcome == Some(Ok::<(), MempoolError>(())),
        pruned_outcome == Some(Ok::<(), MempoolError>(())),
{
    let k = committee.data_shards as nat;
    let start = bundle.start(k);
    let batch = coded@;
    vote_laws::lemma_listed_stake(committee.authorities@, author.0@);
    assert(batch.len() == coded.shards@.len());
    assert((node_idx + 1) * k == node_idx * k + k) by (nonlinear_arith);
    assert(0 <= node_idx * k) by (nonlinear_arith);
    assert(bundle.shard_views().len() == shards@.len());
    assert forall|j: int| 0 <= j < k implies bundle.shard_views()[j] == batch[start + j] by {
        assert(bundle.shard_views()[j] == shards@[j]@);
    }
    assert(bundle.shard_views() =~= batch.subrange(start as int, (start + k) as int));
    coded_batch::law_made_bundle_verifies(&bundle, committee, batch, &tree);
    coded_batch::law_pruned_bundle_verifies(&bundle, &pruned, committee, true);
}

/// The tree over a coded batch has a leaf for each shard and is no taller than needed; a tree over
/// the same shards has the same root, however it is built.
pub proof fn law_trees_over_the_same_shards(
    coded: CodedBatch,
    tree: Tree,
    same: Tree,
    other: Tree,
)
    requires
        call_ensures(CodedBatch::commit, (&coded,), tree),
        call_ensures(crate::simple_sharding::commit, (&coded.shards,), same),
        call_ensures(crate::merkle_bench::build_tree, (&coded.shards,), other),
        coded.shards@.len() >= 2,
    ensures
        tree.leaves().len() == coded.shards@.len(),
        tree.leaves() == same.leaves(),
        tree.leaves() == other.leaves(),
        coded.shards@.len() <= smt::width(tree.height()),
        coded.shards@.len() > smt::width((tree.height() - 1) as nat),
        tree.height() == same.height(),
        tree.height() == other.height(),
        tree.root() == same.root(),
        tree.root() == other.root(),
{
    lemma_one_height(coded.shards@.len(), tree.height(), same.height());
    lemma_one_height(coded.shards@.len(), tree.height(), other.height());
}

proof fn lemma_one_height(count: nat, a: nat, b: nat)
    requires
        a > 0,
        b > 0,
        count >= 2,
        smt::width((a - 1) as nat) < count <= smt::width(a),
        smt::width((b - 1) as nat) < count <= smt::width(b) || (b == 1 && count <= smt::width(b)),
    ensures
        a == b,
{
    if a < b {
        lemma_wider(a, (b - 1) as nat);
    } else if b < a {
        lemma_wider(b, (a - 1) as nat);
    }
    assert(smt::width(0) == 1);
}

proof fn lemma_wider(low: nat, high: nat)
    requires
        low <= high,
    ensures
        smt::width(low) <= smt::width(high),
    decreases high,
{
    if low < high {
        lemma_wider(low, (high - 1) as nat);
    }
}

/// The leaves of shards are those of each shard at its own position.
pub proof fn law_leaves_are_made_one_by_one(
    shards: &Vec<Shard>,
    start: usize,
    leaves: Vec<[u8; 32]>,
    i: int,
    shard: &[u8],
    position: usize,
    leaf: [u8; 32],
)
    requires
        call_ensures(coded_batch::hash_shards, (shards, start), leaves),
        0 <= i < shards@.len(),
        shard@ == shards@[i]@,
        position == start + i,
        call_ensures(hash_shard, (shard, position), leaf),
    ensures
        leaves@.len() == shards@.len(),
        leaves@[i]@ == leaf@,
{
    let views = erasure::hash_views(leaves@);
    assert(views[i] == leaves@[i]@);
}

/// Two bundles are equal exactly if they hold the same shards for the same node, with the same
/// proof, root and author.
pub proof fn law_bundles_are_equal(a: &AuthenticatedShard, b: &AuthenticatedShard)
    ensures
        vstd::std_specs::cmp::PartialEqSpec::eq_spec(a, b) <==> {
            &&& a.shards@.len() == b.shards@.len()
            &&& forall|i: int|
                0 <= i < a.shards@.len() ==> (#[trigger] a.shards@[i])@ == b.shards@[i]@
            &&& a.node_idx == b.node_idx
            &&& a.proof@ == b.proof@
            &&& a.root.0@ == b.root.0@
            &&& a.author.0@ == b.author.0@
        },
{
    let (x, y) = (a.shard_views(), b.shard_views());
    assert(x.len() == a.shards@.len() && y.len() == b.shards@.len());
    assert forall|i: int| 0 <= i < x.len() && i < y.len() implies (x[i] == y[i]
        <==> a.shards@[i]@ == b.shards@[i]@) by {}
    if x == y {
        assert forall|i: int| 0 <= i < a.shards@.len() implies (#[trigger] a.shards@[i])@
            == b.shards@[i]@ by {
            assert(x[i] == y[i]);
        }
    }
    if a.shards@.len() == b.shards@.len() && forall|i: int|
        0 <= i < a.shards@.len() ==> (#[trigger] a.shards@[i])@ == b.shards@[i]@ {
        assert forall|i: int| 0 <= i < x.len() implies x[i] == y[i] by {
            assert(a.shards@[i]@ == b.shards@[i]@);
        }
        assert(x =~= y);
    }
}

/// The shards that are there are of one size that is not zero.
pub open spec fn well_shaped(given: Seq<Option<Shard>>) -> bool {
    &&& forall|i: int|
        0 <= i < given.len() && (#[trigger] given[i]) is Some ==> given[i]->0@.len() > 0
    &&& forall|i: int, j: int|
        0 <= i < given.len() && 0 <= j < given.len() && (#[trigger] given[i]) is Some && (
        #[trigger] given[j]) is Some ==> given[i]->0@.len() == given[j]->0@.len()
}

proof fn lemma_well_shaped(given: Seq<Option<Shard>>)
    ensures
        coding::size_fault(coding::sparse_views(given)) is None <==> well_shaped(given),
        match coding::size_fault(coding::sparse_views(given)) {
            None => true,
            Some(fault) => fault == coding::CodingError::EmptyShard || fault
                == coding::CodingError::IncorrectShardSize,
        },
    decreases given.len(),
{
    let views = coding::sparse_views(given);
    if given.len() > 0 {
        let front = given.drop_last();
        lemma_well_shaped(front);
        assert(views.drop_last() =~= coding::sparse_views(front));
        let last = given.last();
        assert(given[given.len() - 1] == last);
        assert(views.last() == (match last {
            Some(shard) => Some(shard@),
            None => None,
        }));
        if well_shaped(given) {
            assert forall|i: int| 0 <= i < front.len() && (#[trigger] front[i]) is Some implies
                front[i]->0@.len() > 0 by {
                assert(given[i] is Some);
            }
            assert forall|i: int, j: int|
                0 <= i < front.len() && 0 <= j < front.len() && (#[trigger] front[i]) is Some && (
                #[trigger] front[j]) is Some implies front[i]->0@.len() == front[j]->0@.len() by {
                assert(given[i] is Some && given[j] is Some);
            }
            assert forall|i: int|
                0 <= i < views.drop_last().len() && (
                #[trigger] views.drop_last()[i]) is Some && last is Some implies
                views.drop_last()[i]->0.len() == last->0@.len() by {
                assert(given[i] is Some);
                assert(given[given.len() - 1] is Some);
            }
        }
        if coding::size_fault(views) is None {
            let before = views.drop_last();
            assert forall|i: int| 0 <= i < given.len() && (#[trigger] given[i]) is Some implies
                given[i]->0@.len() > 0 by {
                if i < front.len() {
                    assert(front[i] is Some);
                }
            }
            assert forall|i: int, j: int|
                0 <= i < given.len() && 0 <= j < given.len() && (#[trigger] given[i]) is Some && (
                #[trigger] given[j]) is Some implies given[i]->0@.len() == given[j]->0@.len() by {
                if i < front.len() {
                    assert(front[i] is Some);
                    assert(before[i] == Some(given[i]->0@));
                }
                if j < front.len() {
                    assert(front[j] is Some);
                    assert(before[j] == Some(given[j]->0@));
                }
            }
        }
    }
}

/// Why a coded batch does not come back: there are too few or too many places, a shard is empty or
/// of another size, there are fewer shards than data shards, or what comes back is not coded, in
/// this order. All shards of something that is not coded are malformed.
pub proof fn law_why_a_batch_does_not_come_back(
    given: Vec<Option<Shard>>,
    committee: &Committee,
    outcome: MempoolResult<CodedBatch>,
)
    requires
        call_ensures(CodedBatch::reconstruct, (given, committee), outcome),
    ensures
        ({
            let total = committee.data_shards + committee.parity_shards;
            let taken = block_laws::places_taken(given@).len();
            let all = given@.map_values(|shard: Option<Shard>| shard->0@);
            &&& given@.len() < total ==> outcome == Err::<CodedBatch, MempoolError>(
                MempoolError::CodingError(coding::CodingError::TooFewShards),
            )
            &&& given@.len() > total ==> outcome == Err::<CodedBatch, MempoolError>(
                MempoolError::CodingError(coding::CodingError::TooManyShards),
            )
            &&& given@.len() == total && !well_shaped(given@) ==> {
                ||| outcome == Err::<CodedBatch, MempoolError>(
                    MempoolError::CodingError(coding::CodingError::EmptyShard),
                )
                ||| outcome == Err::<CodedBatch, MempoolError>(
                    MempoolError::CodingError(coding::CodingError::IncorrectShardSize),
                )
            }
            &&& given@.len() == total && well_shaped(given@) && taken < committee.data_shards
                ==> outcome == Err::<CodedBatch, MempoolError>(
                MempoolError::CodingError(coding::CodingError::TooFewShardsPresent),
            )
            &&& given@.len() == total && well_shaped(given@) && taken >= committee.data_shards
                && outcome is Err ==> outcome == Err::<CodedBatch, MempoolError>(
                MempoolError::MalformedCodedBatch,
            )
            &&& given@.len() == total && well_shaped(given@) && taken >= committee.data_shards
                && (forall|i: int| 0 <= i < given@.len() ==> (#[trigger] given@[i]) is Some) && all
                != all.take(committee.data_shards as int) + coding::rs_parity(
                all.take(committee.data_shards as int),
                committee.parity_shards as nat,
            ) ==> outcome == Err::<CodedBatch, MempoolError>(MempoolError::MalformedCodedBatch)
        }),
{
    lemma_well_shaped(given@);
    block_laws::lemma_places_taken(given@);
    let views = coding::sparse_views(given@);
    let all = given@.map_values(|shard: Option<Shard>| shard->0@);
    assert(views.len() == given@.len());
    if outcome is Ok && (forall|i: int| 0 <= i < given@.len() ==> (#[trigger] given@[i]) is Some)
        && given@.len() == committee.data_shards + committee.parity_shards {
        let full = outcome->Ok_0@;
        assert(full.len() >= given@.len()) by {
            if given@.len() > 0 {
                assert(given@[given@.len() - 1] is Some);
                assert(views[given@.len() - 1] is Some);
            }
        }
        assert forall|i: int| 0 <= i < all.len() implies all[i] == full[i] by {
            assert(given@[i] is Some);
            assert(views[i] is Some);
        }
        let k = committee.data_shards as int;
        assert(full.take(k) =~= all.take(k));
        lemma_full_length(given, committee, outcome);
        assert(full =~= all);
    }
}

/// What comes back has as many shards as the committee wants.
pub proof fn lemma_full_length(
    given: Vec<Option<Shard>>,
    committee: &Committee,
    outcome: MempoolResult<CodedBatch>,
)
    requires
        call_ensures(CodedBatch::reconstruct, (given, committee), outcome),
        outcome is Ok,
    ensures
        outcome->Ok_0.shards@.len() == committee.data_shards + committee.parity_shards,
        outcome->Ok_0@.len() == outcome->Ok_0.shards@.len(),
{
}

/// The check of a bundle is left undecided only where the proof would be looked at, and its header
/// cannot be counted or it is of a tree without the places of the shards; otherwise it comes to
/// what the check says.
pub proof fn law_bundles_are_left_undecided(
    bundle: &AuthenticatedShard,
    committee: &Committee,
    proof_bytes: &[u8],
    header: bool,
    held: &DecodedProof,
    fits: bool,
    outcome: MempoolResult<()>,
    checked: Option<MempoolResult<()>>,
)
    requires
        call_ensures(smt::header_in_bounds, (proof_bytes,), header),
        proof_bytes@ == bundle.proof@,
        header ==> bundle.decoded() == coded_batch::proof_view(*held),
        call_ensures(
            AuthenticatedShard::fits_proof,
            (bundle, committee.data_shards, held),
            fits,
        ),
        call_ensures(AuthenticatedShard::verify, (bundle, committee), outcome),
        call_ensures(AuthenticatedShard::checked_verify, (bundle, committee), checked),
        committee_laws::all_differ(committee.authorities@),
    ensures
        checked is Some ==> checked->0 == outcome,
        checked is None <==> {
            &&& vote_laws::listed_stake(committee.authorities@, bundle.author.0@) > 0
            &&& crypto::signature_accepted(
                bundle.root.0@,
                bundle.author.0@,
                bundle.signature.part1@ + bundle.signature.part2@,
            )
            &&& bundle.shards@.len() == committee.data_shards || bundle.shards@.len() == 1
            &&& !(header && fits)
        },
        fits <==> {
            ||| held is None
            ||| (held->0).0 is None
            ||| bundle.shards@.len() == 0
            ||| {
                let end = bundle.node_idx * committee.data_shards + bundle.shards@.len();
                end <= usize::MAX && end <= smt::width(((held->0).0)->0 as nat)
            }
        },
{
    vote_laws::lemma_listed_stake(committee.authorities@, bundle.author.0@);
}

} // verus!
