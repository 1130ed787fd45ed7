//! What storing, asking for, rebuilding and dropping the shards of batches comes to, in terms of
//! keys, places and bytes alone.

use vstd::prelude::*;
use crate::aggregator::FullAvailabilityProof;
use crate::block_laws;
use crate::bytes;
use crate::coded_batch::{Batch, CodedBatch};
use crate::coding::{self, Shard};
use crate::committee::{self, Committee};
use crate::crypto::{Digest, PublicKey, Signature};
use crate::error::MempoolResult;
use crate::helper::Helper;
use crate::keys::{self, make_marker, node_index, shard_key};
use crate::reconstructor::{count_present, ReceivedShard, Reconstructor, ShardOutcome};
use crate::shard_cleaner::ShardCleaner;
use crate::store::{self, Replies, Store, StoreCommand, Value};
use crate::synchronizer::Synchronizer;
use crate::vote_laws;
use crate::voter::{self, on_bundle, BatchVote, EncodedShard, NodesVoter, SelfVoter};

verus! {

/// The key is the root, followed by the number in eight bytes, the lowest first.
pub open spec fn is_key_of(key: Seq<u8>, root: Seq<u8>, number: int) -> bool {
    let b = key.skip(root.len() as int);
    &&& key.len() == root.len() + 8
    &&& forall|i: int| 0 <= i < root.len() ==> #[trigger] key[i] == root[i]
    &&& number == b[0] + 0x100 * b[1] + 0x1_0000 * b[2] + 0x100_0000 * b[3] + 0x1_0000_0000 * b[4]
        + 0x100_0000_0000 * b[5] + 0x1_0000_0000_0000 * b[6] + 0x100_0000_0000_0000 * b[7]
}

proof fn lemma_eight_bytes(value: nat)
    requires
        value < 0x1_0000_0000_0000_0000,
    ensures
        bytes::le_bytes(value, 8).len() == 8,
        ({
            let b = bytes::le_bytes(value, 8);
            value == b[0] + 0x100 * b[1] + 0x1_0000 * b[2] + 0x100_0000 * b[3] + 0x1_0000_0000
                * b[4] + 0x100_0000_0000 * b[5] + 0x1_0000_0000_0000 * b[6]
                + 0x100_0000_0000_0000 * b[7]
        }),
{
    reveal_with_fuel(bytes::le_bytes, 9);
    bytes::lemma_le_bytes_len(value, 8);
    let b = bytes::le_bytes(value, 8);
    let (v1, v2, v3, v4) = (value / 256, value / 256 / 256, value / 256 / 256 / 256, value / 256
        / 256 / 256 / 256);
    let (v5, v6, v7) = (v4 / 256, v4 / 256 / 256, v4 / 256 / 256 / 256);
    assert(b[0] == value % 256);
    assert(b[1] == v1 % 256);
    assert(b[2] == v2 % 256);
    assert(b[3] == v3 % 256);
    assert(b[4] == v4 % 256);
    assert(b[5] == v5 % 256);
    assert(b[6] == v6 % 256);
    assert(b[7] == v7 % 256);
}

/// The key of a shard is the root and the number of the shard.
pub proof fn lemma_key(root: Seq<u8>, number: nat)
    requires
        number < 0x1_0000_0000_0000_0000,
    ensures
        is_key_of(keys::shard_key_of(root, number), root, number as int),
{
    lemma_eight_bytes(number);
    let key = keys::shard_key_of(root, number);
    assert(key.skip(root.len() as int) =~= bytes::le_bytes(number, 8));
}

/// The key of a shard is the root and the number of the shard.
pub proof fn law_shard_keys(root: &Digest, destination: usize, key: Vec<u8>)
    requires
        call_ensures(shard_key, (root, destination), key),
    ensures
        is_key_of(key@, root.0@, destination as int),
{
    lemma_key(root.0@, destination as nat);
}

/// The marker of a batch is the byte one.
pub proof fn law_markers(marker: Vec<u8>)
    requires
        call_ensures(make_marker, (), marker),
    ensures
        marker@.len() == 1,
        marker@[0] == 1,
{
}

/// `place` is where the name is listed, and zero for a stranger.
pub open spec fn is_number(committee: &Committee, name: PublicKey, place: int) -> bool {
    if vote_laws::is_member(committee.authorities@, name.0@) {
        0 <= place < committee.authorities@.len() && committee.authorities@[place].name.0@
            == name.0@
    } else {
        place == 0
    }
}

proof fn lemma_number(committee: &Committee, name: PublicKey)
    ensures
        is_number(committee, name, keys::node_number(committee, name) as int),
        committee.place_of(name) is Some <==> vote_laws::is_member(
            committee.authorities@,
            name.0@,
        ),
{
    committee::lemma_place(committee.authorities@, name@);
    let place = committee.place_of(name);
    if place is Some {
        assert(committee.authorities@[place->0 as int].name.0@ == name.0@);
    } else {
        assert forall|i: int| 0 <= i < committee.authorities@.len() implies (
        #[trigger] committee.authorities@[i]).name.0@ != name.0@ by {
            assert(committee.authorities@[i].name@ != name@);
        }
    }
}

/// The number of a node is its place in the committee.
pub proof fn law_nodes_are_numbered_by_place(committee: &Committee, name: &PublicKey, index: usize)
    requires
        call_ensures(node_index, (committee, name), index),
    ensures
        is_number(committee, *name, index as int),
{
    lemma_number(committee, *name);
}

/// A member that asks for the shards of a batch gets those of this node: the two that have twice
/// its number and the next one. Strangers get nothing.
pub proof fn law_helpers_answer_with_their_own_shards(
    helper: &Helper,
    root: &Digest,
    origin: &PublicKey,
    answer: Option<(Vec<u8>, Vec<u8>)>,
)
    requires
        call_ensures(Helper::on_request, (helper, root, origin), answer),
        helper.committee.wf(),
    ensures
        answer is Some <==> vote_laws::is_member(helper.committee.authorities@, origin.0@),
        answer is Some ==> exists|node: int|
            {
                &&& #[trigger] is_number(&helper.committee, helper.name, node)
                &&& is_key_of((answer->0).0@, root.0@, 2 * node)
                &&& is_key_of((answer->0).1@, root.0@, 2 * node + 1)
            },
{
    lemma_number(&helper.committee, *origin);
    lemma_number(&helper.committee, helper.name);
    let node = keys::node_number(&helper.committee, helper.name);
    lemma_node_bound(&helper.committee, helper.name);
    if answer is Some {
        lemma_key(root.0@, 2 * node);
        lemma_key(root.0@, 2 * node + 1);
        assert(is_number(&helper.committee, helper.name, node as int));
    }
}

proof fn lemma_node_bound(committee: &Committee, name: PublicKey)
    requires
        committee.wf(),
    ensures
        2 * keys::node_number(committee, name) + 1 < 0x1_0000_0000_0000_0000,
{
    committee::lemma_place(committee.authorities@, name@);
}

/// What is dropped after an availability proof is the second shard of this node, by its place in
/// the committee, whatever the order of the votes: twice its number and one. It is dropped exactly
/// if this node is a member and the proof passes its check.
pub proof fn law_the_second_shard_is_dropped(
    cleaner: &ShardCleaner,
    availability: &FullAvailabilityProof,
    signatures_valid: bool,
    key: Option<Vec<u8>>,
    passes: MempoolResult<()>,
)
    requires
        call_ensures(ShardCleaner::prune_with, (cleaner, availability, signatures_valid), key),
        call_ensures(
            FullAvailabilityProof::verify_with,
            (availability, &cleaner.committee, signatures_valid),
            passes,
        ),
        cleaner.committee.wf(),
    ensures
        key is Some <==> passes is Ok && vote_laws::is_member(
            cleaner.committee.authorities@,
            cleaner.name.0@,
        ),
        key is Some ==> exists|place: int|
            {
                &&& 0 <= place < cleaner.committee.authorities@.len()
                &&& (#[trigger] cleaner.committee.authorities@[place]).name.0@ == cleaner.name.0@
                &&& is_key_of(key->0@, availability.root.0@, 2 * place + 1)
            },
        cleaner.droppable(availability, signatures_valid) is Some ==> cleaner.droppable(
            availability,
            signatures_valid,
        ) == Some(
            keys::shard_key_of(
                availability.root@,
                2 * keys::node_number(&cleaner.committee, cleaner.name) + 1,
            ),
        ),
{
    lemma_number(&cleaner.committee, cleaner.name);
    lemma_node_bound(&cleaner.committee, cleaner.name);
    if key is Some {
        let place = keys::node_number(&cleaner.committee, cleaner.name);
        lemma_key(availability.root.0@, 2 * place + 1);
        assert(cleaner.committee.authorities@[place as int].name.0@ == cleaner.name.0@);
    }
}

/// Which shard is dropped depends on the batch alone, not on the votes, their order or who sent
/// the proof.
pub proof fn law_what_is_dropped_does_not_depend_on_the_votes(
    cleaner: &ShardCleaner,
    first: &FullAvailabilityProof,
    second: &FullAvailabilityProof,
    first_valid: bool,
    second_valid: bool,
    first_key: Option<Vec<u8>>,
    second_key: Option<Vec<u8>>,
)
    requires
        call_ensures(ShardCleaner::prune_with, (cleaner, first, first_valid), first_key),
        call_ensures(ShardCleaner::prune_with, (cleaner, second, second_valid), second_key),
        first.root.0@ == second.root.0@,
        first_key is Some,
        second_key is Some,
    ensures
        first_key->0@ == second_key->0@,
{
}

/// The whole check drops what the check with the verdict on the signatures drops, or nothing, and
/// does drop it if all votes were made with the secrets of the voters.
pub proof fn law_genuine_proofs_drop_the_shard(
    cleaner: &ShardCleaner,
    availability: &FullAvailabilityProof,
    key: Option<Vec<u8>>,
    known: Option<Vec<u8>>,
)
    requires
        call_ensures(ShardCleaner::prune, (cleaner, availability), key),
        call_ensures(ShardCleaner::prune_with, (cleaner, availability, true), known),
    ensures
        key is Some ==> known is Some && key->0@ == known->0@,
        (forall|i: int|
            0 <= i < availability.votes@.len() ==> vote_laws::made_by(
                availability.root.0@,
                #[trigger] availability.votes@[i],
            )) && known is Some ==> key is Some,
{
    if forall|i: int|
        0 <= i < availability.votes@.len() ==> vote_laws::made_by(
            availability.root.0@,
            #[trigger] availability.votes@[i],
        ) {
        vote_laws::lemma_made_by(availability.root.0@, availability.votes@);
    }
}

/// A bundle that passed its check is stored, each shard under the root and its number and the
/// marker under the root of the batch; a bundle that did not is not.
pub proof fn law_bundles_are_stored_if_they_passed(
    root: &Digest,
    verified: MempoolResult<(EncodedShard, EncodedShard)>,
    writes: MempoolResult<Vec<(Vec<u8>, Vec<u8>)>>,
)
    requires
        call_ensures(on_bundle, (root, verified), writes),
    ensures
        writes is Ok <==> verified is Ok,
        writes is Err ==> writes->Err_0 == verified->Err_0,
        writes is Ok ==> {
            let (first, second) = verified->Ok_0;
            let all = writes->Ok_0@;
            &&& all.len() == 3
            &&& is_key_of(all[0].0@, first.root.0@, first.destination as int)
            &&& all[0].1@ == first.bytes@
            &&& is_key_of(all[1].0@, second.root.0@, second.destination as int)
            &&& all[1].1@ == second.bytes@
            &&& all[2].0@ == root.0@
            &&& all[2].1@.len() == 1
            &&& all[2].1@[0] == 1
        },
{
    if verified is Ok {
        let (first, second) = verified->Ok_0;
        lemma_key(first.root.0@, first.destination as nat);
        lemma_key(second.root.0@, second.destination as nat);
    }
}

/// A vote is for the batch that it is asked for, by the node that casts it.
pub proof fn law_voters_vote_in_their_own_name<H>(
    own: &SelfVoter,
    nodes: &NodesVoter<H>,
    root: Digest,
    signature: Signature,
    first: BatchVote,
    second: BatchVote,
)
    requires
        call_ensures(SelfVoter::vote, (own, root, signature), first),
        call_ensures(NodesVoter::<H>::vote, (nodes, root, signature), second),
    ensures
        first.root == root,
        first.author == own.name,
        first.signature == signature,
        second.root == root,
        second.author == nodes.owner(),
        second.signature == signature,
{
}

/// A handle that is kept is there, no author has more than a hundred, and where the limit is not
/// reached nothing is given up. A certified batch has no handle any more.
pub proof fn law_pending_votes<H>(author: &PublicKey, root: &Digest, handle: H)
    ensures
        forall|voter: &mut NodesVoter<H>| #[trigger]
            call_ensures(NodesVoter::<H>::keep, (voter, author, root, handle), ()) ==> {
                let (before, after) = (
                    voter.handles(author.0@),
                    final(voter).handles(author.0@),
                );
                &&& after.contains_key(root.0@)
                &&& after[root.0@] == handle
                &&& before.len() < 100 ==> forall|other: Seq<u8>|
                    before.contains_key(other) ==> #[trigger] after.contains_key(other)
                &&& forall|other: Seq<u8>|
                    other != root.0@ && #[trigger] after.contains_key(other)
                        ==> before.contains_key(other) && after[other] == before[other]
                &&& forall|name: Seq<u8>|
                    name != author.0@ ==> #[trigger] final(voter).handles(name) == voter.handles(
                        name,
                    )
            },
        forall|voter: &mut NodesVoter<H>| #[trigger]
            call_ensures(NodesVoter::<H>::cleanup, (voter, author, root), ()) ==> {
                let (before, after) = (
                    voter.handles(author.0@),
                    final(voter).handles(author.0@),
                );
                &&& !after.contains_key(root.0@)
                &&& forall|other: Seq<u8>|
                    other != root.0@ ==> (#[trigger] after.contains_key(other)
                        <==> before.contains_key(other))
                &&& forall|name: Seq<u8>|
                    name != author.0@ ==> #[trigger] final(voter).handles(name) == voter.handles(
                        name,
                    )
            },
        forall|voter: &mut NodesVoter<H>, name: Seq<u8>|
            #![trigger call_ensures(NodesVoter::<H>::keep, (voter, author, root, handle), ()), final(voter).handles(name)]
            call_ensures(NodesVoter::<H>::keep, (voter, author, root, handle), ())
                ==> final(voter).handles(name).len() <= 100,
{
    assert forall|voter: &mut NodesVoter<H>, name: Seq<u8>|
        #![trigger call_ensures(NodesVoter::<H>::keep, (voter, author, root, handle), ()), final(voter).handles(name)]
        call_ensures(NodesVoter::<H>::keep, (voter, author, root, handle), ()) implies final(
        voter).handles(name).len() <= 100 by {
        final(voter).law_pending_votes_bounded(name);
    }
}

/// A batch whose shard was not found is asked for, once, and is waited for from then on: no key
/// is to be read for it until it has come.
pub proof fn law_missing_batches_are_asked_for_once(digest: &Digest, found: bool, now: u128)
    ensures
        forall|before: &mut Synchronizer, ask: bool| #[trigger]
            call_ensures(Synchronizer::on_read, (before, digest, found, now), ask) ==> ask
                == !found,
        forall|first: &mut Synchronizer, ask: bool, later: &Synchronizer, key: Option<Vec<u8>>|
            #![trigger call_ensures(Synchronizer::on_read, (first, digest, found, now), ask), call_ensures(Synchronizer::key_to_read, (later, digest), key)]
            {
                &&& call_ensures(Synchronizer::on_read, (first, digest, found, now), ask)
                &&& *later == *final(first)
                &&& call_ensures(Synchronizer::key_to_read, (later, digest), key)
                &&& !found
            } ==> key is None,
        forall|first: &mut Synchronizer, later: &Synchronizer, key: Option<Vec<u8>>|
            #![trigger call_ensures(Synchronizer::on_synced, (first, digest), ()), call_ensures(Synchronizer::key_to_read, (later, digest), key)]
            {
                &&& call_ensures(Synchronizer::on_synced, (first, digest), ())
                &&& *later == *final(first)
                &&& call_ensures(Synchronizer::key_to_read, (later, digest), key)
            } ==> key is Some,
{
}

/// The key that is read for a batch is that of the first shard of this node.
pub proof fn law_the_first_shard_is_looked_for(
    synchronizer: &Synchronizer,
    digest: &Digest,
    key: Option<Vec<u8>>,
)
    requires
        call_ensures(Synchronizer::key_to_read, (synchronizer, digest), key),
        synchronizer.members().wf(),
    ensures
        key is Some ==> exists|node: int|
            {
                &&& #[trigger] is_number(&synchronizer.members(), synchronizer.owner(), node)
                &&& is_key_of(key->0@, digest.0@, 2 * node)
            },
{
    let node = keys::node_number(&synchronizer.members(), synchronizer.owner());
    lemma_number(&synchronizer.members(), synchronizer.owner());
    lemma_node_bound(&synchronizer.members(), synchronizer.owner());
    lemma_key(digest.0@, 2 * node);
    assert(is_number(&synchronizer.members(), synchronizer.owner(), node as int));
}

/// `digest` is one of the list.
pub open spec fn is_among(digests: Seq<Digest>, digest: Seq<u8>) -> bool {
    exists|i: int| 0 <= i < digests.len() && (#[trigger] digests[i]).0@ == digest
}

/// A batch is asked for again once more than the delay has gone by since it was last asked for,
/// and not before; and after that the delay starts again.
pub proof fn law_requests_are_sent_again_after_the_delay(digest: &Digest, then: u128, now: u128, later: u128)
    ensures
        forall|
            first: &mut Synchronizer,
            second: &mut Synchronizer,
            ask: bool,
            retry: Vec<Digest>,
        |
            #![trigger call_ensures(Synchronizer::on_read, (first, digest, false, then), ask), call_ensures(Synchronizer::on_timer, (second, now), retry)]
            {
                &&& call_ensures(Synchronizer::on_read, (first, digest, false, then), ask)
                &&& *second == *final(first)
                &&& call_ensures(Synchronizer::on_timer, (second, now), retry)
            } ==> (is_among(retry@, digest.0@) <==> then + first.delay() < now),
        forall|
            first: &mut Synchronizer,
            second: &mut Synchronizer,
            retry: Vec<Digest>,
            again: Vec<Digest>,
        |
            #![trigger call_ensures(Synchronizer::on_timer, (first, now), retry), call_ensures(Synchronizer::on_timer, (second, later), again)]
            {
                &&& call_ensures(Synchronizer::on_timer, (first, now), retry)
                &&& *second == *final(first)
                &&& call_ensures(Synchronizer::on_timer, (second, later), again)
                &&& is_among(retry@, digest.0@)
            } ==> (is_among(again@, digest.0@) <==> now + first.delay() < later),
        forall|first: &mut Synchronizer, second: &mut Synchronizer, retry: Vec<Digest>|
            #![trigger call_ensures(Synchronizer::on_synced, (first, digest), ()), call_ensures(Synchronizer::on_timer, (second, now), retry)]
            {
                &&& call_ensures(Synchronizer::on_synced, (first, digest), ())
                &&& *second == *final(first)
                &&& call_ensures(Synchronizer::on_timer, (second, now), retry)
            } ==> !is_among(retry@, digest.0@),
        forall|name: PublicKey, committee: Committee, delay: u64, made: Synchronizer| #[trigger]
            call_ensures(Synchronizer::new, (name, committee, delay), made) ==> made.delay() == delay
                && made.owner() == name && made.members() == committee,
{
    assert forall|
        first: &mut Synchronizer,
        second: &mut Synchronizer,
        ask: bool,
        retry: Vec<Digest>,
    |
        #![trigger call_ensures(Synchronizer::on_read, (first, digest, false, then), ask), call_ensures(Synchronizer::on_timer, (second, now), retry)]
        {
            &&& call_ensures(Synchronizer::on_read, (first, digest, false, then), ask)
            &&& *second == *final(first)
            &&& call_ensures(Synchronizer::on_timer, (second, now), retry)
        } implies (is_among(retry@, digest.0@) <==> then + first.delay() < now) by {
        assert(second.is_due(digest@, now) <==> then + first.delay() < now);
        lemma_among(retry@, digest.0@);
    }
    assert forall|
        first: &mut Synchronizer,
        second: &mut Synchronizer,
        retry: Vec<Digest>,
        again: Vec<Digest>,
    |
        #![trigger call_ensures(Synchronizer::on_timer, (first, now), retry), call_ensures(Synchronizer::on_timer, (second, later), again)]
        {
            &&& call_ensures(Synchronizer::on_timer, (first, now), retry)
            &&& *second == *final(first)
            &&& call_ensures(Synchronizer::on_timer, (second, later), again)
            &&& is_among(retry@, digest.0@)
        } implies (is_among(again@, digest.0@) <==> now + first.delay() < later) by {
        lemma_among(retry@, digest.0@);
        lemma_among(again@, digest.0@);
        assert(first.is_due(digest@, now));
        assert(second.asked().contains_key(digest@));
        assert(second.asked()[digest@] == now);
        assert(second.is_due(digest@, later) <==> now + first.delay() < later);
    }
    assert forall|first: &mut Synchronizer, second: &mut Synchronizer, retry: Vec<Digest>|
        #![trigger call_ensures(Synchronizer::on_synced, (first, digest), ()), call_ensures(Synchronizer::on_timer, (second, now), retry)]
        {
            &&& call_ensures(Synchronizer::on_synced, (first, digest), ())
            &&& *second == *final(first)
            &&& call_ensures(Synchronizer::on_timer, (second, now), retry)
        } implies !is_among(retry@, digest.0@) by {
        lemma_among(retry@, digest.0@);
        assert(!second.is_due(digest@, now));
    }
}

proof fn lemma_among(digests: Seq<Digest>, digest: Seq<u8>)
    ensures
        is_among(digests, digest) <==> exists|i: int|
            0 <= i < digests.len() && (#[trigger] digests[i])@ == digest,
{
    if is_among(digests, digest) {
        let i = choose|i: int| 0 <= i < digests.len() && (#[trigger] digests[i]).0@ == digest;
        assert(digests[i]@ == digest);
    }
    if exists|i: int| 0 <= i < digests.len() && (#[trigger] digests[i])@ == digest {
        let i = choose|i: int| 0 <= i < digests.len() && (#[trigger] digests[i])@ == digest;
        assert(digests[i].0@ == digest);
    }
}

/// What becomes of a shard that has come: it is refused if it is out of range, fails its check, or
/// is of a batch that is not missing, in this order, and then nothing changes. Otherwise it is put
/// in its place, and once as many places are taken as there are data shards, the batch is no
/// longer missing, its places are empty again, and it is rebuilt or fails; it is rebuilt if all
/// shards are those of a coded batch.
pub proof fn law_shards_are_collected(received: ReceivedShard, verified: bool)
    ensures
        forall|node: &mut Reconstructor, outcome: ShardOutcome| #[trigger]
            call_ensures(Reconstructor::on_shard, (node, received, verified), outcome) ==> {
                let total = node.members().data_shards + node.members().parity_shards;
                let root = received.root.0@;
                let wanted = received.destination < total && verified
                    && node.missing_roots().contains(root);
                let (before, after) = (node.shards_of(root), final(node).shards_of(root));
                let place = received.destination as int;
                let filled = before.update(place, Some(received.shard@));
                &&& outcome is OutOfRange <==> received.destination >= total
                &&& outcome is Invalid <==> received.destination < total && !verified
                &&& outcome is NotMissing <==> received.destination < total && verified
                    && !node.missing_roots().contains(root)
                &&& !wanted ==> after == before && final(node).missing_roots()
                    == node.missing_roots()
                &&& wanted && filled_places(filled).len() < node.members().data_shards
                    ==> outcome is Collected
                &&& outcome is Collected ==> {
                    &&& wanted
                    &&& filled_places(filled).len() < node.members().data_shards
                    &&& after == filled
                    &&& final(node).missing_roots() == node.missing_roots()
                }
                &&& outcome is Reconstructed || outcome is Failed ==> {
                    &&& wanted
                    &&& !final(node).missing_roots().contains(root)
                    &&& forall|other: Seq<u8>|
                        other != root ==> (#[trigger] final(node).missing_roots().contains(other)
                            <==> node.missing_roots().contains(other))
                    &&& forall|i: int|
                        0 <= i < after.len() ==> (#[trigger] after[i]) is None
                }
                &&& forall|other: Seq<u8>|
                    other != root ==> #[trigger] final(node).shards_of(other) == node.shards_of(
                        other,
                    )
            },
{
    assert forall|node: &mut Reconstructor, outcome: ShardOutcome| #[trigger]
        call_ensures(Reconstructor::on_shard, (node, received, verified), outcome) implies {
        let total = node.members().data_shards + node.members().parity_shards;
        let root = received.root.0@;
        let wanted = received.destination < total && verified && node.missing_roots().contains(
            root,
        );
        let (before, after) = (node.shards_of(root), final(node).shards_of(root));
        let place = received.destination as int;
        let filled = before.update(place, Some(received.shard@));
        &&& outcome is OutOfRange <==> received.destination >= total
        &&& outcome is Invalid <==> received.destination < total && !verified
        &&& outcome is NotMissing <==> received.destination < total && verified
            && !node.missing_roots().contains(root)
        &&& !wanted ==> after == before && final(node).missing_roots() == node.missing_roots()
        &&& wanted && filled_places(filled).len() < node.members().data_shards
            ==> outcome is Collected
        &&& outcome is Collected ==> {
            &&& wanted
            &&& filled_places(filled).len() < node.members().data_shards
            &&& after == filled
            &&& final(node).missing_roots() == node.missing_roots()
        }
        &&& outcome is Reconstructed || outcome is Failed ==> {
            &&& wanted
            &&& !final(node).missing_roots().contains(root)
            &&& forall|other: Seq<u8>|
                other != root ==> (#[trigger] final(node).missing_roots().contains(other)
                    <==> node.missing_roots().contains(other))
            &&& forall|i: int| 0 <= i < after.len() ==> (#[trigger] after[i]) is None
        }
        &&& forall|other: Seq<u8>|
            other != root ==> #[trigger] final(node).shards_of(other) == node.shards_of(other)
    } by {
        let filled = node.shards_of(received.root.0@).update(
            received.destination as int,
            Some(received.shard@),
        );
        assert(filled == node.shards_with(&received));
        block_laws::lemma_present(filled);
        assert(filled_places(filled) == Set::new(
            |i: int| 0 <= i < filled.len() && filled[i] is Some,
        ));
    }
}

/// The places that are filled.
pub open spec fn filled_places(places: Seq<Option<Seq<u8>>>) -> Set<int> {
    Set::new(|i: int| 0 <= i < places.len() && places[i] is Some)
}

/// A batch whose shards all are those of a coded batch is rebuilt, and what is written then wakes
/// the synchronizer of this node and the consensus: the marker, under the key of the first shard
/// of this node and under the root.
pub proof fn law_rebuilt_batches_are_marked(
    received: ReceivedShard,
    verified: bool,
    batch: Batch,
    size: usize,
    committee: &Committee,
    coded: CodedBatch,
)
    requires
        call_ensures(CodedBatch::new, (batch, size, committee), coded),
        committee.wf(),
        committee.data_shards > 0,
    ensures
        forall|node: &mut Reconstructor, outcome: ShardOutcome|
            {
                &&& #[trigger] call_ensures(
                    Reconstructor::on_shard,
                    (node, received, verified),
                    outcome,
                )
                &&& node.wf()
                &&& node.members() == *committee
                &&& outcome is Reconstructed || outcome is Failed
                &&& received.shard@ == coded.shards@[received.destination as int]@
                &&& forall|i: int|
                    0 <= i < node.shards_of(received.root.0@).len() && (
                    #[trigger] node.shards_of(received.root.0@)[i]) is Some ==> i
                        < coded.shards@.len() && node.shards_of(received.root.0@)[i]->0
                        == coded.shards@[i]@
            } ==> outcome is Reconstructed,
        forall|node: &mut Reconstructor, outcome: ShardOutcome|
            {
                &&& #[trigger] call_ensures(
                    Reconstructor::on_shard,
                    (node, received, verified),
                    outcome,
                )
                &&& node.members() == *committee
                &&& outcome is Reconstructed
            } ==> {
                let writes = outcome->Reconstructed_0@;
                &&& writes.len() == 2
                &&& exists|number: int|
                    {
                        &&& #[trigger] is_number(committee, node.owner(), number)
                        &&& is_key_of(writes[0].0@, received.root.0@, 2 * number)
                    }
                &&& writes[1].0@ == received.root.0@
                &&& writes[0].1@ == writes[1].1@
                &&& writes[1].1@.len() == 1
                &&& writes[1].1@[0] == 1
            },
{
    assert forall|node: &mut Reconstructor, outcome: ShardOutcome|
        {
            &&& #[trigger] call_ensures(
                Reconstructor::on_shard,
                (node, received, verified),
                outcome,
            )
            &&& node.wf()
            &&& node.members() == *committee
            &&& outcome is Reconstructed || outcome is Failed
            &&& received.shard@ == coded.shards@[received.destination as int]@
            &&& forall|i: int|
                0 <= i < node.shards_of(received.root.0@).len() && (
                #[trigger] node.shards_of(received.root.0@)[i]) is Some ==> i
                    < coded.shards@.len() && node.shards_of(received.root.0@)[i]->0
                    == coded.shards@[i]@
        } implies outcome is Reconstructed by {
        let before = node.shards_of(received.root.0@);
        let filled = node.shards_with(&received);
        node.law_every_shard_has_a_place(received.root.0@);
        assert(coded@.len() == coded.shards@.len());
        assert forall|i: int| 0 <= i < filled.len() && (#[trigger] filled[i]) is Some implies i
            < coded@.len() && filled[i]->0 == coded@[i] by {
            if i != received.destination {
                assert(before[i] is Some);
            }
        }
        assert(coding::drawn_from(filled, coded@));
    }
    assert forall|node: &mut Reconstructor, outcome: ShardOutcome|
        {
            &&& #[trigger] call_ensures(
                Reconstructor::on_shard,
                (node, received, verified),
                outcome,
            )
            &&& node.members() == *committee
            &&& outcome is Reconstructed
        } implies {
        let writes = outcome->Reconstructed_0@;
        &&& writes.len() == 2
        &&& exists|number: int|
            {
                &&& #[trigger] is_number(committee, node.owner(), number)
                &&& is_key_of(writes[0].0@, received.root.0@, 2 * number)
            }
        &&& writes[1].0@ == received.root.0@
        &&& writes[0].1@ == writes[1].1@
        &&& writes[1].1@.len() == 1
        &&& writes[1].1@[0] == 1
    } by {
        let number = keys::node_number(committee, node.owner());
        lemma_number(committee, node.owner());
        lemma_node_bound(committee, node.owner());
        lemma_key(received.root.0@, 2 * number);
        assert(is_number(committee, node.owner(), number as int));
    }
}

/// A batch is missing once it was announced as such, and a node that was told of none collects no
/// shard.
pub proof fn law_only_missing_batches_are_collected(
    name: PublicKey,
    committee: Committee,
    made: Reconstructor,
    root: &Digest,
    received: ReceivedShard,
)
    requires
        call_ensures(Reconstructor::new, (name, committee), made),
    ensures
        made.owner() == name,
        made.members() == committee,
        forall|node: &mut Reconstructor, outcome: ShardOutcome|
            {
                &&& #[trigger] call_ensures(
                    Reconstructor::on_shard,
                    (node, received, true),
                    outcome,
                )
                &&& *node == made
                &&& received.destination < committee.data_shards + committee.parity_shards
            } ==> outcome is NotMissing,
        forall|first: &mut Reconstructor, node: &mut Reconstructor, outcome: ShardOutcome|
            #![trigger call_ensures(Reconstructor::on_missing, (first, root), ()), call_ensures(Reconstructor::on_shard, (node, received, true), outcome)]
            {
                &&& call_ensures(Reconstructor::on_missing, (first, root), ())
                &&& *node == *final(first)
                &&& call_ensures(Reconstructor::on_shard, (node, received, true), outcome)
                &&& received.root.0@ == root.0@
                &&& received.destination < first.members().data_shards
                    + first.members().parity_shards
            } ==> outcome is Collected || outcome is Reconstructed || outcome is Failed,
{
    assert forall|first: &mut Reconstructor, node: &mut Reconstructor, outcome: ShardOutcome|
        #![trigger call_ensures(Reconstructor::on_missing, (first, root), ()), call_ensures(Reconstructor::on_shard, (node, received, true), outcome)]
        {
            &&& call_ensures(Reconstructor::on_missing, (first, root), ())
            &&& *node == *final(first)
            &&& call_ensures(Reconstructor::on_shard, (node, received, true), outcome)
            &&& received.root.0@ == root.0@
            &&& received.destination < first.members().data_shards
                + first.members().parity_shards
        } implies outcome is Collected || outcome is Reconstructed || outcome is Failed by {
        assert(node.missing_roots().contains(root@));
    }
}

/// The number of shards that are there is the number of places that are filled.
pub proof fn law_shards_are_counted(shards: &Vec<Option<Shard>>, count: usize)
    requires
        call_ensures(count_present, (shards,), count),
    ensures
        count == block_laws::places_taken(shards@).len(),
{
    block_laws::lemma_places_taken(shards@);
}

/// The reader gets the value.
pub open spec fn gets<N, E>(
    answers: Seq<(N, Result<Value, E>)>,
    reader: N,
    value: Seq<u8>,
) -> bool {
    exists|i: int|
        {
            &&& 0 <= i < answers.len()
            &&& (#[trigger] answers[i]).0 == reader
            &&& answers[i].1 is Ok
            &&& answers[i].1->Ok_0@ == value
        }
}

proof fn lemma_gets<N, E>(
    answers: Seq<(N, Result<Value, E>)>,
    readers: Seq<N>,
    value: Seq<u8>,
    i: int,
)
    requires
        store::answer_views(answers) == store::all_get::<N, E>(readers, value),
        0 <= i < readers.len(),
    ensures
        gets(answers, readers[i], value),
{
    let views = store::answer_views(answers);
    assert(views.len() == answers.len());
    assert(views[i] == (readers[i], Ok::<Seq<u8>, E>(value)));
    assert(answers[i].0 == readers[i]);
    assert(answers[i].1 is Ok);
}

/// A reader that waits for a key gets the next value that is written to it, also if another key is
/// written to first, and then no other.
pub proof fn law_waiting_readers_get_the_next_value<R, N, E>(
    key: Value,
    reader: N,
    other: Value,
    skipped: Value,
    value: Value,
    next: Value,
    nothing: Result<Option<Value>, E>,
)
    requires
        nothing == Ok::<Option<Value>, E>(None),
        other@ != key@,
    ensures
        forall|first: &mut Store<N>, second: &mut Store<N>, asked: Replies<R, N, E>, replies: Replies<R, N, E>|
            #![trigger call_ensures(Store::<N>::on_command::<R, E>, (first, StoreCommand::NotifyRead(key, reader), nothing), asked), call_ensures(Store::<N>::on_command::<R, E>, (second, StoreCommand::Write(key, value), nothing), replies)]
            {
                &&& call_ensures(
                    Store::<N>::on_command::<R, E>,
                    (first, StoreCommand::NotifyRead(key, reader), nothing),
                    asked,
                )
                &&& *second == *final(first)
                &&& call_ensures(
                    Store::<N>::on_command::<R, E>,
                    (second, StoreCommand::Write(key, value), nothing),
                    replies,
                )
            } ==> {
                &&& asked.notified@.len() == 0
                &&& asked.read is None
                &&& replies.read is None
                &&& gets(replies.notified@, reader, value@)
            },
        forall|
            first: &mut Store<N>,
            second: &mut Store<N>,
            third: &mut Store<N>,
            asked: Replies<R, N, E>,
            between: Replies<R, N, E>,
            replies: Replies<R, N, E>,
        |
            #![trigger call_ensures(Store::<N>::on_command::<R, E>, (first, StoreCommand::NotifyRead(key, reader), nothing), asked), call_ensures(Store::<N>::on_command::<R, E>, (second, StoreCommand::Write(other, skipped), nothing), between), call_ensures(Store::<N>::on_command::<R, E>, (third, StoreCommand::Write(key, value), nothing), replies)]
            {
                &&& call_ensures(
                    Store::<N>::on_command::<R, E>,
                    (first, StoreCommand::NotifyRead(key, reader), nothing),
                    asked,
                )
                &&& *second == *final(first)
                &&& call_ensures(
                    Store::<N>::on_command::<R, E>,
                    (second, StoreCommand::Write(other, skipped), nothing),
                    between,
                )
                &&& *third == *final(second)
                &&& call_ensures(
                    Store::<N>::on_command::<R, E>,
                    (third, StoreCommand::Write(key, value), nothing),
                    replies,
                )
            } ==> gets(replies.notified@, reader, value@),
        forall|first: &mut Store<N>, second: &mut Store<N>, replies: Replies<R, N, E>, again: Replies<R, N, E>|
            #![trigger call_ensures(Store::<N>::on_command::<R, E>, (first, StoreCommand::Write(key, value), nothing), replies), call_ensures(Store::<N>::on_command::<R, E>, (second, StoreCommand::Write(key, next), nothing), again)]
            {
                &&& call_ensures(
                    Store::<N>::on_command::<R, E>,
                    (first, StoreCommand::Write(key, value), nothing),
                    replies,
                )
                &&& *second == *final(first)
                &&& call_ensures(
                    Store::<N>::on_command::<R, E>,
                    (second, StoreCommand::Write(key, next), nothing),
                    again,
                )
            } ==> again.notified@.len() == 0,
{
    assert forall|first: &mut Store<N>, second: &mut Store<N>, asked: Replies<R, N, E>, replies: Replies<R, N, E>|
        #![trigger call_ensures(Store::<N>::on_command::<R, E>, (first, StoreCommand::NotifyRead(key, reader), nothing), asked), call_ensures(Store::<N>::on_command::<R, E>, (second, StoreCommand::Write(key, value), nothing), replies)]
        {
            &&& call_ensures(
                Store::<N>::on_command::<R, E>,
                (first, StoreCommand::NotifyRead(key, reader), nothing),
                asked,
            )
            &&& *second == *final(first)
            &&& call_ensures(
                Store::<N>::on_command::<R, E>,
                (second, StoreCommand::Write(key, value), nothing),
                replies,
            )
        } implies {
        &&& asked.notified@.len() == 0
        &&& asked.read is None
        &&& replies.read is None
        &&& gets(replies.notified@, reader, value@)
    } by {
        let earlier = store::waiting_for(first.waiting(), key@);
        let readers = store::waiting_for(second.waiting(), key@);
        assert(readers == earlier.push(reader));
        assert(store::answer_views(asked.notified@).len() == 0);
        assert(asked.notified@.len() == store::answer_views(asked.notified@).len());
        lemma_gets::<N, E>(replies.notified@, readers, value@, earlier.len() as int);
    }
    assert forall|
        first: &mut Store<N>,
        second: &mut Store<N>,
        third: &mut Store<N>,
        asked: Replies<R, N, E>,
        between: Replies<R, N, E>,
        replies: Replies<R, N, E>,
    |
        #![trigger call_ensures(Store::<N>::on_command::<R, E>, (first, StoreCommand::NotifyRead(key, reader), nothing), asked), call_ensures(Store::<N>::on_command::<R, E>, (second, StoreCommand::Write(other, skipped), nothing), between), call_ensures(Store::<N>::on_command::<R, E>, (third, StoreCommand::Write(key, value), nothing), replies)]
        {
            &&& call_ensures(
                Store::<N>::on_command::<R, E>,
                (first, StoreCommand::NotifyRead(key, reader), nothing),
                asked,
            )
            &&& *second == *final(first)
            &&& call_ensures(
                Store::<N>::on_command::<R, E>,
                (second, StoreCommand::Write(other, skipped), nothing),
                between,
            )
            &&& *third == *final(second)
            &&& call_ensures(
                Store::<N>::on_command::<R, E>,
                (third, StoreCommand::Write(key, value), nothing),
                replies,
            )
        } implies gets(replies.notified@, reader, value@) by {
        let earlier = store::waiting_for(first.waiting(), key@);
        let readers = store::waiting_for(third.waiting(), key@);
        assert(readers == earlier.push(reader));
        lemma_gets::<N, E>(replies.notified@, readers, value@, earlier.len() as int);
    }
    assert forall|first: &mut Store<N>, second: &mut Store<N>, replies: Replies<R, N, E>, again: Replies<R, N, E>|
        #![trigger call_ensures(Store::<N>::on_command::<R, E>, (first, StoreCommand::Write(key, value), nothing), replies), call_ensures(Store::<N>::on_command::<R, E>, (second, StoreCommand::Write(key, next), nothing), again)]
        {
            &&& call_ensures(
                Store::<N>::on_command::<R, E>,
                (first, StoreCommand::Write(key, value), nothing),
                replies,
            )
            &&& *second == *final(first)
            &&& call_ensures(
                Store::<N>::on_command::<R, E>,
                (second, StoreCommand::Write(key, next), nothing),
                again,
            )
        } implies again.notified@.len() == 0 by {
        assert(store::waiting_for(second.waiting(), key@).len() == 0);
        assert(store::answer_views(again.notified@).len() == 0);
        assert(again.notified@.len() == store::answer_views(again.notified@).len());
    }
}

/// A reader gets what the database found, and one that wants to be notified gets it at once if
/// there is a value or the database failed. Reading and deleting answer nobody else.
pub proof fn law_readers_get_what_was_found<R, N, E>(
    key: Value,
    reader: R,
    waiter: N,
    found: Result<Option<Value>, E>,
)
    ensures
        forall|store: &mut Store<N>, replies: Replies<R, N, E>| #[trigger]
            call_ensures(
                Store::<N>::on_command::<R, E>,
                (store, StoreCommand::Read(key, reader), found),
                replies,
            ) ==> {
                &&& replies.read == Some((reader, found))
                &&& replies.notified@.len() == 0
                &&& final(store).waiting() == store.waiting()
            },
        forall|store: &mut Store<N>, replies: Replies<R, N, E>| #[trigger]
            call_ensures(
                Store::<N>::on_command::<R, E>,
                (store, StoreCommand::Delete(key), found),
                replies,
            ) ==> {
                &&& replies.read is None
                &&& replies.notified@.len() == 0
                &&& final(store).waiting() == store.waiting()
            },
        forall|store: &mut Store<N>, replies: Replies<R, N, E>|
            {
                &&& #[trigger] call_ensures(
                    Store::<N>::on_command::<R, E>,
                    (store, StoreCommand::NotifyRead(key, waiter), found),
                    replies,
                )
                &&& found != Ok::<Option<Value>, E>(None)
            } ==> {
                &&& replies.read is None
                &&& replies.notified@.len() == 1
                &&& replies.notified@[0].0 == waiter
                &&& found is Ok ==> replies.notified@[0].1 is Ok
                    && replies.notified@[0].1->Ok_0@ == found->Ok_0->0@
                &&& found is Err ==> replies.notified@[0].1 is Err
                    && replies.notified@[0].1->Err_0 == found->Err_0
                &&& final(store).waiting() == store.waiting()
            },
{
    assert forall|store: &mut Store<N>, replies: Replies<R, N, E>| #[trigger]
        call_ensures(
            Store::<N>::on_command::<R, E>,
            (store, StoreCommand::Read(key, reader), found),
            replies,
        ) implies replies.notified@.len() == 0 by {
        assert(store::answer_views(replies.notified@).len() == replies.notified@.len());
    }
    assert forall|store: &mut Store<N>, replies: Replies<R, N, E>| #[trigger]
        call_ensures(
            Store::<N>::on_command::<R, E>,
            (store, StoreCommand::Delete(key), found),
            replies,
        ) implies replies.notified@.len() == 0 by {
        assert(store::answer_views(replies.notified@).len() == replies.notified@.len());
    }
    assert forall|store: &mut Store<N>, replies: Replies<R, N, E>|
        {
            &&& #[trigger] call_ensures(
                Store::<N>::on_command::<R, E>,
                (store, StoreCommand::NotifyRead(key, waiter), found),
                replies,
            )
            &&& found != Ok::<Option<Value>, E>(None)
        } implies {
        &&& replies.notified@.len() == 1
        &&& replies.notified@[0].0 == waiter
        &&& found is Ok ==> replies.notified@[0].1 is Ok && replies.notified@[0].1->Ok_0@
            == found->Ok_0->0@
        &&& found is Err ==> replies.notified@[0].1 is Err && replies.notified@[0].1->Err_0
            == found->Err_0
    } by {
        let views = store::answer_views(replies.notified@);
        assert(views.len() == replies.notified@.len());
        assert(views[0].0 == waiter);
    }
}

/// Who has waited is answered by a list of writes with the first value for the key, and a new
/// store has nobody waiting.
pub proof fn law_batches_of_writes_answer_readers<R, N, E>(
    key: Value,
    value: Value,
    other: Value,
    pairs: Vec<(Value, Value)>,
    found: Result<Option<Value>, E>,
    made: Store<N>,
)
    requires
        call_ensures(Store::<N>::new, (), made),
        pairs@.len() == 2,
        pairs@[0] == (key, value),
        pairs@[1].0@ == key@,
        pairs@[1].1 == other,
    ensures
        forall|reader: N| !#[trigger] store::waiting_for(made.waiting(), key@).contains(reader),
        forall|store: &mut Store<N>, replies: Replies<R, N, E>, reader: N|
            {
                &&& #[trigger] call_ensures(
                    Store::<N>::on_command::<R, E>,
                    (store, StoreCommand::WriteBatch(pairs), found),
                    replies,
                )
                &&& #[trigger] store::waiting_for(store.waiting(), key@).contains(reader)
            } ==> gets(replies.notified@, reader, value@) && store::waiting_for(
                final(store).waiting(),
                key@,
            ).len() == 0,
{
    let views = store::pair_views(pairs@);
    assert(views.drop_last().drop_last() =~= Seq::empty());
    assert(views.drop_last().last() == views[0]);
    assert(views.last() == views[1]);
    reveal_with_fuel(store::batch_waiting, 3);
    reveal_with_fuel(store::batch_answers, 3);
    assert forall|store: &mut Store<N>, replies: Replies<R, N, E>, reader: N|
        {
            &&& #[trigger] call_ensures(
                Store::<N>::on_command::<R, E>,
                (store, StoreCommand::WriteBatch(pairs), found),
                replies,
            )
            &&& #[trigger] store::waiting_for(store.waiting(), key@).contains(reader)
        } implies gets(replies.notified@, reader, value@) && store::waiting_for(
        final(store).waiting(),
        key@,
    ).len() == 0 by {
        let before = store.waiting();
        let readers = store::waiting_for(before, key@);
        let one = views.drop_last();
        assert(store::batch_waiting(before, one) == before.remove(key@));
        assert(store::batch_answers::<N, E>(before, one) =~= store::all_get::<N, E>(
            readers,
            value@,
        ));
        assert(store::batch_answers::<N, E>(before, views) =~= store::all_get::<N, E>(
            readers,
            value@,
        ));
        let i = choose|i: int| 0 <= i < readers.len() && readers[i] == reader;
        lemma_gets::<N, E>(replies.notified@, readers, value@, i);
    }
}

/// A batch with enough shards is rebuilt exactly if its shards reconstruct to a coded batch, and
/// fails with the fault of that otherwise.
pub proof fn law_batches_are_rebuilt_from_their_shards(
    received: ReceivedShard,
    given: Vec<Option<Shard>>,
    committee: &Committee,
    rebuilt: MempoolResult<CodedBatch>,
)
    requires
        call_ensures(CodedBatch::reconstruct, (given, committee), rebuilt),
    ensures
        forall|node: &mut Reconstructor, outcome: ShardOutcome|
            {
                &&& #[trigger] call_ensures(
                    Reconstructor::on_shard,
                    (node, received, true),
                    outcome,
                )
                &&& node.members() == *committee
                &&& outcome is Reconstructed || outcome is Failed
                &&& coding::sparse_views(given@) == node.shards_of(received.root.0@).update(
                    received.destination as int,
                    Some(received.shard@),
                )
            } ==> {
                &&& outcome is Reconstructed <==> rebuilt is Ok
                &&& outcome is Failed ==> outcome->Failed_0 == rebuilt->Err_0
            },
{
}

/// No batch is asked for twice at one time.
pub proof fn law_no_batch_is_asked_for_twice(now: u128)
    ensures
        forall|synchronizer: &mut Synchronizer, retry: Vec<Digest>, i: int, j: int|
            #![trigger call_ensures(Synchronizer::on_timer, (synchronizer, now), retry), retry@[i], retry@[j]]
            {
                &&& call_ensures(Synchronizer::on_timer, (synchronizer, now), retry)
                &&& 0 <= i < j < retry@.len()
            } ==> retry@[i].0@ != retry@[j].0@,
{
    assert forall|synchronizer: &mut Synchronizer, retry: Vec<Digest>, i: int, j: int|
        #![trigger call_ensures(Synchronizer::on_timer, (synchronizer, now), retry), retry@[i], retry@[j]]
        {
            &&& call_ensures(Synchronizer::on_timer, (synchronizer, now), retry)
            &&& 0 <= i < j < retry@.len()
        } implies retry@[i].0@ != retry@[j].0@ by {
        assert(retry@[i]@ != retry@[j]@);
    }
}

/// That a batch is asked for, or has come, changes nothing about when another is asked for again.
pub proof fn law_batches_are_asked_for_on_their_own(
    digest: &Digest,
    other: &Digest,
    found: bool,
    now: u128,
    then: u128,
)
    ensures
        forall|
            first: &mut Synchronizer,
            alone: &mut Synchronizer,
            second: &mut Synchronizer,
            ask: bool,
            without: Vec<Digest>,
            retry: Vec<Digest>,
        |
            #![trigger call_ensures(Synchronizer::on_read, (first, digest, found, now), ask), call_ensures(Synchronizer::on_timer, (alone, then), without), call_ensures(Synchronizer::on_timer, (second, then), retry)]
            {
                &&& call_ensures(Synchronizer::on_read, (first, digest, found, now), ask)
                &&& *alone == *first
                &&& call_ensures(Synchronizer::on_timer, (alone, then), without)
                &&& *second == *final(first)
                &&& call_ensures(Synchronizer::on_timer, (second, then), retry)
                &&& other.0@ != digest.0@
            } ==> (is_among(retry@, other.0@) <==> is_among(without@, other.0@)),
        forall|
            first: &mut Synchronizer,
            alone: &mut Synchronizer,
            second: &mut Synchronizer,
            without: Vec<Digest>,
            retry: Vec<Digest>,
        |
            #![trigger call_ensures(Synchronizer::on_synced, (first, digest), ()), call_ensures(Synchronizer::on_timer, (alone, then), without), call_ensures(Synchronizer::on_timer, (second, then), retry)]
            {
                &&& call_ensures(Synchronizer::on_synced, (first, digest), ())
                &&& *alone == *first
                &&& call_ensures(Synchronizer::on_timer, (alone, then), without)
                &&& *second == *final(first)
                &&& call_ensures(Synchronizer::on_timer, (second, then), retry)
                &&& other.0@ != digest.0@
            } ==> (is_among(retry@, other.0@) <==> is_among(without@, other.0@)),
{
    assert forall|
            first: &mut Synchronizer,
            alone: &mut Synchronizer,
            second: &mut Synchronizer,
            ask: bool,
            without: Vec<Digest>,
            retry: Vec<Digest>,
        |
            #![trigger call_ensures(Synchronizer::on_read, (first, digest, found, now), ask), call_ensures(Synchronizer::on_timer, (alone, then), without), call_ensures(Synchronizer::on_timer, (second, then), retry)]
            {
                &&& call_ensures(Synchronizer::on_read, (first, digest, found, now), ask)
                &&& *alone == *first
                &&& call_ensures(Synchronizer::on_timer, (alone, then), without)
                &&& *second == *final(first)
                &&& call_ensures(Synchronizer::on_timer, (second, then), retry)
                &&& other.0@ != digest.0@
            } implies (is_among(retry@, other.0@) <==> is_among(without@, other.0@)) by {
        lemma_among(retry@, other.0@);
        lemma_among(without@, other.0@);
        assert(second.is_due(other@, then) <==> alone.is_due(other@, then));
    }
    assert forall|
            first: &mut Synchronizer,
            alone: &mut Synchronizer,
            second: &mut Synchronizer,
            without: Vec<Digest>,
            retry: Vec<Digest>,
        |
            #![trigger call_ensures(Synchronizer::on_synced, (first, digest), ()), call_ensures(Synchronizer::on_timer, (alone, then), without), call_ensures(Synchronizer::on_timer, (second, then), retry)]
            {
                &&& call_ensures(Synchronizer::on_synced, (first, digest), ())
                &&& *alone == *first
                &&& call_ensures(Synchronizer::on_timer, (alone, then), without)
                &&& *second == *final(first)
                &&& call_ensures(Synchronizer::on_timer, (second, then), retry)
                &&& other.0@ != digest.0@
            } implies (is_among(retry@, other.0@) <==> is_among(without@, other.0@)) by {
        lemma_among(retry@, other.0@);
        lemma_among(without@, other.0@);
        assert(second.is_due(other@, then) <==> alone.is_due(other@, then));
    }
}

/// That a batch is missing changes nothing about the others, nor about the shards that have come.
pub proof fn law_missing_batches_are_told_apart(root: &Digest, received: ReceivedShard, verified: bool)
    ensures
        forall|node: &mut Reconstructor| #[trigger]
            call_ensures(Reconstructor::on_missing, (node, root), ()) ==> {
                &&& forall|other: Seq<u8>| #[trigger]
                    final(node).missing_roots().contains(other) <==> other == root.0@
                        || node.missing_roots().contains(other)
                &&& forall|other: Seq<u8>| #[trigger]
                    final(node).shards_of(other) == node.shards_of(other)
            },
        forall|
            first: &mut Reconstructor,
            alone: &mut Reconstructor,
            second: &mut Reconstructor,
            without: ShardOutcome,
            outcome: ShardOutcome,
        |
            #![trigger call_ensures(Reconstructor::on_missing, (first, root), ()), call_ensures(Reconstructor::on_shard, (alone, received, verified), without), call_ensures(Reconstructor::on_shard, (second, received, verified), outcome)]
            {
                &&& call_ensures(Reconstructor::on_missing, (first, root), ())
                &&& *alone == *first
                &&& call_ensures(Reconstructor::on_shard, (alone, received, verified), without)
                &&& *second == *final(first)
                &&& call_ensures(Reconstructor::on_shard, (second, received, verified), outcome)
            } ==> {
                &&& root.0@ != received.root.0@ || !(without is NotMissing) ==> {
                    &&& outcome is OutOfRange <==> without is OutOfRange
                    &&& outcome is Invalid <==> without is Invalid
                    &&& outcome is NotMissing <==> without is NotMissing
                    &&& outcome is Collected <==> without is Collected
                    &&& outcome is Reconstructed <==> without is Reconstructed
                    &&& outcome is Failed <==> without is Failed
                }
                &&& root.0@ == received.root.0@ ==> !(outcome is NotMissing)
            },
{
    assert forall|node: &mut Reconstructor| #[trigger]
        call_ensures(Reconstructor::on_missing, (node, root), ()) implies {
        &&& forall|other: Seq<u8>| #[trigger]
            final(node).missing_roots().contains(other) <==> other == root.0@
                || node.missing_roots().contains(other)
        &&& forall|other: Seq<u8>| #[trigger]
            final(node).shards_of(other) == node.shards_of(other)
    } by {
        assert(root@ == root.0@);
    }
    assert forall|
        first: &mut Reconstructor,
        alone: &mut Reconstructor,
        second: &mut Reconstructor,
        without: ShardOutcome,
        outcome: ShardOutcome,
    |
        #![trigger call_ensures(Reconstructor::on_missing, (first, root), ()), call_ensures(Reconstructor::on_shard, (alone, received, verified), without), call_ensures(Reconstructor::on_shard, (second, received, verified), outcome)]
        {
            &&& call_ensures(Reconstructor::on_missing, (first, root), ())
            &&& *alone == *first
            &&& call_ensures(Reconstructor::on_shard, (alone, received, verified), without)
            &&& *second == *final(first)
            &&& call_ensures(Reconstructor::on_shard, (second, received, verified), outcome)
        } implies {
        &&& root.0@ != received.root.0@ || !(without is NotMissing) ==> {
            &&& outcome is OutOfRange <==> without is OutOfRange
            &&& outcome is Invalid <==> without is Invalid
            &&& outcome is NotMissing <==> without is NotMissing
            &&& outcome is Collected <==> without is Collected
            &&& outcome is Reconstructed <==> without is Reconstructed
            &&& outcome is Failed <==> without is Failed
        }
        &&& root.0@ == received.root.0@ ==> !(outcome is NotMissing)
    } by {
        let other = received.root@;
        assert(second.members() == alone.members());
        assert(second.shards_of(other) == alone.shards_of(other));
        assert(second.missing_roots().contains(other) <==> other == root@
            || alone.missing_roots().contains(other));
    }
}

} // verus!
