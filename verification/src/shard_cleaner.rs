//! Dropping the second shard of a batch once all nodes have acknowledged it.

use vstd::prelude::*;
use crate::aggregator::{self, FullAvailabilityProof};
use crate::committee::Committee;
use crate::crypto::{self, PublicKey};
use crate::keys::{self, shard_key};

verus! {

/// Drops shards for one node.
#[derive(Debug)]
pub struct ShardCleaner {
    pub name: PublicKey,
    pub committee: Committee,
}

impl ShardCleaner {
    /// The key that a proof allows to delete, given whether its signatures are the voters': the
    /// second shard of this node.
    pub open spec fn droppable(
        &self,
        availability: &FullAvailabilityProof,
        signatures_valid: bool,
    ) -> Option<Seq<u8>> {
        match (
            aggregator::availability_verdict(
                &self.committee,
                availability.votes@,
                signatures_valid,
            ),
            self.committee.place_of(self.name),
        ) {
            (Ok(()), Some(place)) => Some(
                keys::shard_key_of(availability.root@, 2 * place + 1),
            ),
            _ => None,
        }
    }

    /// The key to be deleted after a proof, given whether its signatures are the voters'.
    pub fn prune_with(&self, availability: &FullAvailabilityProof, signatures_valid: bool) -> (key:
        Option<Vec<u8>>)
        requires
            self.committee.wf(),
        ensures
            match self.droppable(availability, signatures_valid) {
                Some(expected) => key is Some && key->0@ == expected,
                None => key is None,
            },
    {
        match availability.verify_with(&self.committee, signatures_valid) {
            Ok(()) => {},
            Err(_) => {
                return None;
            },
        }
        match self.committee.index(&self.name) {
            Some(index) => Some(shard_key(&availability.root, 2 * index + 1)),
            None => None,
        }
    }

    /// The key to be deleted after a proof, whose signatures are checked by a randomized
    /// procedure, which takes all that were made with the secrets of the voters.
    pub fn prune(&self, availability: &FullAvailabilityProof) -> (key: Option<Vec<u8>>)
        requires
            self.committee.wf(),
        ensures
            key matches Some(key) ==> self.droppable(availability, true) == Some(key@),
            self.droppable(availability, true) is None ==> key is None,
            !crypto::votes_have_form(availability.votes@) ==> key is None,
            crypto::all_genuine(availability.root@, availability.votes@) ==> match self.droppable(
                availability,
                true,
            ) {
                Some(expected) => key is Some && key->0@ == expected,
                None => key is None,
            },
    {
        match availability.verify(&self.committee) {
            Ok(()) => self.prune_with(availability, true),
            Err(_) => None,
        }
    }
}

/// What is dropped is the shard of a batch that every node has voted for, and it is not the
/// first shard of this node nor the marker of the batch.
pub proof fn law_first_shard_is_kept(
    cleaner: &ShardCleaner,
    availability: &FullAvailabilityProof,
    signatures_valid: bool,
    i: int,
)
    requires
        cleaner.committee.wf(),
        cleaner.droppable(availability, signatures_valid) is Some,
        0 <= i < cleaner.committee.authorities@.len(),
    ensures
        aggregator::voters(availability.votes@).contains(
            cleaner.committee.authorities@[i].name@,
        ),
        cleaner.droppable(availability, signatures_valid) != Some(
            keys::shard_key_of(
                availability.root@,
                2 * keys::node_number(&cleaner.committee, cleaner.name),
            ),
        ),
        cleaner.droppable(availability, signatures_valid) != Some(availability.root@),
{
    aggregator::law_availability_proof_is_full(&cleaner.committee, availability.votes@, i);
    let place = cleaner.committee.place_of(cleaner.name)->0;
    crate::committee::lemma_place(cleaner.committee.authorities@, cleaner.name@);
    let (first, second) = ((2 * place) as u64, (2 * place + 1) as u64);
    assert(first as nat == 2 * place && second as nat == 2 * place + 1);
    keys::law_shard_key_is_no_root(availability.root, second, availability.root);
    if keys::shard_key_of(availability.root@, first as nat) == keys::shard_key_of(
        availability.root@,
        second as nat,
    ) {
        keys::law_shard_keys_differ(availability.root@, first, availability.root@, second);
    }
}

} // verus!
