//! Reconstructing missing batches from the shards of other nodes.

use vstd::prelude::*;
use crate::coded_batch::{self, CodedBatch};
use crate::coding::{self, Shard};
use crate::committee::Committee;
use crate::crypto::{Digest, PublicKey};
use crate::error::MempoolError;
use crate::keys::{self, make_marker, node_index, shard_key};
use crate::synchronizer::Synchronizer;
use crate::table::Table;

verus! {

/// A shard of a batch, as another node sent it.
#[derive(Debug)]
pub struct ReceivedShard {
    pub root: Digest,
    /// The number of the shard.
    pub destination: usize,
    pub shard: Shard,
}

/// What becomes of a shard.
#[derive(Debug)]
pub enum ShardOutcome {
    /// There is no shard of this number.
    OutOfRange,
    /// The shard did not pass the check.
    Invalid,
    /// The batch was not asked for.
    NotMissing,
    /// More shards of the batch are needed.
    Collected,
    /// The batch is there; these entries have to be written.
    Reconstructed(Vec<(Vec<u8>, Vec<u8>)>),
    /// The shards do not make up a batch.
    Failed(MempoolError),
}

/// The shards that one node collects.
#[derive(Debug)]
pub struct Reconstructor {
    name: PublicKey,
    committee: Committee,
    /// The batches that are missing.
    missing: Table<()>,
    /// The shards that have come, by their numbers.
    collected_shards: Table<Vec<Option<Shard>>>,
}

/// Places for `total` shards, none of which has come.
pub open spec fn no_shards(total: nat) -> Seq<Option<Seq<u8>>> {
    Seq::new(total, |i: int| None)
}

impl Reconstructor {
    /// This node.
    pub closed spec fn owner(&self) -> PublicKey {
        self.name
    }

    /// The committee.
    pub closed spec fn members(&self) -> Committee {
        self.committee
    }

    /// The roots of the batches that are missing.
    pub closed spec fn missing_roots(&self) -> Set<Seq<u8>> {
        self.missing@.dom()
    }

    /// The shards of a batch that have come.
    pub closed spec fn shards_of(&self, root: Seq<u8>) -> Seq<Option<Seq<u8>>> {
        if self.collected_shards@.contains_key(root) {
            coding::sparse_views(self.collected_shards@[root]@)
        } else {
            no_shards(self.total_shards())
        }
    }

    /// The number of shards of a batch.
    pub open spec fn total_shards(&self) -> nat {
        (self.members().data_shards + self.members().parity_shards) as nat
    }

    /// There is a place for each shard of a batch.
    pub closed spec fn wf(&self) -> bool {
        &&& self.missing.wf()
        &&& self.collected_shards.wf()
        &&& self.committee.wf()
        &&& self.committee.has_code()
        &&& forall|root: Seq<u8>| #[trigger]
            self.collected_shards@.contains_key(root) ==> self.collected_shards@[root]@.len()
                == self.total_shards()
    }

    /// There is a place for each shard of a batch.
    pub proof fn law_every_shard_has_a_place(&self, root: Seq<u8>)
        requires
            self.wf(),
        ensures
            self.shards_of(root).len() == self.members().data_shards
                + self.members().parity_shards,
    {
        if self.collected_shards@.contains_key(root) {
            assert(self.shards_of(root).len() == self.collected_shards@[root]@.len());
        }
    }

    /// A reconstructor that waits for nothing.
    pub fn new(name: PublicKey, committee: Committee) -> (reconstructor: Reconstructor)
        requires
            committee.wf(),
            committee.has_code(),
        ensures
            reconstructor.wf(),
            reconstructor.owner() == name,
            reconstructor.members() == committee,
            reconstructor.missing_roots() == Set::<Seq<u8>>::empty(),
            forall|root: Seq<u8>| #[trigger]
                reconstructor.shards_of(root) == no_shards(reconstructor.total_shards()),
    {
        let reconstructor = Reconstructor {
            name,
            committee,
            missing: Table::new(),
            collected_shards: Table::new(),
        };
        assert(reconstructor.missing_roots() =~= Set::<Seq<u8>>::empty());
        reconstructor
    }

    /// A batch is missing.
    pub fn on_missing(&mut self, root: &Digest)
        requires
            old(self).wf(),
        ensures
            final(self).wf(),
            final(self).owner() == old(self).owner(),
            final(self).members() == old(self).members(),
            final(self).missing_roots() == old(self).missing_roots().insert(root@),
            forall|other: Seq<u8>| #[trigger]
                final(self).shards_of(other) == old(self).shards_of(other),
    {
        let ghost before = self.missing@;
        self.missing.insert(root.to_vec(), ());
        assert(self.missing_roots() =~= before.dom().insert(root@));
    }

    /// The shards of a batch, with a new one in its place.
    pub open spec fn shards_with(&self, received: &ReceivedShard) -> Seq<Option<Seq<u8>>> {
        self.shards_of(received.root@).update(
            received.destination as int,
            Some(received.shard@),
        )
    }

    /// The shard is one that is waited for.
    pub open spec fn accepts(&self, received: &ReceivedShard, verified: bool) -> bool {
        &&& received.destination < self.total_shards()
        &&& verified
        &&& self.missing_roots().contains(received.root@)
    }

    /// `writes` marks the batch as being there, for the synchronizer and for the consensus.
    pub open spec fn marks(&self, root: Seq<u8>, writes: Seq<(Vec<u8>, Vec<u8>)>) -> bool {
        &&& writes.len() == 2
        &&& writes[0].0@ == keys::shard_key_of(
            root,
            2 * keys::node_number(&self.members(), self.owner()),
        )
        &&& writes[0].1@ == keys::marker()
        &&& writes[1].0@ == root
        &&& writes[1].1@ == keys::marker()
    }

    /// Takes in a shard, given whether it passed the check. A shard that is not waited for
    /// changes nothing. Once as many shards of a batch have come as it has data shards, the
    /// batch is reconstructed, and it is no longer missing whether or not that succeeds. It
    /// succeeds on the shards of a coded batch.
    pub fn on_shard(&mut self, received: ReceivedShard, verified: bool) -> (outcome: ShardOutcome)
        requires
            old(self).wf(),
        ensures
            final(self).wf(),
            final(self).owner() == old(self).owner(),
            final(self).members() == old(self).members(),
            forall|other: Seq<u8>|
                other != received.root@ ==> #[trigger] final(self).shards_of(other) == old(
                    self,
                ).shards_of(other),
            ({
                let committee = old(self).members();
                let shards = old(self).shards_with(&received);
                if received.destination >= old(self).total_shards() {
                    outcome is OutOfRange
                } else if !verified {
                    outcome is Invalid
                } else if !old(self).missing_roots().contains(received.root@) {
                    outcome is NotMissing
                } else if coding::present_count(shards) < committee.data_shards {
                    outcome is Collected && final(self).shards_of(received.root@) == shards
                } else {
                    &&& final(self).shards_of(received.root@) == no_shards(
                        old(self).total_shards(),
                    )
                    &&& final(self).missing_roots() == old(self).missing_roots().remove(
                        received.root@,
                    )
                    &&& match coded_batch::reconstruction(
                        shards,
                        committee.data_shards as nat,
                        committee.parity_shards as nat,
                    ) {
                        Ok(_) => outcome is Reconstructed && old(self).marks(
                            received.root@,
                            outcome->Reconstructed_0@,
                        ),
                        Err(error) => outcome == ShardOutcome::Failed(error),
                    }
                    &&& forall|coded: Seq<Seq<u8>>|
                        coded_batch::is_coded_batch(
                            coded,
                            committee.data_shards as nat,
                            committee.parity_shards as nat,
                        ) && #[trigger] coding::drawn_from(shards, coded)
                            ==> outcome is Reconstructed
                }
            }),
            !old(self).accepts(&received, verified) || outcome is Collected
                ==> final(self).missing_roots() == old(self).missing_roots(),
            !old(self).accepts(&received, verified) ==> final(self).shards_of(received.root@)
                == old(self).shards_of(received.root@),
    {
        let ghost before = *self;
        let (data_shards, parity_shards) = self.committee.shards();
        let total: usize = data_shards + parity_shards;
        if received.destination >= total {
            return ShardOutcome::OutOfRange;
        }
        if !verified {
            return ShardOutcome::Invalid;
        }
        if !self.missing.contains(&received.root.0) {
            return ShardOutcome::NotMissing;
        }
        let root: Digest = received.root;
        let mut shards: Vec<Option<Shard>> = match self.collected_shards.remove(&root.0) {
            Some(shards) => shards,
            None => empty_places(total),
        };
        assert(coding::sparse_views(shards@) =~= before.shards_of(root@));
        let ghost earlier = shards@;
        shards[received.destination] = Some(received.shard);
        assert(coding::sparse_views(shards@) =~= before.shards_with(&received));
        if count_present(&shards) < data_shards {
            self.collected_shards.insert(root.to_vec(), shards);
            return ShardOutcome::Collected;
        }
        let _ = self.missing.remove(&root.0);
        assert(self.missing_roots() =~= before.missing_roots().remove(root@));
        match CodedBatch::reconstruct(shards, &self.committee) {
            Ok(_) => {
                let node: usize = node_index(&self.committee, &self.name);
                let mut writes: Vec<(Vec<u8>, Vec<u8>)> = Vec::new();
                writes.push((shard_key(&root, 2 * node), make_marker()));
                writes.push((root.to_vec(), make_marker()));
                ShardOutcome::Reconstructed(writes)
            },
            Err(error) => ShardOutcome::Failed(error),
        }
    }
}

/// The entries that mark a batch as being there are those that the synchronizer of the same node
/// waits for, and the root that the consensus waits for.
pub proof fn law_reconstruction_wakes_waiters(
    reconstructor: &Reconstructor,
    synchronizer: &Synchronizer,
    root: Digest,
    writes: Seq<(Vec<u8>, Vec<u8>)>,
)
    requires
        reconstructor.owner() == synchronizer.owner(),
        reconstructor.members() == synchronizer.members(),
        reconstructor.marks(root@, writes),
    ensures
        writes[0].0@ == synchronizer.waited_key(root@),
        writes[1].0@ == root@,
        writes[0].0@ != writes[1].0@,
{
    crate::bytes::lemma_le_bytes_len(
        2 * keys::node_number(&reconstructor.members(), reconstructor.owner()),
        8,
    );
    assert(writes[0].0@.len() == root@.len() + 8);
}

/// Places for `total` shards.
pub fn empty_places(total: usize) -> (places: Vec<Option<Shard>>)
    ensures
        places@.len() == total,
        coding::sparse_views(places@) == no_shards(total as nat),
{
    let mut places: Vec<Option<Shard>> = Vec::new();
    let mut i: usize = 0;
    while i < total
        invariant
            i <= total,
            places@.len() == i,
            forall|j: int| 0 <= j < i ==> (#[trigger] places@[j]) is None,
        decreases total - i,
    {
        places.push(None);
        i = i + 1;
    }
    assert(coding::sparse_views(places@) =~= no_shards(total as nat));
    places
}

/// The number of shards that are there.
pub fn count_present(shards: &Vec<Option<Shard>>) -> (count: usize)
    ensures
        count == coding::present_count(coding::sparse_views(shards@)),
{
    let ghost all = coding::sparse_views(shards@);
    let mut count: usize = 0;
    let mut i: usize = 0;
    while i < shards.len()
        invariant
            i <= shards@.len(),
            all == coding::sparse_views(shards@),
            count <= i,
            count == coding::present_count(all.take(i as int)),
        decreases shards@.len() - i,
    {
        assert(all.take(i + 1).drop_last() =~= all.take(i as int));
        assert(all.take(i + 1).last() == all[i as int]);
        if shards[i].is_some() {
            count = count + 1;
        }
        i = i + 1;
    }
    assert(all.take(i as int) =~= all);
    count
}

} // verus!
