//! Votes for coded batches.

use vstd::prelude::*;
use crate::committee::Committee;
use crate::crypto::{self, Digest, PublicKey, Signature};
use crate::error::{MempoolError, MempoolResult};
use crate::keys::{self, make_marker, shard_key};
use crate::table::Table;

verus! {

/// A vote for a coded batch.
#[derive(Clone, Copy, Debug)]
pub struct BatchVote {
    /// The Merkle root of the coded batch.
    pub root: Digest,
    /// Who voted.
    pub author: PublicKey,
    /// The signature over the root.
    pub signature: Signature,
}

impl BatchVote {
    /// Makes a vote from a signature over the root.
    pub fn new(root: Digest, author: PublicKey, signature: Signature) -> (vote: BatchVote)
        ensures
            vote == (BatchVote { root, author, signature }),
    {
        BatchVote { root, author, signature }
    }

    /// What a check of this vote comes to, given whether the signature is the author's.
    pub open spec fn verdict(&self, committee: &Committee, signature_valid: bool) -> MempoolResult<
        (),
    > {
        if committee.stake_of(self.author) == 0 {
            Err(MempoolError::UnknownAuthority(self.author))
        } else if !signature_valid {
            Err(MempoolError::InvalidSignature)
        } else {
            Ok(())
        }
    }

    /// Checks the vote, given whether the signature is the author's.
    pub fn verify_with(&self, committee: &Committee, signature_valid: bool) -> (outcome:
        MempoolResult<()>)
        ensures
            outcome == self.verdict(committee, signature_valid),
    {
        if committee.stake(&self.author) == 0 {
            return Err(MempoolError::UnknownAuthority(self.author));
        }
        if !signature_valid {
            return Err(MempoolError::InvalidSignature);
        }
        Ok(())
    }

    /// Checks the vote: the author has stake and signed the root.
    pub fn verify(&self, committee: &Committee) -> (outcome: MempoolResult<()>)
        ensures
            outcome == self.verdict(
                committee,
                crypto::signature_accepted(self.root@, self.author@, self.signature@),
            ),
    {
        self.verify_with(committee, self.signature.verify(&self.root, &self.author))
    }
}

/// For how many votes per author it is waited at most.
pub const MAX_PENDING_VOTES: usize = 100;

/// A shard of a bundle, encoded for the store.
#[derive(Debug)]
pub struct EncodedShard {
    /// The root of the batch.
    pub root: Digest,
    /// The number of the shard.
    pub destination: usize,
    pub bytes: Vec<u8>,
}

/// `writes` are the entries of the two shards of a bundle and the marker of the batch.
pub open spec fn stores_bundle(
    writes: Seq<(Vec<u8>, Vec<u8>)>,
    root: Seq<u8>,
    first: &EncodedShard,
    second: &EncodedShard,
) -> bool {
    &&& writes.len() == 3
    &&& writes[0].0@ == keys::shard_key_of(first.root@, first.destination as nat)
    &&& writes[0].1@ == first.bytes@
    &&& writes[1].0@ == keys::shard_key_of(second.root@, second.destination as nat)
    &&& writes[1].1@ == second.bytes@
    &&& writes[2].0@ == root
    &&& writes[2].1@ == keys::marker()
}

/// The entries to be written, in one go, for a bundle, given what its check came to: its two
/// shards and the marker of the batch if it passed. Only then the batch is voted for. For a
/// bundle that did not pass nothing is written, and the fault is handed back.
pub fn on_bundle(
    root: &Digest,
    verified: MempoolResult<(EncodedShard, EncodedShard)>,
) -> (writes: MempoolResult<Vec<(Vec<u8>, Vec<u8>)>>)
    ensures
        match verified {
            Ok((first, second)) => {
                &&& writes is Ok
                &&& stores_bundle(writes->Ok_0@, root@, &first, &second)
            },
            Err(fault) => writes == Err::<Vec<(Vec<u8>, Vec<u8>)>, MempoolError>(fault),
        },
{
    match verified {
        Ok((first, second)) => {
            let mut writes: Vec<(Vec<u8>, Vec<u8>)> = Vec::new();
            writes.push((shard_key(&first.root, first.destination), first.bytes));
            writes.push((shard_key(&second.root, second.destination), second.bytes));
            writes.push((root.to_vec(), make_marker()));
            Ok(writes)
        },
        Err(fault) => Err(fault),
    }
}

/// Votes for the shards of one's own batches.
#[derive(Debug)]
pub struct SelfVoter {
    pub name: PublicKey,
    pub committee: Committee,
}

impl SelfVoter {
    /// The vote for a bundle that passed the check, once the root is signed.
    pub fn vote(&self, root: Digest, signature: Signature) -> (vote: BatchVote)
        ensures
            vote == (BatchVote { root, author: self.name, signature }),
    {
        BatchVote::new(root, self.name, signature)
    }
}

/// Votes for the shards of the other nodes' batches. Each vote is sent until a handle is
/// dropped, and the handles are kept by the authors and the roots of the batches.
#[derive(Debug)]
pub struct NodesVoter<H> {
    name: PublicKey,
    committee: Committee,
    pending: Table<Table<H>>,
}

impl<H> NodesVoter<H> {
    /// This node.
    pub closed spec fn owner(&self) -> PublicKey {
        self.name
    }

    /// The committee.
    pub closed spec fn members(&self) -> Committee {
        self.committee
    }

    /// The handles of the votes for the batches of an author.
    pub closed spec fn handles(&self, author: Seq<u8>) -> Map<Seq<u8>, H> {
        if self.pending@.contains_key(author) {
            self.pending@[author]@
        } else {
            Map::empty()
        }
    }

    /// There are not too many votes for any author.
    pub closed spec fn wf(&self) -> bool {
        &&& self.pending.wf()
        &&& forall|author: Seq<u8>| #[trigger]
            self.pending@.contains_key(author) ==> self.pending@[author].wf()
                && self.pending@[author].keys().len() <= MAX_PENDING_VOTES
    }

    /// It is never waited for more than the limit of votes per author.
    pub proof fn law_pending_votes_bounded(&self, author: Seq<u8>)
        requires
            self.wf(),
        ensures
            self.handles(author).dom().finite(),
            self.handles(author).len() <= MAX_PENDING_VOTES,
    {
        if self.pending@.contains_key(author) {
            let votes = self.pending@[author];
            votes.lemma_keys();
            let keys = votes.keys();
            assert(keys.to_set() =~= votes@.dom());
            keys.unique_seq_to_set();
        } else {
            assert(self.handles(author).dom() =~= Set::<Seq<u8>>::empty());
        }
    }

    /// A voter that waits for nothing.
    pub fn new(name: PublicKey, committee: Committee) -> (voter: NodesVoter<H>)
        ensures
            voter.wf(),
            voter.owner() == name,
            voter.members() == committee,
            forall|author: Seq<u8>| #[trigger]
                voter.handles(author) == Map::<Seq<u8>, H>::empty(),
    {
        NodesVoter { name, committee, pending: Table::new() }
    }

    /// The vote for a bundle that passed the check, once the root is signed.
    pub fn vote(&self, root: Digest, signature: Signature) -> (vote: BatchVote)
        ensures
            vote == (BatchVote { root, author: self.owner(), signature }),
    {
        BatchVote::new(root, self.name, signature)
    }

    /// Keeps the handle of a vote that was sent to `author`. If the limit is reached, one of the
    /// votes for that author is given up first.
    pub fn keep(&mut self, author: &PublicKey, root: &Digest, handle: H)
        requires
            old(self).wf(),
        ensures
            final(self).wf(),
            final(self).owner() == old(self).owner(),
            final(self).members() == old(self).members(),
            forall|other: Seq<u8>|
                other != author@ ==> #[trigger] final(self).handles(other) == old(self).handles(
                    other,
                ),
            old(self).handles(author@).len() < MAX_PENDING_VOTES ==> final(self).handles(author@)
                == old(self).handles(author@).insert(root@, handle),
            old(self).handles(author@).len() >= MAX_PENDING_VOTES ==> exists|given_up: Seq<u8>|
                {
                    &&& #[trigger] old(self).handles(author@).contains_key(given_up)
                    &&& final(self).handles(author@) == old(self).handles(author@).remove(
                        given_up,
                    ).insert(root@, handle)
                },
    {
        let ghost before = *self;
        proof {
            self.law_pending_votes_bounded(author@);
        }
        let mut votes: Table<H> = match self.pending.remove(&author.0) {
            Some(votes) => votes,
            None => Table::new(),
        };
        assert(votes@ =~= before.handles(author@));
        proof {
            votes.lemma_keys();
            assert(votes.keys().to_set() =~= votes@.dom());
            votes.keys().unique_seq_to_set();
        }
        if votes.len() >= MAX_PENDING_VOTES {
            let ghost all = votes;
            let oldest = votes.key_at(0).clone();
            assert(all.keys().contains(all.keys()[0]));
            let _ = votes.remove(&oldest);
            assert(before.handles(author@).contains_key(oldest@));
        }
        votes.insert(root.to_vec(), handle);
        let ghost kept = votes;
        self.pending.insert(author.to_vec(), votes);
        assert(self.handles(author@) =~= kept@);
    }

    /// A batch is certified, so it is no longer waited for its vote.
    pub fn cleanup(&mut self, author: &PublicKey, root: &Digest)
        requires
            old(self).wf(),
        ensures
            final(self).wf(),
            final(self).owner() == old(self).owner(),
            final(self).members() == old(self).members(),
            forall|other: Seq<u8>|
                other != author@ ==> #[trigger] final(self).handles(other) == old(self).handles(
                    other,
                ),
            final(self).handles(author@) == old(self).handles(author@).remove(root@),
    {
        let ghost before = *self;
        match self.pending.remove(&author.0) {
            Some(kept) => {
                let mut votes: Table<H> = kept;
                let _ = votes.remove(&root.0);
                let ghost left = votes;
                self.pending.insert(author.to_vec(), votes);
                assert(self.handles(author@) =~= left@);
            },
            None => {
                assert(self.handles(author@) =~= before.handles(author@).remove(root@));
            },
        }
    }
}

} // verus!
