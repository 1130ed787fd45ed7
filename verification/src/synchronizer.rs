//! Keeping the batches of the mempool in step with the consensus.

use vstd::prelude::*;
use crate::bytes::first_32;
use crate::committee::Committee;
use crate::crypto::{Digest, PublicKey};
use crate::keys::{self, node_index};
use crate::table::Table;

verus! {

/// How often it is looked for requests to be sent again, in milliseconds.
pub const TIMER_RESOLUTION: u64 = 1_000;

/// The batches that one node waits for.
#[derive(Debug)]
pub struct Synchronizer {
    name: PublicKey,
    committee: Committee,
    /// After how many milliseconds a request is sent again.
    sync_retry_delay: u64,
    /// When each batch was last asked for.
    pending: Table<u128>,
}

impl Synchronizer {
    /// This node.
    pub closed spec fn owner(&self) -> PublicKey {
        self.name
    }

    /// The committee.
    pub closed spec fn members(&self) -> Committee {
        self.committee
    }

    /// After how many milliseconds a request is sent again.
    pub closed spec fn delay(&self) -> nat {
        self.sync_retry_delay as nat
    }

    /// When each batch was last asked for, by the roots of the batches.
    pub closed spec fn asked(&self) -> Map<Seq<u8>, u128> {
        self.pending@
    }

    /// Roots are digests, and the times leave room for the delay.
    pub closed spec fn wf(&self) -> bool {
        &&& self.pending.wf()
        &&& self.committee.wf()
        &&& forall|root: Seq<u8>| #[trigger]
            self.pending@.contains_key(root) ==> root.len() == 32 && self.pending@[root]
                + self.sync_retry_delay <= u128::MAX
    }

    /// The batch was asked for so long ago that the request is due again.
    pub open spec fn is_due(&self, root: Seq<u8>, now: u128) -> bool {
        &&& self.asked().contains_key(root)
        &&& self.asked()[root] + self.delay() < now
    }

    /// The key for which it is waited until a batch is there.
    pub open spec fn waited_key(&self, root: Seq<u8>) -> Seq<u8> {
        keys::shard_key_of(root, 2 * keys::node_number(&self.members(), self.owner()))
    }

    /// Everything but the pending requests is the same.
    pub open spec fn same_setting(&self, other: &Synchronizer) -> bool {
        &&& self.owner() == other.owner()
        &&& self.members() == other.members()
        &&& self.delay() == other.delay()
    }

    /// A synchronizer that waits for nothing.
    pub fn new(name: PublicKey, committee: Committee, sync_retry_delay: u64) -> (synchronizer:
        Synchronizer)
        requires
            committee.wf(),
        ensures
            synchronizer.wf(),
            synchronizer.owner() == name,
            synchronizer.members() == committee,
            synchronizer.delay() == sync_retry_delay,
            synchronizer.asked() == Map::<Seq<u8>, u128>::empty(),
    {
        Synchronizer { name, committee, sync_retry_delay, pending: Table::new() }
    }

    /// The key of the first shard of a node.
    pub fn shard_key(digest: &Digest, committee: &Committee, name: &PublicKey) -> (key: Vec<u8>)
        requires
            committee.wf(),
        ensures
            key@ == keys::shard_key_of(digest@, 2 * keys::node_number(committee, *name)),
    {
        keys::shard_key(digest, 2 * node_index(committee, name))
    }

    /// The key to be read to see whether a batch is there; `None` if it is waited for already.
    pub fn key_to_read(&self, digest: &Digest) -> (key: Option<Vec<u8>>)
        requires
            self.wf(),
        ensures
            key is None <==> self.asked().contains_key(digest@),
            key matches Some(key) ==> key@ == self.waited_key(digest@),
    {
        if self.pending.contains(&digest.0) {
            return None;
        }
        Some(Synchronizer::shard_key(digest, &self.committee, &self.name))
    }

    /// Takes in whether the shard of a batch that is not waited for was found. If it was not, the
    /// batch is waited for from now on, and the answer is that it has to be asked for.
    pub fn on_read(&mut self, digest: &Digest, found: bool, now: u128) -> (ask: bool)
        requires
            old(self).wf(),
            now + old(self).delay() <= u128::MAX,
            !old(self).asked().contains_key(digest@),
        ensures
            final(self).wf(),
            final(self).same_setting(old(self)),
            ask == !found,
            final(self).asked() == if found {
                old(self).asked()
            } else {
                old(self).asked().insert(digest@, now)
            },
    {
        if found {
            return false;
        }
        self.pending.insert(digest.to_vec(), now);
        true
    }

    /// The shard of a batch has come.
    pub fn on_synced(&mut self, digest: &Digest)
        requires
            old(self).wf(),
        ensures
            final(self).wf(),
            final(self).same_setting(old(self)),
            final(self).asked() == old(self).asked().remove(digest@),
    {
        let _ = self.pending.remove(&digest.0);
    }

    /// The batches to be asked for again. They count as asked for now.
    pub fn on_timer(&mut self, now: u128) -> (retry: Vec<Digest>)
        requires
            old(self).wf(),
            now + old(self).delay() <= u128::MAX,
        ensures
            final(self).wf(),
            final(self).same_setting(old(self)),
            forall|root: Seq<u8>|
                (exists|i: int| 0 <= i < retry@.len() && (#[trigger] retry@[i])@ == root)
                    <==> #[trigger] old(self).is_due(root, now),
            forall|i: int, j: int|
                0 <= i < j < retry@.len() ==> (#[trigger] retry@[i])@ != (#[trigger] retry@[j])@,
            final(self).asked() == old(self).asked().map_entries(
                |root: Seq<u8>, asked: u128|
                    if asked + old(self).delay() < now {
                        now
                    } else {
                        asked
                    },
            ),
    {
        let ghost before = *self;
        let ghost roots = self.pending.keys();
        let mut retry: Vec<Digest> = Vec::new();
        proof {
            self.pending.lemma_keys();
        }
        let mut i: usize = 0;
        while i < self.pending.len()
            invariant
                i <= roots.len(),
                before.wf(),
                self.wf(),
                self.same_setting(&before),
                roots == before.pending.keys(),
                self.pending.keys() == roots,
                roots.no_duplicates(),
                now + before.delay() <= u128::MAX,
                self.pending@.dom() =~= before.pending@.dom(),
                forall|root: Seq<u8>| #[trigger]
                    roots.contains(root) <==> before.pending@.contains_key(root),
                forall|j: int|
                    #![trigger roots[j]]
                    0 <= j < i ==> self.pending@[roots[j]] == if before.is_due(roots[j], now) {
                        now
                    } else {
                        before.pending@[roots[j]]
                    },
                forall|j: int|
                    #![trigger roots[j]]
                    i <= j < roots.len() ==> self.pending@[roots[j]] == before.pending@[roots[j]],
                forall|a: int|
                    0 <= a < retry@.len() ==> exists|j: int|
                        0 <= j < i && #[trigger] roots[j] == (#[trigger] retry@[a])@
                            && before.is_due(roots[j], now),
                forall|j: int|
                    #![trigger roots[j]]
                    0 <= j < i && before.is_due(roots[j], now) ==> exists|a: int|
                        0 <= a < retry@.len() && (#[trigger] retry@[a])@ == roots[j],
                forall|a: int, b: int|
                    0 <= a < b < retry@.len() ==> (#[trigger] retry@[a])@ != (
                    #[trigger] retry@[b])@,
            decreases roots.len() - i,
        {
            let ghost listed = retry@;
            let ghost root = roots[i as int];
            assert(roots.contains(root));
            let asked: u128 = *self.pending.value_at(i);
            if asked + (self.sync_retry_delay as u128) < now {
                let digest = Digest(first_32(self.pending.key_at(i)));
                assert(root.take(32) =~= root);
                assert(before.is_due(root, now));
                assert forall|a: int| 0 <= a < listed.len() implies (#[trigger] listed[a])@
                    != root by {
                    let j = choose|j: int|
                        0 <= j < i && #[trigger] roots[j] == listed[a]@ && before.is_due(
                            roots[j],
                            now,
                        );
                    assert(roots[j] == listed[a]@);
                }
                retry.push(digest);
                self.pending.insert(digest.to_vec(), now);
                assert(retry@[listed.len() as int]@ == root);
                assert forall|j: int|
                    #![trigger roots[j]]
                    0 <= j < i + 1 && before.is_due(roots[j], now) implies exists|a: int|
                    0 <= a < retry@.len() && (#[trigger] retry@[a])@ == roots[j] by {
                    if j < i {
                        let a = choose|a: int|
                            0 <= a < listed.len() && (#[trigger] listed[a])@ == roots[j];
                        assert(retry@[a] == listed[a]);
                    }
                }
                assert forall|a: int| 0 <= a < retry@.len() implies exists|j: int|
                    0 <= j < i + 1 && #[trigger] roots[j] == (#[trigger] retry@[a])@
                        && before.is_due(roots[j], now) by {
                    if a < listed.len() {
                        assert(retry@[a] == listed[a]);
                        let j = choose|j: int|
                            0 <= j < i && #[trigger] roots[j] == listed[a]@ && before.is_due(
                                roots[j],
                                now,
                            );
                        assert(roots[j] == retry@[a]@);
                    } else {
                        assert(roots[i as int] == retry@[a]@);
                    }
                }
            }
            i = i + 1;
        }
        assert forall|root: Seq<u8>|
            (exists|a: int| 0 <= a < retry@.len() && (#[trigger] retry@[a])@ == root)
            <==> #[trigger] before.is_due(root, now) by {
            if before.is_due(root, now) {
                assert(roots.contains(root));
                let j = choose|j: int| 0 <= j < roots.len() && roots[j] == root;
                assert(before.is_due(roots[j], now));
            }
        }
        assert forall|root: Seq<u8>| #[trigger] self.pending@.contains_key(root) implies self.pending@[root]
            == (if before.pending@[root] + before.delay() < now {
            now
        } else {
            before.pending@[root]
        }) by {
            assert(roots.contains(root));
            let j = choose|j: int| 0 <= j < roots.len() && roots[j] == root;
            assert(roots[j] == root);
        }
        assert(self.asked() =~= before.asked().map_entries(
            |root: Seq<u8>, asked: u128|
                if asked + before.delay() < now {
                    now
                } else {
                    asked
                },
        ));
        retry
    }
}

} // verus!
