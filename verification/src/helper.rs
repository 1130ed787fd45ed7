//! Answering the shard requests of other nodes.

use vstd::prelude::*;
use crate::committee::Committee;
use crate::crypto::{Digest, PublicKey};
use crate::keys::{self, node_index, shard_key};

verus! {

/// Answers shard requests for one node.
#[derive(Debug)]
pub struct Helper {
    pub name: PublicKey,
    pub committee: Committee,
}

impl Helper {
    /// The keys under which the shards are stored with which a request is answered: both shards
    /// of this node. Requests by strangers are not answered.
    pub fn on_request(&self, root: &Digest, origin: &PublicKey) -> (answer: Option<
        (Vec<u8>, Vec<u8>),
    >)
        requires
            self.committee.wf(),
        ensures
            answer is Some <==> self.committee.place_of(*origin) is Some,
            answer matches Some((first, second)) ==> {
                let node = keys::node_number(&self.committee, self.name);
                &&& first@ == keys::shard_key_of(root@, 2 * node)
                &&& second@ == keys::shard_key_of(root@, 2 * node + 1)
            },
    {
        if self.committee.index(origin).is_none() {
            return None;
        }
        let node: usize = node_index(&self.committee, &self.name);
        Some((shard_key(root, 2 * node), shard_key(root, 2 * node + 1)))
    }
}

} // verus!
