//! Erasure-coded transaction batches, and the bundles of shards that are sent to the nodes.

use vstd::prelude::*;
use crate::bytes::{append_bytes, bytes_eq};
use crate::coding::{self, rs_reconstruct, rs_verify, Shard};
use crate::committee::Committee;
use crate::crypto::{self, Digest, PublicKey, Signature};
use crate::erasure::{self, encode_shards};
use crate::error::{MempoolError, MempoolResult};
use crate::range_places;
use crate::range_proof::{self, anchor_path, climb};
use crate::smt::{
    self, decode_proof, encode_leaf_proof, hash_shard, header_in_bounds, leaves_fit, Tree,
};

verus! {

/// A transaction, as the client sent it.
pub type Transaction = Vec<u8>;

/// The transactions that are disseminated together.
pub type Batch = Vec<Transaction>;

/// An erasure-coded batch: the data shards, and the parity shards unless it is compressed.
#[derive(Clone, Debug)]
pub struct CodedBatch {
    pub shards: Vec<Shard>,
}

/// The parity shards of `shards` are those of its first `data` shards.
pub open spec fn is_code_word(shards: Seq<Seq<u8>>, data: nat, parity: nat) -> bool {
    shards == coding::code_word(shards.take(data as int), parity)
}

/// What the reconstruction from `given` comes to.
pub open spec fn reconstruction(
    given: Seq<Option<Seq<u8>>>,
    data: nat,
    parity: nat,
) -> Result<Seq<Seq<u8>>, MempoolError> {
    let full = coding::rs_completed(given, data);
    match coding::reconstruction_fault(given, data, data + parity) {
        Some(fault) => Err(MempoolError::CodingError(fault)),
        None => if is_code_word(full, data, parity) {
            Ok(full)
        } else {
            Err(MempoolError::MalformedCodedBatch)
        },
    }
}

/// `shards` are a coded batch: shards of one size, of which the parity shards are those of the
/// data shards.
pub open spec fn is_coded_batch(shards: Seq<Seq<u8>>, data: nat, parity: nat) -> bool {
    &&& shards.len() == data + parity
    &&& coding::well_sized(shards)
    &&& is_code_word(shards, data, parity)
}

/// The outcome is the coded batch, or the code word, that the shards are drawn from, if there are
/// enough of them.
pub open spec fn gives_back(
    given: Seq<Option<Seq<u8>>>,
    data: nat,
    parity: nat,
    outcome: MempoolResult<CodedBatch>,
) -> bool {
    &&& forall|coded: Seq<Seq<u8>>|
        {
            &&& given.len() == data + parity
            &&& coding::present_count(given) >= data
            &&& is_coded_batch(coded, data, parity)
            &&& #[trigger] coding::drawn_from(given, coded)
        } ==> outcome is Ok && outcome->Ok_0@ == coded
    &&& forall|source: Seq<Seq<u8>>, size: nat|
        {
            &&& given.len() == data + parity
            &&& source.len() == data
            &&& coding::present_count(given) >= data
            &&& coding::size_fault(given) is None
            &&& #[trigger] coding::from_code_word(given, source, parity, size)
        } ==> outcome is Ok && outcome->Ok_0@ == coding::code_word(source, parity)
}

/// Shards that are drawn from a coded batch have no fault, and come from the code word of its
/// data shards.
proof fn lemma_drawn_from_batch(
    given: Seq<Option<Seq<u8>>>,
    coded: Seq<Seq<u8>>,
    data: nat,
    parity: nat,
)
    requires
        0 < data,
        is_coded_batch(coded, data, parity),
        coding::drawn_from(given, coded),
        given.len() == data + parity,
        coding::present_count(given) >= data,
    ensures
        coding::size_fault(given) is None,
        coding::reconstruction_fault(given, data, data + parity) is None,
        coding::from_code_word(given, coded.take(data as int), parity, coded[0].len()),
{
    coding::lemma_drawn_sizes(given, coded, coded[0].len());
    let kept = coded.take(data as int);
    assert forall|i: int| 0 <= i < kept.len() implies (#[trigger] kept[i]).len()
        == coded[0].len() by {
        assert(kept[i] == coded[i]);
    }
}

/// The shards, followed by places for missing parity shards.
pub open spec fn without_parity(shards: Seq<Seq<u8>>, parity: nat) -> Seq<Option<Seq<u8>>> {
    Seq::new(
        shards.len() + parity,
        |i: int|
            if i < shards.len() {
                Some(shards[i])
            } else {
                None
            },
    )
}

/// Compressing a coded batch leaves what can be expanded, and expanding that gives the coded
/// batch back.
pub proof fn law_expand_undoes_compress(shards: Seq<Seq<u8>>, data: nat, parity: nat)
    requires
        0 < data,
        is_coded_batch(shards, data, parity),
    ensures
        shards.take(data as int).len() == data,
        coding::well_sized(shards.take(data as int)),
        coding::code_word(shards.take(data as int), parity) == shards,
{
    let kept = shards.take(data as int);
    assert forall|i: int| 0 <= i < kept.len() implies (#[trigger] kept[i]).len() == kept[0].len() by {
        assert(kept[i] == shards[i]);
    }
}

impl CodedBatch {
    /// The contents of the shards.
    pub open spec fn view(&self) -> Seq<Seq<u8>> {
        coding::shard_views(self.shards@)
    }

    /// Codes a batch of `batch_size` bytes.
    pub fn new(batch: Batch, batch_size: usize, committee: &Committee) -> (coded: CodedBatch)
        requires
            committee.has_code(),
            batch_size > 0,
            batch_size == coding::joined(coding::shard_views(batch@)).len(),
            batch_size + committee.data_shards <= usize::MAX,
        ensures
            coded@ == erasure::encoded_shards(
                coding::joined(coding::shard_views(batch@)),
                committee.data_shards as nat,
                (committee.data_shards + committee.parity_shards) as nat,
            ),
            is_coded_batch(coded@, committee.data_shards as nat, committee.parity_shards as nat),
    {
        let (data_shards, parity_shards) = committee.shards();
        let ghost all = coding::shard_views(batch@);
        let mut bytes: Vec<u8> = Vec::new();
        let mut i: usize = 0;
        assert(coding::joined(all.take(0)) =~= Seq::empty());
        while i < batch.len()
            invariant
                i <= batch@.len(),
                all == coding::shard_views(batch@),
                bytes@ == coding::joined(all.take(i as int)),
            decreases batch@.len() - i,
        {
            append_bytes(&mut bytes, &batch[i]);
            assert(all.take(i + 1).drop_last() =~= all.take(i as int));
            i = i + 1;
        }
        assert(all.take(i as int) =~= all);
        let shards = encode_shards(&bytes, data_shards, data_shards + parity_shards);
        let ghost views = coding::shard_views(shards@);
        assert(views[0].len() > 0);
        assert(views.take(data_shards as int) =~= erasure::data_shards(
            bytes@,
            data_shards as nat,
        ));
        CodedBatch { shards }
    }

    /// Reconstructs the coded batch from those shards that are there. Shards of a coded batch
    /// give it back if there are as many of them as it has data shards.
    pub fn reconstruct(coded_shards: Vec<Option<Shard>>, committee: &Committee) -> (outcome:
        MempoolResult<CodedBatch>)
        requires
            committee.has_code(),
        ensures
            match reconstruction(
                coding::sparse_views(coded_shards@),
                committee.data_shards as nat,
                committee.parity_shards as nat,
            ) {
                Ok(full) => outcome is Ok && outcome->Ok_0@ == full && coding::well_sized(full),
                Err(error) => outcome == Err::<CodedBatch, MempoolError>(error),
            },
            forall|coded: Seq<Seq<u8>>|
                {
                    &&& coded_shards@.len() == committee.data_shards + committee.parity_shards
                    &&& coding::present_count(coding::sparse_views(coded_shards@))
                        >= committee.data_shards
                    &&& is_coded_batch(
                        coded,
                        committee.data_shards as nat,
                        committee.parity_shards as nat,
                    )
                    &&& #[trigger] coding::drawn_from(coding::sparse_views(coded_shards@), coded)
                } ==> outcome is Ok && outcome->Ok_0@ == coded,
            forall|source: Seq<Seq<u8>>, size: nat|
                {
                    &&& coded_shards@.len() == committee.data_shards + committee.parity_shards
                    &&& source.len() == committee.data_shards
                    &&& coding::present_count(coding::sparse_views(coded_shards@))
                        >= committee.data_shards
                    &&& coding::size_fault(coding::sparse_views(coded_shards@)) is None
                    &&& #[trigger] coding::from_code_word(
                        coding::sparse_views(coded_shards@),
                        source,
                        committee.parity_shards as nat,
                        size,
                    )
                } ==> outcome is Ok && outcome->Ok_0@ == coding::code_word(
                    source,
                    committee.parity_shards as nat,
                ),
            outcome matches Ok(coded) ==> coding::drawn_from(
                coding::sparse_views(coded_shards@),
                coded@,
            ),
            outcome matches Ok(coded) ==> coded@.len() == committee.data_shards
                + committee.parity_shards,
            gives_back(
                coding::sparse_views(coded_shards@),
                committee.data_shards as nat,
                committee.parity_shards as nat,
                outcome,
            ),
    {
        let (data_shards, parity_shards) = committee.shards();
        let ghost given = coding::sparse_views(coded_shards@);
        let mut completed = coded_shards;
        proof {
            assert forall|coded: Seq<Seq<u8>>|
                {
                    &&& given.len() == data_shards + parity_shards
                    &&& coding::present_count(given) >= data_shards
                    &&& is_coded_batch(coded, data_shards as nat, parity_shards as nat)
                    &&& #[trigger] coding::drawn_from(given, coded)
                } implies coding::reconstruction_fault(
                given,
                data_shards as nat,
                (data_shards + parity_shards) as nat,
            ) is None && coding::from_code_word(
                given,
                coded.take(data_shards as int),
                parity_shards as nat,
                coded[0].len(),
            ) by {
                lemma_drawn_from_batch(given, coded, data_shards as nat, parity_shards as nat);
            }
        }
        match rs_reconstruct(&mut completed, data_shards, parity_shards) {
            Err(fault) => {
                return Err(MempoolError::CodingError(fault));
            },
            Ok(()) => {},
        }
        let ghost full = coding::complete_views(completed@);
        let mut shards: Vec<Shard> = Vec::new();
        let mut i: usize = 0;
        while i < completed.len()
            invariant
                i <= completed@.len(),
                coding::is_complete(completed@),
                full == coding::complete_views(completed@),
                coding::shard_views(shards@) == full.take(i as int),
            decreases completed@.len() - i,
        {
            assert(completed@[i as int] is Some);
            if let Some(shard) = &completed[i] {
                let ghost before = coding::shard_views(shards@);
                shards.push(shard.clone());
                assert(coding::shard_views(shards@) =~= before.push(full[i as int]));
            }
            i = i + 1;
            assert(coding::shard_views(shards@) =~= full.take(i as int));
        }
        assert(coding::shard_views(shards@) =~= full);
        assert(shards@.len() == full.len());
        assert forall|source: Seq<Seq<u8>>, size: nat|
            source.len() == data_shards && #[trigger] coding::from_code_word(
                given,
                source,
                parity_shards as nat,
                size,
            ) implies is_code_word(full, data_shards as nat, parity_shards as nat) by {
            assert(full.take(data_shards as int) =~= source);
        }
        if !rs_verify(&shards, data_shards, parity_shards) {
            return Err(MempoolError::MalformedCodedBatch);
        }
        Ok(CodedBatch { shards })
    }

    /// The Merkle tree with the coded shards as leaves.
    pub fn commit(&self) -> (tree: Tree)
        requires
            2 <= self.shards@.len() <= u32::MAX,
        ensures
            tree.leaves() == smt::shard_leaves(self@, 0),
            0 < tree.height() <= 32,
            smt::width((tree.height() - 1) as nat) < self.shards@.len() <= smt::width(
                tree.height(),
            ),
    {
        let leaves = hash_shards(&self.shards, 0);
        Tree::merkle(&leaves)
    }

    /// Keeps only the data shards.
    pub fn compress(&mut self, committee: &Committee)
        ensures
            final(self)@ == if committee.data_shards < old(self)@.len() {
                old(self)@.take(committee.data_shards as int)
            } else {
                old(self)@
            },
    {
        let (data_shards, _) = committee.shards();
        let ghost before = self@;
        self.shards.truncate(data_shards);
        proof {
            if data_shards < before.len() {
                assert(self@ =~= before.take(data_shards as int));
            } else {
                assert(self@ =~= before);
            }
        }
    }

    /// Computes the parity shards again. If that fails the batch stays as it is.
    pub fn expand(&mut self, committee: &Committee) -> (outcome: MempoolResult<()>)
        requires
            committee.has_code(),
            old(self).shards@.len() + committee.parity_shards <= usize::MAX,
        ensures
            match reconstruction(
                without_parity(old(self)@, committee.parity_shards as nat),
                committee.data_shards as nat,
                committee.parity_shards as nat,
            ) {
                Ok(full) => outcome is Ok && final(self)@ == full,
                Err(error) => outcome == Err::<(), MempoolError>(error) && *final(self) == *old(
                    self,
                ),
            },
            old(self)@.len() == committee.data_shards && coding::well_sized(old(self)@)
                ==> outcome is Ok && final(self)@ == coding::code_word(
                old(self)@,
                committee.parity_shards as nat,
            ),
    {
        let (data_shards, parity_shards) = committee.shards();
        let ghost views = self@;
        let ghost goal = without_parity(views, parity_shards as nat);
        let mut coded: Vec<Option<Shard>> = Vec::new();
        let mut i: usize = 0;
        while i < self.shards.len() + parity_shards
            invariant
                i <= self.shards@.len() + parity_shards <= usize::MAX,
                views == self@,
                goal == without_parity(views, parity_shards as nat),
                coding::sparse_views(coded@) == goal.take(i as int),
            decreases self.shards@.len() + parity_shards - i,
        {
            let ghost before = coding::sparse_views(coded@);
            if i < self.shards.len() {
                coded.push(Some(self.shards[i].clone()));
            } else {
                coded.push(None);
            }
            assert(coding::sparse_views(coded@) =~= before.push(goal[i as int]));
            i = i + 1;
            assert(coding::sparse_views(coded@) =~= goal.take(i as int));
        }
        assert(coding::sparse_views(coded@) =~= goal);
        assert(coded@.len() == goal.len());
        proof {
            if views.len() == data_shards && coding::well_sized(views) {
                lemma_data_suffice(views, parity_shards as nat);
                assert(coding::from_code_word(goal, views, parity_shards as nat, views[0].len()));
            }
        }
        match CodedBatch::reconstruct(coded, committee) {
            Ok(full) => {
                self.shards = full.shards;
                Ok(())
            },
            Err(error) => Err(error),
        }
    }
}

/// Data shards of one size can be expanded.
proof fn lemma_data_suffice(shards: Seq<Seq<u8>>, parity: nat)
    requires
        coding::well_sized(shards),
    ensures
        coding::present_count(without_parity(shards, parity)) >= shards.len(),
        coding::size_fault(without_parity(shards, parity)) is None,
        coding::drawn_from(without_parity(shards, parity), shards),
    decreases parity,
{
    let given = without_parity(shards, parity);
    coding::lemma_drawn_sizes(given, shards, shards[0].len());
    if parity > 0 {
        lemma_data_suffice(shards, (parity - 1) as nat);
        assert(given.drop_last() =~= without_parity(shards, (parity - 1) as nat));
    } else {
        lemma_all_present(shards);
    }
}

proof fn lemma_all_present(shards: Seq<Seq<u8>>)
    ensures
        coding::present_count(without_parity(shards, 0)) == shards.len(),
    decreases shards.len(),
{
    if shards.len() > 0 {
        lemma_all_present(shards.drop_last());
        assert(without_parity(shards, 0).drop_last() =~= without_parity(shards.drop_last(), 0));
    }
}

/// The leaves of `shards`, the first of which is at `start`.
pub fn hash_shards(shards: &Vec<Shard>, start: usize) -> (leaves: Vec<[u8; 32]>)
    requires
        start + shards@.len() <= usize::MAX,
    ensures
        erasure::hash_views(leaves@) == smt::shard_leaves(
            coding::shard_views(shards@),
            start as nat,
        ),
        leaves@.len() == shards@.len(),
{
    let mut leaves: Vec<[u8; 32]> = Vec::new();
    let mut i: usize = 0;
    while i < shards.len()
        invariant
            i <= shards@.len(),
            start + shards@.len() <= usize::MAX,
            leaves@.len() == i,
            forall|j: int|
                0 <= j < i ==> (#[trigger] leaves@[j])@ == smt::shard_leaf(
                    shards@[j]@,
                    (start + j) as nat,
                ),
        decreases shards@.len() - i,
    {
        leaves.push(hash_shard(&shards[i], start + i));
        i = i + 1;
    }
    assert(erasure::hash_views(leaves@) =~= smt::shard_leaves(
        coding::shard_views(shards@),
        start as nat,
    ));
    leaves
}

/// An encoded Merkle proof.
pub type SerializedProof = Vec<u8>;

/// What an encoded Merkle proof holds: the height of its first index, if there is one, and the
/// siblings; `None` if the bytes encode no proof.
pub type DecodedProof = Option<(Option<usize>, Vec<[u8; 32]>)>;

/// The contents of a decoded proof.
pub open spec fn proof_view(held: DecodedProof) -> Option<(Option<nat>, Seq<Seq<u8>>)> {
    match held {
        None => None,
        Some((None, siblings)) => Some((None, erasure::hash_views(siblings@))),
        Some((Some(height), siblings)) => Some(
            (Some(height as nat), erasure::hash_views(siblings@)),
        ),
    }
}

/// The shards that are assigned to one node, with a Merkle proof that covers all of them. With
/// `k` data shards, node `i` has the shards `i * k..(i + 1) * k` of the coded batch. A pruned
/// bundle has only the first of them.
#[derive(Clone, Debug)]
pub struct AuthenticatedShard {
    pub shards: Vec<Shard>,
    /// The place of the destination node in the committee.
    pub node_idx: usize,
    pub proof: SerializedProof,
    pub root: Digest,
    pub author: PublicKey,
    pub signature: Signature,
}

/// Whether two lists hold the same shards.
fn shards_eq(a: &Vec<Shard>, b: &Vec<Shard>) -> (equal: bool)
    ensures
        equal == (coding::shard_views(a@) == coding::shard_views(b@)),
{
    let ghost (left, right) = (coding::shard_views(a@), coding::shard_views(b@));
    assert(left.len() == a@.len() && right.len() == b@.len());
    if a.len() != b.len() {
        return false;
    }
    let mut i: usize = 0;
    while i < a.len()
        invariant
            i <= a@.len(),
            a@.len() == b@.len(),
            left == coding::shard_views(a@),
            right == coding::shard_views(b@),
            forall|j: int| 0 <= j < i ==> left[j] == right[j],
        decreases a@.len() - i,
    {
        if !bytes_eq(&a[i], &b[i]) {
            assert(left[i as int] != right[i as int]);
            return false;
        }
        i = i + 1;
    }
    assert(left =~= right);
    true
}

/// Bundles are equal if they hold the same, whatever their signatures.
impl PartialEq for AuthenticatedShard {
    fn eq(&self, other: &AuthenticatedShard) -> (equal: bool) {
        shards_eq(&self.shards, &other.shards) && self.node_idx == other.node_idx && bytes_eq(
            &self.proof,
            &other.proof,
        ) && self.root == other.root && self.author == other.author
    }
}

impl vstd::std_specs::cmp::PartialEqSpecImpl for AuthenticatedShard {
    open spec fn obeys_eq_spec() -> bool {
        true
    }

    open spec fn eq_spec(&self, other: &AuthenticatedShard) -> bool {
        &&& self.shard_views() == other.shard_views()
        &&& self.node_idx == other.node_idx
        &&& self.proof@ == other.proof@
        &&& self.root@ == other.root@
        &&& self.author@ == other.author@
    }
}

/// The root of a tree, as the digest that is signed.
pub fn root_digest(tree: &Tree) -> (root: Digest)
    ensures
        root@ == tree.root(),
{
    Digest(tree.get_root())
}

/// `bytes` is the proof that a tree gives for the bundle of a node. The proof for a bundle
/// without shards is empty.
pub open spec fn is_batch_proof(
    bytes: Seq<u8>,
    node_idx: nat,
    data_shards: nat,
    tree: &Tree,
) -> bool {
    let siblings = bundle_siblings(tree, node_idx, data_shards);
    &&& smt::header_fits(bytes)
    &&& if data_shards == 0 {
        &&& bytes == Seq::<u8>::empty()
        &&& smt::decoded_proof(bytes, usize::BITS as nat) == Some(
            (None::<nat>, Seq::<Seq<u8>>::empty()),
        )
    } else {
        &&& bytes == smt::encoded_proof(
            tree.height(),
            node_idx * data_shards,
            data_shards,
            siblings,
        )
        &&& usize::BITS == 64 ==> smt::decoded_proof(bytes, 64) == Some(
            (Some(tree.height()), siblings),
        )
    }
}

/// The proof for the bundle of a node.
fn build_batch_proof(node_idx: usize, data_shards: usize, tree: &Tree) -> (proof: SerializedProof)
    requires
        (node_idx + 1) * data_shards <= smt::bottom_nodes(tree.leaves()),
        (node_idx + 1) * data_shards <= usize::MAX,
    ensures
        is_batch_proof(proof@, node_idx as nat, data_shards as nat, tree),
{
    assert((node_idx + 1) * data_shards == node_idx * data_shards + data_shards)
        by (nonlinear_arith);
    assert(0 <= node_idx * data_shards) by (nonlinear_arith)
        requires
            node_idx >= 0,
            data_shards >= 0,
    ;
    tree.prove_range(node_idx * data_shards, data_shards)
}

/// The siblings that a tree gives for the bundle of a node.
pub open spec fn bundle_siblings(tree: &Tree, node_idx: nat, data_shards: nat) -> Seq<Seq<u8>> {
    smt::range_siblings(
        tree.leaves(),
        0,
        node_idx * data_shards,
        data_shards,
        tree.height(),
    )
}

impl AuthenticatedShard {
    /// The contents of the shards.
    pub open spec fn shard_views(&self) -> Seq<Seq<u8>> {
        coding::shard_views(self.shards@)
    }

    /// The place of the first shard in the coded batch.
    pub open spec fn start(&self, data_shards: nat) -> nat {
        self.node_idx as nat * data_shards
    }

    /// The leaves of the shards.
    pub open spec fn leaves(&self, data_shards: nat) -> Seq<Seq<u8>> {
        smt::shard_leaves(self.shard_views(), self.start(data_shards))
    }

    /// What the proof of this bundle holds.
    pub open spec fn decoded(&self) -> Option<(Option<nat>, Seq<Seq<u8>>)> {
        smt::decoded_proof(self.proof@, usize::BITS as nat)
    }

    /// The root to which a decoded proof leads from the shards.
    pub open spec fn proved_root(
        &self,
        data_shards: nat,
        held: Option<(Option<nat>, Seq<Seq<u8>>)>,
    ) -> Option<Seq<u8>> {
        match held {
            Some((Some(height), siblings)) => range_proof::range_root(
                self.start(data_shards),
                self.leaves(data_shards),
                siblings,
                height,
            ),
            _ => None,
        }
    }

    /// What is hashed to check the bundle: the leaves of its shards, and the nodes on the way up
    /// from them.
    pub open spec fn messages(
        &self,
        data_shards: nat,
        siblings: Seq<Seq<u8>>,
        height: nat,
    ) -> Set<Seq<u8>> {
        range_proof::shard_messages(self.shard_views(), self.start(data_shards)).union(
            self.climb_messages(data_shards, siblings, height),
        )
    }

    /// What is hashed on the way up from the leaves.
    pub open spec fn climb_messages(
        &self,
        data_shards: nat,
        siblings: Seq<Seq<u8>>,
        height: nat,
    ) -> Set<Seq<u8>> {
        range_proof::range_messages(
            self.start(data_shards),
            self.leaves(data_shards),
            siblings,
            height,
        )
    }

    /// What a check of this bundle comes to, given whether the signature is the author's, and
    /// what the proof holds.
    pub open spec fn verdict(
        &self,
        committee: &Committee,
        signature_valid: bool,
        held: Option<(Option<nat>, Seq<Seq<u8>>)>,
    ) -> MempoolResult<()> {
        if committee.stake_of(self.author) == 0 {
            Err(MempoolError::UnknownAuthority(self.author))
        } else if !signature_valid {
            Err(MempoolError::InvalidSignature)
        } else if self.shards@.len() != committee.data_shards && self.shards@.len() != 1 {
            Err(MempoolError::BadInclusionProof)
        } else if self.shards@.len() > 0 && self.proved_root(committee.data_shards as nat, held)
            == Some(self.root@) {
            Ok(())
        } else {
            Err(MempoolError::BadInclusionProof)
        }
    }

    /// The author, the signature and the number of shards are such that the proof is looked at.
    pub open spec fn reaches_proof(&self, committee: &Committee, signature_valid: bool) -> bool {
        &&& committee.stake_of(self.author) > 0
        &&& signature_valid
        &&& self.shards@.len() == committee.data_shards || self.shards@.len() == 1
    }

    /// The shards, if there are any, lie below the root of a tree of the height that the proof
    /// tells.
    pub open spec fn fits(
        &self,
        data_shards: nat,
        held: Option<(Option<nat>, Seq<Seq<u8>>)>,
    ) -> bool {
        match held {
            Some((Some(height), _)) => self.shards@.len() > 0 ==> {
                &&& self.start(data_shards) + self.shards@.len() <= usize::MAX
                &&& self.start(data_shards) + self.shards@.len() <= smt::width(height)
            },
            _ => true,
        }
    }

    /// Makes the bundle of a node from the tree over the coded batch and a signature over the
    /// root of the tree.
    pub fn new(
        shards: Vec<Shard>,
        node_idx: usize,
        data_shards: usize,
        tree: &Tree,
        author: PublicKey,
        signature: Signature,
    ) -> (bundle: AuthenticatedShard)
        requires
            (node_idx + 1) * data_shards <= smt::bottom_nodes(tree.leaves()),
            (node_idx + 1) * data_shards <= usize::MAX,
        ensures
            bundle.shards@ == shards@,
            bundle.node_idx == node_idx,
            bundle.root@ == tree.root(),
            bundle.author == author,
            bundle.signature == signature,
            is_batch_proof(bundle.proof@, node_idx as nat, data_shards as nat, tree),
    {
        let root = root_digest(tree);
        let proof = build_batch_proof(node_idx, data_shards, tree);
        AuthenticatedShard { shards, node_idx, proof, root, author, signature }
    }

    /// Makes the bundle of a node with a root and a signature that are known already.
    pub fn make_with_signature(
        shards: Vec<Shard>,
        node_idx: usize,
        data_shards: usize,
        tree: &Tree,
        root: Digest,
        author: PublicKey,
        signature: Signature,
    ) -> (bundle: AuthenticatedShard)
        requires
            (node_idx + 1) * data_shards <= smt::bottom_nodes(tree.leaves()),
            (node_idx + 1) * data_shards <= usize::MAX,
        ensures
            bundle.shards@ == shards@,
            bundle.node_idx == node_idx,
            bundle.root == root,
            bundle.author == author,
            bundle.signature == signature,
            is_batch_proof(bundle.proof@, node_idx as nat, data_shards as nat, tree),
    {
        let proof = build_batch_proof(node_idx, data_shards, tree);
        AuthenticatedShard { shards, node_idx, proof, root, author, signature }
    }

    /// Checks the bundle, given whether its signature is the author's and what its proof holds:
    /// the author has stake, the signature is theirs, there are as many shards as in a full or
    /// in a pruned bundle, and the proof leads from them to the root.
    pub fn verify_decoded(
        &self,
        committee: &Committee,
        signature_valid: bool,
        held: &DecodedProof,
    ) -> (outcome: MempoolResult<()>)
        requires
            self.reaches_proof(committee, signature_valid) ==> self.fits(
                committee.data_shards as nat,
                proof_view(*held),
            ),
        ensures
            outcome == self.verdict(committee, signature_valid, proof_view(*held)),
    {
        if committee.stake(&self.author) == 0 {
            return Err(MempoolError::UnknownAuthority(self.author));
        }
        if !signature_valid {
            return Err(MempoolError::InvalidSignature);
        }
        let (data_shards, _) = committee.shards();
        if self.shards.len() != data_shards && self.shards.len() != 1 {
            return Err(MempoolError::BadInclusionProof);
        }
        if self.shards.len() == 0 {
            return Err(MempoolError::BadInclusionProof);
        }
        match held {
            Some((Some(height), siblings)) => {
                assert(self.reaches_proof(committee, signature_valid));
                assert(0 <= self.node_idx * data_shards) by (nonlinear_arith)
                    requires
                        self.node_idx >= 0,
                        data_shards >= 0,
                ;
                let start: usize = self.node_idx * data_shards;
                let leaves = hash_shards(&self.shards, start);
                match climb(start, leaves, siblings, *height) {
                    Some(root) => if bytes_eq(&root, &self.root.0) {
                        Ok(())
                    } else {
                        Err(MempoolError::BadInclusionProof)
                    },
                    None => Err(MempoolError::BadInclusionProof),
                }
            },
            _ => Err(MempoolError::BadInclusionProof),
        }
    }

    /// Checks the bundle. The signature and the proof are looked at only as far as is needed, and
    /// the proof has to be one of a tree that has the places of the shards.
    pub fn verify(&self, committee: &Committee) -> (outcome: MempoolResult<()>)
        requires
            self.reaches_proof(
                committee,
                crypto::signature_accepted(self.root@, self.author@, self.signature@),
            ) ==> smt::header_fits(self.proof@) && self.fits(
                committee.data_shards as nat,
                self.decoded(),
            ),
        ensures
            outcome == self.verdict(
                committee,
                crypto::signature_accepted(self.root@, self.author@, self.signature@),
                self.decoded(),
            ),
    {
        if committee.stake(&self.author) == 0 {
            return Err(MempoolError::UnknownAuthority(self.author));
        }
        let signature_valid = self.signature.verify(&self.root, &self.author);
        if !signature_valid {
            return Err(MempoolError::InvalidSignature);
        }
        let (data_shards, _) = committee.shards();
        if self.shards.len() != data_shards && self.shards.len() != 1 {
            return Err(MempoolError::BadInclusionProof);
        }
        let held = decode_proof(&self.proof);
        self.verify_decoded(committee, signature_valid, &held)
    }

    /// Whether the shards lie below the root of a tree of the height that the proof tells.
    pub fn fits_proof(&self, data_shards: usize, held: &DecodedProof) -> (fits: bool)
        ensures
            fits == self.fits(data_shards as nat, proof_view(*held)),
    {
        match held {
            Some((Some(height), _)) => self.shards.len() == 0 || match self.node_idx.checked_mul(
                data_shards,
            ) {
                Some(start) => leaves_fit(start, self.shards.len(), *height),
                None => false,
            },
            _ => true,
        }
    }

    /// Checks the bundle, whatever its proof holds. The answer is `None` where the proof would
    /// be looked at but cannot be read, or is of a tree without the places of the shards.
    pub fn checked_verify(&self, committee: &Committee) -> (outcome: Option<MempoolResult<()>>)
        ensures
            ({
                let valid = crypto::signature_accepted(self.root@, self.author@, self.signature@);
                outcome == if self.reaches_proof(committee, valid) && !(smt::header_fits(
                    self.proof@,
                ) && self.fits(committee.data_shards as nat, self.decoded())) {
                    None
                } else {
                    Some(self.verdict(committee, valid, self.decoded()))
                }
            }),
    {
        if committee.stake(&self.author) == 0 {
            return Some(Err(MempoolError::UnknownAuthority(self.author)));
        }
        let signature_valid = self.signature.verify(&self.root, &self.author);
        if !signature_valid {
            return Some(Err(MempoolError::InvalidSignature));
        }
        let (data_shards, _) = committee.shards();
        if self.shards.len() != data_shards && self.shards.len() != 1 {
            return Some(Err(MempoolError::BadInclusionProof));
        }
        if !header_in_bounds(&self.proof) {
            return None;
        }
        let held = decode_proof(&self.proof);
        if !self.fits_proof(data_shards, &held) {
            return None;
        }
        Some(self.verify(committee))
    }

    /// This bundle can be pruned with the proof at hand.
    pub open spec fn prunable(
        &self,
        data_shards: nat,
        held: Option<(Option<nat>, Seq<Seq<u8>>)>,
    ) -> bool {
        &&& data_shards > 0
        &&& self.shards@.len() == data_shards
        &&& self.fits(data_shards, held)
        &&& self.proved_root(data_shards, held) is Some
    }

    /// `pruned` is this bundle with only its first shard, and with the proof for that shard.
    pub open spec fn pruned_to(
        &self,
        data_shards: nat,
        held: Option<(Option<nat>, Seq<Seq<u8>>)>,
        pruned: &AuthenticatedShard,
    ) -> bool {
        let height = match held {
            Some((Some(height), _)) => height,
            _ => 0,
        };
        let siblings = match held {
            Some((_, siblings)) => siblings,
            None => Seq::empty(),
        };
        let path = range_proof::anchor_siblings(
            self.start(data_shards),
            self.leaves(data_shards),
            siblings,
            height,
        ).reverse();
        &&& pruned.shard_views() == seq![self.shard_views()[0]]
        &&& pruned.shards@.len() == 1
        &&& pruned.node_idx == self.node_idx
        &&& pruned.root == self.root
        &&& pruned.author == self.author
        &&& pruned.signature == self.signature
        &&& pruned.proof@ == smt::encoded_proof(height, self.start(data_shards), 1, path)
        &&& smt::header_fits(pruned.proof@)
        &&& usize::BITS == 64 ==> {
            &&& pruned.decoded() == Some((Some(height), path))
            &&& pruned.fits(data_shards, pruned.decoded())
            &&& pruned.proved_root(data_shards, pruned.decoded()) == self.proved_root(
                data_shards,
                held,
            )
        }
    }

    /// Reduces the bundle to its first shard, given the height and the siblings of its proof.
    pub fn prune_decoded(&self, data_shards: usize, height: usize, siblings: &Vec<[u8; 32]>) -> (pruned:
        AuthenticatedShard)
        requires
            height <= 256,
            self.prunable(
                data_shards as nat,
                Some((Some(height as nat), erasure::hash_views(siblings@))),
            ),
        ensures
            self.pruned_to(
                data_shards as nat,
                Some((Some(height as nat), erasure::hash_views(siblings@))),
                &pruned,
            ),
    {
        assert(0 <= self.node_idx * data_shards) by (nonlinear_arith)
            requires
                self.node_idx >= 0,
                data_shards >= 0,
        ;
        let start: usize = self.node_idx * data_shards;
        let leaves = hash_shards(&self.shards, start);
        let ghost leaf_views = erasure::hash_views(leaves@);
        let path = match anchor_path(start, leaves, siblings, height) {
            Some(path) => path,
            None => Vec::new(),
        };
        proof {
            range_proof::law_anchor_reaches_root(
                start as nat,
                leaf_views,
                erasure::hash_views(siblings@),
                height as nat,
            );
        }
        let proof = encode_leaf_proof(height, start, &path);
        let mut shards: Vec<Shard> = Vec::new();
        shards.push(self.shards[0].clone());
        let pruned = AuthenticatedShard {
            shards,
            node_idx: self.node_idx,
            proof,
            root: self.root,
            author: self.author,
            signature: self.signature,
        };
        assert(pruned.shard_views() =~= seq![self.shard_views()[0]]);
        assert(pruned.leaves(data_shards as nat) =~= seq![leaf_views[0]]);
        pruned
    }

    /// After the batch is committed, reduces the bundle to its first shard. The new proof is
    /// derived from the shards and the proof at hand, so the pruned bundle leads to the same
    /// root.
    pub fn prune_to_anchor_shard(&self, data_shards: usize) -> (pruned: AuthenticatedShard)
        requires
            smt::header_fits(self.proof@),
            self.prunable(data_shards as nat, self.decoded()),
        ensures
            self.pruned_to(data_shards as nat, self.decoded(), &pruned),
    {
        match decode_proof(&self.proof) {
            Some((Some(height), siblings)) => self.prune_decoded(data_shards, height, &siblings),
            // A bundle that can be pruned has a proof with an index.
            _ => self.prune_decoded(data_shards, 0, &Vec::new()),
        }
    }

    /// Reduces the bundle to its first shard, if that can be done: `None` if the bundle does not
    /// have `data_shards` shards, or if its proof cannot be read or leads to no root.
    pub fn checked_prune(&self, data_shards: usize) -> (pruned: Option<AuthenticatedShard>)
        ensures
            match pruned {
                Some(pruned) => {
                    &&& smt::header_fits(self.proof@)
                    &&& self.prunable(data_shards as nat, self.decoded())
                    &&& self.pruned_to(data_shards as nat, self.decoded(), &pruned)
                },
                None => !(smt::header_fits(self.proof@) && self.prunable(
                    data_shards as nat,
                    self.decoded(),
                )),
            },
    {
        if data_shards == 0 || self.shards.len() != data_shards || !header_in_bounds(&self.proof) {
            return None;
        }
        let held = decode_proof(&self.proof);
        if !self.fits_proof(data_shards, &held) {
            return None;
        }
        match &held {
            Some((Some(height), siblings)) => {
                assert(0 <= self.node_idx * data_shards) by (nonlinear_arith)
                    requires
                        self.node_idx >= 0,
                        data_shards >= 0,
                ;
                let start: usize = self.node_idx * data_shards;
                let leaves = hash_shards(&self.shards, start);
                if climb(start, leaves, siblings, *height).is_none() {
                    return None;
                }
            },
            _ => {
                return None;
            },
        }
        Some(self.prune_to_anchor_shard(data_shards))
    }
}

/// A bundle cut from a coded batch at the place of its node, with the root and the siblings of
/// the tree over that batch, passes the check.
pub proof fn law_honest_bundle_verifies(
    bundle: &AuthenticatedShard,
    committee: &Committee,
    batch: Seq<Seq<u8>>,
    height: nat,
)
    requires
        committee.stake_of(bundle.author) > 0,
        committee.data_shards > 0,
        bundle.start(committee.data_shards as nat) + committee.data_shards <= batch.len(),
        batch.len() <= smt::width(height),
        batch.len() <= usize::MAX,
        bundle.shard_views() == batch.subrange(
            bundle.start(committee.data_shards as nat) as int,
            bundle.start(committee.data_shards as nat) + committee.data_shards,
        ),
        bundle.root@ == smt::tree_node(smt::shard_leaves(batch, 0), height, 0),
    ensures
        bundle.fits(committee.data_shards as nat, Some((Some(height), Seq::empty()))),
        bundle.verdict(
            committee,
            true,
            Some(
                (
                    Some(height),
                    smt::range_siblings(
                        smt::shard_leaves(batch, 0),
                        0,
                        bundle.start(committee.data_shards as nat),
                        committee.data_shards as nat,
                        height,
                    ),
                ),
            ),
        ) == Ok::<(), MempoolError>(()),
{
    let k = committee.data_shards as nat;
    let start = bundle.start(k);
    let leaves = smt::shard_leaves(batch, 0);
    assert(bundle.shards@.len() == bundle.shard_views().len());
    assert((start + k - 1) * smt::width(0) == start + k - 1) by (nonlinear_arith)
        requires
            smt::width(0) == 1,
    ;
    range_proof::law_tree_siblings_reach_root(leaves, 0, start, k, height);
    let nodes = range_proof::level_nodes(leaves, 0, start, k);
    assert forall|i: int| 0 <= i < k implies #[trigger] nodes[i] == bundle.leaves(k)[i] by {
        assert((start + i) as nat * smt::width(0) == start + i) by (nonlinear_arith)
            requires
                smt::width(0) == 1,
                start + i >= 0,
        ;
        assert(nodes[i] == leaves[start + i]);
        assert(bundle.shard_views()[i] == batch[start + i]);
    }
    assert(nodes =~= bundle.leaves(k));
}

/// The bundle that is made for a node from the tree over a coded batch passes the check, if its
/// author has stake and signed the root, on machines with 64-bit words.
pub proof fn law_made_bundle_verifies(
    bundle: &AuthenticatedShard,
    committee: &Committee,
    batch: Seq<Seq<u8>>,
    tree: &Tree,
)
    requires
        usize::BITS == 64,
        committee.stake_of(bundle.author) > 0,
        committee.data_shards > 0,
        tree.leaves() == smt::shard_leaves(batch, 0),
        batch.len() <= smt::width(tree.height()),
        batch.len() <= usize::MAX,
        bundle.start(committee.data_shards as nat) + committee.data_shards <= batch.len(),
        bundle.shard_views() == batch.subrange(
            bundle.start(committee.data_shards as nat) as int,
            bundle.start(committee.data_shards as nat) + committee.data_shards,
        ),
        bundle.root@ == tree.root(),
        is_batch_proof(
            bundle.proof@,
            bundle.node_idx as nat,
            committee.data_shards as nat,
            tree,
        ),
    ensures
        smt::header_fits(bundle.proof@),
        bundle.fits(committee.data_shards as nat, bundle.decoded()),
        bundle.verdict(committee, true, bundle.decoded()) == Ok::<(), MempoolError>(()),
{
    law_honest_bundle_verifies(bundle, committee, batch, tree.height());
}

/// A full bundle that passes the check still passes it after it is pruned.
pub proof fn law_pruned_bundle_verifies(
    bundle: &AuthenticatedShard,
    pruned: &AuthenticatedShard,
    committee: &Committee,
    signature_valid: bool,
)
    requires
        bundle.verdict(committee, signature_valid, bundle.decoded()) == Ok::<(), MempoolError>(()),
        bundle.pruned_to(committee.data_shards as nat, bundle.decoded(), pruned),
    ensures
        pruned.verdict(committee, signature_valid, pruned.decoded()) == Ok::<(), MempoolError>(()),
{
    // Where words are shorter, no proof with an index can be read.
    assert(bundle.decoded() matches Some((Some(_), _)));
    assert(usize::BITS == 64);
}

/// What is hashed for a shard of a bundle is hashed to check it.
pub proof fn lemma_shard_message(shards: Seq<Seq<u8>>, start: nat, i: int)
    requires
        0 <= i < shards.len(),
    ensures
        range_proof::shard_messages(shards, start).contains(
            smt::shard_message(shards[i], (start + i) as nat),
        ),
{
    let made = Seq::new(
        shards.len(),
        |i: int| smt::shard_message(shards[i], (start + i) as nat),
    );
    assert(made[i] == smt::shard_message(shards[i], (start + i) as nat));
}

/// A root binds the bundle of a node: two bundles of as many shards for the same node and root
/// that pass the check with proofs of one height have the same shards, or a message that is hashed
/// to check one collides with a message that is hashed to check the other.
pub proof fn law_root_binds_bundle(
    a: &AuthenticatedShard,
    b: &AuthenticatedShard,
    committee: &Committee,
    siblings_a: Seq<Seq<u8>>,
    siblings_b: Seq<Seq<u8>>,
    height: nat,
)
    requires
        a.node_idx == b.node_idx,
        a.root@ == b.root@,
        a.shards@.len() == b.shards@.len(),
        a.fits(committee.data_shards as nat, Some((Some(height), siblings_a))),
        smt::node_sized(siblings_a),
        smt::node_sized(siblings_b),
        a.verdict(committee, true, Some((Some(height), siblings_a))) == Ok::<(), MempoolError>(()),
        b.verdict(committee, true, Some((Some(height), siblings_b))) == Ok::<(), MempoolError>(()),
    ensures
        a.shard_views() == b.shard_views() || range_proof::collide(
            a.messages(committee.data_shards as nat, siblings_a, height),
            b.messages(committee.data_shards as nat, siblings_b, height),
        ),
{
    let k = committee.data_shards as nat;
    let (all_a, all_b) = (a.messages(k, siblings_a, height), b.messages(k, siblings_b, height));
    range_proof::law_root_binds_range(
        a.start(k),
        a.leaves(k),
        siblings_a,
        b.leaves(k),
        siblings_b,
        height,
        a.root@,
    );
    if a.leaves(k) != b.leaves(k) {
        range_proof::lemma_collide_grows(
            a.climb_messages(k, siblings_a, height),
            b.climb_messages(k, siblings_b, height),
            all_a,
            all_b,
        );
    } else if !range_proof::collide(all_a, all_b) {
        assert forall|i: int| 0 <= i < a.shard_views().len() implies a.shard_views()[i]
            == b.shard_views()[i] by {
            let place = (a.start(k) + i) as usize;
            assert(a.leaves(k)[i] == b.leaves(k)[i]);
            range_proof::law_leaf_binds_shard(
                a.shard_views()[i],
                place,
                b.shard_views()[i],
                place,
            );
            lemma_shard_message(a.shard_views(), a.start(k), i);
            lemma_shard_message(b.shard_views(), b.start(k), i);
        }
        assert(a.shard_views() =~= b.shard_views());
    }
}

/// A bundle with a changed shard is refused: if a bundle passes the check, one of as many shards
/// for the same node and root, but with other shards, has a bad proof, whatever siblings it
/// comes with, unless a message that is hashed to check one collides with a message that is hashed
/// to check the other. The proofs are of one height.
pub proof fn law_changed_bundle_is_refused(
    bundle: &AuthenticatedShard,
    changed: &AuthenticatedShard,
    committee: &Committee,
    siblings: Seq<Seq<u8>>,
    changed_siblings: Seq<Seq<u8>>,
    height: nat,
)
    requires
        bundle.node_idx == changed.node_idx,
        bundle.root@ == changed.root@,
        bundle.shards@.len() == changed.shards@.len(),
        bundle.shard_views() != changed.shard_views(),
        bundle.fits(committee.data_shards as nat, Some((Some(height), siblings))),
        smt::node_sized(siblings),
        smt::node_sized(changed_siblings),
        bundle.verdict(committee, true, Some((Some(height), siblings))) == Ok::<
            (),
            MempoolError,
        >(()),
        changed.reaches_proof(committee, true),
    ensures
        changed.verdict(committee, true, Some((Some(height), changed_siblings))) == Err::<
            (),
            MempoolError,
        >(MempoolError::BadInclusionProof) || range_proof::collide(
            bundle.messages(committee.data_shards as nat, siblings, height),
            changed.messages(committee.data_shards as nat, changed_siblings, height),
        ),
{
    if changed.verdict(committee, true, Some((Some(height), changed_siblings))) == Ok::<
        (),
        MempoolError,
    >(()) {
        law_root_binds_bundle(bundle, changed, committee, siblings, changed_siblings, height);
    }
}

/// A bundle is bound to its node: if a bundle passes the check, then with another node it has a
/// bad proof, unless a message that is hashed to check it collides with a message that is hashed
/// to check it with the other node. The bundle is a pruned one, or has as many shards as a power of
/// two, or the ways up from both places turn alike; for others see
/// [`law_any_moved_bundle_is_refused`].
pub proof fn law_moved_bundle_is_refused(
    bundle: &AuthenticatedShard,
    moved: &AuthenticatedShard,
    committee: &Committee,
    siblings: Seq<Seq<u8>>,
    height: nat,
    level: nat,
)
    requires
        bundle.node_idx != moved.node_idx,
        bundle.root@ == moved.root@,
        bundle.shard_views() == moved.shard_views(),
        bundle.shards@.len() == 1 || committee.data_shards == smt::width(level)
            || range_proof::same_turns(
            bundle.start(committee.data_shards as nat),
            moved.start(committee.data_shards as nat),
            bundle.shards@.len(),
            height,
        ),
        committee.data_shards > 0,
        bundle.fits(committee.data_shards as nat, Some((Some(height), siblings))),
        moved.fits(committee.data_shards as nat, Some((Some(height), siblings))),
        smt::node_sized(siblings),
        bundle.verdict(committee, true, Some((Some(height), siblings))) == Ok::<
            (),
            MempoolError,
        >(()),
        moved.reaches_proof(committee, true),
    ensures
        moved.verdict(committee, true, Some((Some(height), siblings))) == Err::<(), MempoolError>(
            MempoolError::BadInclusionProof,
        ) || range_proof::collide(
            bundle.messages(committee.data_shards as nat, siblings, height),
            moved.messages(committee.data_shards as nat, siblings, height),
        ),
{
    let k = committee.data_shards as nat;
    let (home, away) = (bundle.start(k), moved.start(k));
    assert(bundle.shards@.len() == bundle.shard_views().len());
    assert(moved.shards@.len() == moved.shard_views().len());
    assert(home != away) by (nonlinear_arith)
        requires
            home == bundle.node_idx as nat * k,
            away == moved.node_idx as nat * k,
            bundle.node_idx != moved.node_idx,
            k > 0,
    ;
    if moved.verdict(committee, true, Some((Some(height), siblings))) == Ok::<(), MempoolError>(
        (),
    ) {
        if bundle.shards@.len() == 1 {
            range_proof::law_single_nodes_turn_alike(home, away, height);
        } else if k == smt::width(level) {
            range_proof::law_even_ranges_turn_alike(
                bundle.node_idx as nat,
                moved.node_idx as nat,
                level,
                height,
            );
        }
        range_proof::law_root_binds_place(
            home,
            bundle.leaves(k),
            away,
            moved.leaves(k),
            siblings,
            height,
            bundle.root@,
        );
        if bundle.leaves(k) == moved.leaves(k) {
            assert(bundle.leaves(k)[0] == moved.leaves(k)[0]);
            range_proof::law_leaf_binds_shard(
                bundle.shard_views()[0],
                home as usize,
                moved.shard_views()[0],
                away as usize,
            );
            lemma_shard_message(bundle.shard_views(), home, 0);
            lemma_shard_message(moved.shard_views(), away, 0);
        } else {
            range_proof::lemma_collide_grows(
                bundle.climb_messages(k, siblings, height),
                moved.climb_messages(k, siblings, height),
                bundle.messages(k, siblings, height),
                moved.messages(k, siblings, height),
            );
        }
    }
}

/// A bundle of any number of shards is bound to its node: if a bundle passes the check, then with
/// another node it has a bad proof, unless two of the messages that are hashed to check it with
/// both nodes collide, or one of its siblings is hashed from nodes by these messages, and these
/// from others, without end. The shards do not have 64 bytes less those of a word: such a shard
/// and its position are as long as two nodes, and so its leaf can be the parent of two nodes. That
/// no messages collide is not enough by itself. With three shards for each node, in a tree of
/// height four, a bundle for node 0 can pass for node 2 as well if one of its siblings is hashed
/// from another one that is hashed from the first.
pub proof fn law_any_moved_bundle_is_refused(
    bundle: &AuthenticatedShard,
    moved: &AuthenticatedShard,
    committee: &Committee,
    siblings: Seq<Seq<u8>>,
    height: nat,
)
    requires
        bundle.node_idx != moved.node_idx,
        bundle.root@ == moved.root@,
        bundle.shard_views() == moved.shard_views(),
        forall|i: int|
            0 <= i < bundle.shard_views().len() ==> (#[trigger] bundle.shard_views()[i]).len()
                + smt::word_bytes() != 64,
        committee.data_shards > 0,
        bundle.fits(committee.data_shards as nat, Some((Some(height), siblings))),
        moved.fits(committee.data_shards as nat, Some((Some(height), siblings))),
        smt::node_sized(siblings),
        bundle.verdict(committee, true, Some((Some(height), siblings))) == Ok::<
            (),
            MempoolError,
        >(()),
        moved.reaches_proof(committee, true),
    ensures
        ({
            let k = committee.data_shards as nat;
            let all = bundle.messages(k, siblings, height).union(
                moved.messages(k, siblings, height),
            );
            let climbed = bundle.climb_messages(k, siblings, height).union(
                moved.climb_messages(k, siblings, height),
            );
            ||| moved.verdict(committee, true, Some((Some(height), siblings))) == Err::<
                (),
                MempoolError,
            >(MempoolError::BadInclusionProof)
            ||| range_proof::collide(all, all)
            ||| range_places::some_endless(climbed, siblings)
        }),
{
    let k = committee.data_shards as nat;
    let (home, away) = (bundle.start(k), moved.start(k));
    let (a, b) = (bundle.leaves(k), moved.leaves(k));
    let all = bundle.messages(k, siblings, height).union(moved.messages(k, siblings, height));
    let climbed = bundle.climb_messages(k, siblings, height).union(
        moved.climb_messages(k, siblings, height),
    );
    assert(bundle.shards@.len() == bundle.shard_views().len());
    assert(moved.shards@.len() == moved.shard_views().len());
    if !range_proof::collide(all, all) && moved.verdict(
        committee,
        true,
        Some((Some(height), siblings)),
    ) == Ok::<(), MempoolError>(()) {
        assert forall|i: int| 0 <= i < a.len() implies !range_places::is_inner(
            climbed,
            #[trigger] a[i],
        ) by {
            lemma_shard_message(bundle.shard_views(), home, i);
            lemma_leaf_is_not_inner(bundle.shard_views()[i], (home + i) as nat, climbed, all);
        }
        assert forall|i: int| 0 <= i < b.len() implies !range_places::is_inner(
            climbed,
            #[trigger] b[i],
        ) by {
            assert(bundle.shard_views()[i].len() + smt::word_bytes() != 64);
            lemma_shard_message(moved.shard_views(), away, i);
            lemma_leaf_is_not_inner(moved.shard_views()[i], (away + i) as nat, climbed, all);
        }
        range_places::law_siblings_bind_nodes(
            climbed,
            home,
            a,
            away,
            b,
            siblings,
            height,
            bundle.root@,
        );
        if range_proof::collide(climbed, climbed) {
            range_proof::lemma_collide_grows(climbed, climbed, all, all);
        }
        if b.contains(a[0]) {
            let i = choose|i: int| 0 <= i < b.len() && b[i] == a[0];
            assert(home != away + i) by (nonlinear_arith)
                requires
                    home == bundle.node_idx as nat * k,
                    away == moved.node_idx as nat * k,
                    bundle.node_idx != moved.node_idx,
                    0 <= i < k,
            ;
            range_proof::law_leaf_binds_shard(
                bundle.shard_views()[0],
                home as usize,
                moved.shard_views()[i],
                (away + i) as usize,
            );
            lemma_shard_message(bundle.shard_views(), home, 0);
            lemma_shard_message(moved.shard_views(), away, i);
        }
    }
}

/// The leaf of a shard that is not as long as two nodes, together with its position, is not hashed
/// from two nodes.
proof fn lemma_leaf_is_not_inner(
    shard: Seq<u8>,
    position: nat,
    climbed: Set<Seq<u8>>,
    all: Set<Seq<u8>>,
)
    requires
        shard.len() + smt::word_bytes() != 64,
        climbed.subset_of(all),
        all.contains(smt::shard_message(shard, position)),
        !range_proof::collide(all, all),
    ensures
        !range_places::is_inner(climbed, smt::shard_leaf(shard, position)),
{
    let leaf = smt::shard_leaf(shard, position);
    if range_places::is_inner(climbed, leaf) {
        let y = choose|message: Seq<u8>|
            climbed.contains(message) && #[trigger] range_places::opens(leaf, message);
        let x = smt::shard_message(shard, position);
        crate::bytes::lemma_le_bytes_len(position, smt::word_bytes());
        assert(x.len() != y.len());
        assert(range_proof::node_collision(x, y));
    }
}

/// The bundles of a coded batch are bound to their nodes: with the siblings that the tree over
/// the batch gives for one node, no shards for another node pass the check, unless a message that
/// is hashed for the check or for the tree collides with one that is hashed for the tree, or one of
/// these has the hash of the padding.
pub proof fn law_batch_binds_nodes(
    bundle: &AuthenticatedShard,
    committee: &Committee,
    batch: Seq<Seq<u8>>,
    home: nat,
    height: nat,
)
    requires
        bundle.node_idx != home,
        committee.data_shards > 0,
        bundle.shards@.len() == committee.data_shards,
        bundle.reaches_proof(committee, true),
        bundle.start(committee.data_shards as nat) + committee.data_shards <= batch.len(),
        home * committee.data_shards as nat + committee.data_shards <= batch.len(),
        batch.len() <= smt::width(height),
        batch.len() <= usize::MAX,
        bundle.root@ == smt::tree_node(smt::shard_leaves(batch, 0), height, 0),
    ensures
        ({
            let k = committee.data_shards as nat;
            let siblings = smt::range_siblings(
                smt::shard_leaves(batch, 0),
                0,
                home * k,
                k,
                height,
            );
            let tree = range_proof::tree_messages(batch, height);
            ||| bundle.verdict(committee, true, Some((Some(height), siblings))) == Err::<
                (),
                MempoolError,
            >(MempoolError::BadInclusionProof)
            ||| range_proof::collide(bundle.messages(k, siblings, height).union(tree), tree)
            ||| range_proof::hits_padding(tree)
        }),
{
    let k = committee.data_shards as nat;
    let siblings = smt::range_siblings(smt::shard_leaves(batch, 0), 0, home * k, k, height);
    let tree = range_proof::tree_messages(batch, height);
    range_proof::law_siblings_bind_place(
        batch,
        home,
        bundle.node_idx as nat,
        bundle.leaves(k),
        height,
    );
    let climbed = bundle.climb_messages(k, siblings, height).union(tree);
    if range_proof::collide(climbed, tree) {
        range_proof::lemma_collide_grows(
            climbed,
            tree,
            bundle.messages(k, siblings, height).union(tree),
            tree,
        );
    }
}

/// The root of a coded batch commits to its shards: a bundle that passes the check with a proof of
/// the height of the tree over the batch has the shards of the batch at the places of its node, or
/// a message that is hashed to check it collides with one that is hashed for the tree.
pub proof fn law_batch_binds_bundle(
    bundle: &AuthenticatedShard,
    committee: &Committee,
    batch: Seq<Seq<u8>>,
    siblings: Seq<Seq<u8>>,
    height: nat,
)
    requires
        bundle.start(committee.data_shards as nat) + bundle.shards@.len() <= batch.len(),
        batch.len() <= smt::width(height),
        batch.len() <= usize::MAX,
        smt::node_sized(siblings),
        bundle.root@ == smt::tree_node(smt::shard_leaves(batch, 0), height, 0),
        bundle.verdict(committee, true, Some((Some(height), siblings))) == Ok::<
            (),
            MempoolError,
        >(()),
    ensures
        bundle.shard_views() == batch.subrange(
            bundle.start(committee.data_shards as nat) as int,
            (bundle.start(committee.data_shards as nat) + bundle.shards@.len()) as int,
        ) || range_proof::collide(
            bundle.messages(committee.data_shards as nat, siblings, height),
            range_proof::tree_messages(batch, height),
        ),
{
    let k = committee.data_shards as nat;
    let (start, len) = (bundle.start(k), bundle.shards@.len());
    let leaves = smt::shard_leaves(batch, 0);
    let (all, tree) = (
        bundle.messages(k, siblings, height),
        range_proof::tree_messages(batch, height),
    );
    assert(len == bundle.shard_views().len());
    assert((start + len - 1) * smt::width(0) == start + len - 1) by (nonlinear_arith)
        requires
            smt::width(0) == 1,
    ;
    range_proof::law_tree_siblings_reach_root(leaves, 0, start, len, height);
    let nodes = range_proof::level_nodes(leaves, 0, start, len);
    let due = smt::range_siblings(leaves, 0, start, len, height);
    assert forall|i: int| 0 <= i < len implies #[trigger] nodes[i] == leaves[start + i] by {
        assert((start + i) as nat * smt::width(0) == start + i) by (nonlinear_arith)
            requires
                smt::width(0) == 1,
                start + i >= 0,
        ;
    }
    range_proof::lemma_range_siblings_sized(leaves, 0, start, len, height);
    range_proof::law_root_binds_range(
        start,
        bundle.leaves(k),
        siblings,
        nodes,
        due,
        height,
        bundle.root@,
    );
    if bundle.leaves(k) != nodes {
        range_proof::lemma_collide_grows(
            bundle.climb_messages(k, siblings, height),
            range_proof::range_messages(start, nodes, due, height),
            all,
            tree,
        );
    } else if !range_proof::collide(all, tree) {
        assert forall|i: int| 0 <= i < len implies bundle.shard_views()[i] == batch[start
            + i] by {
            assert(bundle.leaves(k)[i] == nodes[i]);
            let place = (start + i) as usize;
            range_proof::law_leaf_binds_shard(
                bundle.shard_views()[i],
                place,
                batch[start + i],
                place,
            );
            lemma_shard_message(bundle.shard_views(), start, i);
            lemma_shard_message(batch, 0, start + i);
        }
        assert(bundle.shard_views() =~= batch.subrange(start as int, (start + len) as int));
    }
}

} // verus!
