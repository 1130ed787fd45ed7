//! Collecting votes for coded batches into certificates and availability proofs.

use vstd::prelude::*;
use crate::committee::{self, Committee, Stake};
use crate::crypto::{self, Digest, PublicKey, Signature};
use crate::error::{MempoolError, MempoolResult};
use crate::table::Table;
use crate::voter::BatchVote;

verus! {

/// The names of the voters, in order.
pub open spec fn voters(votes: Seq<(PublicKey, Signature)>) -> Seq<Seq<u8>> {
    Seq::new(votes.len(), |i: int| votes[i].0@)
}

/// The first vote by someone who voted before or has no stake.
pub open spec fn votes_fault(
    committee: &Committee,
    votes: Seq<(PublicKey, Signature)>,
) -> Option<MempoolError>
    decreases votes.len(),
{
    if votes.len() == 0 {
        None
    } else {
        let name = votes.last().0;
        match votes_fault(committee, votes.drop_last()) {
            Some(fault) => Some(fault),
            None => if voters(votes.drop_last()).contains(name@) {
                Some(MempoolError::AuthorityReuse(name))
            } else if committee.stake_of(name) == 0 {
                Some(MempoolError::UnknownAuthority(name))
            } else {
                None
            },
        }
    }
}

/// The stake of all voters together.
pub open spec fn votes_weight(committee: &Committee, votes: Seq<(PublicKey, Signature)>) -> nat {
    committee::stake_sum(committee.authorities@, voters(votes))
}

/// Every voter has stake.
pub open spec fn all_known(committee: &Committee, votes: Seq<(PublicKey, Signature)>) -> bool {
    forall|i: int| 0 <= i < votes.len() ==> committee.stake_of((#[trigger] votes[i]).0) > 0
}

/// Votes have no fault exactly when the voters are distinct and have stake.
pub proof fn lemma_faultless(committee: &Committee, votes: Seq<(PublicKey, Signature)>)
    ensures
        votes_fault(committee, votes) is None <==> voters(votes).no_duplicates() && all_known(
            committee,
            votes,
        ),
    decreases votes.len(),
{
    if votes.len() > 0 {
        let rest = votes.drop_last();
        let (names, fewer) = (voters(votes), voters(rest));
        lemma_faultless(committee, rest);
        assert(fewer =~= names.drop_last());
        assert(names.last() == votes.last().0@);
        if votes_fault(committee, votes) is None {
            assert forall|i: int, j: int|
                0 <= i < names.len() && 0 <= j < names.len() && i != j implies names[i]
                != names[j] by {
                if i < fewer.len() {
                    assert(fewer.contains(fewer[i]));
                }
                if j < fewer.len() {
                    assert(fewer.contains(fewer[j]));
                }
            }
            assert forall|i: int| 0 <= i < votes.len() implies committee.stake_of(
                (#[trigger] votes[i]).0,
            ) > 0 by {
                if i < rest.len() {
                    assert(rest[i] == votes[i]);
                }
            }
        }
        if names.no_duplicates() && all_known(committee, votes) {
            assert forall|i: int| 0 <= i < rest.len() implies committee.stake_of(
                (#[trigger] rest[i]).0,
            ) > 0 by {
                assert(rest[i] == votes[i]);
            }
            assert(votes[votes.len() - 1] == votes.last());
        }
    }
}

/// Checks that the voters are distinct and have stake, and adds up their stake.
fn check_votes(votes: &Vec<(PublicKey, Signature)>, committee: &Committee) -> (outcome:
    MempoolResult<Stake>)
    requires
        committee.wf(),
    ensures
        match votes_fault(committee, votes@) {
            Some(fault) => outcome == Err::<Stake, MempoolError>(fault),
            None => outcome is Ok && outcome->Ok_0 == votes_weight(committee, votes@),
        },
{
    let mut weight: Stake = 0;
    let mut i: usize = 0;
    assert(voters(votes@.take(0)) =~= Seq::empty());
    while i < votes.len()
        invariant
            i <= votes@.len(),
            committee.wf(),
            votes_fault(committee, votes@.take(i as int)) is None,
            weight == votes_weight(committee, votes@.take(i as int)),
        decreases votes@.len() - i,
    {
        let name: PublicKey = votes[i].0;
        let ghost seen = votes@.take(i as int);
        let ghost longer = votes@.take(i + 1);
        assert(longer.drop_last() =~= seen);
        assert(longer.last() == votes@[i as int]);
        if contains_voter(votes, i, &name) {
            proof {
                lemma_fault_stays(committee, votes@, i + 1);
            }
            return Err(MempoolError::AuthorityReuse(name));
        }
        let voting_rights: Stake = committee.stake(&name);
        if voting_rights == 0 {
            proof {
                lemma_fault_stays(committee, votes@, i + 1);
            }
            return Err(MempoolError::UnknownAuthority(name));
        }
        proof {
            lemma_faultless(committee, longer);
            committee::lemma_sum_bounded(committee.authorities@, voters(longer));
            assert(voters(longer).drop_last() =~= voters(seen));
        }
        weight = weight + voting_rights;
        i = i + 1;
    }
    assert(votes@.take(i as int) =~= votes@);
    Ok(weight)
}

/// A fault in the first votes is the fault of all of them.
proof fn lemma_fault_stays(committee: &Committee, votes: Seq<(PublicKey, Signature)>, n: int)
    requires
        0 <= n <= votes.len(),
        votes_fault(committee, votes.take(n)) is Some,
    ensures
        votes_fault(committee, votes) == votes_fault(committee, votes.take(n)),
    decreases votes.len() - n,
{
    if n == votes.len() {
        assert(votes.take(n) =~= votes);
    } else {
        assert(votes.take(n + 1).drop_last() =~= votes.take(n));
        lemma_fault_stays(committee, votes, n + 1);
    }
}

/// Whether `name` is among the first `n` voters.
fn contains_voter(votes: &Vec<(PublicKey, Signature)>, n: usize, name: &PublicKey) -> (found: bool)
    requires
        n <= votes@.len(),
    ensures
        found == voters(votes@.take(n as int)).contains(name@),
{
    let ghost names = voters(votes@.take(n as int));
    let mut i: usize = 0;
    while i < n
        invariant
            i <= n <= votes@.len(),
            names == voters(votes@.take(n as int)),
            forall|j: int| 0 <= j < i ==> names[j] != name@,
        decreases n - i,
    {
        assert(names[i as int] == votes@[i as int].0@);
        if votes[i].0 == *name {
            return true;
        }
        i = i + 1;
    }
    false
}

/// Every node is among the voters.
pub open spec fn all_voted(committee: &Committee, votes: Seq<(PublicKey, Signature)>) -> bool {
    forall|i: int|
        0 <= i < committee.authorities@.len() ==> voters(votes).contains(
            (#[trigger] committee.authorities@[i]).name@,
        )
}

/// The votes of the nodes of the committee, in order.
pub open spec fn member_votes(
    committee: &Committee,
    votes: Seq<(PublicKey, Signature)>,
) -> Seq<(PublicKey, Signature)>
    decreases votes.len(),
{
    if votes.len() == 0 {
        Seq::empty()
    } else {
        let rest = member_votes(committee, votes.drop_last());
        if committee.place_of(votes.last().0) is Some {
            rest.push(votes.last())
        } else {
            rest
        }
    }
}

/// Whether every node is among the voters.
fn have_all_voted(votes: &Vec<(PublicKey, Signature)>, committee: &Committee) -> (complete: bool)
    ensures
        complete == all_voted(committee, votes@),
{
    assert(votes@.take(votes@.len() as int) =~= votes@);
    let mut i: usize = 0;
    while i < committee.authorities.len()
        invariant
            i <= committee.authorities@.len(),
            votes@.take(votes@.len() as int) == votes@,
            forall|j: int|
                0 <= j < i ==> voters(votes@).contains(
                    (#[trigger] committee.authorities@[j]).name@,
                ),
        decreases committee.authorities@.len() - i,
    {
        if !contains_voter(votes, votes.len(), &committee.authorities[i].name) {
            assert(!voters(votes@).contains(committee.authorities@[i as int].name@));
            return false;
        }
        i = i + 1;
    }
    true
}

/// The votes of the nodes of the committee, in order.
fn select_members(votes: &Vec<(PublicKey, Signature)>, committee: &Committee) -> (selected: Vec<
    (PublicKey, Signature),
>)
    ensures
        selected@ == member_votes(committee, votes@),
{
    let mut selected: Vec<(PublicKey, Signature)> = Vec::new();
    let mut i: usize = 0;
    while i < votes.len()
        invariant
            i <= votes@.len(),
            selected@ == member_votes(committee, votes@.take(i as int)),
        decreases votes@.len() - i,
    {
        assert(votes@.take(i + 1).drop_last() =~= votes@.take(i as int));
        assert(votes@.take(i + 1).last() == votes@[i as int]);
        if committee.index(&votes[i].0).is_some() {
            selected.push((votes[i].0, votes[i].1));
        }
        i = i + 1;
    }
    assert(votes@.take(i as int) =~= votes@);
    selected
}

/// A copy of a list of votes.
pub fn copy_votes(votes: &Vec<(PublicKey, Signature)>) -> (copy: Vec<(PublicKey, Signature)>)
    ensures
        copy@ == votes@,
{
    let mut copy: Vec<(PublicKey, Signature)> = Vec::new();
    let mut i: usize = 0;
    while i < votes.len()
        invariant
            i <= votes@.len(),
            copy@ == votes@.take(i as int),
        decreases votes@.len() - i,
    {
        copy.push((votes[i].0, votes[i].1));
        i = i + 1;
        assert(copy@ =~= votes@.take(i as int));
    }
    assert(copy@ =~= votes@);
    copy
}

/// The votes of a quorum for a batch.
#[derive(Clone, Debug)]
pub struct BatchCertificate {
    pub root: Digest,
    pub author: PublicKey,
    pub votes: Vec<(PublicKey, Signature)>,
}

/// Certificates for the same batch are equal, whoever voted.
impl PartialEq for BatchCertificate {
    fn eq(&self, other: &BatchCertificate) -> (equal: bool) {
        self.root == other.root
    }
}

impl vstd::std_specs::cmp::PartialEqSpecImpl for BatchCertificate {
    open spec fn obeys_eq_spec() -> bool {
        true
    }

    open spec fn eq_spec(&self, other: &BatchCertificate) -> bool {
        self.root@ == other.root@
    }
}

impl Eq for BatchCertificate {

}

/// What a check of votes comes to when they need a quorum, given whether the signatures are the
/// voters'.
pub open spec fn certificate_verdict(
    committee: &Committee,
    votes: Seq<(PublicKey, Signature)>,
    signatures_valid: bool,
) -> MempoolResult<()> {
    match votes_fault(committee, votes) {
        Some(fault) => Err(fault),
        None => if votes_weight(committee, votes) < committee.quorum {
            Err(MempoolError::CertificateRequiresQuorum)
        } else if !signatures_valid {
            Err(MempoolError::InvalidSignature)
        } else {
            Ok(())
        },
    }
}

/// What a check of votes comes to when all nodes have to vote, given whether the signatures are
/// the voters'.
pub open spec fn availability_verdict(
    committee: &Committee,
    votes: Seq<(PublicKey, Signature)>,
    signatures_valid: bool,
) -> MempoolResult<()> {
    match votes_fault(committee, votes) {
        Some(fault) => Err(fault),
        None => if votes.len() != committee.authorities@.len() {
            Err(MempoolError::CertificateRequiresQuorum)
        } else if !signatures_valid {
            Err(MempoolError::InvalidSignature)
        } else {
            Ok(())
        },
    }
}

impl BatchCertificate {
    /// Checks the certificate, given whether the signatures are the voters'.
    pub fn verify_with(&self, committee: &Committee, signatures_valid: bool) -> (outcome:
        MempoolResult<()>)
        requires
            committee.wf(),
        ensures
            outcome == certificate_verdict(committee, self.votes@, signatures_valid),
    {
        let weight: Stake = match check_votes(&self.votes, committee) {
            Ok(weight) => weight,
            Err(fault) => {
                return Err(fault);
            },
        };
        if weight < committee.quorum_threshold() {
            return Err(MempoolError::CertificateRequiresQuorum);
        }
        if !signatures_valid {
            return Err(MempoolError::InvalidSignature);
        }
        Ok(())
    }

    /// Checks the certificate: the voters are distinct members, have a quorum together, and
    /// signed the root. The signatures are checked by a randomized procedure, which takes all
    /// that were made with the secrets of the voters.
    pub fn verify(&self, committee: &Committee) -> (outcome: MempoolResult<()>)
        requires
            committee.wf(),
        ensures
            outcome == certificate_verdict(committee, self.votes@, true) || outcome
                == certificate_verdict(committee, self.votes@, false),
            crypto::all_genuine(self.root@, self.votes@) ==> outcome == certificate_verdict(
                committee,
                self.votes@,
                true,
            ),
            !crypto::votes_have_form(self.votes@) ==> outcome == certificate_verdict(
                committee,
                self.votes@,
                false,
            ),
    {
        match self.verify_with(committee, true) {
            Err(fault) => Err(fault),
            Ok(()) => self.verify_with(
                committee,
                Signature::verify_batch(&self.root, &self.votes),
            ),
        }
    }
}

/// The votes of all nodes for a batch, after which its shards can be pruned.
#[derive(Clone, Debug)]
pub struct FullAvailabilityProof {
    pub root: Digest,
    pub author: PublicKey,
    pub votes: Vec<(PublicKey, Signature)>,
}

impl FullAvailabilityProof {
    /// Checks the proof, given whether the signatures are the voters'.
    pub fn verify_with(&self, committee: &Committee, signatures_valid: bool) -> (outcome:
        MempoolResult<()>)
        requires
            committee.wf(),
        ensures
            outcome == availability_verdict(committee, self.votes@, signatures_valid),
    {
        match check_votes(&self.votes, committee) {
            Ok(_) => {},
            Err(fault) => {
                return Err(fault);
            },
        }
        if self.votes.len() != committee.size() {
            return Err(MempoolError::CertificateRequiresQuorum);
        }
        if !signatures_valid {
            return Err(MempoolError::InvalidSignature);
        }
        Ok(())
    }

    /// Checks the proof: all nodes voted, once each, and signed the root. The signatures are
    /// checked by a randomized procedure, which takes all that were made with the secrets of the
    /// voters.
    pub fn verify(&self, committee: &Committee) -> (outcome: MempoolResult<()>)
        requires
            committee.wf(),
        ensures
            outcome == availability_verdict(committee, self.votes@, true) || outcome
                == availability_verdict(committee, self.votes@, false),
            crypto::all_genuine(self.root@, self.votes@) ==> outcome == availability_verdict(
                committee,
                self.votes@,
                true,
            ),
            !crypto::votes_have_form(self.votes@) ==> outcome == availability_verdict(
                committee,
                self.votes@,
                false,
            ),
    {
        match self.verify_with(committee, true) {
            Err(fault) => Err(fault),
            Ok(()) => self.verify_with(
                committee,
                Signature::verify_batch(&self.root, &self.votes),
            ),
        }
    }
}

/// The votes for one batch.
#[derive(Debug)]
pub struct Aggregator {
    pub author: PublicKey,
    pub weight: Stake,
    pub votes: Vec<(PublicKey, Signature)>,
    pub certificate_emitted: bool,
}

impl Aggregator {
    /// The voters are distinct and their stake is counted, and the certificate was handed out
    /// once a vote was there and the stake had reached the quorum.
    pub open spec fn wf(&self, committee: &Committee) -> bool {
        &&& voters(self.votes@).no_duplicates()
        &&& self.weight == votes_weight(committee, self.votes@)
        &&& self.certificate_emitted == (self.votes@.len() > 0 && self.weight >= committee.quorum)
    }

    /// This is `before` with one more vote.
    pub open spec fn extends(
        &self,
        before: &Aggregator,
        author: PublicKey,
        signature: Signature,
    ) -> bool {
        &&& self.author == before.author
        &&& self.votes@ == before.votes@.push((author, signature))
    }

    /// Starts to collect the votes for a batch of `author`.
    pub fn new(author: PublicKey) -> (aggregator: Aggregator)
        ensures
            aggregator.author == author,
            aggregator.votes@ == Seq::<(PublicKey, Signature)>::empty(),
            aggregator.weight == 0,
            !aggregator.certificate_emitted,
            forall|committee: &Committee| #[trigger] aggregator.wf(committee),
    {
        let aggregator = Aggregator {
            author,
            weight: 0,
            votes: Vec::new(),
            certificate_emitted: false,
        };
        assert(voters(aggregator.votes@) =~= Seq::empty());
        aggregator
    }

    /// Adds a vote, unless its author voted before. The vote that brings the stake to a quorum
    /// gives a certificate. The vote with which all nodes have voted gives an availability proof
    /// with the votes of the nodes.
    pub fn append(
        &mut self,
        root: Digest,
        signature: Signature,
        author: PublicKey,
        committee: &Committee,
    ) -> (outcome: MempoolResult<(Option<BatchCertificate>, Option<FullAvailabilityProof>)>)
        requires
            committee.wf(),
            old(self).wf(committee),
        ensures
            final(self).wf(committee),
            match outcome {
                Err(error) => {
                    &&& voters(old(self).votes@).contains(author@)
                    &&& error == MempoolError::AuthorityReuse(author)
                    &&& *final(self) == *old(self)
                },
                Ok((certificate, proof)) => {
                    &&& !voters(old(self).votes@).contains(author@)
                    &&& final(self).extends(old(self), author, signature)
                    &&& certificate is Some <==> !old(self).certificate_emitted && votes_weight(
                        committee,
                        final(self).votes@,
                    ) >= committee.quorum
                    &&& certificate is Some <==> reaches_quorum(
                        committee,
                        final(self).votes@,
                        old(self).votes@.len() as int,
                    )
                    &&& certificate matches Some(certificate) ==> {
                        &&& certificate.root == root
                        &&& certificate.author == old(self).author
                        &&& certificate.votes@ == final(self).votes@
                    }
                    &&& proof is Some <==> all_voted(committee, final(self).votes@) && !all_voted(
                        committee,
                        old(self).votes@,
                    )
                    &&& proof matches Some(proof) ==> {
                        &&& proof.root == root
                        &&& proof.author == old(self).author
                        &&& proof.votes@ == member_votes(committee, final(self).votes@)
                    }
                },
            },
    {
        let ghost before = self.votes@;
        assert(before.take(before.len() as int) =~= before);
        if contains_voter(&self.votes, self.votes.len(), &author) {
            return Err(MempoolError::AuthorityReuse(author));
        }
        let complete_before = have_all_voted(&self.votes, committee);
        self.votes.push((author, signature));
        let ghost (names, fewer) = (voters(self.votes@), voters(before));
        assert(names =~= fewer.push(author@));
        assert(names.drop_last() =~= fewer);
        assert(self.votes@.take(before.len() as int) =~= before);
        assert(self.votes@.take((before.len() + 1) as int) =~= self.votes@);
        proof {
            assert forall|i: int, j: int|
                0 <= i < names.len() && 0 <= j < names.len() && i != j implies names[i]
                != names[j] by {
                if i < fewer.len() {
                    assert(fewer.contains(fewer[i]));
                }
                if j < fewer.len() {
                    assert(fewer.contains(fewer[j]));
                }
            }
            committee::lemma_sum_bounded(committee.authorities@, names);
        }
        self.weight = self.weight + committee.stake(&author);
        let certificate = if !self.certificate_emitted && self.weight
            >= committee.quorum_threshold() {
            self.certificate_emitted = true;
            Some(BatchCertificate { root, author: self.author, votes: copy_votes(&self.votes) })
        } else {
            None
        };
        let complete = if !complete_before && have_all_voted(&self.votes, committee) {
            let votes = select_members(&self.votes, committee);
            Some(FullAvailabilityProof { root, author: self.author, votes })
        } else {
            None
        };
        Ok((certificate, complete))
    }
}

/// Vote `i` is the one that brings the stake of the voters to a quorum.
pub open spec fn reaches_quorum(
    committee: &Committee,
    votes: Seq<(PublicKey, Signature)>,
    i: int,
) -> bool {
    &&& votes_weight(committee, votes.take(i + 1)) >= committee.quorum
    &&& i > 0 ==> votes_weight(committee, votes.take(i)) < committee.quorum
}

proof fn lemma_weight_grows(
    committee: &Committee,
    votes: Seq<(PublicKey, Signature)>,
    i: int,
    j: int,
)
    requires
        0 <= i <= j <= votes.len(),
    ensures
        votes_weight(committee, votes.take(i)) <= votes_weight(committee, votes.take(j)),
    decreases j - i,
{
    if i < j {
        lemma_weight_grows(committee, votes, i, j - 1);
        assert(voters(votes.take(j)).drop_last() =~= voters(votes.take(j - 1)));
    }
}

/// At most one of the votes for a batch gives a certificate.
pub proof fn law_one_certificate(
    committee: &Committee,
    votes: Seq<(PublicKey, Signature)>,
    i: int,
    j: int,
)
    requires
        0 <= i < votes.len(),
        0 <= j < votes.len(),
        reaches_quorum(committee, votes, i),
        reaches_quorum(committee, votes, j),
    ensures
        i == j,
{
    if i < j {
        lemma_weight_grows(committee, votes, i + 1, j);
    } else if j < i {
        lemma_weight_grows(committee, votes, j + 1, i);
    }
}

/// Distinct voters with stake and a quorum make a certificate that passes the check.
pub proof fn law_certificate_passes(committee: &Committee, votes: Seq<(PublicKey, Signature)>)
    requires
        voters(votes).no_duplicates(),
        all_known(committee, votes),
        votes_weight(committee, votes) >= committee.quorum,
    ensures
        certificate_verdict(committee, votes, true) == Ok::<(), MempoolError>(()),
{
    lemma_faultless(committee, votes);
}

/// The names of all authorities.
pub open spec fn member_names(committee: &Committee) -> Seq<Seq<u8>> {
    Seq::new(committee.authorities@.len(), |i: int| committee.authorities@[i].name@)
}

/// Who has stake has a place.
proof fn lemma_known_has_place(committee: &Committee, name: PublicKey)
    requires
        committee.stake_of(name) > 0,
    ensures
        committee.place_of(name) is Some,
{
    committee::lemma_stake_needs_member(committee.authorities@, name@);
    committee::lemma_place(committee.authorities@, name@);
}

/// Votes of known voters are all votes of nodes.
proof fn lemma_known_are_members(committee: &Committee, votes: Seq<(PublicKey, Signature)>)
    requires
        all_known(committee, votes),
    ensures
        member_votes(committee, votes) == votes,
    decreases votes.len(),
{
    if votes.len() > 0 {
        let rest = votes.drop_last();
        assert forall|i: int| 0 <= i < rest.len() implies committee.stake_of(
            (#[trigger] rest[i]).0,
        ) > 0 by {
            assert(rest[i] == votes[i]);
        }
        lemma_known_are_members(committee, rest);
        assert(votes[votes.len() - 1] == votes.last());
        lemma_known_has_place(committee, votes.last().0);
        assert(rest.push(votes.last()) =~= votes);
    }
}

/// The voters among the nodes are those who are nodes, each once if nobody voted twice.
proof fn lemma_member_votes(committee: &Committee, votes: Seq<(PublicKey, Signature)>)
    ensures
        forall|name: Seq<u8>| #[trigger]
            voters(member_votes(committee, votes)).contains(name) <==> voters(votes).contains(name)
                && committee::place_among(committee.authorities@, name) is Some,
        voters(votes).no_duplicates() ==> voters(
            member_votes(committee, votes),
        ).no_duplicates(),
    decreases votes.len(),
{
    let kept = member_votes(committee, votes);
    if votes.len() == 0 {
        assert(voters(kept) =~= Seq::empty());
        assert(voters(votes) =~= Seq::empty());
    } else {
        let front = votes.drop_last();
        let rest = member_votes(committee, front);
        let name = votes.last().0@;
        lemma_member_votes(committee, front);
        assert(voters(votes) =~= voters(front).push(name));
        assert forall|x: Seq<u8>| voters(votes).contains(x) <==> voters(front).contains(x) || x
            == name by {
            lemma_push_contains(voters(front), name, x);
        }
        if committee.place_of(votes.last().0) is Some {
            assert(voters(kept) =~= voters(rest).push(name));
            assert forall|x: Seq<u8>| #[trigger] voters(kept).contains(x) <==> voters(
                rest,
            ).contains(x) || x == name by {
                lemma_push_contains(voters(rest), name, x);
            }
        } else {
            assert(kept == rest);
        }
        if voters(votes).no_duplicates() {
            let names = voters(votes);
            assert(voters(front).no_duplicates()) by {
                assert forall|i: int, j: int|
                    0 <= i < front.len() && 0 <= j < front.len() && i != j implies voters(
                    front,
                )[i] != voters(front)[j] by {
                    assert(voters(front)[i] == names[i] && voters(front)[j] == names[j]);
                }
            }
            assert(!voters(front).contains(name)) by {
                if voters(front).contains(name) {
                    let i = choose|i: int| 0 <= i < front.len() && voters(front)[i] == name;
                    assert(names[i] == names[names.len() - 1]);
                }
            }
            if committee.place_of(votes.last().0) is Some {
                assert(!voters(rest).contains(name));
                let (all, fewer) = (voters(kept), voters(rest));
                assert forall|i: int, j: int|
                    0 <= i < all.len() && 0 <= j < all.len() && i != j implies all[i]
                    != all[j] by {
                    if i < fewer.len() {
                        assert(fewer.contains(fewer[i]));
                    }
                    if j < fewer.len() {
                        assert(fewer.contains(fewer[j]));
                    }
                }
            }
        }
    }
}

/// A list holds what it held before and what was added at its end.
pub proof fn lemma_push_contains(names: Seq<Seq<u8>>, last: Seq<u8>, x: Seq<u8>)
    ensures
        names.push(last).contains(x) <==> names.contains(x) || x == last,
{
    let longer = names.push(last);
    if names.contains(x) {
        let i = choose|i: int| 0 <= i < names.len() && names[i] == x;
        assert(longer[i] == x);
    }
    assert(longer[names.len() as int] == last);
    if longer.contains(x) {
        let i = choose|i: int| 0 <= i < longer.len() && longer[i] == x;
        if i < names.len() {
            assert(names[i] == x);
        }
    }
}

/// Distinct voters with stake are all nodes exactly if there are as many of them.
proof fn lemma_all_voted_count(committee: &Committee, votes: Seq<(PublicKey, Signature)>)
    requires
        committee.wf(),
        voters(votes).no_duplicates(),
        all_known(committee, votes),
    ensures
        all_voted(committee, votes) <==> votes.len() == committee.authorities@.len(),
{
    let (names, members) = (voters(votes), member_names(committee));
    assert forall|x: Seq<u8>| names.to_set().contains(x) implies members.to_set().contains(x) by {
        let v = choose|v: int| 0 <= v < names.len() && names[v] == x;
        committee::lemma_stake_needs_member(committee.authorities@, votes[v].0@);
        let m = choose|m: int|
            0 <= m < committee.authorities@.len() && committee.authorities@[m].name@ == x;
        assert(members[m] == x);
    }
    names.unique_seq_to_set();
    assert(members.no_duplicates()) by {
        assert forall|a: int, b: int|
            0 <= a < members.len() && 0 <= b < members.len() && a != b implies members[a]
            != members[b] by {
            assert(members[a] == committee.authorities@[a].name@);
            assert(members[b] == committee.authorities@[b].name@);
        }
    }
    members.unique_seq_to_set();
    vstd::seq_lib::seq_to_set_is_finite(names);
    vstd::seq_lib::seq_to_set_is_finite(members);
    if votes.len() == committee.authorities@.len() {
        vstd::set_lib::lemma_subset_equality(names.to_set(), members.to_set());
        assert forall|i: int| 0 <= i < committee.authorities@.len() implies names.contains(
            (#[trigger] committee.authorities@[i]).name@,
        ) by {
            assert(members.to_set().contains(members[i]));
            assert(names.to_set().contains(members[i]));
        }
    }
    if all_voted(committee, votes) {
        assert forall|x: Seq<u8>| members.to_set().contains(x) implies names.to_set().contains(
            x,
        ) by {
            let m = choose|m: int| 0 <= m < members.len() && members[m] == x;
            assert(names.contains(committee.authorities@[m].name@));
        }
        assert(names.to_set() =~= members.to_set());
    }
}

/// Once all nodes have voted, and all have stake, the votes of the nodes make an availability
/// proof that passes the check, whoever else voted.
pub proof fn law_availability_proof_passes(
    committee: &Committee,
    votes: Seq<(PublicKey, Signature)>,
)
    requires
        committee.wf(),
        forall|i: int|
            0 <= i < committee.authorities@.len() ==> committee.stake_of(
                (#[trigger] committee.authorities@[i]).name,
            ) > 0,
        voters(votes).no_duplicates(),
        all_voted(committee, votes),
    ensures
        availability_verdict(committee, member_votes(committee, votes), true) == Ok::<
            (),
            MempoolError,
        >(()),
{
    let kept = member_votes(committee, votes);
    lemma_member_votes(committee, votes);
    assert forall|i: int| 0 <= i < kept.len() implies committee.stake_of((#[trigger] kept[i]).0)
        > 0 by {
        assert(voters(kept).contains(voters(kept)[i]));
        committee::lemma_place(committee.authorities@, kept[i].0@);
        let m = committee.place_of(kept[i].0)->0 as int;
        assert(committee.stake_of(committee.authorities@[m].name) > 0);
    }
    assert forall|i: int| 0 <= i < committee.authorities@.len() implies voters(kept).contains(
        (#[trigger] committee.authorities@[i]).name@,
    ) by {
        committee::lemma_place_of_member(committee.authorities@, i);
    }
    lemma_all_voted_count(committee, kept);
    lemma_faultless(committee, kept);
}

/// An availability proof that passes the check has the vote of every node.
pub proof fn law_availability_proof_is_full(
    committee: &Committee,
    votes: Seq<(PublicKey, Signature)>,
    i: int,
)
    requires
        committee.wf(),
        availability_verdict(committee, votes, true) == Ok::<(), MempoolError>(()),
        0 <= i < committee.authorities@.len(),
    ensures
        voters(votes).contains(committee.authorities@[i].name@),
{
    lemma_faultless(committee, votes);
    lemma_all_voted_count(committee, votes);
    assert(voters(votes).contains(committee.authorities@[i].name@));
}

proof fn lemma_sum_of_both(committee: &Committee, a: Seq<Seq<u8>>, b: Seq<Seq<u8>>)
    ensures
        committee::stake_sum(committee.authorities@, a + b) == committee::stake_sum(
            committee.authorities@,
            a,
        ) + committee::stake_sum(committee.authorities@, b),
    decreases b.len(),
{
    if b.len() == 0 {
        assert(a + b =~= a);
    } else {
        assert((a + b).drop_last() =~= a + b.drop_last());
        lemma_sum_of_both(committee, a, b.drop_last());
    }
}

/// Where a quorum has more than half of the stake, any two certificates that pass the check have
/// a voter in common.
pub proof fn law_certificates_share_a_voter(
    committee: &Committee,
    a: Seq<(PublicKey, Signature)>,
    b: Seq<(PublicKey, Signature)>,
)
    requires
        committee.wf(),
        2 * committee.quorum > committee::total_stake(committee.authorities@),
        certificate_verdict(committee, a, true) == Ok::<(), MempoolError>(()),
        certificate_verdict(committee, b, true) == Ok::<(), MempoolError>(()),
    ensures
        exists|name: Seq<u8>| #[trigger] voters(a).contains(name) && voters(b).contains(name),
{
    lemma_faultless(committee, a);
    lemma_faultless(committee, b);
    let (first, second) = (voters(a), voters(b));
    if !exists|name: Seq<u8>| #[trigger] first.contains(name) && second.contains(name) {
        let both = first + second;
        assert forall|i: int, j: int|
            0 <= i < both.len() && 0 <= j < both.len() && i != j implies both[i] != both[j] by {
            if i < first.len() {
                assert(first.contains(first[i]));
            } else {
                assert(second.contains(second[i - first.len()]));
            }
            if j < first.len() {
                assert(first.contains(first[j]));
            } else {
                assert(second.contains(second[j - first.len()]));
            }
        }
        committee::lemma_sum_bounded(committee.authorities@, both);
        lemma_sum_of_both(committee, first, second);
    }
}

/// The votes for the batches of one node.
#[derive(Debug)]
pub struct AggregatorService {
    name: PublicKey,
    committee: Committee,
    aggregators: Table<Aggregator>,
}

/// What a vote leads to: a certificate, to be handed on and sent to all other nodes, and a proof
/// of availability, to be sent to all nodes.
pub type Collected = (Option<BatchCertificate>, Option<FullAvailabilityProof>);

impl AggregatorService {
    /// The node whose batches these are.
    pub closed spec fn owner(&self) -> PublicKey {
        self.name
    }

    /// The committee.
    pub closed spec fn members(&self) -> Committee {
        self.committee
    }

    /// The batches for which votes are collected, by their roots.
    pub closed spec fn open_batches(&self) -> Map<Seq<u8>, Aggregator> {
        self.aggregators@
    }

    /// The votes of every batch are by distinct members of the committee.
    pub closed spec fn wf(&self) -> bool {
        &&& self.aggregators.wf()
        &&& self.committee.wf()
        &&& forall|root: Seq<u8>| #[trigger]
            self.aggregators@.contains_key(root) ==> self.sound(self.aggregators@[root])
    }

    /// The votes of a batch of this node.
    pub closed spec fn sound(&self, aggregator: Aggregator) -> bool {
        &&& aggregator.wf(&self.committee)
        &&& aggregator.author == self.name
        &&& all_known(&self.committee, aggregator.votes@)
        &&& self.committee.authorities@.len() > 0 ==> !all_voted(&self.committee, aggregator.votes@)
    }

    /// The votes of every open batch are by distinct members of the committee, their stake is
    /// counted, and some member has not voted.
    pub proof fn law_open_batches_are_sound(&self, root: Seq<u8>)
        requires
            self.wf(),
            self.open_batches().contains_key(root),
        ensures
            self.members().wf(),
            self.open_batches()[root].wf(&self.members()),
            self.open_batches()[root].author == self.owner(),
            all_known(&self.members(), self.open_batches()[root].votes@),
            self.members().authorities@.len() > 0 ==> !all_voted(
                &self.members(),
                self.open_batches()[root].votes@,
            ),
    {
    }

    /// A service that tracks no batch yet.
    pub fn new(name: PublicKey, committee: Committee) -> (service: AggregatorService)
        requires
            committee.wf(),
        ensures
            service.wf(),
            service.owner() == name,
            service.members() == committee,
            service.open_batches() == Map::<Seq<u8>, Aggregator>::empty(),
    {
        AggregatorService { name, committee, aggregators: Table::new() }
    }

    /// What becomes of the announcement of a batch.
    pub open spec fn tracks(&self, root: Seq<u8>, after: &AggregatorService) -> bool {
        &&& after.owner() == self.owner()
        &&& after.members() == self.members()
        &&& after.open_batches() == self.open_batches().insert(root, after.open_batches()[root])
        &&& after.open_batches()[root].votes@ == Seq::<(PublicKey, Signature)>::empty()
        &&& after.open_batches()[root].author == self.owner()
        &&& !after.open_batches()[root].certificate_emitted
    }

    /// Starts to collect votes for a batch. Votes that were collected for it before are dropped.
    pub fn track(&mut self, root: &Digest)
        requires
            old(self).wf(),
        ensures
            final(self).wf(),
            old(self).tracks(root@, final(self)),
    {
        let aggregator = Aggregator::new(self.name);
        assert(aggregator.wf(&self.committee));
        assert(self.committee.authorities@.len() > 0 ==> !all_voted(
            &self.committee,
            aggregator.votes@,
        )) by {
            if self.committee.authorities@.len() > 0 {
                assert(!voters(aggregator.votes@).contains(self.committee.authorities@[0].name@));
            }
        }
        let ghost before = self.aggregators@;
        self.aggregators.insert(root.to_vec(), aggregator);
        assert(before.insert(root@, aggregator) =~= self.aggregators@);
    }

    /// What becomes of a vote, given whether its signature is the author's.
    pub open spec fn collects(
        &self,
        vote: &BatchVote,
        signature_valid: bool,
        outcome: &MempoolResult<Collected>,
        after: &AggregatorService,
    ) -> bool {
        let root = vote.root@;
        let committee = self.members();
        &&& after.owner() == self.owner()
        &&& after.members() == self.members()
        &&& match vote.verdict(&committee, signature_valid) {
            Err(error) => {
                &&& *outcome == Err::<Collected, MempoolError>(error)
                &&& after.open_batches() == self.open_batches()
            },
            Ok(()) => if !self.open_batches().contains_key(root) {
                &&& *outcome == Ok::<Collected, MempoolError>((None, None))
                &&& after.open_batches() == self.open_batches()
            } else if voters(self.open_batches()[root].votes@).contains(vote.author@) {
                &&& *outcome == Err::<Collected, MempoolError>(
                    MempoolError::AuthorityReuse(vote.author),
                )
                &&& after.open_batches() == self.open_batches()
            } else {
                let votes = self.open_batches()[root].votes@.push((vote.author, vote.signature));
                let enough = votes_weight(&committee, votes) >= committee.quorum;
                let complete = all_voted(&committee, votes);
                &&& match outcome {
                    Err(_) => false,
                    Ok((certificate, availability)) => {
                        &&& certificate is Some <==> enough
                            && !self.open_batches()[root].certificate_emitted
                        &&& certificate matches Some(certificate) ==> {
                            &&& certificate.root == vote.root
                            &&& certificate.author == self.owner()
                            &&& certificate.votes@ == votes
                            &&& certificate_verdict(&committee, votes, true) == Ok::<
                                (),
                                MempoolError,
                            >(())
                        }
                        &&& availability is Some <==> complete
                        &&& availability matches Some(availability) ==> {
                            &&& availability.root == vote.root
                            &&& availability.author == self.owner()
                            &&& availability.votes@ == votes
                            &&& availability_verdict(&committee, votes, true) == Ok::<
                                (),
                                MempoolError,
                            >(())
                        }
                    },
                }
                &&& if complete {
                    after.open_batches() == self.open_batches().remove(root)
                } else {
                    &&& after.open_batches() == self.open_batches().insert(
                        root,
                        after.open_batches()[root],
                    )
                    &&& after.open_batches()[root].votes@ == votes
                    &&& after.open_batches()[root].certificate_emitted == enough
                }
            },
        }
    }

    /// Takes in a vote, given whether its signature is the author's. Votes that fail the check,
    /// votes by an author who voted before, and votes for batches that are not open change
    /// nothing. A batch for which all nodes have voted is closed.
    pub fn on_checked_vote(&mut self, vote: &BatchVote, signature_valid: bool) -> (outcome:
        MempoolResult<Collected>)
        requires
            old(self).wf(),
        ensures
            final(self).wf(),
            old(self).collects(vote, signature_valid, &outcome, final(self)),
    {
        match vote.verify_with(&self.committee, signature_valid) {
            Err(error) => {
                return Err(error);
            },
            Ok(()) => {},
        }
        let ghost before = self.aggregators@;
        let mut aggregator = match self.aggregators.remove(&vote.root.0) {
            Some(aggregator) => aggregator,
            None => {
                assert(self.aggregators@ =~= before);
                return Ok((None, None));
            },
        };
        let ghost collected = aggregator;
        assert(self.sound(collected));
        match aggregator.append(vote.root, vote.signature, vote.author, &self.committee) {
            Err(error) => {
                self.aggregators.insert(vote.root.to_vec(), aggregator);
                assert(self.aggregators@ =~= before);
                Err(error)
            },
            Ok((certificate, availability)) => {
                let ghost votes = aggregator.votes@;
                assert(all_known(&self.committee, votes));
                proof {
                    lemma_faultless(&self.committee, votes);
                    lemma_all_voted_count(&self.committee, votes);
                    lemma_known_are_members(&self.committee, votes);
                    committee::lemma_stake_needs_member(
                        self.committee.authorities@,
                        vote.author@,
                    );
                }
                if availability.is_none() {
                    self.aggregators.insert(vote.root.to_vec(), aggregator);
                    assert(self.aggregators@ =~= before.insert(vote.root@, aggregator));
                }
                Ok((certificate, availability))
            },
        }
    }

    /// Takes in a vote, after its signature is checked.
    pub fn on_vote(&mut self, vote: &BatchVote) -> (outcome: MempoolResult<Collected>)
        requires
            old(self).wf(),
        ensures
            final(self).wf(),
            old(self).collects(
                vote,
                crypto::signature_accepted(vote.root@, vote.author@, vote.signature@),
                &outcome,
                final(self),
            ),
    {
        let signature_valid = vote.signature.verify(&vote.root, &vote.author);
        self.on_checked_vote(vote, signature_valid)
    }
}

} // verus!
