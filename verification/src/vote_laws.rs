//! What checking and collecting votes for batches comes to, in terms of the voters and their
//! stake alone.

use vstd::prelude::*;
use crate::aggregator::{
    self, Aggregator, AggregatorService, BatchCertificate, Collected, FullAvailabilityProof,
};
use crate::committee::{self, Authority, Committee};
use crate::committee_laws;
use crate::crypto::{self, Digest, PublicKey, Signature};
use crate::error::{MempoolError, MempoolResult};
use crate::voter::BatchVote;

verus! {

/// Some authority has the name.
pub open spec fn is_member(authorities: Seq<Authority>, name: Seq<u8>) -> bool {
    exists|i: int| 0 <= i < authorities.len() && (#[trigger] authorities[i]).name.0@ == name
}

/// The stake that is listed with a name, none for a stranger.
pub open spec fn listed_stake(authorities: Seq<Authority>, name: Seq<u8>) -> int {
    if is_member(authorities, name) {
        let i = choose|i: int|
            0 <= i < authorities.len() && (#[trigger] authorities[i]).name.0@ == name;
        authorities[i].stake as int
    } else {
        0
    }
}

/// The stake that is listed with the names of all voters, added up.
pub open spec fn listed_weight(
    authorities: Seq<Authority>,
    votes: Seq<(PublicKey, Signature)>,
) -> int {
    votes.fold_left(
        0int,
        |sum: int, vote: (PublicKey, Signature)| sum + listed_stake(authorities, vote.0.0@),
    )
}

/// Nobody voted twice.
pub open spec fn nobody_twice(votes: Seq<(PublicKey, Signature)>) -> bool {
    forall|i: int, j: int|
        0 <= i < votes.len() && 0 <= j < votes.len() && i != j ==> (#[trigger] votes[i]).0.0@ != (
        #[trigger] votes[j]).0.0@
}

/// Every voter has stake.
pub open spec fn nobody_strange(
    authorities: Seq<Authority>,
    votes: Seq<(PublicKey, Signature)>,
) -> bool {
    forall|i: int|
        0 <= i < votes.len() ==> listed_stake(authorities, (#[trigger] votes[i]).0.0@) > 0
}

/// Somebody of the name voted.
pub open spec fn has_voted(votes: Seq<(PublicKey, Signature)>, name: Seq<u8>) -> bool {
    exists|i: int| 0 <= i < votes.len() && (#[trigger] votes[i]).0.0@ == name
}

/// The stake of a name is the one that is listed with it.
pub proof fn lemma_listed_stake(authorities: Seq<Authority>, name: Seq<u8>)
    requires
        committee_laws::all_differ(authorities),
    ensures
        committee::stake_among(authorities, name) == listed_stake(authorities, name),
{
    committee_laws::lemma_stake_among(authorities, name);
    if is_member(authorities, name) {
        let i = choose|i: int|
            0 <= i < authorities.len() && (#[trigger] authorities[i]).name.0@ == name;
        assert(authorities[i].name@ == name);
    } else {
        assert forall|i: int| 0 <= i < authorities.len() implies (#[trigger] authorities[i]).name@
            != name by {
            assert(authorities[i].name.0@ != name);
        }
    }
}

proof fn lemma_listed_weight(committee: &Committee, votes: Seq<(PublicKey, Signature)>)
    requires
        committee_laws::all_differ(committee.authorities@),
    ensures
        aggregator::votes_weight(committee, votes) == listed_weight(committee.authorities@, votes),
    decreases votes.len(),
{
    let names = aggregator::voters(votes);
    if votes.len() > 0 {
        lemma_listed_weight(committee, votes.drop_last());
        assert(names.drop_last() =~= aggregator::voters(votes.drop_last()));
        assert(names.last() == votes.last().0.0@);
        lemma_listed_stake(committee.authorities@, votes.last().0.0@);
    }
}

/// What the check of a list of voters finds, in the terms of this module.
proof fn lemma_votes_fault(committee: &Committee, votes: Seq<(PublicKey, Signature)>)
    requires
        committee_laws::all_differ(committee.authorities@),
    ensures
        aggregator::votes_fault(committee, votes) is None <==> nobody_twice(votes)
            && nobody_strange(committee.authorities@, votes),
        match aggregator::votes_fault(committee, votes) {
            None => true,
            Some(MempoolError::AuthorityReuse(name)) => exists|i: int, j: int|
                0 <= i < j < votes.len() && #[trigger] votes[i].0.0@ == name.0@ && #[trigger]
                    votes[j].0.0@ == name.0@,
            Some(MempoolError::UnknownAuthority(name)) => listed_stake(
                committee.authorities@,
                name.0@,
            ) == 0 && has_voted(votes, name.0@),
            Some(_) => false,
        },
    decreases votes.len(),
{
    if votes.len() > 0 {
        let front = votes.drop_last();
        let last = votes.last();
        lemma_votes_fault(committee, front);
        lemma_listed_stake(committee.authorities@, last.0.0@);
        assert(votes[votes.len() - 1] == last);
        let names = aggregator::voters(front);
        match aggregator::votes_fault(committee, front) {
            Some(MempoolError::AuthorityReuse(name)) => {
                let (i, j) = choose|i: int, j: int|
                    0 <= i < j < front.len() && #[trigger] front[i].0.0@ == name.0@ && #[trigger]
                        front[j].0.0@ == name.0@;
                assert(votes[i].0.0@ == name.0@ && votes[j].0.0@ == name.0@);
                assert(!nobody_twice(votes));
            },
            Some(MempoolError::UnknownAuthority(name)) => {
                let i = choose|i: int|
                    0 <= i < front.len() && (#[trigger] front[i]).0.0@ == name.0@;
                assert(votes[i].0.0@ == name.0@);
                assert(!nobody_strange(committee.authorities@, votes));
            },
            Some(_) => {},
            None => {
                if names.contains(last.0@) {
                    let i = choose|i: int| 0 <= i < names.len() && names[i] == last.0@;
                    assert(votes[i].0.0@ == last.0.0@);
                    assert(votes[votes.len() - 1].0.0@ == last.0.0@);
                    assert(!nobody_twice(votes));
                } else {
                    assert forall|i: int, j: int|
                        0 <= i < votes.len() && 0 <= j < votes.len() && i != j implies (
                    #[trigger] votes[i]).0.0@ != (#[trigger] votes[j]).0.0@ by {
                        if i < front.len() && j < front.len() {
                            assert(front[i] == votes[i] && front[j] == votes[j]);
                        } else if i < front.len() {
                            assert(names[i] == votes[i].0.0@);
                            assert(names.contains(names[i]));
                        } else {
                            assert(names[j] == votes[j].0.0@);
                            assert(names.contains(names[j]));
                        }
                    }
                    if committee.stake_of(last.0) > 0 {
                        assert forall|i: int| 0 <= i < votes.len() implies listed_stake(
                            committee.authorities@,
                            (#[trigger] votes[i]).0.0@,
                        ) > 0 by {
                            if i < front.len() {
                                assert(front[i] == votes[i]);
                            }
                        }
                    } else {
                        assert(listed_stake(
                            committee.authorities@,
                            votes[votes.len() - 1].0.0@,
                        ) == 0);
                        assert(votes[votes.len() - 1].0.0@ == last.0.0@);
                    }
                }
            },
        }
    }
}

/// A vote passes exactly if its author has stake and the signature is the author's.
pub proof fn law_votes_need_stake_and_a_signature(
    vote: &BatchVote,
    committee: &Committee,
    signature_valid: bool,
    outcome: MempoolResult<()>,
)
    requires
        call_ensures(BatchVote::verify_with, (vote, committee, signature_valid), outcome),
        committee_laws::all_differ(committee.authorities@),
    ensures
        outcome is Ok <==> listed_stake(committee.authorities@, vote.author.0@) > 0
            && signature_valid,
        listed_stake(committee.authorities@, vote.author.0@) == 0 ==> outcome == Err::<
            (),
            MempoolError,
        >(MempoolError::UnknownAuthority(vote.author)),
        listed_stake(committee.authorities@, vote.author.0@) > 0 && !signature_valid ==> outcome
            == Err::<(), MempoolError>(MempoolError::InvalidSignature),
        forall|checked: MempoolResult<()>| #[trigger]
            call_ensures(BatchVote::verify, (vote, committee), checked) && signature_valid
                == crypto::signature_accepted(
                vote.root.0@,
                vote.author.0@,
                vote.signature.part1@ + vote.signature.part2@,
            ) ==> checked == outcome,
{
    lemma_listed_stake(committee.authorities@, vote.author.0@);
}

/// A certificate passes exactly if nobody voted twice, all voters have stake, their stake adds up
/// to the quorum, and the signatures are theirs; and each fault is one of these.
pub proof fn law_certificates_need_a_quorum(
    certificate: &BatchCertificate,
    committee: &Committee,
    signatures_valid: bool,
    outcome: MempoolResult<()>,
)
    requires
        call_ensures(
            BatchCertificate::verify_with,
            (certificate, committee, signatures_valid),
            outcome,
        ),
        committee_laws::all_differ(committee.authorities@),
    ensures
        outcome is Ok <==> {
            &&& nobody_twice(certificate.votes@)
            &&& nobody_strange(committee.authorities@, certificate.votes@)
            &&& listed_weight(committee.authorities@, certificate.votes@) >= committee.quorum
            &&& signatures_valid
        },
        match outcome {
            Ok(_) => true,
            Err(MempoolError::AuthorityReuse(name)) => has_voted(certificate.votes@, name.0@)
                && !nobody_twice(certificate.votes@),
            Err(MempoolError::UnknownAuthority(name)) => has_voted(certificate.votes@, name.0@)
                && listed_stake(committee.authorities@, name.0@) == 0,
            Err(MempoolError::CertificateRequiresQuorum) => {
                &&& nobody_twice(certificate.votes@)
                &&& nobody_strange(committee.authorities@, certificate.votes@)
                &&& listed_weight(committee.authorities@, certificate.votes@) < committee.quorum
            },
            Err(MempoolError::InvalidSignature) => {
                &&& nobody_twice(certificate.votes@)
                &&& nobody_strange(committee.authorities@, certificate.votes@)
                &&& listed_weight(committee.authorities@, certificate.votes@) >= committee.quorum
                &&& !signatures_valid
            },
            Err(_) => false,
        },
        aggregator::certificate_verdict(committee, certificate.votes@, signatures_valid) == Ok::<
            (),
            MempoolError,
        >(()) ==> aggregator::votes_weight(committee, certificate.votes@) >= committee.quorum,
{
    lemma_votes_fault(committee, certificate.votes@);
    lemma_listed_weight(committee, certificate.votes@);
    if let Err(MempoolError::AuthorityReuse(name)) = outcome {
        let (i, j) = choose|i: int, j: int|
            0 <= i < j < certificate.votes@.len() && #[trigger] certificate.votes@[i].0.0@
                == name.0@ && #[trigger] certificate.votes@[j].0.0@ == name.0@;
        assert(certificate.votes@[i].0.0@ == certificate.votes@[j].0.0@);
    }
}

/// An availability proof passes exactly if every node voted once and nobody else did, all have
/// stake, and the signatures are theirs; and each fault is one of these.
pub proof fn law_availability_proofs_need_all_nodes(
    availability: &FullAvailabilityProof,
    committee: &Committee,
    signatures_valid: bool,
    outcome: MempoolResult<()>,
)
    requires
        call_ensures(
            FullAvailabilityProof::verify_with,
            (availability, committee, signatures_valid),
            outcome,
        ),
        committee.wf(),
        committee_laws::all_differ(committee.authorities@),
    ensures
        outcome is Ok <==> {
            &&& nobody_twice(availability.votes@)
            &&& nobody_strange(committee.authorities@, availability.votes@)
            &&& availability.votes@.len() == committee.authorities@.len()
            &&& signatures_valid
        },
        outcome is Ok ==> forall|i: int|
            0 <= i < committee.authorities@.len() ==> has_voted(
                availability.votes@,
                (#[trigger] committee.authorities@[i]).name.0@,
            ),
        match outcome {
            Ok(_) => true,
            Err(MempoolError::AuthorityReuse(name)) => has_voted(availability.votes@, name.0@)
                && !nobody_twice(availability.votes@),
            Err(MempoolError::UnknownAuthority(name)) => has_voted(availability.votes@, name.0@)
                && listed_stake(committee.authorities@, name.0@) == 0,
            Err(MempoolError::CertificateRequiresQuorum) => availability.votes@.len()
                != committee.authorities@.len(),
            Err(MempoolError::InvalidSignature) => !signatures_valid && availability.votes@.len()
                == committee.authorities@.len(),
            Err(_) => false,
        },
{
    lemma_votes_fault(committee, availability.votes@);
    if outcome is Ok {
        assert forall|i: int| 0 <= i < committee.authorities@.len() implies has_voted(
            availability.votes@,
            (#[trigger] committee.authorities@[i]).name.0@,
        ) by {
            aggregator::law_availability_proof_is_full(committee, availability.votes@, i);
            let names = aggregator::voters(availability.votes@);
            let v = choose|v: int|
                0 <= v < names.len() && names[v] == committee.authorities@[i].name@;
            assert(availability.votes@[v].0.0@ == committee.authorities@[i].name.0@);
        }
    }
    if let Err(MempoolError::AuthorityReuse(name)) = outcome {
        let (i, j) = choose|i: int, j: int|
            0 <= i < j < availability.votes@.len() && #[trigger] availability.votes@[i].0.0@
                == name.0@ && #[trigger] availability.votes@[j].0.0@ == name.0@;
        assert(availability.votes@[i].0.0@ == availability.votes@[j].0.0@);
    }
}

/// The whole check finds what the check with the verdict on the signatures finds, and takes all
/// votes that were made with the secrets of the voters over the root.
pub proof fn law_genuine_votes_pass(
    certificate: &BatchCertificate,
    availability: &FullAvailabilityProof,
    committee: &Committee,
    known: MempoolResult<()>,
    unknown: MempoolResult<()>,
    outcome: MempoolResult<()>,
    all_known: MempoolResult<()>,
    not_all_known: MempoolResult<()>,
    all_outcome: MempoolResult<()>,
)
    requires
        call_ensures(BatchCertificate::verify_with, (certificate, committee, true), known),
        call_ensures(BatchCertificate::verify_with, (certificate, committee, false), unknown),
        call_ensures(BatchCertificate::verify, (certificate, committee), outcome),
        call_ensures(
            FullAvailabilityProof::verify_with,
            (availability, committee, true),
            all_known,
        ),
        call_ensures(
            FullAvailabilityProof::verify_with,
            (availability, committee, false),
            not_all_known,
        ),
        call_ensures(FullAvailabilityProof::verify, (availability, committee), all_outcome),
    ensures
        outcome == known || outcome == unknown,
        (forall|i: int|
            0 <= i < certificate.votes@.len() ==> made_by(
                certificate.root.0@,
                #[trigger] certificate.votes@[i],
            )) ==> outcome == known,
        all_outcome == all_known || all_outcome == not_all_known,
        (forall|i: int|
            0 <= i < availability.votes@.len() ==> made_by(
                availability.root.0@,
                #[trigger] availability.votes@[i],
            )) ==> all_outcome == all_known,
{
    if forall|i: int|
        0 <= i < certificate.votes@.len() ==> made_by(
            certificate.root.0@,
            #[trigger] certificate.votes@[i],
        ) {
        lemma_made_by(certificate.root.0@, certificate.votes@);
    }
    if forall|i: int|
        0 <= i < availability.votes@.len() ==> made_by(
            availability.root.0@,
            #[trigger] availability.votes@[i],
        ) {
        lemma_made_by(availability.root.0@, availability.votes@);
    }
}

/// The vote was made over the message with the secret of the voter.
pub open spec fn made_by(message: Seq<u8>, vote: (PublicKey, Signature)) -> bool {
    exists|secret: Seq<u8>|
        {
            &&& secret.len() == 32
            &&& vote.0.0@ == #[trigger] crypto::public_key_of(secret)
            &&& vote.1.part1@ + vote.1.part2@ == crypto::signature_by(secret, message)
        }
}

/// Votes that were made with the secrets of the voters are genuine.
pub proof fn lemma_made_by(message: Seq<u8>, votes: Seq<(PublicKey, Signature)>)
    requires
        forall|i: int| 0 <= i < votes.len() ==> made_by(message, #[trigger] votes[i]),
    ensures
        crypto::all_genuine(message, votes),
{
    assert forall|i: int| 0 <= i < votes.len() implies crypto::genuine(
        message,
        (#[trigger] votes[i]).0@,
        votes[i].1@,
    ) by {
        assert(made_by(message, votes[i]));
    }
}

/// What collecting one more vote comes to. A vote by somebody who voted before is refused and
/// changes nothing. Any other is added, and gives a certificate with all votes exactly if with it,
/// and not without it, the stake of the voters reaches the quorum; and an availability proof
/// exactly if with it, and not without it, all nodes have voted.
pub proof fn law_one_more_vote(
    root: Digest,
    signature: Signature,
    author: PublicKey,
    committee: &Committee,
)
    requires
        committee_laws::all_differ(committee.authorities@),
    ensures
        forall|
            votes: &mut Aggregator,
            outcome: MempoolResult<(Option<BatchCertificate>, Option<FullAvailabilityProof>)>,
        |
            {
                &&& #[trigger] call_ensures(
                    Aggregator::append,
                    (votes, root, signature, author, committee),
                    outcome,
                )
                &&& nobody_twice(votes.votes@)
            } ==> {
                &&& outcome is Err <==> has_voted(votes.votes@, author.0@)
                &&& outcome is Err ==> outcome->Err_0 == MempoolError::AuthorityReuse(author)
                    && *final(votes) == *votes
                &&& outcome is Ok ==> {
                    let (certificate, availability) = outcome->Ok_0;
                    let (before, after) = (votes.votes@, final(votes).votes@);
                    let (less, more) = (
                        listed_weight(committee.authorities@, before),
                        listed_weight(committee.authorities@, after),
                    );
                    &&& after.len() == before.len() + 1
                    &&& forall|i: int| 0 <= i < before.len() ==> #[trigger] after[i] == before[i]
                    &&& after.last() == (author, signature)
                    &&& final(votes).author == votes.author
                    &&& certificate is Some <==> more >= committee.quorum && (before.len() == 0
                        || less < committee.quorum)
                    &&& certificate is Some ==> {
                        &&& certificate->0.root == root
                        &&& certificate->0.author == votes.author
                        &&& certificate->0.votes@ == after
                    }
                    &&& availability is Some <==> all_of(committee.authorities@, after)
                        && !all_of(committee.authorities@, before)
                    &&& availability is Some ==> {
                        &&& availability->0.root == root
                        &&& availability->0.author == votes.author
                        &&& forall|name: Seq<u8>| #[trigger]
                            has_voted(availability->0.votes@, name) <==> has_voted(after, name)
                                && is_member(committee.authorities@, name)
                        &&& nobody_twice(availability->0.votes@)
                        &&& forall|i: int|
                            0 <= i < availability->0.votes@.len() ==> after.contains(
                                #[trigger] availability->0.votes@[i],
                            )
                    }
                }
            },
{
    assert forall|
        votes: &mut Aggregator,
        outcome: MempoolResult<(Option<BatchCertificate>, Option<FullAvailabilityProof>)>,
    |
        {
            &&& #[trigger] call_ensures(
                Aggregator::append,
                (votes, root, signature, author, committee),
                outcome,
            )
            &&& nobody_twice(votes.votes@)
        } implies {
        &&& outcome is Err <==> has_voted(votes.votes@, author.0@)
        &&& outcome is Err ==> outcome->Err_0 == MempoolError::AuthorityReuse(author)
            && *final(votes) == *votes
        &&& outcome is Ok ==> {
            let (certificate, availability) = outcome->Ok_0;
            let (before, after) = (votes.votes@, final(votes).votes@);
            let (less, more) = (
                listed_weight(committee.authorities@, before),
                listed_weight(committee.authorities@, after),
            );
            &&& after.len() == before.len() + 1
            &&& forall|i: int| 0 <= i < before.len() ==> #[trigger] after[i] == before[i]
            &&& after.last() == (author, signature)
            &&& final(votes).author == votes.author
            &&& certificate is Some <==> more >= committee.quorum && (before.len() == 0 || less
                < committee.quorum)
            &&& certificate is Some ==> {
                &&& certificate->0.root == root
                &&& certificate->0.author == votes.author
                &&& certificate->0.votes@ == after
            }
            &&& availability is Some <==> all_of(committee.authorities@, after) && !all_of(
                committee.authorities@,
                before,
            )
            &&& availability is Some ==> {
                &&& availability->0.root == root
                &&& availability->0.author == votes.author
                &&& forall|name: Seq<u8>| #[trigger]
                    has_voted(availability->0.votes@, name) <==> has_voted(after, name)
                        && is_member(committee.authorities@, name)
                &&& nobody_twice(availability->0.votes@)
                &&& forall|i: int|
                    0 <= i < availability->0.votes@.len() ==> after.contains(
                        #[trigger] availability->0.votes@[i],
                    )
            }
        }
    } by {
        let (before, after) = (votes.votes@, final(votes).votes@);
        lemma_has_voted(before, author.0@);
        if outcome is Ok {
            assert(after =~= before.push((author, signature)));
            lemma_listed_weight(committee, before);
            lemma_listed_weight(committee, after);
            assert(after.take(before.len() as int) =~= before);
            assert(after.take((before.len() + 1) as int) =~= after);
            lemma_all_of(committee, before);
            lemma_all_of(committee, after);
            lemma_members(committee, after);
            assert(nobody_twice(after)) by {
                assert forall|i: int, j: int|
                    0 <= i < after.len() && 0 <= j < after.len() && i != j implies (
                #[trigger] after[i]).0.0@ != (#[trigger] after[j]).0.0@ by {
                    if i < before.len() {
                        assert(after[i] == before[i]);
                    }
                    if j < before.len() {
                        assert(after[j] == before[j]);
                    }
                }
            }
        }
    }
}

/// All authorities have voted.
pub open spec fn all_of(authorities: Seq<Authority>, votes: Seq<(PublicKey, Signature)>) -> bool {
    forall|i: int|
        0 <= i < authorities.len() ==> has_voted(votes, (#[trigger] authorities[i]).name.0@)
}

proof fn lemma_has_voted(votes: Seq<(PublicKey, Signature)>, name: Seq<u8>)
    ensures
        has_voted(votes, name) <==> aggregator::voters(votes).contains(name),
{
    let names = aggregator::voters(votes);
    if has_voted(votes, name) {
        let i = choose|i: int| 0 <= i < votes.len() && (#[trigger] votes[i]).0.0@ == name;
        assert(names[i] == name);
    }
    if names.contains(name) {
        let i = choose|i: int| 0 <= i < names.len() && names[i] == name;
        assert(votes[i].0.0@ == name);
    }
}

proof fn lemma_all_of(committee: &Committee, votes: Seq<(PublicKey, Signature)>)
    ensures
        all_of(committee.authorities@, votes) <==> aggregator::all_voted(committee, votes),
{
    let authorities = committee.authorities@;
    assert forall|i: int| 0 <= i < authorities.len() implies (has_voted(
        votes,
        (#[trigger] authorities[i]).name.0@,
    ) <==> aggregator::voters(votes).contains(authorities[i].name@)) by {
        lemma_has_voted(votes, authorities[i].name.0@);
    }
    if all_of(authorities, votes) {
        assert forall|i: int| 0 <= i < authorities.len() implies aggregator::voters(
            votes,
        ).contains((#[trigger] authorities[i]).name@) by {
            assert(has_voted(votes, authorities[i].name.0@));
        }
    }
    if aggregator::all_voted(committee, votes) {
        assert forall|i: int| 0 <= i < authorities.len() implies has_voted(
            votes,
            (#[trigger] authorities[i]).name.0@,
        ) by {
            assert(aggregator::voters(votes).contains(authorities[i].name@));
        }
    }
}

/// The votes of the members are those of the list whose voters are members.
proof fn lemma_members(committee: &Committee, votes: Seq<(PublicKey, Signature)>)
    ensures
        forall|name: Seq<u8>| #[trigger]
            has_voted(aggregator::member_votes(committee, votes), name) <==> has_voted(votes, name)
                && is_member(committee.authorities@, name),
        nobody_twice(votes) ==> nobody_twice(aggregator::member_votes(committee, votes)),
        forall|i: int|
            0 <= i < aggregator::member_votes(committee, votes).len() ==> votes.contains(
                #[trigger] aggregator::member_votes(committee, votes)[i],
            ),
    decreases votes.len(),
{
    let kept = aggregator::member_votes(committee, votes);
    if votes.len() > 0 {
        let front = votes.drop_last();
        let last = votes.last();
        let rest = aggregator::member_votes(committee, front);
        lemma_members(committee, front);
        committee::lemma_place(committee.authorities@, last.0@);
        let place = committee.place_of(last.0);
        assert(place is Some <==> is_member(committee.authorities@, last.0.0@)) by {
            if place is Some {
                assert(committee.authorities@[place->0 as int].name.0@ == last.0.0@);
            }
        }
        assert forall|name: Seq<u8>| has_voted(votes, name) <==> has_voted(front, name) || name
            == last.0.0@ by {
            if has_voted(front, name) {
                let i = choose|i: int| 0 <= i < front.len() && (#[trigger] front[i]).0.0@ == name;
                assert(votes[i].0.0@ == name);
            }
            assert(votes[votes.len() - 1].0.0@ == last.0.0@);
            if has_voted(votes, name) {
                let i = choose|i: int| 0 <= i < votes.len() && (#[trigger] votes[i]).0.0@ == name;
                if i < front.len() {
                    assert(front[i].0.0@ == name);
                }
            }
        }
        if place is Some {
            assert forall|name: Seq<u8>| #[trigger] has_voted(kept, name) <==> has_voted(rest, name)
                || name == last.0.0@ by {
                if has_voted(rest, name) {
                    let i = choose|i: int|
                        0 <= i < rest.len() && (#[trigger] rest[i]).0.0@ == name;
                    assert(kept[i].0.0@ == name);
                }
                assert(kept[kept.len() - 1].0.0@ == last.0.0@);
                if has_voted(kept, name) {
                    let i = choose|i: int|
                        0 <= i < kept.len() && (#[trigger] kept[i]).0.0@ == name;
                    if i < rest.len() {
                        assert(rest[i].0.0@ == name);
                    }
                }
            }
        }
        if nobody_twice(votes) {
            assert(nobody_twice(front)) by {
                assert forall|i: int, j: int|
                    0 <= i < front.len() && 0 <= j < front.len() && i != j implies (
                #[trigger] front[i]).0.0@ != (#[trigger] front[j]).0.0@ by {
                    assert(front[i] == votes[i] && front[j] == votes[j]);
                }
            }
            assert(!has_voted(front, last.0.0@)) by {
                if has_voted(front, last.0.0@) {
                    let i = choose|i: int|
                        0 <= i < front.len() && (#[trigger] front[i]).0.0@ == last.0.0@;
                    assert(votes[i].0.0@ == votes[votes.len() - 1].0.0@);
                }
            }
            if place is Some {
                assert(!has_voted(rest, last.0.0@));
                assert forall|i: int, j: int|
                    0 <= i < kept.len() && 0 <= j < kept.len() && i != j implies (
                #[trigger] kept[i]).0.0@ != (#[trigger] kept[j]).0.0@ by {
                    if i < rest.len() {
                        assert(kept[i] == rest[i]);
                    }
                    if j < rest.len() {
                        assert(kept[j] == rest[j]);
                    }
                }
            }
        }
        assert forall|i: int| 0 <= i < kept.len() implies votes.contains(#[trigger] kept[i]) by {
            if i < rest.len() {
                assert(kept[i] == rest[i]);
                assert(front.contains(rest[i]));
                let j = choose|j: int| 0 <= j < front.len() && front[j] == rest[i];
                assert(votes[j] == kept[i]);
            } else {
                assert(votes[votes.len() - 1] == kept[i]);
            }
        }
    }
}

/// A vote for a batch that was not announced, or is complete, leads to nothing; one that fails its
/// check, or whose author voted before, is refused. A batch that was just announced has no votes.
pub proof fn law_only_open_batches_collect_votes(
    vote: &BatchVote,
    signature_valid: bool,
    root: &Digest,
)
    ensures
        forall|service: &mut AggregatorService, outcome: MempoolResult<Collected>|
            {
                &&& #[trigger] call_ensures(
                    AggregatorService::on_checked_vote,
                    (service, vote, signature_valid),
                    outcome,
                )
                &&& committee_laws::all_differ(service.members().authorities@)
            } ==> {
                let staked = listed_stake(service.members().authorities@, vote.author.0@) > 0;
                let open = service.open_batches().contains_key(vote.root.0@);
                let votes = service.open_batches()[vote.root.0@].votes@;
                &&& !staked ==> outcome == Err::<Collected, MempoolError>(
                    MempoolError::UnknownAuthority(vote.author),
                )
                &&& staked && !signature_valid ==> outcome == Err::<Collected, MempoolError>(
                    MempoolError::InvalidSignature,
                )
                &&& staked && signature_valid && !open ==> outcome == Ok::<
                    Collected,
                    MempoolError,
                >((None, None))
                &&& staked && signature_valid && open && has_voted(votes, vote.author.0@)
                    ==> outcome == Err::<Collected, MempoolError>(
                    MempoolError::AuthorityReuse(vote.author),
                )
                &&& !(staked && signature_valid && open && !has_voted(votes, vote.author.0@))
                    ==> final(service).open_batches() == service.open_batches()
                &&& staked && signature_valid && open && !has_voted(votes, vote.author.0@)
                    ==> outcome is Ok
                &&& forall|other: Seq<u8>|
                    other != vote.root.0@ ==> (#[trigger] final(
                        service).open_batches().contains_key(other)
                        <==> service.open_batches().contains_key(other))
                &&& final(service).members() == service.members()
                &&& final(service).owner() == service.owner()
            },
        forall|
            service: &mut AggregatorService,
            other: &mut AggregatorService,
            outcome: MempoolResult<Collected>,
            checked: MempoolResult<Collected>,
        |
            #![trigger call_ensures(AggregatorService::on_vote, (service, vote), outcome), call_ensures(AggregatorService::on_checked_vote, (other, vote, signature_valid), checked)]
            {
                &&& call_ensures(AggregatorService::on_vote, (service, vote), outcome)
                &&& call_ensures(
                    AggregatorService::on_checked_vote,
                    (other, vote, signature_valid),
                    checked,
                )
                &&& *service == *other
                &&& signature_valid == crypto::signature_accepted(
                    vote.root.0@,
                    vote.author.0@,
                    vote.signature.part1@ + vote.signature.part2@,
                )
            } ==> (outcome is Ok <==> checked is Ok) && (outcome is Err ==> outcome->Err_0
                == checked->Err_0) && (outcome is Ok ==> {
                &&& outcome->Ok_0.0 is Some <==> checked->Ok_0.0 is Some
                &&& outcome->Ok_0.1 is Some <==> checked->Ok_0.1 is Some
            }),
        forall|service: &mut AggregatorService| #[trigger]
            call_ensures(AggregatorService::track, (service, root), ()) ==> {
                &&& final(service).open_batches().contains_key(root.0@)
                &&& final(service).open_batches()[root.0@].votes@.len() == 0
                &&& forall|other: Seq<u8>|
                    other != root.0@ ==> (#[trigger] final(service).open_batches().contains_key(
                        other) <==> service.open_batches().contains_key(other))
                &&& forall|other: Seq<u8>|
                    other != root.0@ && service.open_batches().contains_key(other)
                        ==> #[trigger] final(service).open_batches()[other]
                        == service.open_batches()[other]
            },
{
    assert forall|service: &mut AggregatorService, outcome: MempoolResult<Collected>|
        {
            &&& #[trigger] call_ensures(
                AggregatorService::on_checked_vote,
                (service, vote, signature_valid),
                outcome,
            )
            &&& committee_laws::all_differ(service.members().authorities@)
        } implies {
        let staked = listed_stake(service.members().authorities@, vote.author.0@) > 0;
        let open = service.open_batches().contains_key(vote.root.0@);
        let votes = service.open_batches()[vote.root.0@].votes@;
        &&& !staked ==> outcome == Err::<Collected, MempoolError>(
            MempoolError::UnknownAuthority(vote.author),
        )
        &&& staked && !signature_valid ==> outcome == Err::<Collected, MempoolError>(
            MempoolError::InvalidSignature,
        )
        &&& staked && signature_valid && !open ==> outcome == Ok::<Collected, MempoolError>(
            (None, None),
        )
        &&& staked && signature_valid && open && has_voted(votes, vote.author.0@) ==> outcome
            == Err::<Collected, MempoolError>(MempoolError::AuthorityReuse(vote.author))
        &&& !(staked && signature_valid && open && !has_voted(votes, vote.author.0@)) ==> final(
            service).open_batches() == service.open_batches()
        &&& staked && signature_valid && open && !has_voted(votes, vote.author.0@)
            ==> outcome is Ok
        &&& forall|other: Seq<u8>|
            other != vote.root.0@ ==> (#[trigger] final(service).open_batches().contains_key(other)
                <==> service.open_batches().contains_key(other))
        &&& final(service).members() == service.members()
        &&& final(service).owner() == service.owner()
    } by {
        lemma_listed_stake(service.members().authorities@, vote.author.0@);
        lemma_has_voted(service.open_batches()[vote.root.0@].votes@, vote.author.0@);
    }
}

/// A new collection of votes is empty, and a new service collects no votes.
pub proof fn law_collections_start_empty(
    author: PublicKey,
    votes: Aggregator,
    committee: Committee,
    service: AggregatorService,
    root: Seq<u8>,
)
    requires
        call_ensures(Aggregator::new, (author,), votes),
        call_ensures(AggregatorService::new, (author, committee), service),
    ensures
        votes.author == author,
        votes.votes@.len() == 0,
        !votes.certificate_emitted,
        service.owner() == author,
        service.members() == committee,
        !service.open_batches().contains_key(root),
{
}

/// A vote that counts is added behind those of its batch. It leads to a certificate with all of
/// them exactly if with it, and not without it, their stake reaches the quorum, and to an
/// availability proof with all of them exactly if with it all nodes have voted; then the batch is
/// closed, and otherwise it stays open with these votes.
pub proof fn law_votes_that_count(vote: &BatchVote)
    ensures
        forall|service: &mut AggregatorService, outcome: MempoolResult<Collected>|
            {
                &&& #[trigger] call_ensures(
                    AggregatorService::on_checked_vote,
                    (service, vote, true),
                    outcome,
                )
                &&& service.wf()
                &&& committee_laws::all_differ(service.members().authorities@)
                &&& listed_stake(service.members().authorities@, vote.author.0@) > 0
                &&& service.open_batches().contains_key(vote.root.0@)
                &&& !has_voted(service.open_batches()[vote.root.0@].votes@, vote.author.0@)
            } ==> {
                let root = vote.root.0@;
                let authorities = service.members().authorities@;
                let before = service.open_batches()[root].votes@;
                let after = before.push((vote.author, vote.signature));
                let (certificate, availability) = outcome->Ok_0;
                &&& outcome is Ok
                &&& certificate is Some <==> listed_weight(authorities, after)
                    >= service.members().quorum && (before.len() == 0 || listed_weight(
                    authorities,
                    before,
                ) < service.members().quorum)
                &&& certificate is Some ==> certificate->0.root == vote.root
                    && certificate->0.votes@ == after && certificate->0.author == service.owner()
                &&& availability is Some <==> all_of(authorities, after)
                &&& availability is Some ==> availability->0.root == vote.root
                    && availability->0.votes@ == after && availability->0.author
                    == service.owner()
                &&& availability is Some <==> !final(service).open_batches().contains_key(root)
                &&& availability is None ==> final(service).open_batches()[root].votes@ == after
            },
{
    assert forall|service: &mut AggregatorService, outcome: MempoolResult<Collected>|
        {
            &&& #[trigger] call_ensures(
                AggregatorService::on_checked_vote,
                (service, vote, true),
                outcome,
            )
            &&& service.wf()
            &&& committee_laws::all_differ(service.members().authorities@)
            &&& listed_stake(service.members().authorities@, vote.author.0@) > 0
            &&& service.open_batches().contains_key(vote.root.0@)
            &&& !has_voted(service.open_batches()[vote.root.0@].votes@, vote.author.0@)
        } implies {
        let root = vote.root.0@;
        let authorities = service.members().authorities@;
        let before = service.open_batches()[root].votes@;
        let after = before.push((vote.author, vote.signature));
        let (certificate, availability) = outcome->Ok_0;
        &&& outcome is Ok
        &&& certificate is Some <==> listed_weight(authorities, after) >= service.members().quorum
            && (before.len() == 0 || listed_weight(authorities, before)
            < service.members().quorum)
        &&& certificate is Some ==> certificate->0.root == vote.root && certificate->0.votes@
            == after && certificate->0.author == service.owner()
        &&& availability is Some <==> all_of(authorities, after)
        &&& availability is Some ==> availability->0.root == vote.root && availability->0.votes@
            == after && availability->0.author == service.owner()
        &&& availability is Some <==> !final(service).open_batches().contains_key(root)
        &&& availability is None ==> final(service).open_batches()[root].votes@ == after
    } by {
        let members = service.members();
        let before = service.open_batches()[vote.root.0@].votes@;
        let after = before.push((vote.author, vote.signature));
        lemma_listed_stake(members.authorities@, vote.author.0@);
        lemma_has_voted(before, vote.author.0@);
        lemma_listed_weight(&members, before);
        lemma_listed_weight(&members, after);
        lemma_all_of(&members, after);
        service.law_open_batches_are_sound(vote.root.0@);
    }
}

/// Two certificates are equal exactly if they are for the same batch.
pub proof fn law_certificates_are_equal_by_root(a: &BatchCertificate, b: &BatchCertificate)
    ensures
        vstd::std_specs::cmp::PartialEqSpec::eq_spec(a, b) <==> a.root.0@ == b.root.0@,
{
}

/// No certificate or proof passes with a key that is no point of the curve, or with a signature
/// that is not made of such a point and a number below the order of the group.
pub proof fn law_votes_without_form_do_not_pass(
    certificate: &BatchCertificate,
    availability: &FullAvailabilityProof,
    committee: &Committee,
    outcome: MempoolResult<()>,
    all_outcome: MempoolResult<()>,
    i: int,
)
    requires
        call_ensures(BatchCertificate::verify, (certificate, committee), outcome),
        call_ensures(FullAvailabilityProof::verify, (availability, committee), all_outcome),
    ensures
        outcome is Ok && 0 <= i < certificate.votes@.len() ==> {
            let (key, signature) = certificate.votes@[i];
            &&& crypto::is_point(key.0@)
            &&& crypto::is_point(signature.part1@)
            &&& crate::bytes::le_value(signature.part2@)
                < 0x1000000000000000000000000000000014def9dea2f79cd65812631a5cf5d3ednat
        },
        all_outcome is Ok && 0 <= i < availability.votes@.len() ==> {
            let (key, signature) = availability.votes@[i];
            &&& crypto::is_point(key.0@)
            &&& crypto::is_point(signature.part1@)
            &&& crate::bytes::le_value(signature.part2@)
                < 0x1000000000000000000000000000000014def9dea2f79cd65812631a5cf5d3ednat
        },
{
    if outcome is Ok && 0 <= i < certificate.votes@.len() {
        let signature = certificate.votes@[i].1;
        assert(signature@.take(32) =~= signature.part1@);
        assert(signature@.skip(32) =~= signature.part2@);
    }
    if all_outcome is Ok && 0 <= i < availability.votes@.len() {
        let signature = availability.votes@[i].1;
        assert(signature@.take(32) =~= signature.part1@);
        assert(signature@.skip(32) =~= signature.part2@);
    }
}

} // verus!
