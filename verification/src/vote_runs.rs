//! What the collection of votes comes to over many announcements and votes.

use vstd::prelude::*;
use crate::aggregator::{self, AggregatorService, Collected};
use crate::committee::{self, Committee};
use crate::crypto::Digest;
use crate::error::{MempoolError, MempoolResult};
use crate::voter::BatchVote;

verus! {

/// Something that the service took in.
#[derive(Debug)]
pub enum ServiceEvent {
    /// The root of a batch whose votes are to be collected.
    Announced(Digest),
    /// A vote, whether its signature is the author's, and what it led to.
    Voted(BatchVote, bool, MempoolResult<Collected>),
}

/// The event takes the service from one state to another.
pub open spec fn is_step(
    before: &AggregatorService,
    event: ServiceEvent,
    after: &AggregatorService,
) -> bool {
    match event {
        ServiceEvent::Announced(root) => before.tracks(root@, after),
        ServiceEvent::Voted(vote, valid, outcome) => before.collects(&vote, valid, &outcome, after),
    }
}

/// Each event takes the service from one state to the next.
pub open spec fn is_run(states: Seq<AggregatorService>, events: Seq<ServiceEvent>) -> bool {
    &&& states.len() == events.len() + 1
    &&& forall|i: int| 0 <= i < states.len() ==> (#[trigger] states[i]).wf()
    &&& forall|i: int|
        0 <= i < events.len() ==> is_step(&states[i], #[trigger] events[i], &states[i + 1])
}

/// The event announces the batch.
pub open spec fn announces(event: ServiceEvent, root: Seq<u8>) -> bool {
    event matches ServiceEvent::Announced(announced) && announced@ == root
}

/// The event is a vote of `name` for the batch that passes the check.
pub open spec fn is_vote(
    committee: &Committee,
    event: ServiceEvent,
    root: Seq<u8>,
    name: Seq<u8>,
) -> bool {
    match event {
        ServiceEvent::Voted(vote, valid, _) => {
            &&& vote.root@ == root
            &&& vote.author@ == name
            &&& vote.verdict(committee, valid) == Ok::<(), MempoolError>(())
        },
        _ => false,
    }
}

/// The event leads to a certificate for the batch.
pub open spec fn certifies(event: ServiceEvent, root: Seq<u8>) -> bool {
    match event {
        ServiceEvent::Voted(_, _, Ok((Some(certificate), _))) => certificate.root@ == root,
        _ => false,
    }
}

/// The event leads to an availability proof for the batch.
pub open spec fn completes(event: ServiceEvent, root: Seq<u8>) -> bool {
    match event {
        ServiceEvent::Voted(_, _, Ok((_, Some(availability)))) => availability.root@ == root,
        _ => false,
    }
}

/// The certificate that an event leads to has a quorum and passes the check.
pub open spec fn certificate_is_good(committee: &Committee, event: ServiceEvent) -> bool {
    match event {
        ServiceEvent::Voted(_, _, Ok((Some(certificate), _))) => aggregator::certificate_verdict(
            committee,
            certificate.votes@,
            true,
        ) == Ok::<(), MempoolError>(()),
        _ => false,
    }
}

/// The availability proof that an event leads to has the votes of all nodes and passes the check.
pub open spec fn proof_is_full(committee: &Committee, event: ServiceEvent) -> bool {
    match event {
        ServiceEvent::Voted(_, _, Ok((_, Some(availability)))) => {
            &&& aggregator::all_voted(committee, availability.votes@)
            &&& availability.votes@.len() == committee.authorities@.len()
            &&& aggregator::availability_verdict(committee, availability.votes@, true) == Ok::<
                (),
                MempoolError,
            >(())
        },
        _ => false,
    }
}

/// Event `i` leads to a certificate for the batch, and no other event does.
pub open spec fn certifies_once(events: Seq<ServiceEvent>, root: Seq<u8>, i: int) -> bool {
    &&& 0 <= i < events.len()
    &&& certifies(events[i], root)
    &&& forall|j: int| 0 <= j < events.len() && certifies(#[trigger] events[j], root) ==> j == i
}

/// Event `i` leads to an availability proof for the batch, and no other event does.
pub open spec fn completes_once(events: Seq<ServiceEvent>, root: Seq<u8>, i: int) -> bool {
    &&& 0 <= i < events.len()
    &&& completes(events[i], root)
    &&& forall|j: int| 0 <= j < events.len() && completes(#[trigger] events[j], root) ==> j == i
}

/// Votes are collected for the batch.
pub open spec fn is_open(service: &AggregatorService, root: Seq<u8>) -> bool {
    service.open_batches().contains_key(root)
}

/// The certificate for the batch was handed out.
pub open spec fn is_certified(service: &AggregatorService, root: Seq<u8>) -> bool {
    service.open_batches()[root].certificate_emitted
}

/// Who has voted for the batch.
pub open spec fn voters_for(service: &AggregatorService, root: Seq<u8>) -> Seq<Seq<u8>> {
    aggregator::voters(service.open_batches()[root].votes@)
}

proof fn lemma_same_members(states: Seq<AggregatorService>, events: Seq<ServiceEvent>, i: int)
    requires
        is_run(states, events),
        0 <= i < states.len(),
    ensures
        states[i].members() == states[0].members(),
    decreases i,
{
    if i > 0 {
        lemma_same_members(states, events, i - 1);
        assert(is_step(&states[i - 1], events[i - 1], &states[i]));
    }
}

/// What one event does to a batch.
proof fn lemma_step(
    before: &AggregatorService,
    event: ServiceEvent,
    after: &AggregatorService,
    root: Seq<u8>,
)
    requires
        before.wf(),
        after.wf(),
        is_step(before, event, after),
        !announces(event, root),
    ensures
        !is_open(before, root) ==> !is_open(after, root) && !certifies(event, root)
            && !completes(event, root),
        is_open(before, root) ==> (completes(event, root) <==> !is_open(after, root)),
        is_open(before, root) && is_certified(before, root) ==> !certifies(event, root),
        is_open(before, root) && is_open(after, root) ==> {
            &&& is_certified(after, root) <==> is_certified(before, root) || certifies(event, root)
            &&& forall|name: Seq<u8>| #[trigger]
                voters_for(after, root).contains(name) <==> voters_for(before, root).contains(name)
                    || is_vote(&before.members(), event, root, name)
        },
        certifies(event, root) ==> certificate_is_good(&before.members(), event),
        completes(event, root) ==> proof_is_full(&before.members(), event),
        completes(event, root) && before.members().quorum <= committee::total_stake(
            before.members().authorities@,
        ) ==> certifies(event, root) || is_certified(before, root),
{
    let members = before.members();
    match event {
        ServiceEvent::Announced(_) => {},
        ServiceEvent::Voted(vote, valid, outcome) => {
            if is_open(before, vote.root@) {
                before.law_open_batches_are_sound(vote.root@);
                let collected = before.open_batches()[vote.root@];
                let votes = collected.votes@.push((vote.author, vote.signature));
                let (fewer, names) = (
                    aggregator::voters(collected.votes@),
                    aggregator::voters(votes),
                );
                assert(names =~= fewer.push(vote.author@));
                assert(names.drop_last() =~= fewer);
                assert forall|name: Seq<u8>| #[trigger] names.contains(name) <==> fewer.contains(
                    name,
                ) || name == vote.author@ by {
                    aggregator::lemma_push_contains(fewer, vote.author@, name);
                }
                if completes(event, root) {
                    assert(vote.root@ == root);
                    aggregator::lemma_faultless(&members, votes);
                    committee::lemma_sum_of_all(members.authorities@, names);
                }
            }
        },
    }
}

proof fn lemma_stays_closed(
    states: Seq<AggregatorService>,
    events: Seq<ServiceEvent>,
    root: Seq<u8>,
    i: int,
    j: int,
)
    requires
        is_run(states, events),
        forall|e: int| 0 <= e < events.len() ==> !announces(#[trigger] events[e], root),
        0 <= i <= j < states.len(),
        !is_open(&states[i], root),
    ensures
        !is_open(&states[j], root),
        j < events.len() ==> !certifies(events[j], root) && !completes(events[j], root),
    decreases j - i,
{
    if i < j {
        lemma_stays_closed(states, events, root, i, j - 1);
        assert(is_step(&states[j - 1], events[j - 1], &states[j]));
        lemma_step(&states[j - 1], events[j - 1], &states[j], root);
    }
    if j < events.len() {
        assert(is_step(&states[j], events[j], &states[j + 1]));
        lemma_step(&states[j], events[j], &states[j + 1], root);
    }
}

/// A batch that is still open was open all the time. The certificate was handed out by one of
/// the events if it is marked so, and all who voted meanwhile are among the voters.
proof fn lemma_open_run(
    states: Seq<AggregatorService>,
    events: Seq<ServiceEvent>,
    root: Seq<u8>,
    i: int,
    j: int,
)
    requires
        is_run(states, events),
        forall|e: int| 0 <= e < events.len() ==> !announces(#[trigger] events[e], root),
        0 <= i <= j < states.len(),
        is_open(&states[j], root),
    ensures
        is_open(&states[i], root),
        is_certified(&states[i], root) ==> is_certified(&states[j], root),
        is_certified(&states[j], root) && !is_certified(&states[i], root) ==> exists|c: int|
            i <= c < j && certifies(#[trigger] events[c], root),
        forall|c: int| i <= c < j && certifies(#[trigger] events[c], root) ==> is_certified(
            &states[j],
            root,
        ),
        forall|c: int| i <= c < j ==> !completes(#[trigger] events[c], root),
        forall|e: int, name: Seq<u8>|
            i <= e < j && #[trigger] is_vote(&states[0].members(), events[e], root, name)
                ==> voters_for(&states[j], root).contains(name),
    decreases j - i,
{
    if i < j {
        assert(is_step(&states[j - 1], events[j - 1], &states[j]));
        lemma_step(&states[j - 1], events[j - 1], &states[j], root);
        lemma_same_members(states, events, j - 1);
        lemma_open_run(states, events, root, i, j - 1);
        assert forall|e: int, name: Seq<u8>|
            i <= e < j && #[trigger] is_vote(&states[0].members(), events[e], root, name) implies
            voters_for(&states[j], root).contains(name) by {
            if e < j - 1 {
                assert(voters_for(&states[j - 1], root).contains(name));
            }
        }
        if is_certified(&states[j], root) && !is_certified(&states[i], root) {
            if certifies(events[j - 1], root) {
                assert(exists|c: int| i <= c < j && certifies(#[trigger] events[c], root));
            }
        }
    }
}

/// The event that closed a batch.
proof fn lemma_closing(
    states: Seq<AggregatorService>,
    events: Seq<ServiceEvent>,
    root: Seq<u8>,
    j: int,
) -> (closing: int)
    requires
        is_run(states, events),
        0 <= j < states.len(),
        is_open(&states[0], root),
        !is_open(&states[j], root),
    ensures
        0 <= closing < j,
        is_open(&states[closing], root),
        !is_open(&states[closing + 1], root),
    decreases j,
{
    if is_open(&states[j - 1], root) {
        j - 1
    } else {
        lemma_closing(states, events, root, j - 1)
    }
}

/// Once a batch is announced and every node has cast a vote for it that passes the check, among
/// any other votes and announcements of other batches, exactly one event has led to a certificate
/// for the batch and exactly one to an availability proof, and not before the certificate. The
/// certificate has a quorum and the proof the votes of all nodes, and both pass their checks. The
/// batch is closed.
pub proof fn law_batch_is_certified_once(
    states: Seq<AggregatorService>,
    events: Seq<ServiceEvent>,
    root: Seq<u8>,
)
    requires
        is_run(states, events),
        is_open(&states[0], root),
        states[0].open_batches()[root].votes@.len() == 0,
        forall|e: int| 0 <= e < events.len() ==> !announces(#[trigger] events[e], root),
        states[0].members().authorities@.len() > 0,
        states[0].members().quorum <= committee::total_stake(states[0].members().authorities@),
        forall|m: int|
            0 <= m < states[0].members().authorities@.len() ==> exists|e: int|
                0 <= e < events.len() && is_vote(
                    &states[0].members(),
                    #[trigger] events[e],
                    root,
                    (#[trigger] states[0].members().authorities@[m]).name@,
                ),
    ensures
        exists|c: int, f: int|
            {
                &&& c <= f
                &&& #[trigger] certifies_once(events, root, c)
                &&& certificate_is_good(&states[0].members(), events[c])
                &&& #[trigger] completes_once(events, root, f)
                &&& proof_is_full(&states[0].members(), events[f])
            },
        !is_open(&states.last(), root),
{
    let members = states[0].members();
    let end = events.len() as int;
    states[0].law_open_batches_are_sound(root);
    assert(!is_certified(&states[0], root));
    if is_open(&states[end], root) {
        lemma_open_run(states, events, root, 0, end);
        lemma_same_members(states, events, end);
        states[end].law_open_batches_are_sound(root);
        assert forall|m: int| 0 <= m < members.authorities@.len() implies voters_for(
            &states[end],
            root,
        ).contains((#[trigger] members.authorities@[m]).name@) by {
            let e = choose|e: int|
                0 <= e < events.len() && is_vote(
                    &members,
                    #[trigger] events[e],
                    root,
                    members.authorities@[m].name@,
                );
            assert(is_vote(&members, events[e], root, members.authorities@[m].name@));
        }
        assert(aggregator::all_voted(&members, states[end].open_batches()[root].votes@));
        assert(false);
    }
    let f = lemma_closing(states, events, root, end);
    lemma_open_run(states, events, root, 0, f);
    assert(is_step(&states[f], events[f], &states[f + 1]));
    lemma_step(&states[f], events[f], &states[f + 1], root);
    lemma_same_members(states, events, f);
    assert forall|j: int| 0 <= j < events.len() && completes(
        #[trigger] events[j],
        root,
    ) implies j == f by {
        if j > f {
            lemma_stays_closed(states, events, root, f + 1, j);
        }
    }
    assert(completes_once(events, root, f));
    let c = if is_certified(&states[f], root) {
        choose|c: int| 0 <= c < f && certifies(#[trigger] events[c], root)
    } else {
        f
    };
    assert(is_step(&states[c], events[c], &states[c + 1]));
    lemma_step(&states[c], events[c], &states[c + 1], root);
    lemma_same_members(states, events, c);
    assert forall|j: int| 0 <= j < events.len() && certifies(
        #[trigger] events[j],
        root,
    ) implies j == c by {
        if j > f {
            lemma_stays_closed(states, events, root, f + 1, j);
        } else if j != c {
            let (first, second) = if j < c {
                (j, c)
            } else {
                (c, j)
            };
            lemma_open_run(states, events, root, second, f);
            lemma_open_run(states, events, root, 0, second);
            assert(certifies(events[first], root));
            assert(is_certified(&states[second], root));
            assert(is_step(&states[second], events[second], &states[second + 1]));
            lemma_step(&states[second], events[second], &states[second + 1], root);
        }
    }
    assert(certifies_once(events, root, c));
}

} // verus!
