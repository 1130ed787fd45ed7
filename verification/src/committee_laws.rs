//! What a committee answers, in terms of its list of authorities alone.

use vstd::prelude::*;
use crate::committee::{self, Authority, Committee, Stake};
use crate::crypto::PublicKey;

verus! {

/// No name is listed twice.
pub open spec fn all_differ(authorities: Seq<Authority>) -> bool {
    forall|i: int, j: int|
        0 <= i < authorities.len() && 0 <= j < authorities.len() && i != j ==> (
        #[trigger] authorities[i]).name.0@ != (#[trigger] authorities[j]).name.0@
}

/// The stake of all authorities, added up.
pub open spec fn added_up(authorities: Seq<Authority>) -> int {
    authorities.fold_left(0int, |sum: int, authority: Authority| sum + authority.stake)
}

/// The stake of a member is the one that is listed with its name, and a stranger has none.
pub proof fn law_stake_is_as_listed(committee: &Committee, name: &PublicKey, stake: Stake)
    requires
        call_ensures(Committee::stake, (committee, name), stake),
        all_differ(committee.authorities@),
    ensures
        forall|i: int|
            0 <= i < committee.authorities@.len() && (
            #[trigger] committee.authorities@[i]).name.0@ == name.0@ ==> stake
                == committee.authorities@[i].stake,
        (forall|i: int|
            0 <= i < committee.authorities@.len() ==> (
            #[trigger] committee.authorities@[i]).name.0@ != name.0@) ==> stake == 0,
{
    lemma_stake_among(committee.authorities@, name@);
}

/// The stake of a name among distinct ones.
pub proof fn lemma_stake_among(authorities: Seq<Authority>, name: Seq<u8>)
    requires
        all_differ(authorities),
    ensures
        forall|i: int|
            0 <= i < authorities.len() && (#[trigger] authorities[i]).name@ == name
                ==> committee::stake_among(authorities, name) == authorities[i].stake,
        (forall|i: int| 0 <= i < authorities.len() ==> (#[trigger] authorities[i]).name@ != name)
            ==> committee::stake_among(authorities, name) == 0,
    decreases authorities.len(),
{
    if authorities.len() > 0 {
        let front = authorities.drop_last();
        assert(all_differ(front)) by {
            assert forall|i: int, j: int|
                0 <= i < front.len() && 0 <= j < front.len() && i != j implies (
            #[trigger] front[i]).name.0@ != (#[trigger] front[j]).name.0@ by {
                assert(front[i] == authorities[i] && front[j] == authorities[j]);
            }
        }
        lemma_stake_among(front, name);
        assert(authorities[authorities.len() - 1] == authorities.last());
        assert forall|i: int|
            0 <= i < authorities.len() && (#[trigger] authorities[i]).name@ == name implies
            committee::stake_among(authorities, name) == authorities[i].stake by {
            if i < front.len() {
                assert(front[i] == authorities[i]);
                assert(authorities[i].name.0@ != authorities[authorities.len() - 1].name.0@);
            }
        }
        if forall|i: int| 0 <= i < authorities.len() ==> (#[trigger] authorities[i]).name@ != name {
            assert forall|i: int| 0 <= i < front.len() implies (#[trigger] front[i]).name@
                != name by {
                assert(front[i] == authorities[i]);
            }
        }
    }
}

/// The place of a member is where its name is listed, a stranger has none, and the name at the
/// place of a member is its own.
pub proof fn law_place_is_as_listed(
    committee: &Committee,
    name: &PublicKey,
    index: Option<usize>,
    place: usize,
    found: Option<PublicKey>,
)
    requires
        call_ensures(Committee::index, (committee, name), index),
        call_ensures(Committee::name, (committee, place), found),
    ensures
        index is Some ==> index->0 < committee.authorities@.len()
            && committee.authorities@[index->0 as int].name.0@ == name.0@,
        index is None ==> forall|i: int|
            0 <= i < committee.authorities@.len() ==> (
            #[trigger] committee.authorities@[i]).name.0@ != name.0@,
        found is Some <==> place < committee.authorities@.len(),
        found is Some ==> found->0 == committee.authorities@[place as int].name,
        index == Some(place) ==> found is Some && found->0@ == name.0@,
{
    committee::lemma_place(committee.authorities@, name@);
}

/// The names of a list of authorities, without one name.
pub open spec fn names_but(authorities: Seq<Authority>, name: Seq<u8>) -> Seq<PublicKey> {
    authorities.map_values(|authority: Authority| authority.name).filter(
        |other: PublicKey| other.0@ != name,
    )
}

/// The others are all members but one, each as often as it is listed, in order.
pub proof fn law_others_are_all_but_one(
    committee: &Committee,
    name: &PublicKey,
    others: Vec<PublicKey>,
)
    requires
        call_ensures(Committee::others, (committee, name), others),
    ensures
        others@ == names_but(committee.authorities@, name.0@),
        forall|i: int| 0 <= i < others@.len() ==> (#[trigger] others@[i]).0@ != name.0@,
        forall|i: int|
            0 <= i < committee.authorities@.len() && (
            #[trigger] committee.authorities@[i]).name.0@ != name.0@ ==> others@.contains(
                committee.authorities@[i].name,
            ),
{
    broadcast use vstd::seq_lib::group_filter_ensures;

    let listed = |authority: Authority| authority.name;
    let without = name.0@;
    let other = |other: PublicKey| other.0@ != without;
    let names = committee.authorities@.map_values(listed);
    lemma_names_without(committee.authorities@, name@);
    assert forall|i: int|
        0 <= i < committee.authorities@.len() && (
        #[trigger] committee.authorities@[i]).name.0@ != name.0@ implies others@.contains(
        committee.authorities@[i].name,
    ) by {
        assert(names[i] == committee.authorities@[i].name);
        assert(names.contains(names[i]));
    }
}

/// The names of a list of authorities without one of them.
pub proof fn lemma_names_without(authorities: Seq<Authority>, name: Seq<u8>)
    ensures
        committee::names_without(authorities, name) == names_but(authorities, name),
    decreases authorities.len(),
{
    reveal(Seq::filter);
    let listed = |authority: Authority| authority.name;
    let names = authorities.map_values(listed);
    if authorities.len() > 0 {
        lemma_names_without(authorities.drop_last(), name);
        assert(names.drop_last() =~= authorities.drop_last().map_values(listed));
        assert(names.last() == authorities.last().name);
    }
}

/// A committee is made exactly if no name is listed twice and the stake and two shards for each
/// member can be counted, and it is as it was asked for.
pub proof fn law_committees_are_as_asked_for(
    authorities: Vec<Authority>,
    quorum: Stake,
    data_shards: usize,
    parity_shards: usize,
    made: Option<Committee>,
)
    requires
        call_ensures(Committee::new, (authorities, quorum, data_shards, parity_shards), made),
    ensures
        made is Some <==> {
            &&& all_differ(authorities@)
            &&& added_up(authorities@) <= u32::MAX
            &&& 2 * authorities@.len() <= usize::MAX
        },
        made is Some ==> {
            &&& made->0.authorities@ == authorities@
            &&& made->0.quorum == quorum
            &&& made->0.data_shards == data_shards
            &&& made->0.parity_shards == parity_shards
        },
        forall|committee: &Committee, threshold: Stake, size: usize, shards: (usize, usize)|
            {
                &&& made == Some(*committee)
                &&& #[trigger] call_ensures(Committee::quorum_threshold, (committee,), threshold)
                &&& #[trigger] call_ensures(Committee::size, (committee,), size)
                &&& #[trigger] call_ensures(Committee::shards, (committee,), shards)
            } ==> {
                &&& threshold == quorum
                &&& size == authorities@.len()
                &&& shards == (data_shards, parity_shards)
            },
{
    lemma_total(authorities@);
    assert(all_differ(authorities@) <==> committee::distinct_names(authorities@)) by {
        if committee::distinct_names(authorities@) {
            assert forall|i: int, j: int|
                0 <= i < authorities@.len() && 0 <= j < authorities@.len() && i != j implies (
            #[trigger] authorities@[i]).name.0@ != (#[trigger] authorities@[j]).name.0@ by {
                if i < j {
                    assert(authorities@[i].name@ != authorities@[j].name@);
                } else {
                    assert(authorities@[j].name@ != authorities@[i].name@);
                }
            }
        }
    }
}

proof fn lemma_total(authorities: Seq<Authority>)
    ensures
        committee::total_stake(authorities) == added_up(authorities),
    decreases authorities.len(),
{
    reveal(Seq::fold_left);
    if authorities.len() > 0 {
        lemma_total(authorities.drop_last());
    }
}

} // verus!
