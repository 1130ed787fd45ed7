//! The committee: who votes, with which stake, and into how many shards a batch is coded.

use vstd::prelude::*;
use crate::crypto::PublicKey;

verus! {

/// Voting power.
pub type Stake = u32;

/// A member of the committee.
#[derive(Clone, Copy, Debug)]
pub struct Authority {
    pub name: PublicKey,
    pub stake: Stake,
}

/// The committee. The authorities are in the order that all nodes agree on.
#[derive(Clone, Debug)]
pub struct Committee {
    pub authorities: Vec<Authority>,
    /// The stake that makes a quorum.
    pub quorum: Stake,
    /// The number of data shards of a coded batch.
    pub data_shards: usize,
    /// The number of parity shards of a coded batch.
    pub parity_shards: usize,
}

/// The stake of `name` among `authorities`, zero for a stranger.
pub open spec fn stake_among(authorities: Seq<Authority>, name: Seq<u8>) -> nat
    decreases authorities.len(),
{
    if authorities.len() == 0 {
        0
    } else if authorities.last().name@ == name {
        authorities.last().stake as nat
    } else {
        stake_among(authorities.drop_last(), name)
    }
}

/// The stake of all authorities together.
pub open spec fn total_stake(authorities: Seq<Authority>) -> nat
    decreases authorities.len(),
{
    if authorities.len() == 0 {
        0
    } else {
        total_stake(authorities.drop_last()) + authorities.last().stake as nat
    }
}

/// The stake of several names together, each counted as often as it occurs.
pub open spec fn stake_sum(authorities: Seq<Authority>, names: Seq<Seq<u8>>) -> nat
    decreases names.len(),
{
    if names.len() == 0 {
        0
    } else {
        stake_sum(authorities, names.drop_last()) + stake_among(authorities, names.last())
    }
}

/// No name occurs twice.
pub open spec fn distinct_names(authorities: Seq<Authority>) -> bool {
    forall|i: int, j: int|
        0 <= i < j < authorities.len() ==> (#[trigger] authorities[i]).name@ != (
        #[trigger] authorities[j]).name@
}

proof fn lemma_stake_of_stranger(authorities: Seq<Authority>, name: Seq<u8>)
    requires
        forall|i: int| 0 <= i < authorities.len() ==> (#[trigger] authorities[i]).name@ != name,
    ensures
        stake_among(authorities, name) == 0,
    decreases authorities.len(),
{
    if authorities.len() > 0 {
        let front = authorities.drop_last();
        assert forall|i: int| 0 <= i < front.len() implies (#[trigger] front[i]).name@ != name by {
            assert(front[i] == authorities[i]);
        }
        lemma_stake_of_stranger(front, name);
    }
}

/// The first place of `name` among `authorities`.
pub open spec fn place_among(authorities: Seq<Authority>, name: Seq<u8>) -> Option<nat>
    decreases authorities.len(),
{
    if authorities.len() == 0 {
        None
    } else {
        match place_among(authorities.drop_last(), name) {
            Some(i) => Some(i),
            None => if authorities.last().name@ == name {
                Some((authorities.len() - 1) as nat)
            } else {
                None
            },
        }
    }
}

/// A place among the first authorities is the place among all of them.
proof fn lemma_place_stays(authorities: Seq<Authority>, name: Seq<u8>, n: int)
    requires
        0 <= n <= authorities.len(),
        place_among(authorities.take(n), name) is Some,
    ensures
        place_among(authorities, name) == place_among(authorities.take(n), name),
    decreases authorities.len() - n,
{
    if n == authorities.len() {
        assert(authorities.take(n) =~= authorities);
    } else {
        assert(authorities.take(n + 1).drop_last() =~= authorities.take(n));
        lemma_place_stays(authorities, name, n + 1);
    }
}

/// The place of an authority holds it.
pub proof fn lemma_place(authorities: Seq<Authority>, name: Seq<u8>)
    ensures
        match place_among(authorities, name) {
            Some(i) => i < authorities.len() && authorities[i as int].name@ == name,
            None => forall|i: int|
                0 <= i < authorities.len() ==> (#[trigger] authorities[i]).name@ != name,
        },
    decreases authorities.len(),
{
    if authorities.len() > 0 {
        let front = authorities.drop_last();
        lemma_place(front, name);
        match place_among(authorities, name) {
            Some(i) => {},
            None => {
                assert forall|i: int| 0 <= i < authorities.len() implies (
                #[trigger] authorities[i]).name@ != name by {
                    if i < front.len() {
                        assert(front[i] == authorities[i]);
                    }
                }
            },
        }
    }
}

/// The place of a member is where it is listed.
pub proof fn lemma_place_of_member(authorities: Seq<Authority>, i: int)
    requires
        distinct_names(authorities),
        0 <= i < authorities.len(),
    ensures
        place_among(authorities, authorities[i].name@) == Some(i as nat),
{
    let name = authorities[i].name@;
    lemma_place(authorities, name);
    match place_among(authorities, name) {
        Some(j) => {
            assert(authorities[j as int].name@ == authorities[i].name@);
        },
        None => {
            assert(authorities[i].name@ != name);
        },
    }
}

/// The names of all authorities but `name`, in order.
pub open spec fn names_without(authorities: Seq<Authority>, name: Seq<u8>) -> Seq<PublicKey>
    decreases authorities.len(),
{
    if authorities.len() == 0 {
        Seq::empty()
    } else if authorities.last().name@ == name {
        names_without(authorities.drop_last(), name)
    } else {
        names_without(authorities.drop_last(), name).push(authorities.last().name)
    }
}

/// Who has stake is an authority.
pub proof fn lemma_stake_needs_member(authorities: Seq<Authority>, name: Seq<u8>)
    requires
        stake_among(authorities, name) > 0,
    ensures
        exists|i: int| 0 <= i < authorities.len() && (#[trigger] authorities[i]).name@ == name,
{
    if forall|i: int| 0 <= i < authorities.len() ==> (#[trigger] authorities[i]).name@ != name {
        lemma_stake_of_stranger(authorities, name);
    }
}

/// Taking away the last authority takes at most its own stake from the sum over distinct names.
proof fn lemma_sum_without_last(authorities: Seq<Authority>, names: Seq<Seq<u8>>)
    requires
        authorities.len() > 0,
        distinct_names(authorities),
        names.no_duplicates(),
    ensures
        stake_sum(authorities, names) == stake_sum(authorities.drop_last(), names) + (
        if names.contains(authorities.last().name@) {
            authorities.last().stake as nat
        } else {
            0
        }),
    decreases names.len(),
{
    if names.len() > 0 {
        let (front, rest) = (authorities.drop_last(), names.drop_last());
        let last = authorities.last();
        assert(rest.no_duplicates()) by {
            assert forall|i: int, j: int| 0 <= i < rest.len() && 0 <= j < rest.len() && i != j implies rest[i]
                != rest[j] by {
                assert(rest[i] == names[i] && rest[j] == names[j]);
            }
        }
        lemma_sum_without_last(authorities, rest);
        if names.last() == last.name@ {
            assert forall|i: int| 0 <= i < front.len() implies (#[trigger] front[i]).name@
                != last.name@ by {
                assert(front[i] == authorities[i]);
                assert(authorities[authorities.len() - 1] == last);
            }
            lemma_stake_of_stranger(front, last.name@);
            assert(!rest.contains(last.name@)) by {
                if rest.contains(last.name@) {
                    let i = choose|i: int| 0 <= i < rest.len() && rest[i] == last.name@;
                    assert(names[i] == names[names.len() - 1]);
                }
            }
            assert(names.contains(last.name@)) by {
                assert(names[names.len() - 1] == last.name@);
            }
        } else {
            if names.contains(last.name@) {
                let i = choose|i: int| 0 <= i < names.len() && names[i] == last.name@;
                assert(rest[i] == last.name@);
            }
            if rest.contains(last.name@) {
                let i = choose|i: int| 0 <= i < rest.len() && rest[i] == last.name@;
                assert(names[i] == last.name@);
            }
        }
    }
}

/// Distinct names have no more stake together than the whole committee.
pub proof fn lemma_sum_bounded(authorities: Seq<Authority>, names: Seq<Seq<u8>>)
    requires
        distinct_names(authorities),
        names.no_duplicates(),
    ensures
        stake_sum(authorities, names) <= total_stake(authorities),
    decreases authorities.len(),
{
    if authorities.len() == 0 {
        lemma_sum_of_strangers(authorities, names);
    } else {
        let front = authorities.drop_last();
        assert forall|i: int, j: int| 0 <= i < j < front.len() implies (#[trigger] front[i]).name@ != (
        #[trigger] front[j]).name@ by {
            assert(front[i] == authorities[i] && front[j] == authorities[j]);
        }
        lemma_sum_without_last(authorities, names);
        lemma_sum_bounded(front, names);
    }
}

/// Distinct names among which all authorities are have the stake of the whole committee.
pub proof fn lemma_sum_of_all(authorities: Seq<Authority>, names: Seq<Seq<u8>>)
    requires
        distinct_names(authorities),
        names.no_duplicates(),
        forall|i: int|
            0 <= i < authorities.len() ==> names.contains((#[trigger] authorities[i]).name@),
    ensures
        stake_sum(authorities, names) == total_stake(authorities),
    decreases authorities.len(),
{
    if authorities.len() == 0 {
        lemma_sum_of_strangers(authorities, names);
    } else {
        let front = authorities.drop_last();
        assert forall|i: int, j: int| 0 <= i < j < front.len() implies (#[trigger] front[i]).name@ != (
        #[trigger] front[j]).name@ by {
            assert(front[i] == authorities[i] && front[j] == authorities[j]);
        }
        assert forall|i: int| 0 <= i < front.len() implies names.contains(
            (#[trigger] front[i]).name@,
        ) by {
            assert(front[i] == authorities[i]);
        }
        assert(names.contains(authorities[authorities.len() - 1].name@));
        lemma_sum_without_last(authorities, names);
        lemma_sum_of_all(front, names);
    }
}

proof fn lemma_sum_of_strangers(authorities: Seq<Authority>, names: Seq<Seq<u8>>)
    requires
        authorities.len() == 0,
    ensures
        stake_sum(authorities, names) == 0,
    decreases names.len(),
{
    if names.len() > 0 {
        lemma_sum_of_strangers(authorities, names.drop_last());
    }
}

impl Committee {
    /// No authority is listed twice, the total stake can be counted, and so can two shards for
    /// each authority.
    pub open spec fn wf(&self) -> bool {
        &&& 2 * self.authorities@.len() <= usize::MAX
        &&& distinct_names(self.authorities@)
        &&& total_stake(self.authorities@) <= u32::MAX
    }

    /// The stake of `name`, zero for a stranger.
    pub open spec fn stake_of(&self, name: PublicKey) -> nat {
        stake_among(self.authorities@, name@)
    }

    /// The batches of this committee can be coded.
    pub open spec fn has_code(&self) -> bool {
        crate::coding::valid_code(self.data_shards as nat, self.parity_shards as nat)
    }

    /// The stake of `name`, zero for a stranger.
    pub fn stake(&self, name: &PublicKey) -> (stake: Stake)
        ensures
            stake == self.stake_of(*name),
    {
        let mut i: usize = self.authorities.len();
        assert(self.authorities@.take(i as int) =~= self.authorities@);
        while i > 0
            invariant
                i <= self.authorities@.len(),
                stake_among(self.authorities@, name@) == stake_among(
                    self.authorities@.take(i as int),
                    name@,
                ),
            decreases i,
        {
            i = i - 1;
            let ghost front = self.authorities@.take(i + 1);
            assert(front.drop_last() =~= self.authorities@.take(i as int));
            assert(front.last() == self.authorities@[i as int]);
            if self.authorities[i].name == *name {
                return self.authorities[i].stake;
            }
        }
        0
    }

    /// The stake that makes a quorum.
    pub fn quorum_threshold(&self) -> (quorum: Stake)
        ensures
            quorum == self.quorum,
    {
        self.quorum
    }

    /// The number of authorities.
    pub fn size(&self) -> (size: usize)
        ensures
            size == self.authorities@.len(),
    {
        self.authorities.len()
    }

    /// The numbers of data and of parity shards of a coded batch.
    pub fn shards(&self) -> (shards: (usize, usize))
        ensures
            shards == (self.data_shards, self.parity_shards),
    {
        (self.data_shards, self.parity_shards)
    }

    /// The place of `name` in the committee.
    pub open spec fn place_of(&self, name: PublicKey) -> Option<nat> {
        place_among(self.authorities@, name@)
    }

    /// The place of `name` in the committee.
    pub fn index(&self, name: &PublicKey) -> (index: Option<usize>)
        ensures
            match self.place_of(*name) {
                Some(i) => index is Some && index->0 == i && i < self.authorities@.len(),
                None => index is None,
            },
    {
        let mut i: usize = 0;
        while i < self.authorities.len()
            invariant
                i <= self.authorities@.len(),
                place_among(self.authorities@.take(i as int), name@) is None,
            decreases self.authorities@.len() - i,
        {
            let ghost longer = self.authorities@.take(i + 1);
            assert(longer.drop_last() =~= self.authorities@.take(i as int));
            assert(longer.last() == self.authorities@[i as int]);
            if self.authorities[i].name == *name {
                proof {
                    lemma_place_stays(self.authorities@, name@, i + 1);
                }
                return Some(i);
            }
            i = i + 1;
        }
        assert(self.authorities@.take(i as int) =~= self.authorities@);
        None
    }

    /// The other authorities, in order.
    pub fn others(&self, name: &PublicKey) -> (others: Vec<PublicKey>)
        ensures
            others@ == names_without(self.authorities@, name@),
    {
        let mut others: Vec<PublicKey> = Vec::new();
        let mut i: usize = 0;
        assert(names_without(self.authorities@.take(0), name@) =~= Seq::empty());
        while i < self.authorities.len()
            invariant
                i <= self.authorities@.len(),
                others@ == names_without(self.authorities@.take(i as int), name@),
            decreases self.authorities@.len() - i,
        {
            assert(self.authorities@.take(i + 1).drop_last() =~= self.authorities@.take(i as int));
            if self.authorities[i].name != *name {
                others.push(self.authorities[i].name);
            }
            i = i + 1;
        }
        assert(self.authorities@.take(i as int) =~= self.authorities@);
        others
    }

    /// The authority at a place of the committee.
    pub fn name(&self, index: usize) -> (name: Option<PublicKey>)
        ensures
            name == if index < self.authorities@.len() {
                Some(self.authorities@[index as int].name)
            } else {
                None
            },
    {
        if index < self.authorities.len() {
            Some(self.authorities[index].name)
        } else {
            None
        }
    }

    /// Makes a committee, unless an authority is listed twice, or there are too many authorities
    /// or too much stake to be counted.
    pub fn new(
        authorities: Vec<Authority>,
        quorum: Stake,
        data_shards: usize,
        parity_shards: usize,
    ) -> (committee: Option<Committee>)
        ensures
            committee is Some <==> {
                &&& 2 * authorities@.len() <= usize::MAX
                &&& distinct_names(authorities@)
                &&& total_stake(authorities@) <= u32::MAX
            },
            committee matches Some(made) ==> {
                &&& made.wf()
                &&& made.authorities@ == authorities@
                &&& made.quorum == quorum
                &&& made.data_shards == data_shards
                &&& made.parity_shards == parity_shards
            },
    {
        if authorities.len() > usize::MAX / 2 {
            return None;
        }
        let mut total: u32 = 0;
        let mut i: usize = 0;
        assert(authorities@.take(0) =~= Seq::empty());
        while i < authorities.len()
            invariant
                i <= authorities@.len(),
                total == total_stake(authorities@.take(i as int)),
                distinct_names(authorities@.take(i as int)),
            decreases authorities@.len() - i,
        {
            let mut j: usize = 0;
            while j < i
                invariant
                    j <= i < authorities@.len(),
                    forall|x: int|
                        0 <= x < j ==> (#[trigger] authorities@[x]).name@
                            != authorities@[i as int].name@,
                decreases i - j,
            {
                if authorities[j].name == authorities[i].name {
                    assert(authorities@[j as int].name@ == authorities@[i as int].name@);
                    return None;
                }
                j = j + 1;
            }
            let ghost longer = authorities@.take(i + 1);
            assert(longer.drop_last() =~= authorities@.take(i as int));
            assert(longer.last() == authorities@[i as int]);
            if authorities[i].stake > u32::MAX - total {
                proof {
                    lemma_total_grows(authorities@, i + 1);
                }
                return None;
            }
            total = total + authorities[i].stake;
            i = i + 1;
        }
        assert(authorities@.take(i as int) =~= authorities@);
        Some(Committee { authorities, quorum, data_shards, parity_shards })
    }
}

proof fn lemma_total_grows(authorities: Seq<Authority>, n: int)
    requires
        0 <= n <= authorities.len(),
    ensures
        total_stake(authorities.take(n)) <= total_stake(authorities),
    decreases authorities.len() - n,
{
    if n == authorities.len() {
        assert(authorities.take(n) =~= authorities);
    } else {
        lemma_total_grows(authorities, n + 1);
        assert(authorities.take(n + 1).drop_last() =~= authorities.take(n));
    }
}

} // verus!
