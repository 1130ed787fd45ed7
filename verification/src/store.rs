//! The decisions of the key-value store: which readers are answered when.
//!
//! The entries are kept by a database outside of this crate. A reader may ask to be notified,
//! that is to be answered once there is a value for its key.

use std::collections::VecDeque;
use vstd::prelude::*;
use crate::table::Table;

verus! {

/// The key of an entry.
pub type Key = Vec<u8>;

/// The value of an entry.
pub type Value = Vec<u8>;

/// What can be asked of the store. Readers wait for the answer at `R`, and those that want to be
/// notified at `N`.
#[derive(Debug)]
pub enum StoreCommand<R, N> {
    Write(Key, Value),
    WriteBatch(Vec<(Key, Value)>),
    Read(Key, R),
    NotifyRead(Key, N),
    Delete(Key),
}

/// The answers to be sent after a command.
#[derive(Debug)]
pub struct Replies<R, N, E> {
    /// To a reader.
    pub read: Option<(R, Result<Option<Value>, E>)>,
    /// To readers that wanted to be notified, in this order.
    pub notified: Vec<(N, Result<Value, E>)>,
}

/// The contents of the answers to readers that wanted to be notified.
pub open spec fn answer_views<N, E>(answers: Seq<(N, Result<Value, E>)>) -> Seq<
    (N, Result<Seq<u8>, E>),
> {
    Seq::new(
        answers.len(),
        |i: int|
            (
                answers[i].0,
                match answers[i].1 {
                    Ok(value) => Ok(value@),
                    Err(error) => Err(error),
                },
            ),
    )
}

/// The contents of a list of entries.
pub open spec fn pair_views(pairs: Seq<(Key, Value)>) -> Seq<(Seq<u8>, Seq<u8>)> {
    Seq::new(pairs.len(), |i: int| (pairs[i].0@, pairs[i].1@))
}

/// Those who wait for a key, the first one first.
pub open spec fn waiting_for<N>(waiting: Map<Seq<u8>, Seq<N>>, key: Seq<u8>) -> Seq<N> {
    if waiting.contains_key(key) {
        waiting[key]
    } else {
        Seq::empty()
    }
}

/// The answers with which each of `readers` gets `value`.
pub open spec fn all_get<N, E>(readers: Seq<N>, value: Seq<u8>) -> Seq<(N, Result<Seq<u8>, E>)> {
    Seq::new(readers.len(), |i: int| (readers[i], Ok(value)))
}

/// The answers after a list of entries is written, one entry after the other.
pub open spec fn batch_answers<N, E>(
    waiting: Map<Seq<u8>, Seq<N>>,
    pairs: Seq<(Seq<u8>, Seq<u8>)>,
) -> Seq<(N, Result<Seq<u8>, E>)>
    decreases pairs.len(),
{
    if pairs.len() == 0 {
        Seq::empty()
    } else {
        let front = pairs.drop_last();
        let (key, value) = pairs.last();
        batch_answers::<N, E>(waiting, front) + all_get::<N, E>(
            waiting_for(batch_waiting(waiting, front), key),
            value,
        )
    }
}

/// Who waits after a list of entries is written.
pub open spec fn batch_waiting<N>(
    waiting: Map<Seq<u8>, Seq<N>>,
    pairs: Seq<(Seq<u8>, Seq<u8>)>,
) -> Map<Seq<u8>, Seq<N>>
    decreases pairs.len(),
{
    if pairs.len() == 0 {
        waiting
    } else {
        batch_waiting(waiting, pairs.drop_last()).remove(pairs.last().0)
    }
}

/// Who waits after a command, given what the database found.
pub open spec fn next_waiting<R, N, E>(
    waiting: Map<Seq<u8>, Seq<N>>,
    command: StoreCommand<R, N>,
    found: Result<Option<Value>, E>,
) -> Map<Seq<u8>, Seq<N>> {
    match command {
        StoreCommand::Write(key, _) => waiting.remove(key@),
        StoreCommand::WriteBatch(pairs) => batch_waiting(waiting, pair_views(pairs@)),
        StoreCommand::NotifyRead(key, reader) => if found == Ok::<Option<Value>, E>(None) {
            waiting.insert(key@, waiting_for(waiting, key@).push(reader))
        } else {
            waiting
        },
        _ => waiting,
    }
}

/// The answers to readers that wanted to be notified, given what the database found.
pub open spec fn next_answers<R, N, E>(
    waiting: Map<Seq<u8>, Seq<N>>,
    command: StoreCommand<R, N>,
    found: Result<Option<Value>, E>,
) -> Seq<(N, Result<Seq<u8>, E>)> {
    match command {
        StoreCommand::Write(key, value) => all_get::<N, E>(waiting_for(waiting, key@), value@),
        StoreCommand::WriteBatch(pairs) => batch_answers::<N, E>(waiting, pair_views(pairs@)),
        StoreCommand::NotifyRead(key, reader) => match found {
            Ok(None) => Seq::empty(),
            Ok(Some(value)) => seq![(reader, Ok(value@))],
            Err(error) => seq![(reader, Err(error))],
        },
        _ => Seq::empty(),
    }
}

/// The answer to a reader, given what the database found.
pub open spec fn next_read<R, N, E>(
    command: StoreCommand<R, N>,
    found: Result<Option<Value>, E>,
) -> Option<(R, Result<Option<Value>, E>)> {
    match command {
        StoreCommand::Read(_, reader) => Some((reader, found)),
        _ => None,
    }
}

/// The readers that wait for a value.
#[derive(Debug)]
pub struct Store<N> {
    obligations: Table<VecDeque<N>>,
}

impl<N> Store<N> {
    /// Who waits for which key, the first one first.
    pub closed spec fn waiting(&self) -> Map<Seq<u8>, Seq<N>> {
        self.obligations@.map_values(|readers: VecDeque<N>| readers@)
    }

    pub closed spec fn wf(&self) -> bool {
        self.obligations.wf()
    }

    /// A store for which nobody waits.
    pub fn new() -> (store: Store<N>)
        ensures
            store.wf(),
            store.waiting() == Map::<Seq<u8>, Seq<N>>::empty(),
    {
        let store = Store { obligations: Table::new() };
        assert(store.waiting() =~= Map::<Seq<u8>, Seq<N>>::empty());
        store
    }

    /// Answers all who wait for a key.
    fn release<E>(
        &mut self,
        key: &Key,
        value: &Value,
        answers: &mut Vec<(N, Result<Value, E>)>,
    )
        requires
            old(self).wf(),
        ensures
            final(self).wf(),
            final(self).waiting() == old(self).waiting().remove(key@),
            answer_views(final(answers)@) == answer_views(old(answers)@) + all_get::<N, E>(
                waiting_for(old(self).waiting(), key@),
                value@,
            ),
    {
        let ghost before = self.waiting();
        let ghost sent = answer_views(answers@);
        let ghost goal = all_get::<N, E>(waiting_for(before, key@), value@);
        let removed = self.obligations.remove(key);
        assert(self.waiting() =~= before.remove(key@));
        if let Some(queue) = removed {
            let mut readers: VecDeque<N> = queue;
            let ghost all = readers@;
            assert(all =~= waiting_for(before, key@));
            let ghost mut done: int = 0;
            assert(answer_views(answers@) =~= sent + goal.take(0));
            assert(all.skip(0) =~= all);
            while readers.len() > 0
                invariant
                    0 <= done <= all.len(),
                    readers@ == all.skip(done),
                    goal == all_get::<N, E>(all, value@),
                    answer_views(answers@) == sent + goal.take(done),
                decreases readers@.len(),
            {
                let ghost earlier = answer_views(answers@);
                if let Some(reader) = readers.pop_front() {
                    answers.push((reader, Ok(value.clone())));
                    assert(answer_views(answers@) =~= earlier.push(goal[done]));
                    proof {
                        done = done + 1;
                    }
                    assert(answer_views(answers@) =~= sent + goal.take(done));
                    assert(readers@ =~= all.skip(done));
                }
            }
            assert(goal.take(done) =~= goal);
        } else {
            assert(answer_views(answers@) =~= sent + goal);
        }
    }

    /// What is to be answered after a command that the database has carried out, with `found`
    /// as its answer where the command reads. Who waits for a key is answered with the next value
    /// that is written to it. Who wants to be notified waits only if there is no value.
    pub fn on_command<R, E>(
        &mut self,
        command: StoreCommand<R, N>,
        found: Result<Option<Value>, E>,
    ) -> (replies: Replies<R, N, E>)
        requires
            old(self).wf(),
        ensures
            final(self).wf(),
            final(self).waiting() == next_waiting(old(self).waiting(), command, found),
            answer_views(replies.notified@) == next_answers(
                old(self).waiting(),
                command,
                found,
            ),
            replies.read == next_read(command, found),
    {
        let ghost before = self.waiting();
        let mut notified: Vec<(N, Result<Value, E>)> = Vec::new();
        assert(answer_views(notified@) =~= Seq::empty());
        let mut read: Option<(R, Result<Option<Value>, E>)> = None;
        match command {
            StoreCommand::Write(key, value) => {
                self.release(&key, &value, &mut notified);
                assert(answer_views(notified@) =~= next_answers(before, command, found));
            },
            StoreCommand::WriteBatch(pairs) => {
                let ghost views = pair_views(pairs@);
                let mut i: usize = 0;
                assert(views.take(0) =~= Seq::empty());
                while i < pairs.len()
                    invariant
                        i <= pairs@.len(),
                        self.wf(),
                        views == pair_views(pairs@),
                        self.waiting() == batch_waiting(before, views.take(i as int)),
                        answer_views(notified@) == batch_answers::<N, E>(
                            before,
                            views.take(i as int),
                        ),
                    decreases pairs@.len() - i,
                {
                    self.release(&pairs[i].0, &pairs[i].1, &mut notified);
                    assert(views.take(i + 1).drop_last() =~= views.take(i as int));
                    assert(views.take(i + 1).last() == views[i as int]);
                    i = i + 1;
                }
                assert(views.take(i as int) =~= views);
            },
            StoreCommand::Delete(_) => {},
            StoreCommand::Read(_, reader) => {
                read = Some((reader, found));
            },
            StoreCommand::NotifyRead(key, reader) => match found {
                Ok(None) => {
                    let mut readers: VecDeque<N> = match self.obligations.remove(&key) {
                        Some(readers) => readers,
                        None => VecDeque::new(),
                    };
                    assert(readers@ =~= waiting_for(before, key@));
                    readers.push_back(reader);
                    self.obligations.insert(key, readers);
                    assert(self.waiting() =~= next_waiting(before, command, found));
                },
                Ok(Some(value)) => {
                    notified.push((reader, Ok(value)));
                    assert(answer_views(notified@) =~= next_answers(before, command, found));
                },
                Err(error) => {
                    notified.push((reader, Err(error)));
                    assert(answer_views(notified@) =~= next_answers(before, command, found));
                },
            },
        }
        Replies { read, notified }
    }
}

/// The entries after a list of entries is written, one after the other.
pub open spec fn batch_entries(
    entries: Map<Seq<u8>, Seq<u8>>,
    pairs: Seq<(Seq<u8>, Seq<u8>)>,
) -> Map<Seq<u8>, Seq<u8>>
    decreases pairs.len(),
{
    if pairs.len() == 0 {
        entries
    } else {
        batch_entries(entries, pairs.drop_last()).insert(pairs.last().0, pairs.last().1)
    }
}

/// The entries of a database that never fails, after a command.
pub open spec fn next_entries<R, N>(
    entries: Map<Seq<u8>, Seq<u8>>,
    command: StoreCommand<R, N>,
) -> Map<Seq<u8>, Seq<u8>> {
    match command {
        StoreCommand::Write(key, value) => entries.insert(key@, value@),
        StoreCommand::WriteBatch(pairs) => batch_entries(entries, pair_views(pairs@)),
        StoreCommand::Delete(key) => entries.remove(key@),
        _ => entries,
    }
}

/// `found` is what a database with these entries finds for a command.
pub open spec fn finds<R, N, E>(
    entries: Map<Seq<u8>, Seq<u8>>,
    command: StoreCommand<R, N>,
    found: Result<Option<Value>, E>,
) -> bool {
    match command {
        StoreCommand::Read(key, _) | StoreCommand::NotifyRead(key, _) => match found {
            Ok(Some(value)) => entries.contains_key(key@) && entries[key@] == value@,
            Ok(None) => !entries.contains_key(key@),
            Err(_) => false,
        },
        _ => true,
    }
}

/// Nobody waits for a key that has a value.
pub open spec fn nobody_waits_in_vain<N>(
    entries: Map<Seq<u8>, Seq<u8>>,
    waiting: Map<Seq<u8>, Seq<N>>,
) -> bool {
    forall|key: Seq<u8>| #[trigger]
        waiting.contains_key(key) ==> !entries.contains_key(key)
}

proof fn lemma_batch_serves_all<N>(
    entries: Map<Seq<u8>, Seq<u8>>,
    waiting: Map<Seq<u8>, Seq<N>>,
    pairs: Seq<(Seq<u8>, Seq<u8>)>,
)
    requires
        nobody_waits_in_vain(entries, waiting),
    ensures
        nobody_waits_in_vain(batch_entries(entries, pairs), batch_waiting(waiting, pairs)),
    decreases pairs.len(),
{
    if pairs.len() > 0 {
        lemma_batch_serves_all(entries, waiting, pairs.drop_last());
    }
}

/// Whatever is asked of the store, nobody is left waiting for a key that has a value.
pub proof fn law_nobody_waits_in_vain<R, N, E>(
    entries: Map<Seq<u8>, Seq<u8>>,
    waiting: Map<Seq<u8>, Seq<N>>,
    command: StoreCommand<R, N>,
    found: Result<Option<Value>, E>,
)
    requires
        nobody_waits_in_vain(entries, waiting),
        finds(entries, command, found),
    ensures
        nobody_waits_in_vain(
            next_entries(entries, command),
            next_waiting(waiting, command, found),
        ),
{
    if let StoreCommand::WriteBatch(pairs) = command {
        lemma_batch_serves_all(entries, waiting, pair_views(pairs@));
    }
}

/// The value that a list of entries gives to a key first.
pub open spec fn first_value(pairs: Seq<(Seq<u8>, Seq<u8>)>, key: Seq<u8>) -> Option<Seq<u8>>
    decreases pairs.len(),
{
    if pairs.len() == 0 {
        None
    } else {
        match first_value(pairs.drop_last(), key) {
            Some(value) => Some(value),
            None => if pairs.last().0 == key {
                Some(pairs.last().1)
            } else {
                None
            },
        }
    }
}

/// The value that a list of entries gives to a key last.
pub open spec fn last_value(pairs: Seq<(Seq<u8>, Seq<u8>)>, key: Seq<u8>) -> Option<Seq<u8>>
    decreases pairs.len(),
{
    if pairs.len() == 0 {
        None
    } else if pairs.last().0 == key {
        Some(pairs.last().1)
    } else {
        last_value(pairs.drop_last(), key)
    }
}

/// The value that a command gives to a key first, if it writes to the key.
pub open spec fn first_written<R, N>(command: StoreCommand<R, N>, key: Seq<u8>) -> Option<
    Seq<u8>,
> {
    match command {
        StoreCommand::Write(to, value) => if to@ == key {
            Some(value@)
        } else {
            None
        },
        StoreCommand::WriteBatch(pairs) => first_value(pair_views(pairs@), key),
        _ => None,
    }
}

/// What the last of some commands that wrote to a key or deleted it left there, and what was
/// there at first if there was none.
pub open spec fn last_written<R, N>(
    entries: Map<Seq<u8>, Seq<u8>>,
    history: Seq<StoreCommand<R, N>>,
    key: Seq<u8>,
) -> Option<Seq<u8>>
    decreases history.len(),
{
    if history.len() == 0 {
        if entries.contains_key(key) {
            Some(entries[key])
        } else {
            None
        }
    } else {
        let earlier = last_written(entries, history.drop_last(), key);
        match history.last() {
            StoreCommand::Write(to, value) => if to@ == key {
                Some(value@)
            } else {
                earlier
            },
            StoreCommand::WriteBatch(pairs) => match last_value(pair_views(pairs@), key) {
                Some(value) => Some(value),
                None => earlier,
            },
            StoreCommand::Delete(gone) => if gone@ == key {
                None
            } else {
                earlier
            },
            _ => earlier,
        }
    }
}

/// The entries of a database that never fails, after some commands.
pub open spec fn entries_after<R, N>(
    entries: Map<Seq<u8>, Seq<u8>>,
    history: Seq<StoreCommand<R, N>>,
) -> Map<Seq<u8>, Seq<u8>>
    decreases history.len(),
{
    if history.len() == 0 {
        entries
    } else {
        next_entries(entries_after(entries, history.drop_last()), history.last())
    }
}

/// Who waits after some commands, each with what the database found.
pub open spec fn waiting_after<R, N, E>(
    waiting: Map<Seq<u8>, Seq<N>>,
    history: Seq<(StoreCommand<R, N>, Result<Option<Value>, E>)>,
) -> Map<Seq<u8>, Seq<N>>
    decreases history.len(),
{
    if history.len() == 0 {
        waiting
    } else {
        let (command, found) = history.last();
        next_waiting(waiting_after(waiting, history.drop_last()), command, found)
    }
}

/// Each of `readers` gets `value`, by the answers that start at the given place.
pub open spec fn answered_at<N, E>(
    answers: Seq<(N, Result<Seq<u8>, E>)>,
    readers: Seq<N>,
    value: Seq<u8>,
    place: int,
) -> bool {
    &&& 0 <= place
    &&& place + readers.len() <= answers.len()
    &&& answers.subrange(place, place + readers.len()) == all_get::<N, E>(readers, value)
}

/// Each of `readers` gets `value`, one right after the other.
pub open spec fn all_answered<N, E>(
    answers: Seq<(N, Result<Seq<u8>, E>)>,
    readers: Seq<N>,
    value: Seq<u8>,
) -> bool {
    exists|place: int| #[trigger] answered_at::<N, E>(answers, readers, value, place)
}

proof fn lemma_batch_entries(
    entries: Map<Seq<u8>, Seq<u8>>,
    pairs: Seq<(Seq<u8>, Seq<u8>)>,
    key: Seq<u8>,
)
    ensures
        match last_value(pairs, key) {
            Some(value) => batch_entries(entries, pairs).contains_key(key) && batch_entries(
                entries,
                pairs,
            )[key] == value,
            None => {
                &&& batch_entries(entries, pairs).contains_key(key) == entries.contains_key(key)
                &&& entries.contains_key(key) ==> batch_entries(entries, pairs)[key] == entries[key]
            },
        },
    decreases pairs.len(),
{
    if pairs.len() > 0 {
        lemma_batch_entries(entries, pairs.drop_last(), key);
    }
}

proof fn lemma_entries_after<R, N>(
    entries: Map<Seq<u8>, Seq<u8>>,
    history: Seq<StoreCommand<R, N>>,
    key: Seq<u8>,
)
    ensures
        last_written(entries, history, key) == (if entries_after(entries, history).contains_key(
            key,
        ) {
            Some(entries_after(entries, history)[key])
        } else {
            None
        }),
    decreases history.len(),
{
    if history.len() > 0 {
        lemma_entries_after(entries, history.drop_last(), key);
        if let StoreCommand::WriteBatch(pairs) = history.last() {
            lemma_batch_entries(
                entries_after(entries, history.drop_last()),
                pair_views(pairs@),
                key,
            );
        }
    }
}

/// Whatever was asked of the store before, a read gives back what the last write to its key
/// wrote, and nothing if the key was deleted since. Reading changes nothing.
pub proof fn law_read_gives_last_write<R, N, E>(
    entries: Map<Seq<u8>, Seq<u8>>,
    waiting: Map<Seq<u8>, Seq<N>>,
    history: Seq<StoreCommand<R, N>>,
    key: Key,
    reader: R,
    found: Result<Option<Value>, E>,
)
    requires
        finds(
            entries_after(entries, history),
            StoreCommand::<R, N>::Read(key, reader),
            found,
        ),
    ensures
        match (
            next_read(StoreCommand::<R, N>::Read(key, reader), found),
            last_written(entries, history, key@),
        ) {
            (Some((to, Ok(Some(read)))), Some(value)) => to == reader && read@ == value,
            (Some((to, Ok(None))), None) => to == reader,
            _ => false,
        },
        entries_after(entries, history.push(StoreCommand::Read(key, reader))) == entries_after(
            entries,
            history,
        ),
        next_waiting(waiting, StoreCommand::<R, N>::Read(key, reader), found) == waiting,
{
    lemma_entries_after(entries, history, key@);
    assert(history.push(StoreCommand::Read(key, reader)).drop_last() =~= history);
}

proof fn lemma_batch_keeps_waiting<N>(
    waiting: Map<Seq<u8>, Seq<N>>,
    pairs: Seq<(Seq<u8>, Seq<u8>)>,
    key: Seq<u8>,
)
    ensures
        first_value(pairs, key) is None ==> waiting_for(batch_waiting(waiting, pairs), key)
            == waiting_for(waiting, key),
        first_value(pairs, key) is Some ==> !batch_waiting(waiting, pairs).contains_key(key),
    decreases pairs.len(),
{
    if pairs.len() > 0 {
        lemma_batch_keeps_waiting(waiting, pairs.drop_last(), key);
    }
}

proof fn lemma_batch_answers<N, E>(
    waiting: Map<Seq<u8>, Seq<N>>,
    pairs: Seq<(Seq<u8>, Seq<u8>)>,
    key: Seq<u8>,
)
    requires
        first_value(pairs, key) is Some,
    ensures
        all_answered::<N, E>(
            batch_answers(waiting, pairs),
            waiting_for(waiting, key),
            first_value(pairs, key)->0,
        ),
    decreases pairs.len(),
{
    let front = pairs.drop_last();
    let readers = waiting_for(waiting, key);
    let value = first_value(pairs, key)->0;
    let earlier = batch_answers::<N, E>(waiting, front);
    let all = batch_answers::<N, E>(waiting, pairs);
    if first_value(front, key) is Some {
        lemma_batch_answers::<N, E>(waiting, front, key);
        let place = choose|place: int| #[trigger]
            answered_at::<N, E>(earlier, readers, value, place);
        assert(all.subrange(place, place + readers.len()) =~= earlier.subrange(
            place,
            place + readers.len(),
        ));
        assert(answered_at::<N, E>(all, readers, value, place));
    } else {
        lemma_batch_keeps_waiting(waiting, front, key);
        let place = earlier.len() as int;
        assert(all.subrange(place, place + readers.len()) =~= all_get::<N, E>(readers, value));
        assert(answered_at::<N, E>(all, readers, value, place));
    }
}

proof fn lemma_keeps_waiting<R, N, E>(
    waiting: Map<Seq<u8>, Seq<N>>,
    history: Seq<(StoreCommand<R, N>, Result<Option<Value>, E>)>,
    key: Seq<u8>,
)
    requires
        forall|i: int|
            0 <= i < history.len() ==> first_written((#[trigger] history[i]).0, key) is None,
    ensures
        waiting_for(waiting, key).is_prefix_of(waiting_for(waiting_after(waiting, history), key)),
    decreases history.len(),
{
    let readers = waiting_for(waiting, key);
    if history.len() > 0 {
        let front = history.drop_last();
        assert forall|i: int| 0 <= i < front.len() implies first_written(
            (#[trigger] front[i]).0,
            key,
        ) is None by {
            assert(front[i] == history[i]);
        }
        lemma_keeps_waiting(waiting, front, key);
        assert(history[history.len() - 1] == history.last());
        if let StoreCommand::WriteBatch(pairs) = history.last().0 {
            lemma_batch_keeps_waiting(waiting_after(waiting, front), pair_views(pairs@), key);
        }
    }
}

/// A reader that wants to be notified of a key with a value gets the value at once.
pub proof fn law_notified_at_once<R, N, E>(
    entries: Map<Seq<u8>, Seq<u8>>,
    waiting: Map<Seq<u8>, Seq<N>>,
    key: Key,
    reader: N,
    found: Result<Option<Value>, E>,
)
    requires
        entries.contains_key(key@),
        finds(entries, StoreCommand::<R, N>::NotifyRead(key, reader), found),
    ensures
        next_answers(waiting, StoreCommand::<R, N>::NotifyRead(key, reader), found) == seq![
            (reader, Ok::<Seq<u8>, E>(entries[key@])),
        ],
        next_waiting(waiting, StoreCommand::<R, N>::NotifyRead(key, reader), found) == waiting,
{
}

/// A reader that wants to be notified of a key without a value waits behind those who asked
/// before, whatever else is asked of the store, until the first command that writes to the key.
/// Then all who wait for the key get the first value that is written to it, in the order in which
/// they asked, and nobody waits for the key any longer.
pub proof fn law_notified_by_first_write<R, N, E>(
    waiting: Map<Seq<u8>, Seq<N>>,
    key: Key,
    reader: N,
    history: Seq<(StoreCommand<R, N>, Result<Option<Value>, E>)>,
    write: StoreCommand<R, N>,
    found: Result<Option<Value>, E>,
)
    requires
        forall|i: int|
            0 <= i < history.len() ==> first_written((#[trigger] history[i]).0, key@) is None,
        first_written(write, key@) is Some,
    ensures
        ({
            let asked = next_waiting(
                waiting,
                StoreCommand::<R, N>::NotifyRead(key, reader),
                Ok::<Option<Value>, E>(None),
            );
            let before = waiting_after(asked, history);
            let readers = waiting_for(before, key@);
            &&& waiting_for(waiting, key@).push(reader).is_prefix_of(readers)
            &&& all_answered::<N, E>(
                next_answers(before, write, found),
                readers,
                first_written(write, key@)->0,
            )
            &&& !next_waiting(before, write, found).contains_key(key@)
        }),
{
    let asked = next_waiting(
        waiting,
        StoreCommand::<R, N>::NotifyRead(key, reader),
        Ok::<Option<Value>, E>(None),
    );
    let before = waiting_after(asked, history);
    let readers = waiting_for(before, key@);
    assert(waiting_for(asked, key@) == waiting_for(waiting, key@).push(reader));
    lemma_keeps_waiting(asked, history, key@);
    match write {
        StoreCommand::Write(_, value) => {
            let answers = next_answers::<R, N, E>(before, write, found);
            assert(answers.subrange(0, readers.len() as int) =~= all_get::<N, E>(readers, value@));
            assert(answered_at::<N, E>(answers, readers, value@, 0));
            assert(all_answered::<N, E>(answers, readers, value@));
        },
        StoreCommand::WriteBatch(pairs) => {
            lemma_batch_answers::<N, E>(before, pair_views(pairs@), key@);
            lemma_batch_keeps_waiting(before, pair_views(pairs@), key@);
        },
        _ => {},
    }
}

} // verus!
