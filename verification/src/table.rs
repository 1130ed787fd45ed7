//! A table from byte strings to values that keeps its entries in the order of their insertion.

use vstd::prelude::*;
use crate::bytes::bytes_eq;

verus! {

/// A table from byte strings to values.
#[derive(Debug)]
pub struct Table<V> {
    entries: Vec<(Vec<u8>, V)>,
}

/// What a list of entries holds.
pub open spec fn entries_map<V>(entries: Seq<(Vec<u8>, V)>) -> Map<Seq<u8>, V>
    decreases entries.len(),
{
    if entries.len() == 0 {
        Map::empty()
    } else {
        entries_map(entries.drop_last()).insert(entries.last().0@, entries.last().1)
    }
}

/// The keys of a list of entries, in order.
pub open spec fn entry_keys<V>(entries: Seq<(Vec<u8>, V)>) -> Seq<Seq<u8>> {
    Seq::new(entries.len(), |i: int| entries[i].0@)
}

proof fn lemma_front_keys<V>(entries: Seq<(Vec<u8>, V)>)
    requires
        entries.len() > 0,
    ensures
        entry_keys(entries.drop_last()) == entry_keys(entries).drop_last(),
        entry_keys(entries).no_duplicates() ==> entry_keys(entries.drop_last()).no_duplicates(),
{
    let (keys, front) = (entry_keys(entries), entry_keys(entries.drop_last()));
    assert(front =~= keys.drop_last());
    if keys.no_duplicates() {
        assert forall|i: int, j: int| 0 <= i < front.len() && 0 <= j < front.len() && i != j implies front[i]
            != front[j] by {
            assert(front[i] == keys[i] && front[j] == keys[j]);
        }
    }
}

/// A key is in the table when an entry has it.
proof fn lemma_contains<V>(entries: Seq<(Vec<u8>, V)>, key: Seq<u8>)
    ensures
        entries_map(entries).contains_key(key) <==> entry_keys(entries).contains(key),
    decreases entries.len(),
{
    if entries.len() > 0 {
        let (keys, front) = (entry_keys(entries), entry_keys(entries.drop_last()));
        lemma_front_keys(entries);
        lemma_contains(entries.drop_last(), key);
        if front.contains(key) {
            let i = choose|i: int| 0 <= i < front.len() && front[i] == key;
            assert(keys[i] == key);
        }
        if keys.contains(key) && key != entries.last().0@ {
            let i = choose|i: int| 0 <= i < keys.len() && keys[i] == key;
            assert(front[i] == key);
        }
        if key == entries.last().0@ {
            assert(keys[keys.len() - 1] == key);
        }
    }
}

/// Each entry is in the table.
proof fn lemma_entry<V>(entries: Seq<(Vec<u8>, V)>, i: int)
    requires
        entry_keys(entries).no_duplicates(),
        0 <= i < entries.len(),
    ensures
        entries_map(entries).contains_key(entries[i].0@),
        entries_map(entries)[entries[i].0@] == entries[i].1,
    decreases entries.len(),
{
    lemma_front_keys(entries);
    if i < entries.len() - 1 {
        lemma_entry(entries.drop_last(), i);
        let keys = entry_keys(entries);
        assert(keys[i] != keys[entries.len() - 1]);
    }
}

/// Changing the value of an entry changes the table at its key.
proof fn lemma_update<V>(entries: Seq<(Vec<u8>, V)>, i: int, entry: (Vec<u8>, V))
    requires
        entry_keys(entries).no_duplicates(),
        0 <= i < entries.len(),
        entry.0@ == entries[i].0@,
    ensures
        entries_map(entries.update(i, entry)) == entries_map(entries).insert(entry.0@, entry.1),
        entry_keys(entries.update(i, entry)) == entry_keys(entries),
    decreases entries.len(),
{
    let after = entries.update(i, entry);
    assert(entry_keys(after) =~= entry_keys(entries));
    lemma_front_keys(entries);
    let front = entries.drop_last();
    if i < entries.len() - 1 {
        lemma_update(front, i, entry);
        assert(after.drop_last() =~= front.update(i, entry));
        let keys = entry_keys(entries);
        assert(keys[i] != keys[entries.len() - 1]);
        assert(entries_map(after) =~= entries_map(entries).insert(entry.0@, entry.1));
    } else {
        assert(after.drop_last() =~= front);
        assert(entries_map(after) =~= entries_map(entries).insert(entry.0@, entry.1));
    }
}

/// Removing an entry removes its key from the table.
proof fn lemma_remove<V>(entries: Seq<(Vec<u8>, V)>, i: int)
    requires
        entry_keys(entries).no_duplicates(),
        0 <= i < entries.len(),
    ensures
        entries_map(entries.remove(i)) == entries_map(entries).remove(entries[i].0@),
        entry_keys(entries.remove(i)) == entry_keys(entries).remove(i),
        entry_keys(entries.remove(i)).no_duplicates(),
    decreases entries.len(),
{
    let after = entries.remove(i);
    let keys = entry_keys(entries);
    assert(entry_keys(after) =~= keys.remove(i));
    assert forall|x: int, y: int|
        0 <= x < after.len() && 0 <= y < after.len() && x != y implies entry_keys(after)[x]
        != entry_keys(after)[y] by {
        let (p, q) = (if x < i { x } else { x + 1 }, if y < i { y } else { y + 1 });
        assert(entry_keys(after)[x] == keys[p] && entry_keys(after)[y] == keys[q]);
    }
    lemma_front_keys(entries);
    let front = entries.drop_last();
    if i < entries.len() - 1 {
        lemma_remove(front, i);
        assert(after.drop_last() =~= front.remove(i));
        assert(after.last() == entries.last());
        assert(keys[i] != keys[entries.len() - 1]);
        assert(entries_map(after) =~= entries_map(entries).remove(entries[i].0@));
    } else {
        assert(after =~= front);
        lemma_contains(front, entries[i].0@);
        assert(!entry_keys(front).contains(entries[i].0@)) by {
            if entry_keys(front).contains(entries[i].0@) {
                let j = choose|j: int| 0 <= j < front.len() && entry_keys(front)[j] == entries[i].0@;
                assert(keys[j] == keys[i]);
            }
        }
        assert(entries_map(after) =~= entries_map(entries).remove(entries[i].0@));
    }
}

impl<V> View for Table<V> {
    type V = Map<Seq<u8>, V>;

    closed spec fn view(&self) -> Map<Seq<u8>, V> {
        entries_map(self.entries@)
    }
}

impl<V> Table<V> {
    /// No key occurs twice.
    pub closed spec fn wf(&self) -> bool {
        entry_keys(self.entries@).no_duplicates()
    }

    /// The keys, in the order in which they came.
    pub closed spec fn keys(&self) -> Seq<Seq<u8>> {
        entry_keys(self.entries@)
    }

    /// The keys in order are the keys of the table.
    pub proof fn lemma_keys(&self)
        requires
            self.wf(),
        ensures
            self.keys().no_duplicates(),
            forall|key: Seq<u8>| #[trigger]
                self.keys().contains(key) <==> self@.contains_key(key),
    {
        assert forall|key: Seq<u8>| #[trigger]
            self.keys().contains(key) <==> self@.contains_key(key) by {
            lemma_contains(self.entries@, key);
        }
    }

    /// An empty table.
    pub fn new() -> (table: Table<V>)
        ensures
            table.wf(),
            table@ == Map::<Seq<u8>, V>::empty(),
            table.keys() == Seq::<Seq<u8>>::empty(),
    {
        let table = Table { entries: Vec::new() };
        assert(table.keys() =~= Seq::<Seq<u8>>::empty());
        table
    }

    /// The number of entries.
    pub fn len(&self) -> (len: usize)
        ensures
            len == self.keys().len(),
    {
        self.entries.len()
    }

    /// The entry with the given key.
    pub fn find(&self, key: &[u8]) -> (place: Option<usize>)
        requires
            self.wf(),
        ensures
            match place {
                Some(i) => i < self.keys().len() && self.keys()[i as int] == key@
                    && self@.contains_key(key@),
                None => !self@.contains_key(key@),
            },
    {
        let mut i: usize = 0;
        while i < self.entries.len()
            invariant
                self.wf(),
                i <= self.entries@.len(),
                forall|j: int| 0 <= j < i ==> (#[trigger] self.entries@[j]).0@ != key@,
            decreases self.entries@.len() - i,
        {
            if bytes_eq(&self.entries[i].0, key) {
                proof {
                    lemma_entry(self.entries@, i as int);
                }
                return Some(i);
            }
            i = i + 1;
        }
        proof {
            lemma_contains(self.entries@, key@);
            if entry_keys(self.entries@).contains(key@) {
                let j = choose|j: int|
                    0 <= j < self.entries@.len() && entry_keys(self.entries@)[j] == key@;
                assert(self.entries@[j].0@ == key@);
            }
        }
        None
    }

    /// Whether the table has the key.
    pub fn contains(&self, key: &[u8]) -> (found: bool)
        requires
            self.wf(),
        ensures
            found == self@.contains_key(key@),
    {
        self.find(key).is_some()
    }

    /// The key at a place.
    pub fn key_at(&self, i: usize) -> (key: &Vec<u8>)
        requires
            i < self.keys().len(),
        ensures
            key@ == self.keys()[i as int],
    {
        &self.entries[i].0
    }

    /// The value at a place.
    pub fn value_at(&self, i: usize) -> (value: &V)
        requires
            self.wf(),
            i < self.keys().len(),
        ensures
            self@.contains_key(self.keys()[i as int]),
            *value == self@[self.keys()[i as int]],
    {
        proof {
            lemma_entry(self.entries@, i as int);
        }
        &self.entries[i].1
    }

    /// The value of a key.
    pub fn get(&self, key: &[u8]) -> (value: Option<&V>)
        requires
            self.wf(),
        ensures
            match value {
                Some(value) => self@.contains_key(key@) && *value == self@[key@],
                None => !self@.contains_key(key@),
            },
    {
        match self.find(key) {
            Some(i) => Some(self.value_at(i)),
            None => None,
        }
    }

    /// Gives `key` the value `value`. A new key comes last; an old one keeps its place.
    pub fn insert(&mut self, key: Vec<u8>, value: V)
        requires
            old(self).wf(),
        ensures
            final(self).wf(),
            final(self)@ == old(self)@.insert(key@, value),
            final(self).keys() == if old(self)@.contains_key(key@) {
                old(self).keys()
            } else {
                old(self).keys().push(key@)
            },
    {
        let place = self.find(&key);
        let ghost before = self.entries@;
        match place {
            Some(i) => {
                proof {
                    lemma_update(before, i as int, (key, value));
                }
                self.entries[i] = (key, value);
                assert(self.entries@ =~= before.update(i as int, (key, value)));
            },
            None => {
                proof {
                    lemma_contains(before, key@);
                }
                self.entries.push((key, value));
                let ghost after = self.entries@;
                assert(after.drop_last() =~= before);
                assert(entry_keys(after) =~= entry_keys(before).push(key@));
                assert forall|x: int, y: int|
                    0 <= x < after.len() && 0 <= y < after.len() && x != y implies entry_keys(
                    after,
                )[x] != entry_keys(after)[y] by {
                    let keys = entry_keys(before);
                    if x < keys.len() {
                        assert(keys.contains(keys[x]));
                    }
                    if y < keys.len() {
                        assert(keys.contains(keys[y]));
                    }
                }
            },
        }
    }

    /// Takes a key out of the table. The other keys keep their order.
    pub fn remove(&mut self, key: &[u8]) -> (value: Option<V>)
        requires
            old(self).wf(),
        ensures
            final(self).wf(),
            final(self)@ == old(self)@.remove(key@),
            value == if old(self)@.contains_key(key@) {
                Some(old(self)@[key@])
            } else {
                None
            },
            !old(self)@.contains_key(key@) ==> final(self).keys() == old(self).keys(),
            old(self)@.contains_key(key@) ==> exists|i: int|
                {
                    &&& 0 <= i < old(self).keys().len()
                    &&& old(self).keys()[i] == key@
                    &&& final(self).keys() == #[trigger] old(self).keys().remove(i)
                },
    {
        match self.find(key) {
            Some(i) => {
                proof {
                    lemma_entry(self.entries@, i as int);
                    lemma_remove(self.entries@, i as int);
                }
                let ghost before = self.entries@;
                let (_, value) = self.entries.remove(i);
                assert(self.entries@ == before.remove(i as int));
                Some(value)
            },
            None => {
                assert(self@.remove(key@) =~= self@);
                None
            },
        }
    }
}

} // verus!
