//! What a database takes up: the entries of shards, and the others by the length of their keys.

use std::collections::BTreeMap;
use vstd::prelude::*;

verus! {

/// The length of the key of a shard.
pub const SHARD_KEY_LEN: usize = 64;

/// What a database takes up.
#[derive(Debug)]
pub struct DbSummary {
    pub shard_keys: u64,
    pub shard_bytes: u64,
    pub other_keys: u64,
    pub other_bytes: u64,
    /// How many entries that are not shards there are, and how many bytes they have, by the
    /// length of their keys.
    pub key_lengths: BTreeMap<usize, (u64, u64)>,
}

/// The number of bytes of an entry, given the lengths of its key and its value.
pub open spec fn entry_bytes(entry: (usize, usize)) -> nat {
    (entry.0 + entry.1) as nat
}

/// The number of entries with keys of the given length.
pub open spec fn count_of(entries: Seq<(usize, usize)>, key_len: usize) -> nat
    decreases entries.len(),
{
    if entries.len() == 0 {
        0
    } else {
        count_of(entries.drop_last(), key_len) + if entries.last().0 == key_len {
            1nat
        } else {
            0
        }
    }
}

/// The number of bytes of the entries with keys of the given length.
pub open spec fn bytes_of(entries: Seq<(usize, usize)>, key_len: usize) -> nat
    decreases entries.len(),
{
    if entries.len() == 0 {
        0
    } else {
        bytes_of(entries.drop_last(), key_len) + if entries.last().0 == key_len {
            entry_bytes(entries.last())
        } else {
            0
        }
    }
}

/// The number of bytes of all entries.
pub open spec fn total_bytes(entries: Seq<(usize, usize)>) -> nat
    decreases entries.len(),
{
    if entries.len() == 0 {
        0
    } else {
        total_bytes(entries.drop_last()) + entry_bytes(entries.last())
    }
}

/// There is a count for every length that occurs, except for that of the keys of shards: the
/// number of entries with keys of this length, and the number of their bytes.
pub open spec fn counts_lengths(
    counts: Map<usize, (u64, u64)>,
    entries: Seq<(usize, usize)>,
) -> bool {
    &&& forall|key_len: usize| #[trigger]
        counts.contains_key(key_len) <==> key_len != SHARD_KEY_LEN && count_of(entries, key_len)
            > 0
    &&& forall|key_len: usize| #[trigger]
        counts.contains_key(key_len) ==> counts[key_len].0 == count_of(entries, key_len)
            && counts[key_len].1 == bytes_of(entries, key_len)
}

/// `summary` says what entries take up.
pub open spec fn sums_up(summary: &DbSummary, entries: Seq<(usize, usize)>) -> bool {
    &&& summary.shard_keys == count_of(entries, SHARD_KEY_LEN)
    &&& summary.shard_bytes == bytes_of(entries, SHARD_KEY_LEN)
    &&& summary.shard_keys + summary.other_keys == entries.len()
    &&& summary.shard_bytes + summary.other_bytes == total_bytes(entries)
    &&& counts_lengths(summary.key_lengths@, entries)
}

proof fn lemma_bytes_bounded(entries: Seq<(usize, usize)>, key_len: usize)
    ensures
        bytes_of(entries, key_len) <= total_bytes(entries),
        count_of(entries, key_len) <= entries.len(),
    decreases entries.len(),
{
    if entries.len() > 0 {
        lemma_bytes_bounded(entries.drop_last(), key_len);
    }
}

proof fn lemma_total_grows(entries: Seq<(usize, usize)>, n: int)
    requires
        0 <= n <= entries.len(),
    ensures
        total_bytes(entries.take(n)) <= total_bytes(entries),
    decreases entries.len() - n,
{
    if n == entries.len() {
        assert(entries.take(n) =~= entries);
    } else {
        lemma_total_grows(entries, n + 1);
        assert(entries.take(n + 1).drop_last() =~= entries.take(n));
    }
}

/// Counts one more entry with a key of the given length.
fn count_entry(
    counts: &mut BTreeMap<usize, (u64, u64)>,
    entries: &Vec<(usize, usize)>,
    n: usize,
)
    requires
        n < entries@.len(),
        entries@[n as int].0 != SHARD_KEY_LEN,
        total_bytes(entries@) <= u64::MAX,
        counts_lengths(old(counts)@, entries@.take(n as int)),
    ensures
        counts_lengths(final(counts)@, entries@.take(n + 1)),
{
    broadcast use vstd::std_specs::btree::group_btree_axioms;

    let ghost seen = entries@.take(n as int);
    let ghost longer = entries@.take(n + 1);
    let ghost before = counts@;
    assert(longer.drop_last() =~= seen);
    assert(longer.last() == entries@[n as int]);
    let key_len: usize = entries[n].0;
    proof {
        lemma_total_grows(entries@, n + 1);
        lemma_bytes_bounded(longer, key_len);
        lemma_bytes_bounded(seen, key_len);
        lemma_no_bytes(seen, key_len);
    }
    assert(entry_bytes(entries@[n as int]) <= u64::MAX);
    let bytes: u64 = entries[n].0 as u64 + entries[n].1 as u64;
    let (count, total): (u64, u64) = match counts.get(&key_len) {
        Some(found) => *found,
        None => (0, 0),
    };
    assert(count == count_of(seen, key_len) && total == bytes_of(seen, key_len));
    assert(count <= n && n < entries.len());
    counts.insert(key_len, (count + 1, total + bytes));
    assert(counts@ == before.insert(key_len, ((count + 1) as u64, (total + bytes) as u64)));
}

proof fn lemma_no_bytes(entries: Seq<(usize, usize)>, key_len: usize)
    ensures
        count_of(entries, key_len) == 0 ==> bytes_of(entries, key_len) == 0,
    decreases entries.len(),
{
    if entries.len() > 0 {
        lemma_no_bytes(entries.drop_last(), key_len);
    }
}

/// Sums up the entries of a database, given the lengths of their keys and values.
pub fn summarize(entries: &Vec<(usize, usize)>) -> (summary: DbSummary)
    requires
        total_bytes(entries@) <= u64::MAX,
    ensures
        sums_up(&summary, entries@),
{
    let mut summary = DbSummary {
        shard_keys: 0,
        shard_bytes: 0,
        other_keys: 0,
        other_bytes: 0,
        key_lengths: BTreeMap::new(),
    };
    let mut i: usize = 0;
    while i < entries.len()
        invariant
            i <= entries@.len(),
            total_bytes(entries@) <= u64::MAX,
            sums_up(&summary, entries@.take(i as int)),
        decreases entries@.len() - i,
    {
        let ghost longer = entries@.take(i + 1);
        assert(longer.drop_last() =~= entries@.take(i as int));
        assert(longer.last() == entries@[i as int]);
        proof {
            lemma_total_grows(entries@, i + 1);
            lemma_bytes_bounded(longer, SHARD_KEY_LEN);
        }
        assert(entry_bytes(entries@[i as int]) <= u64::MAX);
        let bytes: u64 = entries[i].0 as u64 + entries[i].1 as u64;
        if entries[i].0 == SHARD_KEY_LEN {
            summary.shard_keys = summary.shard_keys + 1;
            summary.shard_bytes = summary.shard_bytes + bytes;
            proof {
                lemma_shard_counts_alone(summary.key_lengths@, entries@.take(i as int), longer);
            }
        } else {
            summary.other_keys = summary.other_keys + 1;
            summary.other_bytes = summary.other_bytes + bytes;
            count_entry(&mut summary.key_lengths, entries, i);
        }
        i = i + 1;
    }
    assert(entries@.take(i as int) =~= entries@);
    summary
}

/// One more shard does not change the other counts.
proof fn lemma_shard_counts_alone(
    counts: Map<usize, (u64, u64)>,
    seen: Seq<(usize, usize)>,
    longer: Seq<(usize, usize)>,
)
    requires
        counts_lengths(counts, seen),
        longer.len() > 0,
        longer.drop_last() == seen,
        longer.last().0 == SHARD_KEY_LEN,
    ensures
        counts_lengths(counts, longer),
{
}

/// What several databases take up together.
#[derive(Clone, Copy, Debug)]
pub struct Totals {
    pub shard_keys: u64,
    pub shard_bytes: u64,
    pub other_keys: u64,
    pub other_bytes: u64,
}

impl Totals {
    /// Adds what one more database takes up.
    pub fn add_database(&mut self, summary: &DbSummary)
        requires
            old(self).shard_keys + summary.shard_keys <= u64::MAX,
            old(self).shard_bytes + summary.shard_bytes <= u64::MAX,
            old(self).other_keys + summary.other_keys <= u64::MAX,
            old(self).other_bytes + summary.other_bytes <= u64::MAX,
        ensures
            final(self).shard_keys == old(self).shard_keys + summary.shard_keys,
            final(self).shard_bytes == old(self).shard_bytes + summary.shard_bytes,
            final(self).other_keys == old(self).other_keys + summary.other_keys,
            final(self).other_bytes == old(self).other_bytes + summary.other_bytes,
    {
        self.shard_keys = self.shard_keys + summary.shard_keys;
        self.shard_bytes = self.shard_bytes + summary.shard_bytes;
        self.other_keys = self.other_keys + summary.other_keys;
        self.other_bytes = self.other_bytes + summary.other_bytes;
    }
}

/// The average number of bytes of an entry, zero if there is none.
pub fn average(bytes: u64, entries: u64) -> (average: u64)
    ensures
        average == if entries > 0 {
            bytes / entries
        } else {
            0
        },
{
    if entries > 0 {
        bytes / entries
    } else {
        0
    }
}

} // verus!
