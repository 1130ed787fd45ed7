//! How large the blocks of a chain are.

use vstd::prelude::*;
use crate::coding;
use crate::messages::Block;

verus! {

/// The sizes of non-empty blocks.
#[derive(Clone, Copy, Debug)]
pub struct SizeStats {
    pub total: usize,
    pub average: usize,
    pub smallest: usize,
    pub largest: usize,
}

/// The number of bytes of the batches of a block.
pub open spec fn payload_size(payload: Seq<Vec<u8>>) -> nat {
    coding::joined(coding::shard_views(payload)).len()
}

/// The number of bytes of the batches of a block.
pub fn payload_bytes(payload: &Vec<Vec<u8>>) -> (size: usize)
    requires
        payload_size(payload@) <= usize::MAX,
    ensures
        size == payload_size(payload@),
{
    let ghost views = coding::shard_views(payload@);
    let mut size: usize = 0;
    let mut i: usize = 0;
    while i < payload.len()
        invariant
            i <= payload@.len(),
            views == coding::shard_views(payload@),
            coding::joined(views).len() <= usize::MAX,
            size == coding::joined(views.take(i as int)).len(),
        decreases payload@.len() - i,
    {
        assert(views.take(i + 1).drop_last() =~= views.take(i as int));
        assert(views.take(i + 1).last() == payload@[i as int]@);
        proof {
            lemma_joined_grows(views, i + 1);
        }
        size = size + payload[i].len();
        i = i + 1;
    }
    assert(views.take(i as int) =~= views);
    size
}

proof fn lemma_joined_grows(shards: Seq<Seq<u8>>, n: int)
    requires
        0 <= n <= shards.len(),
    ensures
        coding::joined(shards.take(n)).len() <= coding::joined(shards).len(),
    decreases shards.len() - n,
{
    if n == shards.len() {
        assert(shards.take(n) =~= shards);
    } else {
        lemma_joined_grows(shards, n + 1);
        assert(shards.take(n + 1).drop_last() =~= shards.take(n));
    }
}

/// The number of empty blocks after the first round.
pub open spec fn empty_blocks(blocks: Seq<Block>) -> nat
    decreases blocks.len(),
{
    if blocks.len() == 0 {
        0
    } else {
        let block = blocks.last();
        empty_blocks(blocks.drop_last()) + if block.round != 0 && payload_size(block.payload@) == 0 {
            1nat
        } else {
            0
        }
    }
}

/// The sizes of the non-empty blocks, leaving out those of round zero.
pub open spec fn block_sizes(blocks: Seq<Block>) -> Seq<nat>
    decreases blocks.len(),
{
    if blocks.len() == 0 {
        Seq::empty()
    } else {
        let block = blocks.last();
        let sizes = block_sizes(blocks.drop_last());
        if block.round != 0 && payload_size(block.payload@) > 0 {
            sizes.push(payload_size(block.payload@))
        } else {
            sizes
        }
    }
}

/// The sizes as natural numbers.
pub open spec fn as_nats(sizes: Seq<usize>) -> Seq<nat> {
    Seq::new(sizes.len(), |i: int| sizes[i] as nat)
}

/// The number of empty blocks, and the sizes of the others. Blocks of round zero do not count.
pub fn tally(blocks: &Vec<Block>) -> (tally: (usize, Vec<usize>))
    requires
        forall|i: int|
            0 <= i < blocks@.len() && (#[trigger] blocks@[i]).round != 0 ==> payload_size(
                blocks@[i].payload@,
            ) <= usize::MAX,
    ensures
        tally.0 == empty_blocks(blocks@),
        as_nats(tally.1@) == block_sizes(blocks@),
{
    let mut empty: usize = 0;
    let mut sizes: Vec<usize> = Vec::new();
    let mut i: usize = 0;
    assert(as_nats(sizes@) =~= block_sizes(blocks@.take(0)));
    while i < blocks.len()
        invariant
            i <= blocks@.len(),
            empty <= i,
            forall|j: int|
                0 <= j < blocks@.len() && (#[trigger] blocks@[j]).round != 0 ==> payload_size(
                    blocks@[j].payload@,
                ) <= usize::MAX,
            empty == empty_blocks(blocks@.take(i as int)),
            as_nats(sizes@) == block_sizes(blocks@.take(i as int)),
        decreases blocks@.len() - i,
    {
        assert(blocks@.take(i + 1).drop_last() =~= blocks@.take(i as int));
        assert(blocks@.take(i + 1).last() == blocks@[i as int]);
        if blocks[i].round != 0 {
            let size: usize = payload_bytes(&blocks[i].payload);
            if size == 0 {
                empty = empty + 1;
            } else {
                let ghost before = as_nats(sizes@);
                sizes.push(size);
                assert(as_nats(sizes@) =~= before.push(size as nat));
            }
        }
        i = i + 1;
    }
    assert(blocks@.take(i as int) =~= blocks@);
    (empty, sizes)
}

/// The sum of sizes.
pub open spec fn sum(sizes: Seq<usize>) -> nat
    decreases sizes.len(),
{
    if sizes.len() == 0 {
        0
    } else {
        sum(sizes.drop_last()) + sizes.last() as nat
    }
}

proof fn lemma_sum_grows(sizes: Seq<usize>, n: int)
    requires
        0 <= n <= sizes.len(),
    ensures
        sum(sizes.take(n)) <= sum(sizes),
    decreases sizes.len() - n,
{
    if n == sizes.len() {
        assert(sizes.take(n) =~= sizes);
    } else {
        lemma_sum_grows(sizes, n + 1);
        assert(sizes.take(n + 1).drop_last() =~= sizes.take(n));
    }
}

/// The sum, the average, the smallest and the largest of sizes; `None` if there is no size.
pub fn stats(sizes: &Vec<usize>) -> (stats: Option<SizeStats>)
    requires
        sum(sizes@) <= usize::MAX,
    ensures
        stats is None <==> sizes@.len() == 0,
        stats matches Some(stats) ==> {
            &&& stats.total == sum(sizes@)
            &&& stats.average == sum(sizes@) / sizes@.len()
            &&& sizes@.contains(stats.smallest)
            &&& sizes@.contains(stats.largest)
            &&& forall|i: int|
                0 <= i < sizes@.len() ==> stats.smallest <= #[trigger] sizes@[i] <= stats.largest
        },
{
    if sizes.len() == 0 {
        return None;
    }
    let mut total: usize = 0;
    let mut smallest: usize = sizes[0];
    let mut largest: usize = sizes[0];
    let mut i: usize = 0;
    assert(sizes@.contains(sizes@[0]));
    while i < sizes.len()
        invariant
            i <= sizes@.len(),
            sum(sizes@) <= usize::MAX,
            total == sum(sizes@.take(i as int)),
            sizes@.contains(smallest),
            sizes@.contains(largest),
            forall|j: int| 0 <= j < i ==> smallest <= #[trigger] sizes@[j] <= largest,
        decreases sizes@.len() - i,
    {
        assert(sizes@.take(i + 1).drop_last() =~= sizes@.take(i as int));
        proof {
            lemma_sum_grows(sizes@, i + 1);
        }
        assert(sizes@.contains(sizes@[i as int]));
        total = total + sizes[i];
        if sizes[i] < smallest {
            smallest = sizes[i];
        }
        if sizes[i] > largest {
            largest = sizes[i];
        }
        i = i + 1;
    }
    assert(sizes@.take(i as int) =~= sizes@);
    Some(SizeStats { total, average: total / sizes.len(), smallest, largest })
}

} // verus!
