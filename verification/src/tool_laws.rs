//! What the keys and signatures, the benchmarks and the tools compute, in terms of their inputs
//! alone.

use vstd::prelude::*;
use crate::batch_laws;
use crate::block_sizes::{self, payload_bytes, stats, tally, SizeStats};
use crate::bytes::{u64_from_le_bytes, u64_le_bytes};
use crate::coding::{self, Shard};
use crate::crypto::{self, Digest, PublicKey, SecretKey, Signature};
use crate::inspector::{self, average, summarize, DbSummary, Totals};
use crate::mempool_laws;
use crate::merkle_bench::{self, build_shards, build_tree, root_node};
use crate::messages::Block;
use crate::simple_sharding::shard_counts;
use crate::smt::{self, Tree};

verus! {

/// A number is written in eight bytes, the lowest first, and reading them gives it back.
pub proof fn law_numbers_come_back(value: u64, out: Vec<u8>, bytes: &[u8], read: u64)
    requires
        call_ensures(u64_le_bytes, (value,), out),
        bytes@ == out@,
        call_ensures(u64_from_le_bytes, (bytes,), read),
    ensures
        read == value,
        out@.len() == 8,
        mempool_laws::is_key_of(out@, Seq::empty(), value as int),
{
    mempool_laws::lemma_key(Seq::empty(), value as nat);
    assert(out@ =~= crate::keys::shard_key_of(Seq::empty(), value as nat));
    assert(vstd::arithmetic::power::pow(256, 8) == 0x1_0000_0000_0000_0000) by {
        reveal_with_fuel(vstd::arithmetic::power::pow, 9);
    }
    crate::bytes::lemma_le_value(value as nat, 8);
}

/// A signature is made with the secret over the digest, and is checked over the digest with the
/// key, in its two halves; the key is the one that belongs to the secret.
pub proof fn law_signatures_are_over_the_digest(
    digest: &Digest,
    secret: &SecretKey,
    made: Signature,
    key: PublicKey,
    signature: &Signature,
    by: &PublicKey,
    accepted: bool,
    flat: [u8; 64],
)
    requires
        call_ensures(Signature::new, (digest, secret), made),
        call_ensures(SecretKey::public_key, (secret,), key),
        call_ensures(Signature::verify, (signature, digest, by), accepted),
        call_ensures(Signature::flatten, (signature,), flat),
    ensures
        made.part1@ + made.part2@ == crypto::signature_by(secret.0@, digest.0@),
        key.0@ == crypto::public_key_of(secret.0@),
        accepted == crypto::signature_accepted(
            digest.0@,
            by.0@,
            signature.part1@ + signature.part2@,
        ),
        forall|i: int| 0 <= i < 32 ==> #[trigger] flat@[i] == signature.part1@[i],
        forall|i: int| 0 <= i < 32 ==> #[trigger] flat@[32 + i] == signature.part2@[i],
{
}

/// The number of bytes of a block is that of all its batches together.
pub proof fn law_blocks_are_as_large_as_their_batches(payload: &Vec<Vec<u8>>, size: usize)
    requires
        call_ensures(payload_bytes, (payload,), size),
    ensures
        size == batch_laws::all_transactions(payload@).len(),
{
    batch_laws::lemma_all_transactions(payload@);
}

/// The sizes that are tallied are those of the blocks that are neither empty nor of round zero, in
/// order, and the others that are not of round zero are counted.
pub proof fn law_blocks_are_tallied(blocks: &Vec<Block>, counted: (usize, Vec<usize>))
    requires
        call_ensures(tally, (blocks,), counted),
    ensures
        counted.0 == blocks@.filter(
            |block: Block|
                block.round != 0 && batch_laws::all_transactions(block.payload@).len() == 0,
        ).len(),
        counted.1@.map_values(|size: usize| size as nat) == blocks@.filter(
            |block: Block|
                block.round != 0 && batch_laws::all_transactions(block.payload@).len() > 0,
        ).map_values(|block: Block| batch_laws::all_transactions(block.payload@).len()),
{
    lemma_tally(blocks@);
    assert(block_sizes::as_nats(counted.1@) =~= counted.1@.map_values(
        |size: usize| size as nat,
    ));
}

proof fn lemma_tally(blocks: Seq<Block>)
    ensures
        block_sizes::empty_blocks(blocks) == blocks.filter(
            |block: Block|
                block.round != 0 && batch_laws::all_transactions(block.payload@).len() == 0,
        ).len(),
        block_sizes::block_sizes(blocks) == blocks.filter(
            |block: Block|
                block.round != 0 && batch_laws::all_transactions(block.payload@).len() > 0,
        ).map_values(|block: Block| batch_laws::all_transactions(block.payload@).len()),
    decreases blocks.len(),
{
    let empty = |block: Block|
        block.round != 0 && batch_laws::all_transactions(block.payload@).len() == 0;
    let full = |block: Block|
        block.round != 0 && batch_laws::all_transactions(block.payload@).len() > 0;
    let size = |block: Block| batch_laws::all_transactions(block.payload@).len();
    reveal(Seq::filter);
    if blocks.len() == 0 {
        assert(blocks.filter(full).map_values(size) =~= Seq::empty());
        assert(block_sizes::block_sizes(blocks) =~= Seq::empty());
    } else {
        lemma_tally(blocks.drop_last());
        let last = blocks.last();
        batch_laws::lemma_all_transactions(last.payload@);
        let fewer = blocks.drop_last().filter(full);
        if full(last) {
            assert(fewer.push(last).map_values(size) =~= fewer.map_values(size).push(size(last)));
        }
    }
}

/// The sum of sizes is that of all of them, the average their share of it, and the smallest and the
/// largest are among them with none beyond.
pub proof fn law_sizes_are_summed_up(sizes: &Vec<usize>, found: Option<SizeStats>)
    requires
        call_ensures(stats, (sizes,), found),
    ensures
        found is None <==> sizes@.len() == 0,
        found is Some ==> {
            let all = found->0;
            &&& all.total == sizes@.fold_left(0int, |sum: int, size: usize| sum + size)
            &&& all.average * sizes@.len() <= all.total
            &&& all.total < (all.average + 1) * sizes@.len()
            &&& exists|i: int| 0 <= i < sizes@.len() && #[trigger] sizes@[i] == all.smallest
            &&& exists|i: int| 0 <= i < sizes@.len() && #[trigger] sizes@[i] == all.largest
            &&& forall|i: int|
                0 <= i < sizes@.len() ==> all.smallest <= #[trigger] sizes@[i] <= all.largest
        },
{
    lemma_sum(sizes@);
    if found is Some {
        let all = found->0;
        let n = sizes@.len() as int;
        vstd::arithmetic::div_mod::lemma_fundamental_div_mod(all.total as int, n);
        vstd::arithmetic::div_mod::lemma_mod_bound(all.total as int, n);
        assert(n * all.average == all.average * n) by (nonlinear_arith);
        assert((all.average + 1) * n == all.average * n + n) by (nonlinear_arith);
    }
}

proof fn lemma_sum(sizes: Seq<usize>)
    ensures
        block_sizes::sum(sizes) == sizes.fold_left(0int, |sum: int, size: usize| sum + size),
    decreases sizes.len(),
{
    reveal(Seq::fold_left);
    if sizes.len() > 0 {
        lemma_sum(sizes.drop_last());
    }
}

/// The entries with keys of one length.
pub open spec fn of_length(entries: Seq<(usize, usize)>, key_len: usize) -> Seq<(usize, usize)> {
    entries.filter(|entry: (usize, usize)| entry.0 == key_len)
}

/// The bytes of some entries, keys and values together.
pub open spec fn bytes_in(entries: Seq<(usize, usize)>) -> int {
    entries.fold_left(0int, |sum: int, entry: (usize, usize)| sum + entry.0 + entry.1)
}

/// Entries are counted by the length of their keys: those of 64 bytes are shards, and all others
/// are counted together and by their length.
pub proof fn law_entries_are_counted_by_length(
    entries: &Vec<(usize, usize)>,
    summary: DbSummary,
    key_len: usize,
)
    requires
        call_ensures(summarize, (entries,), summary),
    ensures
        summary.shard_keys == of_length(entries@, 64).len(),
        summary.shard_bytes == bytes_in(of_length(entries@, 64)),
        summary.shard_keys + summary.other_keys == entries@.len(),
        summary.shard_bytes + summary.other_bytes == bytes_in(entries@),
        summary.key_lengths@.contains_key(key_len) <==> key_len != 64 && of_length(
            entries@,
            key_len,
        ).len() > 0,
        summary.key_lengths@.contains_key(key_len) ==> {
            &&& summary.key_lengths@[key_len].0 == of_length(entries@, key_len).len()
            &&& summary.key_lengths@[key_len].1 == bytes_in(of_length(entries@, key_len))
        },
{
    lemma_counts(entries@, 64);
    lemma_counts(entries@, key_len);
}

proof fn lemma_counts(entries: Seq<(usize, usize)>, key_len: usize)
    ensures
        inspector::count_of(entries, key_len) == of_length(entries, key_len).len(),
        inspector::bytes_of(entries, key_len) == bytes_in(of_length(entries, key_len)),
        inspector::total_bytes(entries) == bytes_in(entries),
    decreases entries.len(),
{
    reveal(Seq::filter);
    reveal(Seq::fold_left);
    if entries.len() > 0 {
        let front = entries.drop_last();
        let last = entries.last();
        lemma_counts(front, key_len);
        let fewer = of_length(front, key_len);
        if last.0 == key_len {
            assert(of_length(entries, key_len) == fewer.push(last));
            assert(fewer.push(last).drop_last() =~= fewer);
            assert(bytes_in(fewer.push(last)) == bytes_in(fewer) + last.0 + last.1);
        }
    }
}

/// Databases add up, and an average is the share of each entry.
pub proof fn law_databases_add_up(summary: &DbSummary, bytes: u64, entries: u64, share: u64)
    requires
        call_ensures(average, (bytes, entries), share),
    ensures
        entries == 0 ==> share == 0,
        entries > 0 ==> share * entries <= bytes < (share + 1) * entries,
        forall|totals: &mut Totals| #[trigger]
            call_ensures(Totals::add_database, (totals, summary), ()) ==> {
                &&& final(totals).shard_keys == totals.shard_keys + summary.shard_keys
                &&& final(totals).shard_bytes == totals.shard_bytes + summary.shard_bytes
                &&& final(totals).other_keys == totals.other_keys + summary.other_keys
                &&& final(totals).other_bytes == totals.other_bytes + summary.other_bytes
            },
{
    if entries > 0 {
        let (b, n) = (bytes as int, entries as int);
        vstd::arithmetic::div_mod::lemma_fundamental_div_mod(b, n);
        vstd::arithmetic::div_mod::lemma_mod_bound(b, n);
        assert(n * (b / n) == (b / n) * n) by (nonlinear_arith);
        assert((b / n + 1) * n == (b / n) * n + n) by (nonlinear_arith);
    }
}

/// A third of the shards, rounded down, holds the data, and there is one shard for each node.
pub proof fn law_a_third_holds_the_data(nodes: usize, counts: (usize, usize))
    requires
        call_ensures(shard_counts, (nodes,), counts),
    ensures
        counts.0 + counts.1 == nodes,
        3 * counts.0 <= nodes,
        nodes < 3 * counts.0 + 3,
{
}

/// The shards of the benchmark are told apart by their first two bytes, and are zero otherwise.
pub proof fn law_benchmark_shards_are_numbered(shards: Vec<Shard>, i: int, b: int)
    requires
        call_ensures(build_shards, (), shards),
        0 <= i < 70,
        0 <= b < 1024,
    ensures
        shards@.len() == 70,
        shards@[i]@.len() == 1024,
        shards@[i]@[0] + 256 * shards@[i]@[1] == i,
        b >= 2 ==> shards@[i]@[b] == 0,
{
    let views = coding::shard_views(shards@);
    assert(views.len() == shards@.len());
    assert(views[i] == merkle_bench::numbered_shard(i as nat));
}

/// The tree over shards is the lowest one of at least one level that has a place for each of them,
/// and its root is the one that the tree gives.
pub proof fn law_trees_are_no_taller_than_needed(shards: &Vec<Shard>, tree: Tree, root: [u8; 32])
    requires
        call_ensures(build_tree, (shards,), tree),
        call_ensures(root_node, (&tree,), root),
    ensures
        tree.height() > 0,
        shards@.len() <= smt::width(tree.height()),
        tree.height() > 1 ==> shards@.len() > smt::width((tree.height() - 1) as nat),
        tree.leaves().len() == shards@.len(),
        forall|i: int|
            0 <= i < shards@.len() ==> #[trigger] tree.leaves()[i] == crate::hashing::blake3_hash(
                smt::shard_message(shards@[i]@, i as nat),
            )@,
        root@ == tree.root(),
{
}

/// The three ways to check the shards of a node all accept what the tree over the shards gives for
/// them, where words have 64 bits.
pub proof fn law_all_ways_accept_what_the_tree_gives(
    all: &Vec<Shard>,
    tree: Tree,
    root: [u8; 32],
    node: usize,
    own: &Vec<Shard>,
    single: Vec<Vec<u8>>,
    batch: Vec<u8>,
    height: usize,
    a: bool,
    current: bool,
    b: bool,
)
    requires
        usize::BITS == 64,
        call_ensures(build_tree, (all,), tree),
        call_ensures(root_node, (&tree,), root),
        call_ensures(Tree::get_height, (&tree,), height),
        all@.len() <= usize::MAX,
        (node + 1) * 7 <= all@.len(),
        own@.len() == 7,
        forall|j: int| 0 <= j < 7 ==> (#[trigger] own@[j])@ == all@[node * 7 + j]@,
        call_ensures(merkle_bench::build_individual_proofs, (&tree, node), single),
        call_ensures(merkle_bench::build_batch_proof, (&tree, node), batch),
        call_ensures(
            merkle_bench::verify_option_a,
            (own, (node * 7) as usize, &single, &root),
            a,
        ),
        call_ensures(
            merkle_bench::verify_batch_current,
            (own, (node * 7) as usize, &batch, &root),
            current,
        ),
        call_ensures(
            merkle_bench::verify_option_b,
            (own, (node * 7) as usize, height, &batch, &root),
            b,
        ),
    ensures
        a,
        current,
        b,
        single@.len() == 7,
{
    let start = (node * 7) as nat;
    let views = coding::shard_views(own@);
    let leaves = tree.leaves();
    let due = smt::range_siblings(leaves, 0, start, 7, tree.height());
    assert forall|j: int| 0 <= j < 7 implies leaves[start + j] == smt::shard_leaf(
        (#[trigger] own@[j])@,
        (start + j) as nat,
    ) by {
        assert(own@[j]@ == all@[node * 7 + j]@);
        assert(coding::shard_views(all@)[start + j] == all@[start + j]@);
    }
    assert(merkle_bench::proved_by_tree(own@, start, single@, &tree));
    merkle_bench::law_tree_gives_exact_proofs(&tree, start, 7);
    assert(leaves.subrange(start as int, (start + 7) as int) =~= smt::shard_leaves(views, start));
    assert(merkle_bench::proves_range(batch@, &tree, start, 7));
}

/// Where all shards of a list are accepted bottom-up, the root is that of a tree in which they are
/// the leaves from their place on, as far as hashes tell messages apart.
pub proof fn law_accepted_shards_are_those_of_the_tree(
    all: &Vec<Shard>,
    tree: Tree,
    start: usize,
    own: &Vec<Shard>,
    siblings: &Vec<[u8; 32]>,
    height: usize,
    root: [u8; 32],
    accepted: bool,
)
    requires
        call_ensures(build_tree, (all,), tree),
        call_ensures(root_node, (&tree,), root),
        call_ensures(Tree::get_height, (&tree,), height),
        all@.len() <= usize::MAX,
        own@.len() > 0,
        start + own@.len() <= all@.len(),
        call_ensures(
            merkle_bench::range_accepted,
            (own, start, height, siblings, &root),
            accepted,
        ),
        accepted,
    ensures
        (forall|j: int|
            0 <= j < own@.len() ==> (#[trigger] own@[j])@ == all@[start + j]@)
            || crate::range_proof::collide(
            crate::range_proof::range_messages(
                start as nat,
                smt::shard_leaves(coding::shard_views(own@), start as nat),
                crate::erasure::hash_views(siblings@),
                height as nat,
            ).union(
                crate::range_proof::shard_messages(coding::shard_views(own@), start as nat),
            ),
            crate::range_proof::tree_messages(coding::shard_views(all@), height as nat),
        ),
{
    let views = coding::shard_views(own@);
    let batch = coding::shard_views(all@);
    let (lo, len) = (start as nat, own@.len());
    let leaves = tree.leaves();
    let hashes = crate::erasure::hash_views(siblings@);
    let mine = smt::shard_leaves(views, lo);
    let tall = height as nat;
    let climbed = crate::range_proof::range_messages(lo, mine, hashes, tall);
    let known = climbed.union(crate::range_proof::shard_messages(views, lo));
    let made = crate::range_proof::tree_messages(batch, tall);
    assert((lo + len - 1) * smt::width(0) == lo + len - 1) by (nonlinear_arith)
        requires
            smt::width(0) == 1,
    ;
    crate::range_proof::law_tree_siblings_reach_root(leaves, 0, lo, len, tall);
    crate::range_proof::lemma_range_siblings_sized(leaves, 0, lo, len, tall);
    let nodes = crate::range_proof::level_nodes(leaves, 0, lo, len);
    let due = smt::range_siblings(leaves, 0, lo, len, tall);
    assert forall|i: int| 0 <= i < len implies #[trigger] nodes[i] == leaves[lo + i] by {
        assert((lo + i) as nat * smt::width(0) == lo + i) by (nonlinear_arith)
            requires
                smt::width(0) == 1,
                lo + i >= 0,
        ;
    }
    crate::range_proof::law_root_binds_range(lo, mine, hashes, nodes, due, tall, root@);
    if mine != nodes {
        crate::range_proof::lemma_collide_grows(
            climbed,
            crate::range_proof::range_messages(lo, nodes, due, tall),
            known,
            made,
        );
    } else if !crate::range_proof::collide(known, made) {
        assert forall|j: int| 0 <= j < own@.len() implies (#[trigger] own@[j])@ == all@[start
            + j]@ by {
            assert(mine[j] == nodes[j]);
            assert(views[j] == own@[j]@ && batch[start + j] == all@[start + j]@);
            crate::range_proof::law_leaf_binds_shard(
                views[j],
                (start + j) as usize,
                batch[start + j],
                (start + j) as usize,
            );
            crate::coded_batch::lemma_shard_message(views, lo, j);
            crate::coded_batch::lemma_shard_message(batch, 0, start + j);
        }
    }
}

/// Leaves fit below a root if there are no more places than the power of two of its height.
pub proof fn law_leaves_that_fit(start: usize, count: usize, height: usize, fits: bool)
    requires
        call_ensures(smt::leaves_fit, (start, count, height), fits),
    ensures
        fits <==> start + count <= usize::MAX && start + count
            <= vstd::arithmetic::power2::pow2(height as nat),
{
    lemma_width(height as nat);
}

proof fn lemma_width(level: nat)
    ensures
        smt::width(level) == vstd::arithmetic::power2::pow2(level),
    decreases level,
{
    if level == 0 {
        vstd::arithmetic::power2::lemma2_to64();
    } else {
        lemma_width((level - 1) as nat);
        vstd::arithmetic::power2::lemma_pow2_unfold(level);
    }
}

/// A proof can be read unless its header announces more indices than can be counted.
pub proof fn law_headers_that_fit(
    bytes: &[u8],
    fits: bool,
    first: &[u8],
    second: &[u8],
    count: u64,
    height: u64,
)
    requires
        call_ensures(smt::header_in_bounds, (bytes,), fits),
        bytes@.len() >= 10,
        first@ == bytes@.take(8),
        second@ == bytes@.subrange(8, 10),
        call_ensures(u64_from_le_bytes, (first,), count),
        call_ensures(u64_from_le_bytes, (second,), height),
    ensures
        height > 256 ==> fits,
        0 < height <= 256 ==> (fits <==> count * ((height + 7) / 8) <= usize::MAX),
        height == 0 ==> (fits <==> count * 80 <= isize::MAX),
{
    let (announced, level) = (smt::announced_count(bytes@), smt::announced_height(bytes@));
    assert(announced == count);
    assert(level == height);
    assert(fits == smt::header_fits(bytes@));
    if height <= 256 {
        assert(smt::path_len(level) == (height + 7) / 8);
        assert(announced * smt::path_len(level) == count * ((height + 7) / 8));
    }
    if height == 0 {
        assert(smt::path_len(level) == 0);
        assert(announced * smt::path_len(level) == 0) by (nonlinear_arith)
            requires
                smt::path_len(level) == 0,
        ;
    }
}

/// Bit `i` of the bytes, counted from the lowest bit of the first byte.
pub open spec fn bit_of(bytes: Seq<u8>, i: int) -> int {
    bytes[i / 8] as int / vstd::arithmetic::power2::pow2((i % 8) as nat) as int % 2
}

/// A path is in bounds if and only if none of its bits from the height on is set.
pub proof fn law_paths_have_no_further_bits(path: &[u8; 32], height: usize, fits: bool)
    requires
        call_ensures(smt::path_in_bounds, (path, height), fits),
    ensures
        fits <==> forall|i: int| height <= i < 256 ==> #[trigger] bit_of(path@, i) == 0,
{
    vstd::arithmetic::power2::lemma2_to64();
    assert forall|b: int| 0 <= b < 32 implies ((#[trigger] path@[b]) < smt::width(
        smt::bits_in_byte(height as nat, b),
    ) <==> forall|i: int|
        height <= i < 256 && i / 8 == b ==> #[trigger] bit_of(path@, i) == 0) by {
        let bits = smt::bits_in_byte(height as nat, b);
        lemma_width(bits);
        lemma_high_bits(path@[b], bits);
        if path@[b] < smt::width(bits) {
            assert forall|i: int| height <= i < 256 && i / 8 == b implies #[trigger] bit_of(
                path@,
                i,
            ) == 0 by {
                assert(bits <= i % 8 < 8);
                assert(high_bit(path@[b], i % 8) == 0);
            }
        } else {
            let k = choose|k: int| bits <= k < 8 && #[trigger] high_bit(path@[b], k) != 0;
            let i = 8 * b + k;
            assert(i / 8 == b && i % 8 == k);
            assert(height <= i < 256);
            assert(bit_of(path@, i) != 0);
        }
    }
    if fits {
        assert forall|i: int| height <= i < 256 implies #[trigger] bit_of(path@, i) == 0 by {
            let b = i / 8;
            assert(0 <= b < 32);
            assert(path@[b] < smt::width(smt::bits_in_byte(height as nat, b)));
        }
    } else {
        let b = choose|b: int|
            0 <= b < path@.len() && !((#[trigger] path@[b]) < smt::width(
                smt::bits_in_byte(height as nat, b),
            ));
        assert(0 <= b < 32);
        assert(!(path@[b] < smt::width(smt::bits_in_byte(height as nat, b))));
    }
}

/// Bit `k` of the byte.
pub open spec fn high_bit(v: u8, k: int) -> int {
    v as int / vstd::arithmetic::power2::pow2(k as nat) as int % 2
}

proof fn lemma_high_bits(v: u8, bits: nat)
    requires
        bits <= 8,
    ensures
        v < vstd::arithmetic::power2::pow2(bits) <==> forall|k: int|
            bits <= k < 8 ==> #[trigger] high_bit(v, k) == 0,
{
    vstd::arithmetic::power2::lemma2_to64();
    assert((v < 1) == (v / 1 % 2 == 0 && v / 2 % 2 == 0 && v / 4 % 2 == 0 && v / 8 % 2 == 0 && v / 16 % 2 == 0 && v / 32 % 2 == 0 && v / 64 % 2 == 0 && v / 128 % 2 == 0)) by (bit_vector);
    assert((v < 2) == (v / 2 % 2 == 0 && v / 4 % 2 == 0 && v / 8 % 2 == 0 && v / 16 % 2 == 0 && v / 32 % 2 == 0 && v / 64 % 2 == 0 && v / 128 % 2 == 0)) by (bit_vector);
    assert((v < 4) == (v / 4 % 2 == 0 && v / 8 % 2 == 0 && v / 16 % 2 == 0 && v / 32 % 2 == 0 && v / 64 % 2 == 0 && v / 128 % 2 == 0)) by (bit_vector);
    assert((v < 8) == (v / 8 % 2 == 0 && v / 16 % 2 == 0 && v / 32 % 2 == 0 && v / 64 % 2 == 0 && v / 128 % 2 == 0)) by (bit_vector);
    assert((v < 16) == (v / 16 % 2 == 0 && v / 32 % 2 == 0 && v / 64 % 2 == 0 && v / 128 % 2 == 0)) by (bit_vector);
    assert((v < 32) == (v / 32 % 2 == 0 && v / 64 % 2 == 0 && v / 128 % 2 == 0)) by (bit_vector);
    assert((v < 64) == (v / 64 % 2 == 0 && v / 128 % 2 == 0)) by (bit_vector);
    assert((v < 128) == (v / 128 % 2 == 0)) by (bit_vector);
    assert(high_bit(v, 0) == v / 1 % 2);
    assert(high_bit(v, 1) == v / 2 % 2);
    assert(high_bit(v, 2) == v / 4 % 2);
    assert(high_bit(v, 3) == v / 8 % 2);
    assert(high_bit(v, 4) == v / 16 % 2);
    assert(high_bit(v, 5) == v / 32 % 2);
    assert(high_bit(v, 6) == v / 64 % 2);
    assert(high_bit(v, 7) == v / 128 % 2);
}

/// The indices of a proof are in bounds if and only if the path of each of them is.
pub proof fn law_indices_are_checked_one_by_one(bytes: &[u8], height: usize, clean: bool)
    requires
        call_ensures(smt::indices_in_bounds, (bytes, height), clean),
    ensures
        clean ==> forall|path: &[u8; 32], fits: bool, i: int|
            #![trigger call_ensures(smt::path_in_bounds, (path, height), fits), smt::decoded_paths(bytes@, usize::BITS as nat)[i]]
            {
                &&& call_ensures(smt::path_in_bounds, (path, height), fits)
                &&& 0 <= i < smt::decoded_paths(bytes@, usize::BITS as nat).len()
                &&& smt::decoded_paths(bytes@, usize::BITS as nat)[i] == path@
            } ==> fits,
        !clean ==> exists|i: int|
            0 <= i < smt::decoded_paths(bytes@, usize::BITS as nat).len()
                && #[trigger] path_refused(smt::decoded_paths(bytes@, usize::BITS as nat)[i], height),
{
    let paths = smt::decoded_paths(bytes@, usize::BITS as nat);
    if !clean {
        let i = choose|i: int|
            0 <= i < paths.len() && !smt::path_fits(#[trigger] paths[i], height as nat);
        assert(path_refused(paths[i], height));
    }
}

/// No check of the path comes to that it is in bounds.
pub open spec fn path_refused(path: Seq<u8>, height: usize) -> bool {
    forall|bytes: &[u8; 32], fits: bool| #[trigger]
        call_ensures(smt::path_in_bounds, (bytes, height), fits) && bytes@ == path ==> !fits
}

/// A proof can be checked against a number of leaves unless it announces that number and is of a
/// tree without levels, or has indices out of bounds next to others.
pub proof fn law_proofs_that_can_be_checked(
    bytes: &[u8],
    first: &[u8],
    count: u64,
    leaves: usize,
    height: usize,
    siblings: Seq<Seq<u8>>,
    clean: bool,
    checkable: bool,
)
    requires
        smt::decoded_proof(bytes@, usize::BITS as nat) == Some((Some(height as nat), siblings)),
        first@ == bytes@.take(8),
        call_ensures(u64_from_le_bytes, (first,), count),
        call_ensures(smt::indices_in_bounds, (bytes, height), clean),
        call_ensures(smt::batch_in_bounds, (bytes, leaves), checkable),
    ensures
        count != leaves ==> checkable,
        count == leaves && height == 0 ==> !checkable,
        count == leaves && height > 0 && leaves == 1 ==> checkable,
        count == leaves && height > 0 && leaves > 1 ==> (checkable <==> clean),
{
    let paths = smt::decoded_paths(bytes@, usize::BITS as nat);
    assert(smt::announced_count(bytes@) == count);
    assert(smt::decoded_proof(bytes@, usize::BITS as nat) is Some);
    assert(bytes@.len() > 0);
    assert(paths.len() == count);
}

/// No check of the shard alone, at its place and with its own proof, accepts it.
pub open spec fn shard_refused(
    shard: Seq<u8>,
    place: int,
    proof_bytes: Seq<u8>,
    root: &[u8; 32],
) -> bool {
    forall|own: &Vec<Shard>, at: usize, proofs: &Vec<Vec<u8>>, accepted: bool| #[trigger]
        call_ensures(merkle_bench::verify_option_a, (own, at, proofs, root), accepted)
            && own@.len() == 1 && own@[0]@ == shard && at == place && proofs@.len() == 1
            && proofs@[0]@ == proof_bytes ==> !accepted
}

/// Shards with a proof each are accepted if and only if each of them alone is.
pub proof fn law_shards_are_accepted_one_by_one(
    shards: &Vec<Shard>,
    start: usize,
    proofs: &Vec<Vec<u8>>,
    root: &[u8; 32],
    accepted: bool,
    checked: Option<bool>,
)
    requires
        call_ensures(merkle_bench::verify_option_a, (shards, start, proofs, root), accepted),
        call_ensures(merkle_bench::checked_option_a, (shards, start, proofs, root), checked),
    ensures
        checked is Some ==> checked->0 == accepted,
        accepted ==> forall|
            own: &Vec<Shard>,
            at: usize,
            own_proofs: &Vec<Vec<u8>>,
            alone: bool,
            i: int,
        |
            #![trigger call_ensures(merkle_bench::verify_option_a, (own, at, own_proofs, root), alone), shards@[i]]
            {
                &&& call_ensures(
                    merkle_bench::verify_option_a,
                    (own, at, own_proofs, root),
                    alone,
                )
                &&& 0 <= i < shards@.len()
                &&& i < proofs@.len()
                &&& own@.len() == 1
                &&& own@[0]@ == shards@[i]@
                &&& at == start + i
                &&& own_proofs@.len() == 1
                &&& own_proofs@[0]@ == proofs@[i]@
            } ==> alone,
        !accepted ==> exists|i: int|
            0 <= i < shards@.len() && i < proofs@.len() && shard_refused(
                (#[trigger] shards@[i])@,
                start + i,
                proofs@[i]@,
                root,
            ),
{
    if accepted {
        assert forall|
            own: &Vec<Shard>,
            at: usize,
            own_proofs: &Vec<Vec<u8>>,
            alone: bool,
            i: int,
        |
            #![trigger call_ensures(merkle_bench::verify_option_a, (own, at, own_proofs, root), alone), shards@[i]]
            {
                &&& call_ensures(
                    merkle_bench::verify_option_a,
                    (own, at, own_proofs, root),
                    alone,
                )
                &&& 0 <= i < shards@.len()
                &&& i < proofs@.len()
                &&& own@.len() == 1
                &&& own@[0]@ == shards@[i]@
                &&& at == start + i
                &&& own_proofs@.len() == 1
                &&& own_proofs@[0]@ == proofs@[i]@
            } implies alone by {
            assert(merkle_bench::all_leaves_accepted(shards@, start as nat, proofs@, root@));
            assert(merkle_bench::leaf_accepted(shards@, start as nat, proofs@, root@, i));
            assert forall|j: int|
                0 <= j < merkle_bench::proved_count(
                    own@,
                    own_proofs@,
                ) implies merkle_bench::leaf_accepted(own@, at as nat, own_proofs@, root@, j) by {
                assert(j == 0);
            }
        }
    } else {
        assert(!merkle_bench::all_leaves_accepted(shards@, start as nat, proofs@, root@));
        let i = choose|i: int|
            0 <= i < merkle_bench::proved_count(shards@, proofs@) && !merkle_bench::leaf_accepted(
                shards@,
                start as nat,
                proofs@,
                root@,
                i,
            );
        assert(shard_refused(shards@[i]@, start + i, proofs@[i]@, root)) by {
            assert forall|own: &Vec<Shard>, at: usize, own_proofs: &Vec<Vec<u8>>, alone: bool|
                #[trigger]
                call_ensures(merkle_bench::verify_option_a, (own, at, own_proofs, root), alone)
                    && own@.len() == 1 && own@[0]@ == shards@[i]@ && at == start + i
                    && own_proofs@.len() == 1 && own_proofs@[0]@ == proofs@[i]@ implies !alone by {
                assert(!merkle_bench::leaf_accepted(own@, at as nat, own_proofs@, root@, 0));
                assert(!merkle_bench::all_leaves_accepted(
                    own@,
                    at as nat,
                    own_proofs@,
                    root@,
                ));
            }
        }
    }
}

/// No shards are not accepted with one proof for all of them; and where the check is made, it
/// comes to the same.
pub proof fn law_no_shards_are_not_accepted(
    shards: &Vec<Shard>,
    start: usize,
    height: usize,
    proof_bytes: &Vec<u8>,
    root: &[u8; 32],
    accepted: bool,
    checked: Option<bool>,
)
    requires
        call_ensures(
            merkle_bench::verify_option_b,
            (shards, start, height, proof_bytes, root),
            accepted,
        ),
        call_ensures(
            merkle_bench::checked_option_b,
            (shards, start, height, proof_bytes, root),
            checked,
        ),
    ensures
        checked is Some ==> checked->0 == accepted,
        shards@.len() == 0 ==> !accepted,
        checked is Some && shards@.len() > 0 ==> start + shards@.len()
            <= vstd::arithmetic::power2::pow2(height as nat),
{
    lemma_width(height as nat);
}

} // verus!
