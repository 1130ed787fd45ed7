//! Checking the inclusion of neighbouring leaves of a Merkle tree, bottom-up.
//!
//! At each level the nodes at hand are `lo..lo + len`. A node at either end whose partner is not
//! at hand takes it from the siblings of the proof, the right end before the left one and from
//! the last sibling backwards.

use vstd::prelude::*;
use crate::erasure;
use crate::smt::{self, merge};

verus! {

/// The number of siblings that the nodes `lo..lo + len` need to be paired.
pub open spec fn siblings_used(lo: nat, len: nat) -> nat {
    lo % 2 + (lo + len) % 2
}

/// The nodes from `lo` on, with the siblings that complete the pairs at both ends.
pub open spec fn paired(lo: nat, nodes: Seq<Seq<u8>>, siblings: Seq<Seq<u8>>) -> Seq<Seq<u8>> {
    let left = if lo % 2 == 1 {
        seq![siblings[siblings.len() - siblings_used(lo, nodes.len())]]
    } else {
        Seq::empty()
    };
    let right = if (lo + nodes.len()) % 2 == 1 {
        seq![siblings[siblings.len() - 1]]
    } else {
        Seq::empty()
    };
    left + nodes + right
}

/// The parents of pairs of nodes.
pub open spec fn parents(pairs: Seq<Seq<u8>>) -> Seq<Seq<u8>> {
    Seq::new(pairs.len() / 2, |p: int| smt::merged(pairs[2 * p], pairs[2 * p + 1]))
}

/// The siblings that are left for the levels above.
pub open spec fn siblings_left(lo: nat, len: nat, siblings: Seq<Seq<u8>>) -> Seq<Seq<u8>> {
    siblings.take(siblings.len() - siblings_used(lo, len))
}

/// The root above the nodes from `lo` on, `height` levels up; `None` if the siblings run out.
pub open spec fn range_root(
    lo: nat,
    nodes: Seq<Seq<u8>>,
    siblings: Seq<Seq<u8>>,
    height: nat,
) -> Option<Seq<u8>>
    decreases height,
{
    if height == 0 {
        Some(nodes[0])
    } else if siblings.len() < siblings_used(lo, nodes.len()) {
        None
    } else {
        range_root(
            lo / 2,
            parents(paired(lo, nodes, siblings)),
            siblings_left(lo, nodes.len(), siblings),
            (height - 1) as nat,
        )
    }
}

/// The siblings of the first node and of its ancestors, from the bottom up.
pub open spec fn anchor_siblings(
    lo: nat,
    nodes: Seq<Seq<u8>>,
    siblings: Seq<Seq<u8>>,
    height: nat,
) -> Seq<Seq<u8>>
    decreases height,
{
    if height == 0 {
        Seq::empty()
    } else {
        let pairs = paired(lo, nodes, siblings);
        seq![
            if lo % 2 == 1 {
                pairs[0]
            } else {
                pairs[1]
            },
        ] + anchor_siblings(
            lo / 2,
            parents(pairs),
            siblings_left(lo, nodes.len(), siblings),
            (height - 1) as nat,
        )
    }
}

/// The nodes fit below a root `height` levels up.
pub open spec fn in_range(lo: nat, len: nat, height: nat) -> bool {
    &&& len > 0
    &&& lo + len <= smt::width(height)
}

/// One level up the nodes are fewer, and fit again.
pub proof fn lemma_level_up(lo: nat, nodes: Seq<Seq<u8>>, siblings: Seq<Seq<u8>>, height: nat)
    requires
        height > 0,
        in_range(lo, nodes.len(), height),
    ensures
        paired(lo, nodes, siblings).len() == nodes.len() + siblings_used(lo, nodes.len()),
        paired(lo, nodes, siblings).len() % 2 == 0,
        paired(lo, nodes, siblings).len() >= 2,
        parents(paired(lo, nodes, siblings)).len() == smt::parent_count(lo, nodes.len()),
        in_range(lo / 2, smt::parent_count(lo, nodes.len()), (height - 1) as nat),
{
    let above = smt::width((height - 1) as nat);
    assert(smt::width(height) == 2 * above);
}

/// A proof for neighbouring leaves also proves the first of them alone: with the siblings of
/// its own path, taken from the root down, it leads to the same root.
pub proof fn law_anchor_reaches_root(
    lo: nat,
    nodes: Seq<Seq<u8>>,
    siblings: Seq<Seq<u8>>,
    height: nat,
)
    requires
        in_range(lo, nodes.len(), height),
        range_root(lo, nodes, siblings, height) is Some,
    ensures
        anchor_siblings(lo, nodes, siblings, height).len() == height,
        range_root(
            lo,
            seq![nodes[0]],
            anchor_siblings(lo, nodes, siblings, height).reverse(),
            height,
        ) == range_root(lo, nodes, siblings, height),
    decreases height,
{
    if height > 0 {
        lemma_level_up(lo, nodes, siblings, height);
        let pairs = paired(lo, nodes, siblings);
        let up = parents(pairs);
        let rest = siblings_left(lo, nodes.len(), siblings);
        law_anchor_reaches_root(lo / 2, up, rest, (height - 1) as nat);
        let path = anchor_siblings(lo, nodes, siblings, height);
        let tail = anchor_siblings(lo / 2, up, rest, (height - 1) as nat);
        let alone = seq![nodes[0]];
        assert(path.len() == height);
        assert(path.reverse()[height - 1] == path[0]);
        assert(siblings_used(lo, 1) == 1);
        assert(siblings_left(lo, 1, path.reverse()) =~= tail.reverse());
        let lone_pair = paired(lo, alone, path.reverse());
        assert(lone_pair =~= pairs.take(2));
        assert(parents(lone_pair) =~= seq![up[0]]);
    }
}

/// The nodes `lo..lo + len` of a level of the tree over `leaves`.
pub open spec fn level_nodes(leaves: Seq<Seq<u8>>, level: nat, lo: nat, len: nat) -> Seq<Seq<u8>> {
    Seq::new(len, |i: int| smt::tree_node(leaves, level, (lo + i) as nat))
}

/// The siblings that the tree gives for neighbouring nodes lead from these to its root, and all
/// that is hashed on the way is hashed for the tree.
pub proof fn law_tree_siblings_reach_root(
    leaves: Seq<Seq<u8>>,
    level: nat,
    lo: nat,
    len: nat,
    height: nat,
)
    requires
        in_range(lo, len, height),
        (lo + len - 1) * smt::width(level) < leaves.len(),
    ensures
        range_root(
            lo,
            level_nodes(leaves, level, lo, len),
            smt::range_siblings(leaves, level, lo, len, height),
            height,
        ) == Some(smt::tree_node(leaves, level + height, 0)),
        range_messages(
            lo,
            level_nodes(leaves, level, lo, len),
            smt::range_siblings(leaves, level, lo, len, height),
            height,
        ).subset_of(inner_messages(leaves, level + height)),
    decreases height,
{
    let nodes = level_nodes(leaves, level, lo, len);
    if height == 0 {
        assert(lo == 0 && len == 1);
    } else {
        let siblings = smt::range_siblings(leaves, level, lo, len, height);
        let count = smt::parent_count(lo, len);
        lemma_level_up(lo, nodes, siblings, height);
        let above = smt::range_siblings(leaves, level + 1, lo / 2, count, (height - 1) as nat);
        let here = smt::level_siblings(leaves, level, lo, len);
        assert(siblings =~= above + here);
        assert(here.len() == siblings_used(lo, len));
        assert(siblings_left(lo, len, siblings) =~= above);
        let pairs = paired(lo, nodes, siblings);
        let first = (2 * (lo / 2)) as nat;
        assert forall|i: int| 0 <= i < pairs.len() implies #[trigger] pairs[i] == smt::tree_node(
            leaves,
            level,
            (first + i) as nat,
        ) by {
            if lo % 2 == 1 {
                assert(first == lo - 1);
                if i == 0 {
                    assert(pairs[i] == here[0]);
                } else if i <= len {
                    assert(pairs[i] == nodes[i - 1]);
                } else {
                    assert(pairs[i] == here[here.len() - 1]);
                }
            } else {
                assert(first == lo);
                if i < len {
                    assert(pairs[i] == nodes[i]);
                } else {
                    assert(pairs[i] == here[here.len() - 1]);
                }
            }
        }
        let up = parents(pairs);
        assert forall|p: int| 0 <= p < up.len() implies #[trigger] up[p] == smt::tree_node(
            leaves,
            level + 1,
            (lo / 2 + p) as nat,
        ) by {
            let parent = (lo / 2 + p) as nat;
            assert(2 * parent <= lo + len - 1);
            assert(parent * smt::width(level + 1) <= (lo + len - 1) * smt::width(level))
                by (nonlinear_arith)
                requires
                    2 * parent <= lo + len - 1,
                    smt::width(level + 1) == 2 * smt::width(level),
            ;
            assert(pairs[2 * p] == smt::tree_node(leaves, level, (2 * parent) as nat));
            assert(pairs[2 * p + 1] == smt::tree_node(leaves, level, (2 * parent + 1) as nat));
        }
        assert(up =~= level_nodes(leaves, level + 1, lo / 2, count));
        assert((lo / 2 + count - 1) * smt::width(level + 1) < leaves.len()) by (nonlinear_arith)
            requires
                2 * (lo / 2 + count - 1) <= lo + len - 1,
                smt::width(level + 1) == 2 * smt::width(level),
                (lo + len - 1) * smt::width(level) < leaves.len(),
        ;
        law_tree_siblings_reach_root(leaves, level + 1, lo / 2, count, (height - 1) as nat);
        assert forall|message: Seq<u8>| #[trigger] pair_messages(pairs).contains(
            message,
        ) implies inner_messages(leaves, level + height).contains(message) by {
            let made = Seq::new(pairs.len() / 2, |p: int| pairs[2 * p] + pairs[2 * p + 1]);
            let p = choose|p: int| 0 <= p < made.len() && made[p] == message;
            let parent = (lo / 2 + p) as nat;
            assert(2 * parent <= lo + len - 1);
            assert(parent * smt::width(level + 1) <= (lo + len - 1) * smt::width(level))
                by (nonlinear_arith)
                requires
                    2 * parent <= lo + len - 1,
                    smt::width(level + 1) == 2 * smt::width(level),
            ;
            assert(pairs[2 * p] == smt::tree_node(leaves, level, (2 * parent) as nat));
            assert(pairs[2 * p + 1] == smt::tree_node(leaves, level, (2 * parent + 1) as nat));
            assert(message == node_message(leaves, level + 1, parent));
            lemma_inner_message(leaves, level + 1, parent, level + height);
        }
    }
}

/// Two different messages with the same BLAKE3 hash.
pub open spec fn node_collision(a: Seq<u8>, b: Seq<u8>) -> bool {
    &&& a != b
    &&& crate::hashing::blake3_hash(a)@ == crate::hashing::blake3_hash(b)@
}

/// A message of the first set and another one of the second have the same hash.
pub open spec fn collide(a: Set<Seq<u8>>, b: Set<Seq<u8>>) -> bool {
    exists|x: Seq<u8>, y: Seq<u8>|
        a.contains(x) && b.contains(y) && #[trigger] node_collision(x, y)
}

/// A message of the set has the hash that stands where there is no leaf.
pub open spec fn hits_padding(messages: Set<Seq<u8>>) -> bool {
    exists|x: Seq<u8>| #[trigger]
        messages.contains(x) && crate::hashing::blake3_hash(x)@ == smt::padding()
}

/// What is hashed for the parents of pairs of nodes.
pub open spec fn pair_messages(pairs: Seq<Seq<u8>>) -> Set<Seq<u8>> {
    Seq::new(pairs.len() / 2, |p: int| pairs[2 * p] + pairs[2 * p + 1]).to_set()
}

/// What is hashed on the way up from the nodes from `lo` on.
pub open spec fn range_messages(
    lo: nat,
    nodes: Seq<Seq<u8>>,
    siblings: Seq<Seq<u8>>,
    height: nat,
) -> Set<Seq<u8>>
    decreases height,
{
    if height == 0 || siblings.len() < siblings_used(lo, nodes.len()) {
        Set::empty()
    } else {
        let pairs = paired(lo, nodes, siblings);
        range_messages(
            lo / 2,
            parents(pairs),
            siblings_left(lo, nodes.len(), siblings),
            (height - 1) as nat,
        ).union(pair_messages(pairs))
    }
}

/// What is hashed for the leaves of shards.
pub open spec fn shard_messages(shards: Seq<Seq<u8>>, start: nat) -> Set<Seq<u8>> {
    Seq::new(shards.len(), |i: int| smt::shard_message(shards[i], (start + i) as nat)).to_set()
}

/// What is hashed for node `position` of a tree, `level` levels above the leaves.
pub open spec fn node_message(leaves: Seq<Seq<u8>>, level: nat, position: nat) -> Seq<u8> {
    smt::tree_node(leaves, (level - 1) as nat, 2 * position) + smt::tree_node(
        leaves,
        (level - 1) as nat,
        2 * position + 1,
    )
}

/// What is hashed for the nodes of a tree, up to `height` levels above the leaves.
pub open spec fn inner_messages(leaves: Seq<Seq<u8>>, height: nat) -> Set<Seq<u8>>
    decreases height,
{
    if height == 0 {
        Set::empty()
    } else {
        inner_messages(leaves, (height - 1) as nat).union(
            Set::new(
                |message: Seq<u8>|
                    exists|position: nat|
                        position * smt::width(height) < leaves.len() && message
                            == #[trigger] node_message(leaves, height, position),
            ),
        )
    }
}

/// What is hashed for the tree over shards.
pub open spec fn tree_messages(shards: Seq<Seq<u8>>, height: nat) -> Set<Seq<u8>> {
    inner_messages(smt::shard_leaves(shards, 0), height).union(shard_messages(shards, 0))
}

/// What collides still does among more messages.
pub proof fn lemma_collide_grows(
    a: Set<Seq<u8>>,
    b: Set<Seq<u8>>,
    more_a: Set<Seq<u8>>,
    more_b: Set<Seq<u8>>,
)
    requires
        collide(a, b),
        a.subset_of(more_a),
        b.subset_of(more_b),
    ensures
        collide(more_a, more_b),
{
    let (x, y) = choose|x: Seq<u8>, y: Seq<u8>|
        a.contains(x) && b.contains(y) && #[trigger] node_collision(x, y);
    assert(more_a.contains(x) && more_b.contains(y) && node_collision(x, y));
}

/// What is hashed for one of the parents.
pub proof fn lemma_pair_message(pairs: Seq<Seq<u8>>, p: int)
    requires
        0 <= p < pairs.len() / 2,
    ensures
        pair_messages(pairs).contains(pairs[2 * p] + pairs[2 * p + 1]),
{
    let made = Seq::new(pairs.len() / 2, |p: int| pairs[2 * p] + pairs[2 * p + 1]);
    assert(made[p] == pairs[2 * p] + pairs[2 * p + 1]);
}

proof fn lemma_inner_messages_grow(leaves: Seq<Seq<u8>>, low: nat, high: nat)
    requires
        low <= high,
    ensures
        inner_messages(leaves, low).subset_of(inner_messages(leaves, high)),
    decreases high,
{
    if low < high {
        lemma_inner_messages_grow(leaves, low, (high - 1) as nat);
    }
}

proof fn lemma_inner_message(leaves: Seq<Seq<u8>>, level: nat, position: nat, height: nat)
    requires
        0 < level <= height,
        position * smt::width(level) < leaves.len(),
    ensures
        inner_messages(leaves, height).contains(node_message(leaves, level, position)),
{
    assert(inner_messages(leaves, level).contains(node_message(leaves, level, position)));
    lemma_inner_messages_grow(leaves, level, height);
}

proof fn lemma_parents_bind(a: Seq<Seq<u8>>, b: Seq<Seq<u8>>)
    requires
        a.len() == b.len(),
        a.len() % 2 == 0,
        smt::node_sized(a),
        smt::node_sized(b),
        parents(a) == parents(b),
    ensures
        a == b || collide(pair_messages(a), pair_messages(b)),
{
    if a != b {
        let i = choose|i: int| 0 <= i < a.len() && a[i] != b[i];
        assert(exists|i: int| 0 <= i < a.len() && a[i] != b[i]) by {
            if forall|i: int| 0 <= i < a.len() ==> a[i] == b[i] {
                assert(a =~= b);
            }
        }
        let p = i / 2;
        let (x, y) = (a[2 * p] + a[2 * p + 1], b[2 * p] + b[2 * p + 1]);
        assert(parents(a)[p] == crate::hashing::blake3_hash(x)@);
        assert(parents(b)[p] == crate::hashing::blake3_hash(y)@);
        assert(a[2 * p] =~= x.take(32) && a[2 * p + 1] =~= x.skip(32));
        assert(b[2 * p] =~= y.take(32) && b[2 * p + 1] =~= y.skip(32));
        assert(x != y) by {
            assert(i == 2 * p || i == 2 * p + 1);
        }
        lemma_pair_message(a, p);
        lemma_pair_message(b, p);
        assert(node_collision(x, y));
    }
}

/// The pairs and the siblings that are left consist of nodes.
pub proof fn lemma_paired_sized(lo: nat, nodes: Seq<Seq<u8>>, siblings: Seq<Seq<u8>>)
    requires
        smt::node_sized(nodes),
        smt::node_sized(siblings),
        siblings.len() >= siblings_used(lo, nodes.len()),
    ensures
        smt::node_sized(paired(lo, nodes, siblings)),
        smt::node_sized(siblings_left(lo, nodes.len(), siblings)),
{
    let pairs = paired(lo, nodes, siblings);
    assert forall|i: int| 0 <= i < pairs.len() implies (#[trigger] pairs[i]).len() == 32 by {
        let shift = (lo % 2) as int;
        if shift <= i < shift + nodes.len() {
            assert(pairs[i] == nodes[i - shift]);
        } else if i < shift {
            assert(pairs[i] == siblings[siblings.len() - siblings_used(lo, nodes.len())]);
        } else {
            assert(pairs[i] == siblings[siblings.len() - 1]);
        }
    }
}

/// A root binds the nodes at a place: if two lists of nodes at the same place lead to one root,
/// they are the same, or a message that is hashed on the way from one collides with a message from
/// the other.
pub proof fn law_root_binds_range(
    lo: nat,
    a: Seq<Seq<u8>>,
    siblings_a: Seq<Seq<u8>>,
    b: Seq<Seq<u8>>,
    siblings_b: Seq<Seq<u8>>,
    height: nat,
    root: Seq<u8>,
)
    requires
        in_range(lo, a.len(), height),
        a.len() == b.len(),
        smt::node_sized(a) && smt::node_sized(siblings_a),
        smt::node_sized(b) && smt::node_sized(siblings_b),
        range_root(lo, a, siblings_a, height) == Some(root),
        range_root(lo, b, siblings_b, height) == Some(root),
    ensures
        a == b || collide(
            range_messages(lo, a, siblings_a, height),
            range_messages(lo, b, siblings_b, height),
        ),
    decreases height,
{
    if height == 0 {
        assert(a =~= b);
    } else {
        lemma_level_up(lo, a, siblings_a, height);
        lemma_level_up(lo, b, siblings_b, height);
        lemma_paired_sized(lo, a, siblings_a);
        lemma_paired_sized(lo, b, siblings_b);
        let (pairs_a, pairs_b) = (paired(lo, a, siblings_a), paired(lo, b, siblings_b));
        law_root_binds_range(
            lo / 2,
            parents(pairs_a),
            siblings_left(lo, a.len(), siblings_a),
            parents(pairs_b),
            siblings_left(lo, b.len(), siblings_b),
            (height - 1) as nat,
            root,
        );
        let (all_a, all_b) = (
            range_messages(lo, a, siblings_a, height),
            range_messages(lo, b, siblings_b, height),
        );
        if parents(pairs_a) == parents(pairs_b) {
            lemma_parents_bind(pairs_a, pairs_b);
            if pairs_a == pairs_b {
                let shift = (lo % 2) as int;
                assert(a =~= pairs_a.subrange(shift, shift + a.len()));
                assert(b =~= pairs_b.subrange(shift, shift + b.len()));
            } else {
                lemma_collide_grows(pair_messages(pairs_a), pair_messages(pairs_b), all_a, all_b);
            }
        } else {
            lemma_collide_grows(
                range_messages(
                    lo / 2,
                    parents(pairs_a),
                    siblings_left(lo, a.len(), siblings_a),
                    (height - 1) as nat,
                ),
                range_messages(
                    lo / 2,
                    parents(pairs_b),
                    siblings_left(lo, b.len(), siblings_b),
                    (height - 1) as nat,
                ),
                all_a,
                all_b,
            );
        }
    }
}

/// From two places the ways up turn alike: at every level both ranges begin on the same side of
/// a pair, unless they are single nodes.
pub open spec fn same_turns(lo_a: nat, lo_b: nat, len: nat, height: nat) -> bool
    decreases height,
{
    height == 0 || {
        &&& lo_a % 2 == lo_b % 2 || len == 1
        &&& same_turns(lo_a / 2, lo_b / 2, smt::parent_count(lo_a, len), (height - 1) as nat)
    }
}

/// The ways up turn alike for single nodes.
pub proof fn law_single_nodes_turn_alike(x: nat, y: nat, height: nat)
    ensures
        same_turns(x, y, 1, height),
    decreases height,
{
    if height > 0 {
        law_single_nodes_turn_alike(x / 2, y / 2, (height - 1) as nat);
    }
}

/// The ways up turn alike for as many nodes as a power of two that begin at multiples of their
/// number.
pub proof fn law_even_ranges_turn_alike(x: nat, y: nat, level: nat, height: nat)
    ensures
        same_turns(x * smt::width(level), y * smt::width(level), smt::width(level), height),
    decreases level,
{
    if level == 0 {
        law_single_nodes_turn_alike(x, y, height);
        assert(x * 1 == x && y * 1 == y);
    } else if height > 0 {
        let half = smt::width((level - 1) as nat);
        let (up_x, up_y) = (x * half, y * half);
        law_even_ranges_turn_alike(x, y, (level - 1) as nat, (height - 1) as nat);
        assert(same_turns(up_x, up_y, half, (height - 1) as nat));
        assert(x * (2 * half) == 2 * up_x && y * (2 * half) == 2 * up_y) by (nonlinear_arith)
            requires
                up_x == x * half,
                up_y == y * half,
        ;
        assert(smt::width(level) == 2 * half);
        assert(smt::parent_count(2 * up_x, 2 * half) == half);
        assert(same_turns(2 * up_x, 2 * up_y, 2 * half, height));
    }
}

/// A root binds nodes to their place: if the same siblings lead nodes at two places to one root,
/// on ways that turn alike, then the nodes are the same, or a message that is hashed on one way
/// collides with a message from the other.
pub proof fn law_root_binds_place(
    lo_a: nat,
    a: Seq<Seq<u8>>,
    lo_b: nat,
    b: Seq<Seq<u8>>,
    siblings: Seq<Seq<u8>>,
    height: nat,
    root: Seq<u8>,
)
    requires
        in_range(lo_a, a.len(), height),
        in_range(lo_b, b.len(), height),
        a.len() == b.len(),
        same_turns(lo_a, lo_b, a.len(), height),
        smt::node_sized(a) && smt::node_sized(b) && smt::node_sized(siblings),
        range_root(lo_a, a, siblings, height) == Some(root),
        range_root(lo_b, b, siblings, height) == Some(root),
    ensures
        a == b || collide(
            range_messages(lo_a, a, siblings, height),
            range_messages(lo_b, b, siblings, height),
        ),
    decreases height,
{
    if height == 0 {
        assert(a =~= b);
    } else {
        lemma_level_up(lo_a, a, siblings, height);
        lemma_level_up(lo_b, b, siblings, height);
        lemma_paired_sized(lo_a, a, siblings);
        lemma_paired_sized(lo_b, b, siblings);
        let (pairs_a, pairs_b) = (paired(lo_a, a, siblings), paired(lo_b, b, siblings));
        assert(siblings_used(lo_a, a.len()) == siblings_used(lo_b, b.len()));
        assert(smt::parent_count(lo_a, a.len()) == smt::parent_count(lo_b, b.len()));
        law_root_binds_place(
            lo_a / 2,
            parents(pairs_a),
            lo_b / 2,
            parents(pairs_b),
            siblings_left(lo_a, a.len(), siblings),
            (height - 1) as nat,
            root,
        );
        let (all_a, all_b) = (
            range_messages(lo_a, a, siblings, height),
            range_messages(lo_b, b, siblings, height),
        );
        if parents(pairs_a) == parents(pairs_b) {
            lemma_parents_bind(pairs_a, pairs_b);
            if pairs_a == pairs_b {
                let (shift_a, shift_b) = ((lo_a % 2) as int, (lo_b % 2) as int);
                assert(a =~= pairs_a.subrange(shift_a, shift_a + a.len()));
                assert(b =~= pairs_b.subrange(shift_b, shift_b + b.len()));
                if shift_a != shift_b {
                    assert(pairs_a[0] == pairs_a[1]) by {
                        assert(pairs_a[1 - shift_a] == siblings.last());
                        assert(pairs_b[1 - shift_b] == siblings.last());
                    }
                    assert(a[0] == pairs_a[shift_a] && b[0] == pairs_b[shift_b]);
                    assert(a =~= b);
                }
            } else {
                lemma_collide_grows(pair_messages(pairs_a), pair_messages(pairs_b), all_a, all_b);
            }
        } else {
            lemma_collide_grows(
                range_messages(
                    lo_a / 2,
                    parents(pairs_a),
                    siblings_left(lo_a, a.len(), siblings),
                    (height - 1) as nat,
                ),
                range_messages(
                    lo_b / 2,
                    parents(pairs_b),
                    siblings_left(lo_b, b.len(), siblings),
                    (height - 1) as nat,
                ),
                all_a,
                all_b,
            );
        }
    }
}

/// A leaf binds the shard and its position: shards with the same leaf are the same, at the same
/// position, or what is hashed for them collides.
pub proof fn law_leaf_binds_shard(a: Seq<u8>, place_a: usize, b: Seq<u8>, place_b: usize)
    requires
        smt::shard_leaf(a, place_a as nat) == smt::shard_leaf(b, place_b as nat),
    ensures
        (a == b && place_a == place_b) || node_collision(
            smt::shard_message(a, place_a as nat),
            smt::shard_message(b, place_b as nat),
        ),
{
    let n = smt::word_bytes();
    let (tail_a, tail_b) = (
        crate::bytes::le_bytes(place_a as nat, n),
        crate::bytes::le_bytes(place_b as nat, n),
    );
    let (x, y) = (a + tail_a, b + tail_b);
    crate::bytes::lemma_le_bytes_len(place_a as nat, n);
    crate::bytes::lemma_le_bytes_len(place_b as nat, n);
    if x == y {
        assert(x.len() == a.len() + n && y.len() == b.len() + n);
        assert(a =~= x.take(a.len() as int) && b =~= y.take(b.len() as int));
        assert(tail_a =~= x.skip(a.len() as int) && tail_b =~= y.skip(b.len() as int));
        lemma_words_fit(place_a);
        lemma_words_fit(place_b);
        crate::bytes::lemma_le_bytes_injective(place_a as nat, place_b as nat, n);
    }
}

/// A word fits in the bytes of a word.
proof fn lemma_words_fit(word: usize)
    ensures
        word < vstd::arithmetic::power::pow(256, smt::word_bytes()),
{
    assert(vstd::arithmetic::power::pow(256, 4) == 0x1_0000_0000) by {
        reveal_with_fuel(vstd::arithmetic::power::pow, 5);
    }
    assert(vstd::arithmetic::power::pow(256, 8) == 0x1_0000_0000_0000_0000) by {
        reveal_with_fuel(vstd::arithmetic::power::pow, 9);
    }
}

proof fn lemma_tree_node_sized(leaves: Seq<Seq<u8>>, level: nat, position: nat)
    requires
        smt::node_sized(leaves),
    ensures
        smt::tree_node(leaves, level, position).len() == 32,
{
    if level == 0 && position * smt::width(level) < leaves.len() {
        assert(position * smt::width(0) == position) by (nonlinear_arith)
            requires
                smt::width(0) == 1,
        ;
    }
}

/// Two nodes of one level of the tree over a list of shards are different, unless both are
/// padding.
proof fn lemma_equal_nodes(shards: Seq<Seq<u8>>, level: nat, p: nat, q: nat, height: nat)
    requires
        shards.len() <= usize::MAX,
        level <= height,
        p != q,
        p * smt::width(level) < shards.len() || q * smt::width(level) < shards.len(),
        smt::tree_node(smt::shard_leaves(shards, 0), level, p) == smt::tree_node(
            smt::shard_leaves(shards, 0),
            level,
            q,
        ),
    ensures
        collide(tree_messages(shards, height), tree_messages(shards, height)) || hits_padding(
            tree_messages(shards, height),
        ),
    decreases level,
{
    let leaves = smt::shard_leaves(shards, 0);
    let all = tree_messages(shards, height);
    let (inside_p, inside_q) = (
        p * smt::width(level) < leaves.len(),
        q * smt::width(level) < leaves.len(),
    );
    if level == 0 {
        assert(p * smt::width(0) == p && q * smt::width(0) == q) by (nonlinear_arith)
            requires
                smt::width(0) == 1,
        ;
        let made = Seq::new(
            shards.len(),
            |i: int| smt::shard_message(shards[i], (0 + i) as nat),
        );
        if inside_p {
            let x = smt::shard_message(shards[p as int], p);
            assert(made[p as int] == x);
            assert(made.to_set().contains(x));
            assert(all.contains(x));
        }
        if inside_q {
            let y = smt::shard_message(shards[q as int], q);
            assert(made[q as int] == y);
            assert(made.to_set().contains(y));
            assert(all.contains(y));
        }
        if inside_p && inside_q {
            law_leaf_binds_shard(shards[p as int], p as usize, shards[q as int], q as usize);
        }
    } else {
        let below = (level - 1) as nat;
        let (x, y) = (node_message(leaves, level, p), node_message(leaves, level, q));
        if inside_p {
            lemma_inner_message(leaves, level, p, height);
            assert(all.contains(x));
        }
        if inside_q {
            lemma_inner_message(leaves, level, q, height);
            assert(all.contains(y));
        }
        if inside_p && inside_q {
            if x == y {
                let (left_p, left_q) = (
                    smt::tree_node(leaves, below, 2 * p),
                    smt::tree_node(leaves, below, 2 * q),
                );
                lemma_tree_node_sized(leaves, below, 2 * p);
                lemma_tree_node_sized(leaves, below, 2 * q);
                assert(left_p =~= x.take(32) && left_q =~= y.take(32));
                assert((2 * p) * smt::width(below) == p * smt::width(level)) by (nonlinear_arith)
                    requires
                        smt::width(level) == 2 * smt::width(below),
                ;
                lemma_equal_nodes(shards, below, 2 * p, 2 * q, height);
            } else {
                assert(node_collision(x, y));
            }
        }
    }
}

/// The place of the one sibling that an odd number of nodes from `lo` on needs.
spec fn sibling_place(lo: nat, len: nat) -> nat {
    if lo % 2 == 1 {
        (lo - 1) as nat
    } else {
        lo + len
    }
}

/// Two ranges of an odd number of nodes that begin at multiples of their number need different
/// siblings, of which at most one is beyond the nodes of both.
proof fn lemma_sibling_places(x: nat, y: nat, len: nat)
    requires
        len % 2 == 1,
        x != y,
    ensures
        sibling_place(x * len, len) != sibling_place(y * len, len),
        sibling_place(x * len, len) < x * len + len || sibling_place(y * len, len) < y * len + len
            || sibling_place(x * len, len) < y * len + len || sibling_place(y * len, len) < x * len
            + len,
{
    let (lo_x, lo_y) = (x * len, y * len);
    assert(x < y ==> lo_x + len <= lo_y) by (nonlinear_arith)
        requires
            lo_x == x * len,
            lo_y == y * len,
    ;
    assert(y < x ==> lo_y + len <= lo_x) by (nonlinear_arith)
        requires
            lo_x == x * len,
            lo_y == y * len,
    ;
    if len > 1 {
        assert(lo_x != lo_y + len + 1) by (nonlinear_arith)
            requires
                lo_x == x * len,
                lo_y == y * len,
                len > 1,
        ;
        assert(lo_y != lo_x + len + 1) by (nonlinear_arith)
            requires
                lo_x == x * len,
                lo_y == y * len,
                len > 1,
        ;
    }
}

/// The siblings of one range of a tree over shards do not lead any nodes at the place of another
/// range to the root of the tree.
#[verifier::rlimit(40)]
#[verifier::spinoff_prover]
proof fn lemma_siblings_bind_place(
    shards: Seq<Seq<u8>>,
    level: nat,
    x: nat,
    y: nat,
    len: nat,
    nodes: Seq<Seq<u8>>,
    height: nat,
)
    requires
        shards.len() <= usize::MAX,
        x != y,
        nodes.len() == len,
        smt::node_sized(nodes),
        in_range(x * len, len, height),
        in_range(y * len, len, height),
        (x * len + len - 1) * smt::width(level) < shards.len(),
        (y * len + len - 1) * smt::width(level) < shards.len(),
        range_root(
            y * len,
            nodes,
            smt::range_siblings(smt::shard_leaves(shards, 0), level, x * len, len, height),
            height,
        ) == Some(smt::tree_node(smt::shard_leaves(shards, 0), level + height, 0)),
    ensures
        ({
            let tree = tree_messages(shards, level + height);
            let siblings = smt::range_siblings(
                smt::shard_leaves(shards, 0),
                level,
                x * len,
                len,
                height,
            );
            ||| collide(range_messages(y * len, nodes, siblings, height).union(tree), tree)
            ||| hits_padding(tree)
        }),
    decreases height,
{
    let leaves = smt::shard_leaves(shards, 0);
    let (lo_x, lo_y) = (x * len, y * len);
    let siblings = smt::range_siblings(leaves, level, lo_x, len, height);
    let up_height = (height - 1) as nat;
    let tree = tree_messages(shards, level + height);
    let all = range_messages(lo_y, nodes, siblings, height).union(tree);
    assert(x < y ==> lo_x + len <= lo_y) by (nonlinear_arith)
        requires
            lo_x == x * len,
            lo_y == y * len,
    ;
    assert(y < x ==> lo_y + len <= lo_x) by (nonlinear_arith)
        requires
            lo_x == x * len,
            lo_y == y * len,
    ;
    assert(height > 0);
    lemma_level_up(lo_y, nodes, siblings, height);
    let above = smt::range_siblings(
        leaves,
        level + 1,
        lo_x / 2,
        smt::parent_count(lo_x, len),
        up_height,
    );
    let here = smt::level_siblings(leaves, level, lo_x, len);
    assert(siblings =~= above + here);
    if len % 2 == 0 {
        let half = len / 2;
        let (up_x, up_y) = (x * half, y * half);
        assert(lo_x == 2 * up_x && lo_y == 2 * up_y) by (nonlinear_arith)
            requires
                lo_x == x * len,
                lo_y == y * len,
                up_x == x * half,
                up_y == y * half,
                len == 2 * half,
        ;
        assert(here =~= Seq::empty());
        assert(siblings =~= above);
        assert(siblings_left(lo_y, len, siblings) =~= above);
        let pairs = paired(lo_y, nodes, siblings);
        assert(pairs =~= nodes);
        assert((up_x + half - 1) * smt::width(level + 1) < shards.len()) by (nonlinear_arith)
            requires
                2 * (up_x + half - 1) <= lo_x + len - 1,
                smt::width(level + 1) == 2 * smt::width(level),
                (lo_x + len - 1) * smt::width(level) < shards.len(),
        ;
        assert((up_y + half - 1) * smt::width(level + 1) < shards.len()) by (nonlinear_arith)
            requires
                2 * (up_y + half - 1) <= lo_y + len - 1,
                smt::width(level + 1) == 2 * smt::width(level),
                (lo_y + len - 1) * smt::width(level) < shards.len(),
        ;
        lemma_level_up(lo_x, nodes, siblings, height);
        assert(smt::parent_count(lo_x, len) == half);
        assert(smt::parent_count(lo_y, len) == half);
        lemma_siblings_bind_place(shards, level + 1, x, y, half, parents(pairs), up_height);
        let fewer = range_messages(up_y, parents(pairs), above, up_height).union(tree);
        if collide(fewer, tree) {
            lemma_collide_grows(fewer, tree, all, tree);
        }
    } else {
        let (place_x, place_y) = (sibling_place(lo_x, len), sibling_place(lo_y, len));
        let honest = level_nodes(leaves, level, lo_y, len);
        let due = smt::range_siblings(leaves, level, lo_y, len, height);
        let due_above = smt::range_siblings(
            leaves,
            level + 1,
            lo_y / 2,
            smt::parent_count(lo_y, len),
            up_height,
        );
        let due_here = smt::level_siblings(leaves, level, lo_y, len);
        assert(due =~= due_above + due_here);
        assert(here =~= seq![smt::tree_node(leaves, level, place_x)]);
        assert(due_here =~= seq![smt::tree_node(leaves, level, place_y)]);
        assert(siblings.last() == smt::tree_node(leaves, level, place_x));
        assert(due.last() == smt::tree_node(leaves, level, place_y));
        law_tree_siblings_reach_root(leaves, level, lo_y, len, height);
        lemma_level_up(lo_y, honest, due, height);
        assert(smt::node_sized(leaves));
        assert forall|i: int| 0 <= i < honest.len() implies (#[trigger] honest[i]).len() == 32 by {
            lemma_tree_node_sized(leaves, level, (lo_y + i) as nat);
        }
        lemma_range_siblings_sized(leaves, level, lo_x, len, height);
        lemma_range_siblings_sized(leaves, level, lo_y, len, height);
        lemma_paired_sized(lo_y, nodes, siblings);
        lemma_paired_sized(lo_y, honest, due);
        let (pairs, due_pairs) = (paired(lo_y, nodes, siblings), paired(lo_y, honest, due));
        law_root_binds_range(
            lo_y / 2,
            parents(pairs),
            siblings_left(lo_y, len, siblings),
            parents(due_pairs),
            siblings_left(lo_y, len, due),
            up_height,
            smt::tree_node(leaves, level + height, 0),
        );
        if parents(pairs) != parents(due_pairs) {
            lemma_collide_grows(
                range_messages(
                    lo_y / 2,
                    parents(pairs),
                    siblings_left(lo_y, len, siblings),
                    up_height,
                ),
                range_messages(
                    lo_y / 2,
                    parents(due_pairs),
                    siblings_left(lo_y, len, due),
                    up_height,
                ),
                all,
                tree,
            );
        } else {
            lemma_parents_bind(pairs, due_pairs);
            if pairs != due_pairs {
                lemma_collide_grows(pair_messages(pairs), pair_messages(due_pairs), all, tree);
            } else {
                if lo_y % 2 == 1 {
                    assert(pairs[0] == siblings.last() && due_pairs[0] == due.last());
                } else {
                    assert(pairs[len as int] == siblings.last());
                    assert(due_pairs[len as int] == due.last());
                }
                lemma_sibling_places(x, y, len);
                let (end_x, end_y) = (lo_x + len - 1, lo_y + len - 1);
                assert(place_x <= end_x || place_x <= end_y ==> place_x * smt::width(level)
                    < shards.len()) by (nonlinear_arith)
                    requires
                        end_x * smt::width(level) < shards.len(),
                        end_y * smt::width(level) < shards.len(),
                ;
                assert(place_y <= end_x || place_y <= end_y ==> place_y * smt::width(level)
                    < shards.len()) by (nonlinear_arith)
                    requires
                        end_x * smt::width(level) < shards.len(),
                        end_y * smt::width(level) < shards.len(),
                ;
                lemma_equal_nodes(shards, level, place_x, place_y, level + height);
                if collide(tree, tree) {
                    lemma_collide_grows(tree, tree, all, tree);
                }
            }
        }
    }
}

/// The siblings that a tree gives are nodes.
pub proof fn lemma_range_siblings_sized(
    leaves: Seq<Seq<u8>>,
    level: nat,
    lo: nat,
    len: nat,
    height: nat,
)
    requires
        smt::node_sized(leaves),
    ensures
        smt::node_sized(smt::range_siblings(leaves, level, lo, len, height)),
    decreases height,
{
    if height > 0 {
        lemma_range_siblings_sized(
            leaves,
            level + 1,
            lo / 2,
            smt::parent_count(lo, len),
            (height - 1) as nat,
        );
        if lo % 2 == 1 {
            lemma_tree_node_sized(leaves, level, (lo - 1) as nat);
        }
        lemma_tree_node_sized(leaves, level, lo + len);
    }
}

/// The siblings that a tree over shards gives for one range do not lead to its root from another
/// range of as many shards, whatever is put there, unless a message that is hashed on the way or
/// for the tree collides with one that is hashed for the tree, or one of these has the hash of the
/// padding. Both ranges begin at multiples of their length.
pub proof fn law_siblings_bind_place(
    shards: Seq<Seq<u8>>,
    x: nat,
    y: nat,
    nodes: Seq<Seq<u8>>,
    height: nat,
)
    requires
        shards.len() <= usize::MAX,
        shards.len() <= smt::width(height),
        x != y,
        nodes.len() > 0,
        smt::node_sized(nodes),
        x * nodes.len() + nodes.len() <= shards.len(),
        y * nodes.len() + nodes.len() <= shards.len(),
    ensures
        ({
            let tree = tree_messages(shards, height);
            let siblings = smt::range_siblings(
                smt::shard_leaves(shards, 0),
                0,
                x * nodes.len(),
                nodes.len(),
                height,
            );
            let start = y * nodes.len();
            ||| range_root(start, nodes, siblings, height) != Some(
                smt::tree_node(smt::shard_leaves(shards, 0), height, 0),
            )
            ||| collide(range_messages(start, nodes, siblings, height).union(tree), tree)
            ||| hits_padding(tree)
        }),
{
    let len = nodes.len();
    let (end_x, end_y) = (x * len + len - 1, y * len + len - 1);
    assert(end_x * smt::width(0) == end_x && end_y * smt::width(0) == end_y) by (nonlinear_arith)
        requires
            smt::width(0) == 1,
    ;
    if range_root(
        y * len,
        nodes,
        smt::range_siblings(smt::shard_leaves(shards, 0), 0, x * len, len, height),
        height,
    ) == Some(smt::tree_node(smt::shard_leaves(shards, 0), height, 0)) {
        lemma_siblings_bind_place(shards, 0, x, y, len, nodes, height);
    }
}

/// Completes the pairs at both ends of the nodes from `lo` on, out of the first `sib_end`
/// siblings.
fn pair_up(
    lo: usize,
    nodes: &Vec<[u8; 32]>,
    siblings: &Vec<[u8; 32]>,
    sib_end: usize,
) -> (pairs: Option<Vec<[u8; 32]>>)
    requires
        lo + nodes@.len() <= usize::MAX,
        sib_end <= siblings@.len(),
    ensures
        pairs is None <==> sib_end < siblings_used(lo as nat, nodes@.len()),
        pairs matches Some(pairs) ==> erasure::hash_views(pairs@) == paired(
            lo as nat,
            erasure::hash_views(nodes@),
            erasure::hash_views(siblings@).take(sib_end as int),
        ),
{
    let left: usize = lo % 2;
    let right: usize = (lo + nodes.len()) % 2;
    if sib_end < left + right {
        return None;
    }
    let ghost usable = erasure::hash_views(siblings@).take(sib_end as int);
    let ghost hashes = erasure::hash_views(nodes@);
    let mut pairs: Vec<[u8; 32]> = Vec::new();
    if left == 1 {
        pairs.push(siblings[sib_end - left - right]);
        assert(erasure::hash_views(pairs@) =~= seq![usable[usable.len() - left - right]]);
    }
    let ghost head = erasure::hash_views(pairs@);
    let mut i: usize = 0;
    while i < nodes.len()
        invariant
            i <= nodes@.len(),
            hashes == erasure::hash_views(nodes@),
            erasure::hash_views(pairs@) == head + hashes.take(i as int),
        decreases nodes@.len() - i,
    {
        let ghost before = erasure::hash_views(pairs@);
        pairs.push(nodes[i]);
        assert(erasure::hash_views(pairs@) =~= before.push(hashes[i as int]));
        i = i + 1;
        assert(erasure::hash_views(pairs@) =~= head + hashes.take(i as int));
    }
    if right == 1 {
        let ghost before = erasure::hash_views(pairs@);
        pairs.push(siblings[sib_end - 1]);
        assert(erasure::hash_views(pairs@) =~= before.push(usable[usable.len() - 1]));
    }
    assert(erasure::hash_views(pairs@) =~= paired(lo as nat, hashes, usable));
    Some(pairs)
}

/// The parents of pairs of nodes.
fn merge_pairs(pairs: &Vec<[u8; 32]>) -> (up: Vec<[u8; 32]>)
    requires
        pairs@.len() % 2 == 0,
    ensures
        erasure::hash_views(up@) == parents(erasure::hash_views(pairs@)),
{
    let mut up: Vec<[u8; 32]> = Vec::new();
    let mut i: usize = 0;
    while i < pairs.len()
        invariant
            i <= pairs@.len(),
            i % 2 == 0,
            pairs@.len() % 2 == 0,
            up@.len() == i / 2,
            forall|p: int|
                0 <= p < i / 2 ==> (#[trigger] up@[p])@ == smt::merged(
                    pairs@[2 * p]@,
                    pairs@[2 * p + 1]@,
                ),
        decreases pairs@.len() - i,
    {
        up.push(merge(&pairs[i], &pairs[i + 1]));
        i = i + 2;
    }
    assert(erasure::hash_views(up@) =~= parents(erasure::hash_views(pairs@)));
    up
}

/// The root above the nodes from `start` on, or `None` if the siblings run out.
pub fn climb(start: usize, leaves: Vec<[u8; 32]>, siblings: &Vec<[u8; 32]>, height: usize) -> (root:
    Option<[u8; 32]>)
    requires
        in_range(start as nat, leaves@.len(), height as nat),
        start + leaves@.len() <= usize::MAX,
    ensures
        match range_root(
            start as nat,
            erasure::hash_views(leaves@),
            erasure::hash_views(siblings@),
            height as nat,
        ) {
            None => root is None,
            Some(expected) => root is Some && root->0@ == expected,
        },
{
    let ghost all = erasure::hash_views(siblings@);
    let ghost bottom = erasure::hash_views(leaves@);
    let mut lo: usize = start;
    let mut nodes: Vec<[u8; 32]> = leaves;
    let mut sib_end: usize = siblings.len();
    let mut left: usize = height;
    assert(all.take(sib_end as int) =~= all);
    while left > 0
        invariant
            in_range(lo as nat, nodes@.len(), left as nat),
            lo + nodes@.len() <= usize::MAX,
            sib_end <= siblings@.len(),
            all == erasure::hash_views(siblings@),
            bottom == erasure::hash_views(leaves@),
            range_root(start as nat, bottom, all, height as nat) == range_root(
                lo as nat,
                erasure::hash_views(nodes@),
                all.take(sib_end as int),
                left as nat,
            ),
        decreases left,
    {
        let ghost hashes = erasure::hash_views(nodes@);
        let ghost usable = all.take(sib_end as int);
        proof {
            lemma_level_up(lo as nat, hashes, usable, left as nat);
        }
        let pairs = match pair_up(lo, &nodes, siblings, sib_end) {
            None => {
                return None;
            },
            Some(pairs) => pairs,
        };
        assert(pairs@.len() == erasure::hash_views(pairs@).len());
        sib_end = sib_end - lo % 2 - (lo + nodes.len()) % 2;
        assert(all.take(sib_end as int) =~= siblings_left(lo as nat, nodes@.len(), usable));
        nodes = merge_pairs(&pairs);
        assert(nodes@.len() == erasure::hash_views(nodes@).len());
        lo = lo / 2;
        left = left - 1;
    }
    Some(nodes[0])
}

/// The siblings on the path of the first node from `start` on, from the root down, or `None` if
/// the siblings run out.
pub fn anchor_path(
    start: usize,
    leaves: Vec<[u8; 32]>,
    siblings: &Vec<[u8; 32]>,
    height: usize,
) -> (path: Option<Vec<[u8; 32]>>)
    requires
        in_range(start as nat, leaves@.len(), height as nat),
        start + leaves@.len() <= usize::MAX,
    ensures
        match range_root(
            start as nat,
            erasure::hash_views(leaves@),
            erasure::hash_views(siblings@),
            height as nat,
        ) {
            None => path is None,
            Some(_) => path is Some && erasure::hash_views(path->0@) == anchor_siblings(
                start as nat,
                erasure::hash_views(leaves@),
                erasure::hash_views(siblings@),
                height as nat,
            ).reverse(),
        },
{
    let ghost all = erasure::hash_views(siblings@);
    let ghost bottom = erasure::hash_views(leaves@);
    let ghost goal = anchor_siblings(start as nat, bottom, all, height as nat);
    let mut lo: usize = start;
    let mut nodes: Vec<[u8; 32]> = leaves;
    let mut sib_end: usize = siblings.len();
    let mut left: usize = height;
    let mut rising: Vec<[u8; 32]> = Vec::new();
    assert(all.take(sib_end as int) =~= all);
    assert(erasure::hash_views(rising@) + goal =~= goal);
    while left > 0
        invariant
            in_range(lo as nat, nodes@.len(), left as nat),
            lo + nodes@.len() <= usize::MAX,
            sib_end <= siblings@.len(),
            all == erasure::hash_views(siblings@),
            bottom == erasure::hash_views(leaves@),
            range_root(start as nat, bottom, all, height as nat) == range_root(
                lo as nat,
                erasure::hash_views(nodes@),
                all.take(sib_end as int),
                left as nat,
            ),
            goal == erasure::hash_views(rising@) + anchor_siblings(
                lo as nat,
                erasure::hash_views(nodes@),
                all.take(sib_end as int),
                left as nat,
            ),
        decreases left,
    {
        let ghost hashes = erasure::hash_views(nodes@);
        let ghost usable = all.take(sib_end as int);
        proof {
            lemma_level_up(lo as nat, hashes, usable, left as nat);
        }
        let pairs = match pair_up(lo, &nodes, siblings, sib_end) {
            None => {
                return None;
            },
            Some(pairs) => pairs,
        };
        assert(pairs@.len() == erasure::hash_views(pairs@).len());
        let ghost before = erasure::hash_views(rising@);
        let ghost ahead = anchor_siblings(lo as nat, hashes, usable, left as nat);
        let found: [u8; 32] = if lo % 2 == 1 {
            pairs[0]
        } else {
            pairs[1]
        };
        assert(found@ == ahead[0]);
        rising.push(found);
        assert(erasure::hash_views(rising@) =~= before.push(ahead[0]));
        assert(erasure::hash_views(rising@) + ahead.drop_first() =~= before + ahead);
        sib_end = sib_end - lo % 2 - (lo + nodes.len()) % 2;
        assert(all.take(sib_end as int) =~= siblings_left(lo as nat, nodes@.len(), usable));
        nodes = merge_pairs(&pairs);
        assert(nodes@.len() == erasure::hash_views(nodes@).len());
        assert(ahead.drop_first() =~= anchor_siblings(
            (lo / 2) as nat,
            erasure::hash_views(nodes@),
            all.take(sib_end as int),
            (left - 1) as nat,
        ));
        lo = lo / 2;
        left = left - 1;
    }
    assert(erasure::hash_views(rising@) =~= goal);
    let mut path: Vec<[u8; 32]> = Vec::new();
    let mut i: usize = rising.len();
    while i > 0
        invariant
            i <= rising@.len(),
            goal == erasure::hash_views(rising@),
            erasure::hash_views(path@) == goal.reverse().take(rising@.len() - i),
        decreases i,
    {
        i = i - 1;
        let ghost before = erasure::hash_views(path@);
        path.push(rising[i]);
        assert(erasure::hash_views(path@) =~= before.push(goal[i as int]));
        assert(erasure::hash_views(path@) =~= goal.reverse().take(rising@.len() - i));
    }
    assert(erasure::hash_views(path@) =~= goal.reverse());
    Some(path)
}

} // verus!
