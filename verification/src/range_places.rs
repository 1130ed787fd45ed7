//! Why the siblings of one range of a Merkle tree do not lead another range to the same root,
//! whatever the length of the ranges.
//!
//! All is said of known messages, which are those that are hashed on both ways up. A node that is
//! no hash of a known message is a part of its own, and other nodes have the parts of both nodes
//! they are hashed from. Then a root has the parts of the nodes and of the siblings
//! that led to it. If the same siblings lead two lists of nodes to one root, both take as many of
//! them, and so the nodes themselves have the same parts.

use vstd::prelude::*;
use crate::range_proof;
use crate::smt;

verus! {

/// The node is the hash of this message.
pub open spec fn opens(node: Seq<u8>, message: Seq<u8>) -> bool {
    &&& message.len() == 64
    &&& node == crate::hashing::blake3_hash(message)@
}

/// The node is hashed from two nodes, by one of the known messages.
pub open spec fn is_inner(known: Set<Seq<u8>>, node: Seq<u8>) -> bool {
    exists|message: Seq<u8>| known.contains(message) && #[trigger] opens(node, message)
}

/// Two nodes that the node is hashed from, by one of the known messages.
pub open spec fn halves(known: Set<Seq<u8>>, node: Seq<u8>) -> (Seq<u8>, Seq<u8>) {
    let message = choose|message: Seq<u8>|
        known.contains(message) && #[trigger] opens(node, message);
    (message.take(32), message.skip(32))
}

/// The node is hashed from nodes by the known messages, and these from others, at most `depth`
/// times.
pub open spec fn has_depth(known: Set<Seq<u8>>, node: Seq<u8>, depth: nat) -> bool
    decreases depth,
{
    is_inner(known, node) ==> {
        &&& depth > 0
        &&& has_depth(known, halves(known, node).0, (depth - 1) as nat)
        &&& has_depth(known, halves(known, node).1, (depth - 1) as nat)
    }
}

/// The node is hashed from nodes by the known messages, and these from others, without end.
pub open spec fn is_endless(known: Set<Seq<u8>>, node: Seq<u8>) -> bool {
    forall|depth: nat| !#[trigger] has_depth(known, node, depth)
}

/// One of the nodes is hashed from nodes by the known messages, and these from others, without
/// end.
pub open spec fn some_endless(known: Set<Seq<u8>>, nodes: Seq<Seq<u8>>) -> bool {
    exists|i: int| 0 <= i < nodes.len() && is_endless(known, #[trigger] nodes[i])
}

/// How many parts a node has, down to the given depth: all of them, or only those that are
/// `part`.
pub open spec fn parts(known: Set<Seq<u8>>, node: Seq<u8>, part: Option<Seq<u8>>, depth: nat) -> nat
    decreases depth,
{
    if is_inner(known, node) && depth > 0 {
        parts(known, halves(known, node).0, part, (depth - 1) as nat) + parts(
            known,
            halves(known, node).1,
            part,
            (depth - 1) as nat,
        )
    } else if part is None || part == Some(node) {
        1
    } else {
        0
    }
}

/// How many parts several nodes have.
pub open spec fn all_parts(
    known: Set<Seq<u8>>,
    nodes: Seq<Seq<u8>>,
    part: Option<Seq<u8>>,
    depth: nat,
) -> nat
    decreases nodes.len(),
{
    if nodes.len() == 0 {
        0
    } else {
        all_parts(known, nodes.drop_last(), part, depth) + parts(known, nodes.last(), part, depth)
    }
}

/// All nodes have the depth.
pub open spec fn all_have_depth(known: Set<Seq<u8>>, nodes: Seq<Seq<u8>>, depth: nat) -> bool {
    forall|i: int| 0 <= i < nodes.len() ==> has_depth(known, #[trigger] nodes[i], depth)
}

/// Below the depth of a node there is nothing to count.
proof fn lemma_deeper(known: Set<Seq<u8>>, node: Seq<u8>, part: Option<Seq<u8>>, depth: nat)
    requires
        has_depth(known, node, depth),
    ensures
        has_depth(known, node, depth + 1),
        parts(known, node, part, depth + 1) == parts(known, node, part, depth),
    decreases depth,
{
    if is_inner(known, node) {
        lemma_deeper(known, halves(known, node).0, part, (depth - 1) as nat);
        lemma_deeper(known, halves(known, node).1, part, (depth - 1) as nat);
    }
}

proof fn lemma_all_deeper(
    known: Set<Seq<u8>>,
    nodes: Seq<Seq<u8>>,
    part: Option<Seq<u8>>,
    depth: nat,
)
    requires
        all_have_depth(known, nodes, depth),
    ensures
        all_have_depth(known, nodes, depth + 1),
        all_parts(known, nodes, part, depth + 1) == all_parts(known, nodes, part, depth),
    decreases nodes.len(),
{
    if nodes.len() > 0 {
        let front = nodes.drop_last();
        assert forall|i: int| 0 <= i < front.len() implies has_depth(
            known,
            #[trigger] front[i],
            depth,
        ) by {
            assert(front[i] == nodes[i]);
        }
        lemma_all_deeper(known, front, part, depth);
        assert(nodes.last() == nodes[nodes.len() - 1]);
        lemma_deeper(known, nodes.last(), part, depth);
        assert forall|i: int| 0 <= i < nodes.len() implies has_depth(
            known,
            #[trigger] nodes[i],
            depth + 1,
        ) by {
            if i < front.len() {
                assert(front[i] == nodes[i]);
            }
        }
    }
}

/// A node that is hashed from two nodes has the parts of both.
proof fn lemma_merged_parts(
    known: Set<Seq<u8>>,
    left: Seq<u8>,
    right: Seq<u8>,
    part: Option<Seq<u8>>,
    depth: nat,
)
    requires
        left.len() == 32,
        right.len() == 32,
        known.contains(left + right),
        has_depth(known, left, depth),
        has_depth(known, right, depth),
        !range_proof::collide(known, known),
    ensures
        has_depth(known, smt::merged(left, right), depth + 1),
        parts(known, smt::merged(left, right), part, depth + 1) == parts(known, left, part, depth) + parts(
            known,
            right,
            part,
            depth,
        ),
{
    let node = smt::merged(left, right);
    let x = left + right;
    assert(known.contains(x) && opens(node, x));
    let y = choose|message: Seq<u8>|
        known.contains(message) && #[trigger] opens(node, message);
    if x != y {
        assert(range_proof::node_collision(x, y));
    }
    assert(left =~= x.take(32) && right =~= x.skip(32));
}

/// Parents have the parts of their children.
proof fn lemma_parents_parts(
    known: Set<Seq<u8>>,
    pairs: Seq<Seq<u8>>,
    part: Option<Seq<u8>>,
    depth: nat,
)
    requires
        pairs.len() % 2 == 0,
        smt::node_sized(pairs),
        range_proof::pair_messages(pairs).subset_of(known),
        all_have_depth(known, pairs, depth),
        !range_proof::collide(known, known),
    ensures
        all_have_depth(known, range_proof::parents(pairs), depth + 1),
        all_parts(known, range_proof::parents(pairs), part, depth + 1) == all_parts(known, pairs, part, depth),
    decreases pairs.len(),
{
    let up = range_proof::parents(pairs);
    if pairs.len() > 0 {
        let front = pairs.take(pairs.len() - 2);
        let (left, right) = (pairs[pairs.len() - 2], pairs[pairs.len() - 1]);
        assert forall|i: int| 0 <= i < front.len() implies has_depth(
            known,
            #[trigger] front[i],
            depth,
        ) && front[i].len() == 32 by {
            assert(front[i] == pairs[i]);
        }
        let made = Seq::new(front.len() / 2, |p: int| front[2 * p] + front[2 * p + 1]);
        assert forall|message: Seq<u8>| #[trigger] range_proof::pair_messages(front).contains(
            message,
        ) implies known.contains(message) by {
            let p = choose|p: int| 0 <= p < made.len() && made[p] == message;
            assert(made[p] == pairs[2 * p] + pairs[2 * p + 1]);
            range_proof::lemma_pair_message(pairs, p);
        }
        lemma_parents_parts(known, front, part, depth);
        range_proof::lemma_pair_message(pairs, pairs.len() / 2 - 1);
        lemma_merged_parts(known, left, right, part, depth);
        let fewer = range_proof::parents(front);
        assert(up.drop_last() =~= fewer);
        assert(up.last() == smt::merged(left, right));
        assert forall|i: int| 0 <= i < up.len() implies has_depth(
            known,
            #[trigger] up[i],
            depth + 1,
        ) by {
            if i < fewer.len() {
                assert(up[i] == fewer[i]);
            }
        }
        assert(pairs.drop_last().drop_last() =~= front);
        assert(pairs.drop_last().last() == left);
        assert(all_parts(known, pairs.drop_last(), part, depth) == all_parts(known, front, part, depth) + parts(
            known,
            left,
            part,
            depth,
        ));
        assert(all_parts(known, pairs, part, depth) == all_parts(known, pairs.drop_last(), part, depth) + parts(
            known,
            right,
            part,
            depth,
        ));
    }
}

proof fn lemma_parts_of_both(
    known: Set<Seq<u8>>,
    a: Seq<Seq<u8>>,
    b: Seq<Seq<u8>>,
    part: Option<Seq<u8>>,
    depth: nat,
)
    ensures
        all_parts(known, a + b, part, depth) == all_parts(known, a, part, depth) + all_parts(known, b, part, depth),
    decreases b.len(),
{
    if b.len() == 0 {
        assert(a + b =~= a);
    } else {
        assert((a + b).drop_last() =~= a + b.drop_last());
        assert((a + b).last() == b.last());
        lemma_parts_of_both(known, a, b.drop_last(), part, depth);
    }
}

/// The last siblings, as many as are needed to go up from a range.
pub open spec fn siblings_taken(
    lo: nat,
    len: nat,
    siblings: Seq<Seq<u8>>,
    height: nat,
) -> Seq<Seq<u8>> {
    siblings.skip(siblings.len() - smt::siblings_needed(lo, len, height))
}

/// The pairs of a level have the parts of the nodes and of the siblings that complete them.
proof fn lemma_paired_parts(
    known: Set<Seq<u8>>,
    lo: nat,
    nodes: Seq<Seq<u8>>,
    siblings: Seq<Seq<u8>>,
    part: Option<Seq<u8>>,
    depth: nat,
)
    requires
        siblings.len() >= range_proof::siblings_used(lo, nodes.len()),
        all_have_depth(known, nodes, depth),
        all_have_depth(known, siblings, depth),
    ensures
        all_have_depth(known, range_proof::paired(lo, nodes, siblings), depth),
        all_parts(known, range_proof::paired(lo, nodes, siblings), part, depth) == all_parts(
            known,
            nodes,
            part,
            depth,
        ) + all_parts(
            known,
            siblings.skip(siblings.len() - range_proof::siblings_used(lo, nodes.len())),
            part,
            depth,
        ),
{
    let used = range_proof::siblings_used(lo, nodes.len());
    let taken = siblings.skip(siblings.len() - used);
    let left = if lo % 2 == 1 {
        seq![siblings[siblings.len() - used]]
    } else {
        Seq::empty()
    };
    let right = if (lo + nodes.len()) % 2 == 1 {
        seq![siblings[siblings.len() - 1]]
    } else {
        Seq::empty()
    };
    let pairs = range_proof::paired(lo, nodes, siblings);
    assert(pairs =~= left + nodes + right);
    assert(taken =~= left + right);
    lemma_parts_of_both(known, left + nodes, right, part, depth);
    lemma_parts_of_both(known, left, nodes, part, depth);
    lemma_parts_of_both(known, left, right, part, depth);
    assert forall|i: int| 0 <= i < pairs.len() implies has_depth(
            known,
            #[trigger] pairs[i],
            depth,
        ) by {
        if i < left.len() {
            assert(pairs[i] == siblings[siblings.len() - used]);
        } else if i < left.len() + nodes.len() {
            assert(pairs[i] == nodes[i - left.len()]);
        } else {
            assert(pairs[i] == siblings[siblings.len() - 1]);
        }
    }
}

/// A root has the parts of the nodes and of the siblings that led to it.
proof fn lemma_root_parts(
    known: Set<Seq<u8>>,
    lo: nat,
    nodes: Seq<Seq<u8>>,
    siblings: Seq<Seq<u8>>,
    height: nat,
    root: Seq<u8>,
    part: Option<Seq<u8>>,
    depth: nat,
)
    requires
        range_proof::in_range(lo, nodes.len(), height),
        smt::node_sized(nodes),
        smt::node_sized(siblings),
        all_have_depth(known, nodes, depth),
        all_have_depth(known, siblings, depth),
        range_proof::range_root(lo, nodes, siblings, height) == Some(root),
        range_proof::range_messages(lo, nodes, siblings, height).subset_of(known),
        !range_proof::collide(known, known),
    ensures
        smt::siblings_needed(lo, nodes.len(), height) <= siblings.len(),
        parts(known, root, part, depth + height) == all_parts(known, nodes, part, depth) + all_parts(
            known,
            siblings_taken(lo, nodes.len(), siblings, height),
            part,
            depth,
        ),
    decreases height,
{
    if height == 0 {
        assert(nodes =~= seq![root]);
        assert(nodes.drop_last() =~= Seq::empty());
        assert(siblings_taken(lo, nodes.len(), siblings, height) =~= Seq::empty());
    } else {
        let used = range_proof::siblings_used(lo, nodes.len());
        let pairs = range_proof::paired(lo, nodes, siblings);
        let rest = range_proof::siblings_left(lo, nodes.len(), siblings);
        let up = range_proof::parents(pairs);
        range_proof::lemma_level_up(lo, nodes, siblings, height);
        range_proof::lemma_paired_sized(lo, nodes, siblings);
        lemma_paired_parts(known, lo, nodes, siblings, part, depth);
        let all = range_proof::range_messages(lo, nodes, siblings, height);
        assert forall|message: Seq<u8>| range_proof::pair_messages(pairs).contains(
            message,
        ) implies known.contains(message) by {
            assert(all.contains(message));
        }
        assert forall|message: Seq<u8>| range_proof::range_messages(
            lo / 2,
            up,
            rest,
            (height - 1) as nat,
        ).contains(message) implies known.contains(message) by {
            assert(all.contains(message));
        }
        lemma_parents_parts(known, pairs, part, depth);
        assert forall|i: int| 0 <= i < rest.len() implies has_depth(
            known,
            #[trigger] rest[i],
            depth,
        ) by {
            assert(rest[i] == siblings[i]);
        }
        lemma_all_deeper(known, rest, part, depth);
        lemma_root_parts(known, lo / 2, up, rest, (height - 1) as nat, root, part, depth + 1);
        let above = siblings_taken(lo / 2, up.len(), rest, (height - 1) as nat);
        let here = siblings.skip(siblings.len() - used);
        assert(siblings_taken(lo, nodes.len(), siblings, height) =~= above + here);
        assert forall|i: int| 0 <= i < above.len() implies has_depth(
            known,
            #[trigger] above[i],
            depth,
        ) by {
            assert(above[i] == rest[rest.len() - above.len() + i]);
        }
        lemma_all_deeper(known, above, part, depth);
        lemma_parts_of_both(known, above, here, part, depth);
    }
}

/// Every node has at least one part.
proof fn lemma_some_part(known: Set<Seq<u8>>, node: Seq<u8>, depth: nat)
    ensures
        parts(known, node, None, depth) >= 1,
    decreases depth,
{
    if is_inner(known, node) && depth > 0 {
        lemma_some_part(known, halves(known, node).0, (depth - 1) as nat);
    }
}

proof fn lemma_some_parts(known: Set<Seq<u8>>, nodes: Seq<Seq<u8>>, depth: nat)
    ensures
        all_parts(known, nodes, None, depth) >= nodes.len(),
    decreases nodes.len(),
{
    if nodes.len() > 0 {
        lemma_some_parts(known, nodes.drop_last(), depth);
        lemma_some_part(known, nodes.last(), depth);
    }
}

/// Nodes that are not hashed from nodes are their own parts.
proof fn lemma_own_parts(known: Set<Seq<u8>>, nodes: Seq<Seq<u8>>, part: Seq<u8>, depth: nat)
    requires
        forall|i: int| 0 <= i < nodes.len() ==> !is_inner(known, #[trigger] nodes[i]),
    ensures
        all_have_depth(known, nodes, depth),
        all_parts(known, nodes, None, depth) == nodes.len(),
        all_parts(known, nodes, Some(part), depth) > 0 <==> nodes.contains(part),
    decreases nodes.len(),
{
    if nodes.len() > 0 {
        let front = nodes.drop_last();
        assert forall|i: int| 0 <= i < front.len() implies !is_inner(known, #[trigger] front[i]) by {
            assert(front[i] == nodes[i]);
        }
        lemma_own_parts(known, front, part, depth);
        assert(!is_inner(known, nodes[nodes.len() - 1]));
        assert(nodes.contains(part) <==> front.contains(part) || nodes.last() == part) by {
            if front.contains(part) {
                let i = choose|i: int| 0 <= i < front.len() && front[i] == part;
                assert(nodes[i] == part);
            }
            if nodes.last() == part {
                assert(nodes[nodes.len() - 1] == part);
            }
            if nodes.contains(part) {
                let i = choose|i: int| 0 <= i < nodes.len() && nodes[i] == part;
                if i < front.len() {
                    assert(front[i] == part);
                }
            }
        }
    }
}

/// Nodes that end have a depth in common.
proof fn lemma_common_depth(known: Set<Seq<u8>>, nodes: Seq<Seq<u8>>) -> (depth: nat)
    requires
        !some_endless(known, nodes),
    ensures
        all_have_depth(known, nodes, depth),
    decreases nodes.len(),
{
    if nodes.len() == 0 {
        0
    } else {
        let front = nodes.drop_last();
        assert(!some_endless(known, front)) by {
            assert forall|i: int| 0 <= i < front.len() implies !is_endless(
                known,
                #[trigger] front[i],
            ) by {
                assert(front[i] == nodes[i]);
            }
        }
        let below = lemma_common_depth(known, front);
        assert(!is_endless(known, nodes[nodes.len() - 1]));
        let last = choose|depth: nat| #[trigger] has_depth(known, nodes.last(), depth);
        let depth = below + last;
        assert forall|i: int| 0 <= i < nodes.len() implies has_depth(
            known,
            #[trigger] nodes[i],
            depth,
        ) by {
            if i < front.len() {
                assert(has_depth(known, front[i], below));
                lemma_depth_grows(known, nodes[i], below, depth);
            } else {
                lemma_depth_grows(known, nodes[i], last, depth);
            }
        }
        depth
    }
}

proof fn lemma_depth_grows(known: Set<Seq<u8>>, node: Seq<u8>, depth: nat, more: nat)
    requires
        has_depth(known, node, depth),
        depth <= more,
    ensures
        has_depth(known, node, more),
    decreases more,
{
    if depth < more {
        lemma_depth_grows(known, node, depth, (more - 1) as nat);
        lemma_deeper(known, node, None, (more - 1) as nat);
    }
}

/// If the same siblings lead two lists of as many nodes, at any two places, to one root, and no
/// node of the lists is hashed from two nodes on these ways, then the first node of one list is in
/// the other, unless two of the messages that are hashed on both ways collide, or one of the
/// siblings is hashed from nodes by these messages, and these from others, without end.
pub proof fn law_siblings_bind_nodes(
    known: Set<Seq<u8>>,
    lo_a: nat,
    a: Seq<Seq<u8>>,
    lo_b: nat,
    b: Seq<Seq<u8>>,
    siblings: Seq<Seq<u8>>,
    height: nat,
    root: Seq<u8>,
)
    requires
        range_proof::in_range(lo_a, a.len(), height),
        range_proof::in_range(lo_b, b.len(), height),
        a.len() == b.len(),
        smt::node_sized(a) && smt::node_sized(b) && smt::node_sized(siblings),
        known == range_proof::range_messages(lo_a, a, siblings, height).union(
            range_proof::range_messages(lo_b, b, siblings, height),
        ),
        forall|i: int| 0 <= i < a.len() ==> !is_inner(known, #[trigger] a[i]),
        forall|i: int| 0 <= i < b.len() ==> !is_inner(known, #[trigger] b[i]),
        range_proof::range_root(lo_a, a, siblings, height) == Some(root),
        range_proof::range_root(lo_b, b, siblings, height) == Some(root),
    ensures
        b.contains(a[0]) || range_proof::collide(known, known) || some_endless(known, siblings),
{
    if !range_proof::collide(known, known) && !some_endless(known, siblings) {
        let depth = lemma_common_depth(known, siblings);
        let part = a[0];
        lemma_own_parts(known, a, part, depth);
        lemma_own_parts(known, b, part, depth);
        lemma_root_parts(known, lo_a, a, siblings, height, root, None, depth);
        lemma_root_parts(known, lo_b, b, siblings, height, root, None, depth);
        lemma_root_parts(known, lo_a, a, siblings, height, root, Some(part), depth);
        lemma_root_parts(known, lo_b, b, siblings, height, root, Some(part), depth);
        let (taken_a, taken_b) = (
            siblings_taken(lo_a, a.len(), siblings, height),
            siblings_taken(lo_b, b.len(), siblings, height),
        );
        if taken_a.len() < taken_b.len() {
            let more = taken_b.take(taken_b.len() - taken_a.len());
            assert(taken_b =~= more + taken_a);
            lemma_parts_of_both(known, more, taken_a, None, depth);
            lemma_some_parts(known, more, depth);
        } else if taken_b.len() < taken_a.len() {
            let more = taken_a.take(taken_a.len() - taken_b.len());
            assert(taken_a =~= more + taken_b);
            lemma_parts_of_both(known, more, taken_b, None, depth);
            lemma_some_parts(known, more, depth);
        }
        assert(taken_a =~= taken_b);
        assert(a.contains(a[0]));
    }
}

} // verus!
