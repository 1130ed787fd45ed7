//! What is encoded as a Merkle proof can be decoded again, and a proof for one leaf is accepted if
//! it leads from the leaf to the root.

use vstd::prelude::*;
use crate::bytes;
use crate::coding;
use crate::range_proof;
use crate::smt;

verus! {

proof fn lemma_width_positive(level: nat)
    ensures
        smt::width(level) > 0,
    decreases level,
{
    if level > 0 {
        lemma_width_positive((level - 1) as nat);
    }
}

/// The directions of a byte fit in as many bits.
proof fn lemma_path_byte_fits(height: nat, position: nat, b: nat, bits: nat)
    requires
        bits <= 8,
    ensures
        smt::path_byte(height, position, b, bits) < smt::width(bits),
        smt::width(bits) <= 256,
    decreases bits,
{
    reveal_with_fuel(smt::width, 9);
    if bits > 0 {
        lemma_path_byte_fits(height, position, b, (bits - 1) as nat);
        let step = smt::direction(height, position, (8 * b + bits - 1) as nat);
        let half = smt::width((bits - 1) as nat);
        assert(step * half <= half) by (nonlinear_arith)
            requires
                0 <= step <= 1,
                half >= 0,
        ;
    }
}

/// The path of a leaf consists of bytes without bits beyond the height.
proof fn lemma_index_path(height: nat, position: nat, b: int)
    requires
        0 <= b < smt::path_len(height),
    ensures
        smt::index_path(height, position)[b] == smt::path_byte(
            height,
            position,
            b as nat,
            smt::bits_in_byte(height, b),
        ),
        smt::index_path(height, position)[b] < smt::width(smt::bits_in_byte(height, b)),
{
    lemma_path_byte_fits(height, position, b as nat, smt::bits_in_byte(height, b));
}

/// The parts of an encoded proof.
proof fn lemma_parts(height: nat, start: nat, count: nat, siblings: Seq<Seq<u8>>)
    requires
        height <= 256,
        count <= u64::MAX,
        siblings.len() <= u64::MAX,
        smt::node_sized(siblings),
    ensures
        ({
            let proof = smt::encoded_proof(height, start, count, siblings);
            let at = (10 + count * smt::path_len(height)) as int;
            &&& proof.len() == at + 8 + 32 * siblings.len()
            &&& smt::announced_count(proof) == count
            &&& smt::announced_height(proof) == height
            &&& smt::siblings_at(proof) == at
            &&& smt::announced_siblings(proof) == siblings.len()
            &&& proof.subrange(10, at) == coding::joined(
                Seq::new(count, |i: int| smt::index_path(height, (start + i) as nat)),
            )
            &&& proof.subrange(at + 8, proof.len() as int) == coding::joined(siblings)
        }),
{
    let proof = smt::encoded_proof(height, start, count, siblings);
    let paths = Seq::new(count, |i: int| smt::index_path(height, (start + i) as nat));
    let (head, tall, middle, number, tail) = (
        bytes::le_bytes(count, 8),
        bytes::le_bytes(height, 2),
        coding::joined(paths),
        bytes::le_bytes(siblings.len(), 8),
        coding::joined(siblings),
    );
    bytes::lemma_le_bytes_len(count, 8);
    bytes::lemma_le_bytes_len(height, 2);
    bytes::lemma_le_bytes_len(siblings.len(), 8);
    assert(vstd::arithmetic::power::pow(256, 8) == 0x1_0000_0000_0000_0000) by {
        reveal_with_fuel(vstd::arithmetic::power::pow, 9);
    }
    assert(vstd::arithmetic::power::pow(256, 2) == 0x1_0000) by {
        reveal_with_fuel(vstd::arithmetic::power::pow, 3);
    }
    bytes::lemma_le_value(count, 8);
    bytes::lemma_le_value(height, 2);
    bytes::lemma_le_value(siblings.len(), 8);
    coding::lemma_joined_len(paths, smt::path_len(height));
    coding::lemma_joined_len(siblings, 32);
    let at = (10 + count * smt::path_len(height)) as int;
    assert(middle.len() == count * smt::path_len(height));
    assert(proof =~= head + tall + middle + number + tail);
    assert(proof.len() == 8 + 2 + middle.len() + 8 + tail.len());
    assert(proof.take(8) =~= head);
    assert(proof.subrange(8, 10) =~= tall);
    assert(proof.subrange(10, at) =~= middle);
    assert(proof.subrange(at, at + 8) =~= number);
    assert(proof.subrange(at + 8, proof.len() as int) =~= tail);
}

/// Path `i` of an encoded proof is that of its leaf, filled up with zeros.
proof fn lemma_paths(height: nat, start: nat, count: nat, siblings: Seq<Seq<u8>>, i: int)
    requires
        height <= 256,
        count <= u64::MAX,
        siblings.len() <= u64::MAX,
        smt::node_sized(siblings),
        0 <= i < count,
    ensures
        ({
            let proof = smt::encoded_proof(height, start, count, siblings);
            let len = smt::path_len(height);
            proof.subrange(10 + i * len, 10 + i * len + len) == smt::index_path(
                height,
                (start + i) as nat,
            )
        }),
{
    let proof = smt::encoded_proof(height, start, count, siblings);
    let paths = Seq::new(count, |i: int| smt::index_path(height, (start + i) as nat));
    let len = smt::path_len(height);
    let middle = coding::joined(paths);
    let path = smt::index_path(height, (start + i) as nat);
    lemma_parts(height, start, count, siblings);
    coding::lemma_joined_len(paths, len);
    assert(0 <= i * len && i * len + len <= count * len) by (nonlinear_arith)
        requires
            0 <= i < count,
            len >= 0,
    ;
    let cut = proof.subrange(10 + i * len, 10 + i * len + len);
    assert forall|j: int| 0 <= j < len implies cut[j] == path[j] by {
        coding::lemma_joined_index(paths, len, i, j);
        assert(proof.subrange(10, (10 + count * len) as int)[i * len + j] == middle[i * len + j]);
    }
    assert(cut =~= path);
}

/// What is encoded can be decoded again where words have 64 bits.
pub proof fn lemma_encoded(height: nat, start: nat, count: nat, siblings: Seq<Seq<u8>>)
    requires
        height <= 256,
        0 < count <= u64::MAX,
        height == 0 ==> count == 1,
        smt::node_sized(siblings),
        smt::encoded_proof(height, start, count, siblings).len() <= usize::MAX,
    ensures
        ({
            let proof = smt::encoded_proof(height, start, count, siblings);
            &&& smt::header_fits(proof)
            &&& smt::decoded_proof(proof, 64) == Some((Some(height), siblings))
            &&& smt::decoded_paths(proof, 64).len() == count
            &&& forall|i: int|
                0 <= i < count ==> (#[trigger] smt::decoded_paths(proof, 64)[i])
                    == smt::index_path(height, (start + i) as nat) + Seq::new(
                    (32 - smt::path_len(height)) as nat,
                    |j: int| 0u8,
                )
            &&& smt::clean_indices(proof, 64)
        }),
{
    let proof = smt::encoded_proof(height, start, count, siblings);
    let len = smt::path_len(height);
    coding::lemma_joined_len(siblings, 32);
    assert(siblings.len() <= proof.len());
    lemma_parts(height, start, count, siblings);
    assert(0 <= count * len) by (nonlinear_arith)
        requires
            count >= 0,
            len >= 0,
    ;
    let at = (10 + count * len + 8) as int;
    let tail = proof.subrange(at, proof.len() as int);
    let found = Seq::new(siblings.len(), |i: int| proof.subrange(at + 32 * i, at + 32 * i + 32));
    assert forall|i: int| 0 <= i < siblings.len() implies found[i] == siblings[i] by {
        assert forall|j: int| 0 <= j < 32 implies found[i][j] == siblings[i][j] by {
            coding::lemma_joined_index(siblings, 32, i, j);
            assert(i * 32 == 32 * i);
            assert(tail[32 * i + j] == coding::joined(siblings)[i * 32 + j]);
        }
        assert(found[i] =~= siblings[i]);
    }
    assert(found =~= siblings);
    let paths = smt::decoded_paths(proof, 64);
    assert forall|i: int| 0 <= i < count implies (#[trigger] paths[i]) == smt::index_path(
        height,
        (start + i) as nat,
    ) + Seq::new((32 - len) as nat, |j: int| 0u8) by {
        lemma_paths(height, start, count, siblings, i);
    }
    assert forall|i: int| 0 <= i < paths.len() implies smt::path_fits(
        #[trigger] paths[i],
        height,
    ) by {
        let path = smt::index_path(height, (start + i) as nat);
        assert forall|b: int| 0 <= b < paths[i].len() implies (#[trigger] paths[i][b])
            < smt::width(smt::bits_in_byte(height, b)) by {
            lemma_width_positive(smt::bits_in_byte(height, b));
            if b < len {
                lemma_index_path(height, (start + i) as nat, b);
                assert(paths[i][b] == path[b]);
            } else {
                assert(paths[i][b] == 0);
            }
        }
    }
}

proof fn lemma_width_sum(a: nat, b: nat)
    ensures
        smt::width(a + b) == smt::width(a) * smt::width(b),
    decreases a,
{
    if a == 0 {
        assert(smt::width(0) == 1);
        assert(1 * smt::width(b) == smt::width(b));
    } else {
        lemma_width_sum((a - 1) as nat, b);
        let (x, y) = (smt::width((a - 1) as nat), smt::width(b));
        assert(smt::width(a) == 2 * x);
        assert(smt::width(a + b) == 2 * smt::width((a + b - 1) as nat));
        assert(2 * (x * y) == (2 * x) * y) by (nonlinear_arith);
    }
}

/// Bit `t` of a byte of a path is one of the directions.
proof fn lemma_path_byte_bit(height: nat, position: nat, b: nat, bits: nat, t: nat)
    requires
        t < bits <= 8,
    ensures
        smt::path_byte(height, position, b, bits) / smt::width(t) % 2 == smt::direction(
            height,
            position,
            8 * b + t,
        ),
    decreases bits,
{
    let below = (bits - 1) as nat;
    let lower = smt::path_byte(height, position, b, below);
    let step = smt::direction(height, position, (8 * b + below) as nat);
    let (half, unit) = (smt::width(below), smt::width(t));
    lemma_path_byte_fits(height, position, b, below);
    lemma_width_positive(t);
    lemma_width_positive(below);
    if t == below {
        assert((lower + step * half) / half == step) by (nonlinear_arith)
            requires
                0 <= lower < half,
                0 <= step,
        ;
    } else {
        lemma_path_byte_bit(height, position, b, below, t);
        let rest = (below - t - 1) as nat;
        lemma_width_sum(t, rest + 1);
        assert(t + (rest + 1) == below);
        let more = smt::width(rest);
        assert(smt::width(rest + 1) == 2 * more);
        assert(step * half == unit * (2 * (step * more))) by (nonlinear_arith)
            requires
                half == unit * (2 * more),
        ;
        let twice = 2 * (step * more);
        assert((lower + unit * twice) / unit == lower / unit + twice) by (nonlinear_arith)
            requires
                unit > 0,
                lower >= 0,
        ;
        assert((lower / unit + twice) % 2 == lower / unit % 2) by {
            assert(twice % 2 == 0);
        }
    }
}

/// Where the path of a leaf is followed, its bits are the directions.
proof fn lemma_path_bit(height: nat, position: nat, path: Seq<u8>, i: nat)
    requires
        i < height,
        smt::index_path(height, position).is_prefix_of(path),
    ensures
        smt::path_bit(path, i) == smt::direction(height, position, i),
{
    let b = (i / 8) as int;
    lemma_index_path(height, position, b);
    assert(path[b] == smt::index_path(height, position)[b]);
    lemma_path_byte_bit(height, position, b as nat, smt::bits_in_byte(height, b), i % 8);
    assert(8 * (b as nat) + i % 8 == i);
}

/// Following a path is going up from a single node.
proof fn lemma_leaf_root(
    height: nat,
    position: nat,
    path: Seq<u8>,
    siblings: Seq<Seq<u8>>,
    node: Seq<u8>,
    left: nat,
    lo: nat,
)
    requires
        left <= height,
        siblings.len() == height,
        smt::index_path(height, position).is_prefix_of(path),
        lo == position / smt::width((height - left) as nat),
    ensures
        range_proof::range_root(lo, seq![node], siblings.take(left as int), left) == Some(
            smt::leaf_root(path, siblings, node, left),
        ),
    decreases left,
{
    if left > 0 {
        let i = (left - 1) as nat;
        let unit = smt::width((height - left) as nat);
        let beside = siblings[i as int];
        lemma_path_bit(height, position, path, i);
        assert(smt::path_bit(path, i) == lo % 2);
        lemma_width_positive((height - left) as nat);
        assert(smt::width((height - i) as nat) == 2 * unit);
        assert(position / (2 * unit) == lo / 2) by {
            vstd::arithmetic::div_mod::lemma_div_denominator(
                position as int,
                unit as int,
                2,
            );
            assert(unit * 2 == 2 * unit);
        }
        let up = if lo % 2 == 0 {
            smt::merged(node, beside)
        } else {
            smt::merged(beside, node)
        };
        lemma_leaf_root(height, position, path, siblings, up, i, lo / 2);
        let alone = seq![node];
        let usable = siblings.take(left as int);
        assert(range_proof::siblings_used(lo, 1) == 1);
        assert(usable[usable.len() - 1] == beside);
        let pairs = range_proof::paired(lo, alone, usable);
        if lo % 2 == 1 {
            assert(pairs =~= seq![beside, node]);
        } else {
            assert(pairs =~= seq![node, beside]);
        }
        assert(range_proof::parents(pairs) =~= seq![up]);
        assert(range_proof::siblings_left(lo, 1, usable) =~= siblings.take(i as int));
    }
}

proof fn lemma_one_sibling_per_level(lo: nat, height: nat)
    ensures
        smt::siblings_needed(lo, 1, height) == height,
    decreases height,
{
    if height > 0 {
        lemma_one_sibling_per_level(lo / 2, (height - 1) as nat);
        assert(smt::parent_count(lo, 1) == 1);
    }
}

/// An encoded proof for one leaf is accepted exactly if it has a sibling for each level and leads
/// from the leaf to the root, where words have 64 bits.
pub proof fn law_leaf_proof_accepted(
    height: nat,
    position: nat,
    siblings: Seq<Seq<u8>>,
    leaf: Seq<u8>,
    root: Seq<u8>,
)
    requires
        smt::provable(position, 1, height, siblings),
        smt::encoded_proof(height, position, 1, siblings).len() <= usize::MAX,
    ensures
        smt::leaf_proof_accepted(
            smt::encoded_proof(height, position, 1, siblings),
            64,
            leaf,
            root,
        ) == Some(smt::exact_proof(position, seq![leaf], siblings, height, root)),
{
    let proof = smt::encoded_proof(height, position, 1, siblings);
    lemma_encoded(height, position, 1, siblings);
    lemma_one_sibling_per_level(position, height);
    let path = smt::decoded_paths(proof, 64)[0];
    if siblings.len() == height {
        assert(smt::index_path(height, position).is_prefix_of(path));
        assert(smt::width(0) == 1 && position / 1 == position);
        lemma_leaf_root(height, position, path, siblings, leaf, height, position);
        assert(siblings.take(height as int) =~= siblings);
    }
}

} // verus!
