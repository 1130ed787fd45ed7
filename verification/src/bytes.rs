//! Plain byte strings: comparison, copying and little-endian numbers.

use vstd::prelude::*;

verus! {

/// The first `n` bytes of `value` in little-endian order.
pub open spec fn le_bytes(value: nat, n: nat) -> Seq<u8>
    decreases n,
{
    if n == 0 {
        Seq::empty()
    } else {
        seq![(value % 256) as u8] + le_bytes(value / 256, (n - 1) as nat)
    }
}

/// The number that `bytes` hold in little-endian order.
pub open spec fn le_value(bytes: Seq<u8>) -> nat
    decreases bytes.len(),
{
    if bytes.len() == 0 {
        0
    } else {
        bytes[0] as nat + 256 * le_value(bytes.drop_first())
    }
}

pub proof fn lemma_le_bytes_len(value: nat, n: nat)
    ensures
        le_bytes(value, n).len() == n,
    decreases n,
{
    if n > 0 {
        lemma_le_bytes_len(value / 256, (n - 1) as nat);
    }
}

/// The little-endian form of a number below `256^n` holds the number.
pub proof fn lemma_le_value(value: nat, n: nat)
    requires
        value < vstd::arithmetic::power::pow(256, n),
    ensures
        le_value(le_bytes(value, n)) == value,
    decreases n,
{
    reveal(vstd::arithmetic::power::pow);
    if n > 0 {
        let rest = le_bytes(value / 256, (n - 1) as nat);
        let p = vstd::arithmetic::power::pow(256, (n - 1) as nat);
        assert(value < 256 * p);
        assert(value / 256 < p);
        lemma_le_value(value / 256, (n - 1) as nat);
        assert(le_bytes(value, n).drop_first() =~= rest);
    }
}

/// A shorter little-endian form is the beginning of a longer one.
pub proof fn lemma_le_bytes_prefix(value: nat, m: nat, n: nat)
    requires
        m <= n,
    ensures
        le_bytes(value, n).take(m as int) == le_bytes(value, m),
    decreases n,
{
    lemma_le_bytes_len(value, n);
    if m == 0 {
        assert(le_bytes(value, n).take(0) =~= le_bytes(value, 0));
    } else {
        lemma_le_bytes_prefix(value / 256, (m - 1) as nat, (n - 1) as nat);
        lemma_le_bytes_len(value / 256, (n - 1) as nat);
        let rest = le_bytes(value / 256, (n - 1) as nat);
        assert(le_bytes(value, n).take(m as int) =~= seq![(value % 256) as u8] + rest.take(m - 1));
    }
}

/// Different numbers below `256^n` have different little-endian forms.
pub proof fn lemma_le_bytes_injective(a: nat, b: nat, n: nat)
    requires
        le_bytes(a, n) == le_bytes(b, n),
        a < vstd::arithmetic::power::pow(256, n),
        b < vstd::arithmetic::power::pow(256, n),
    ensures
        a == b,
    decreases n,
{
    reveal(vstd::arithmetic::power::pow);
    if n > 0 {
        let p = vstd::arithmetic::power::pow(256, (n - 1) as nat);
        let (ta, tb) = (le_bytes(a / 256, (n - 1) as nat), le_bytes(b / 256, (n - 1) as nat));
        let (sa, sb) = (le_bytes(a, n), le_bytes(b, n));
        assert(sa[0] == (a % 256) as u8 && sb[0] == (b % 256) as u8);
        assert(ta =~= sa.subrange(1, sa.len() as int));
        assert(tb =~= sb.subrange(1, sb.len() as int));
        assert(a < 256 * p && b < 256 * p);
        assert(a / 256 < p && b / 256 < p);
        lemma_le_bytes_injective(a / 256, b / 256, (n - 1) as nat);
    }
}

/// Whether two byte strings are the same.
pub fn bytes_eq(a: &[u8], b: &[u8]) -> (equal: bool)
    ensures
        equal == (a@ == b@),
{
    if a.len() != b.len() {
        return false;
    }
    let mut i: usize = 0;
    while i < a.len()
        invariant
            i <= a.len(),
            a.len() == b.len(),
            a@.take(i as int) == b@.take(i as int),
        decreases a.len() - i,
    {
        if a[i] != b[i] {
            assert(a@[i as int] != b@[i as int]);
            return false;
        }
        assert(a@.take(i + 1) == a@.take(i as int).push(a@[i as int]));
        assert(b@.take(i + 1) == b@.take(i as int).push(b@[i as int]));
        i = i + 1;
    }
    assert(a@.take(i as int) == a@);
    assert(b@.take(i as int) == b@);
    true
}

/// Appends the bytes of `tail` to `out`.
pub fn append_bytes(out: &mut Vec<u8>, tail: &[u8])
    ensures
        final(out)@ == old(out)@ + tail@,
{
    let mut i: usize = 0;
    while i < tail.len()
        invariant
            i <= tail.len(),
            out@ == old(out)@ + tail@.take(i as int),
        decreases tail.len() - i,
    {
        out.push(tail[i]);
        assert(tail@.take(i + 1) == tail@.take(i as int).push(tail@[i as int]));
        i = i + 1;
    }
    assert(tail@.take(i as int) == tail@);
}

/// The eight little-endian bytes of `value`.
pub fn u64_le_bytes(value: u64) -> (out: Vec<u8>)
    ensures
        out@ == le_bytes(value as nat, 8),
        out@.len() == 8,
{
    let mut out: Vec<u8> = Vec::new();
    let mut rest: u64 = value;
    let mut i: usize = 0;
    while i < 8
        invariant
            i <= 8,
            out@.len() == i,
            out@ + le_bytes(rest as nat, (8 - i) as nat) == le_bytes(value as nat, 8),
        decreases 8 - i,
    {
        let ghost tail = le_bytes((rest / 256) as nat, (7 - i) as nat);
        assert(le_bytes(rest as nat, (8 - i) as nat) == seq![(rest % 256) as u8] + tail);
        let ghost before = out@;
        out.push((rest % 256) as u8);
        assert(out@ + tail =~= before + (seq![(rest % 256) as u8] + tail));
        rest = rest / 256;
        i = i + 1;
    }
    assert(out@ + le_bytes(rest as nat, 0) =~= out@);
    out
}

/// The number that at most eight bytes hold in little-endian order.
pub fn u64_from_le_bytes(bytes: &[u8]) -> (value: u64)
    requires
        bytes@.len() <= 8,
    ensures
        value == le_value(bytes@),
{
    let mut value: u64 = 0;
    let mut i: usize = bytes.len();
    proof {
        reveal_with_fuel(vstd::arithmetic::power::pow, 9);
    }
    assert(vstd::arithmetic::power::pow(256, 8) == 0x1_0000_0000_0000_0000);
    while i > 0
        invariant
            i <= bytes@.len() <= 8,
            value == le_value(bytes@.skip(i as int)),
            value < vstd::arithmetic::power::pow(256, (bytes@.len() - i) as nat),
            vstd::arithmetic::power::pow(256, 8) == 0x1_0000_0000_0000_0000,
        decreases i,
    {
        i = i - 1;
        let ghost done = (bytes@.len() - i) as nat;
        assert(bytes@.skip(i as int).drop_first() =~= bytes@.skip(i + 1));
        proof {
            vstd::arithmetic::power::lemma_pow_increases(256, done, 8);
            assert(vstd::arithmetic::power::pow(256, done) == 256
                * vstd::arithmetic::power::pow(256, (done - 1) as nat)) by {
                reveal(vstd::arithmetic::power::pow);
            }
        }
        value = bytes[i] as u64 + 256 * value;
    }
    assert(bytes@.skip(0) =~= bytes@);
    value
}

/// The first 32 bytes of `bytes`, as an array.
pub fn first_32(bytes: &[u8]) -> (out: [u8; 32])
    requires
        bytes@.len() >= 32,
    ensures
        out@ == bytes@.take(32),
{
    let mut out: [u8; 32] = [0u8; 32];
    let mut i: usize = 0;
    while i < 32
        invariant
            i <= 32,
            bytes@.len() >= 32,
            out@.take(i as int) == bytes@.take(i as int),
        decreases 32 - i,
    {
        let ghost before = out@;
        out[i] = bytes[i];
        assert(out@ =~= before.update(i as int, bytes@[i as int]));
        assert(out@.take(i + 1) =~= before.take(i as int).push(bytes@[i as int]));
        assert(bytes@.take(i + 1) =~= bytes@.take(i as int).push(bytes@[i as int]));
        i = i + 1;
    }
    assert(out@.take(32) =~= out@);
    out
}

} // verus!
