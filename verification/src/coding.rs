//! Reed-Solomon codes over GF(2^8), as the `reed_solomon_erasure` crate computes them.

use reed_solomon_erasure::galois_8::ReedSolomon;
use reed_solomon_erasure::Error as RsError;
use vstd::prelude::*;

verus! {

/// An erasure-coded shard.
pub type Shard = Vec<u8>;

/// The largest number of shards of a code over GF(2^8).
pub const MAX_SHARDS: usize = 256;

/// Why a set of shards cannot be decoded.
#[derive(Clone, Copy, Debug, PartialEq, Eq, Structural)]
pub enum CodingError {
    TooFewShards,
    TooManyShards,
    TooFewDataShards,
    TooManyDataShards,
    TooFewParityShards,
    TooManyParityShards,
    TooFewBufferShards,
    TooManyBufferShards,
    IncorrectShardSize,
    TooFewShardsPresent,
    EmptyShard,
    InvalidShardFlags,
    InvalidIndex,
}

/// The parameters for which a code exists.
pub open spec fn valid_code(data: nat, parity: nat) -> bool {
    &&& 0 < data
    &&& 0 < parity
    &&& data + parity <= MAX_SHARDS
}

/// The contents of a list of shards.
pub open spec fn shard_views(shards: Seq<Vec<u8>>) -> Seq<Seq<u8>> {
    Seq::new(shards.len(), |i: int| shards[i]@)
}

/// The contents of a list of shards some of which are missing.
pub open spec fn sparse_views(shards: Seq<Option<Vec<u8>>>) -> Seq<Option<Seq<u8>>> {
    Seq::new(
        shards.len(),
        |i: int|
            match shards[i] {
                Some(shard) => Some(shard@),
                None => None,
            },
    )
}

/// Every shard has `size` bytes.
pub open spec fn uniform(shards: Seq<Seq<u8>>, size: nat) -> bool {
    forall|i: int| 0 <= i < shards.len() ==> (#[trigger] shards[i]).len() == size
}

/// The number of shards that are there.
pub open spec fn present_count(shards: Seq<Option<Seq<u8>>>) -> nat
    decreases shards.len(),
{
    if shards.len() == 0 {
        0
    } else if shards.last() is Some {
        present_count(shards.drop_last()) + 1
    } else {
        present_count(shards.drop_last())
    }
}

/// The first shard, from the left, that is empty or of another size than one before it.
pub open spec fn size_fault(shards: Seq<Option<Seq<u8>>>) -> Option<CodingError>
    decreases shards.len(),
{
    if shards.len() == 0 {
        None
    } else {
        let front = shards.drop_last();
        match (size_fault(front), shards.last()) {
            (Some(fault), _) => Some(fault),
            (None, None) => None,
            (None, Some(last)) => if last.len() == 0 {
                Some(CodingError::EmptyShard)
            } else if exists|i: int|
                0 <= i < front.len() && (#[trigger] front[i]) is Some && front[i]->0.len() != last.len() {
                Some(CodingError::IncorrectShardSize)
            } else {
                None
            },
        }
    }
}

/// Why `shards` cannot be completed to a code word with `data` data shards out of `total`.
pub open spec fn reconstruction_fault(
    shards: Seq<Option<Seq<u8>>>,
    data: nat,
    total: nat,
) -> Option<CodingError> {
    if shards.len() < total {
        Some(CodingError::TooFewShards)
    } else if shards.len() > total {
        Some(CodingError::TooManyShards)
    } else if size_fault(shards) is Some {
        size_fault(shards)
    } else if present_count(shards) < data {
        Some(CodingError::TooFewShardsPresent)
    } else {
        None
    }
}

/// The parity shards of the given data shards.
pub uninterp spec fn rs_parity(data: Seq<Seq<u8>>, parity: nat) -> Seq<Seq<u8>>;

/// All shards, after the missing ones have been computed from those that are there.
pub uninterp spec fn rs_completed(shards: Seq<Option<Seq<u8>>>, data: nat) -> Seq<Seq<u8>>;

/// The data shards followed by their parity shards.
pub open spec fn code_word(data: Seq<Seq<u8>>, parity: nat) -> Seq<Seq<u8>> {
    data + rs_parity(data, parity)
}

/// Each shard that is there is the one that `word` has at its place.
pub open spec fn drawn_from(shards: Seq<Option<Seq<u8>>>, word: Seq<Seq<u8>>) -> bool {
    forall|i: int|
        0 <= i < shards.len() && (#[trigger] shards[i]) is Some ==> i < word.len() && shards[i]->0
            == word[i]
}

/// The shards that are there come from the code word of `data`.
pub open spec fn from_code_word(
    shards: Seq<Option<Seq<u8>>>,
    data: Seq<Seq<u8>>,
    parity: nat,
    size: nat,
) -> bool {
    &&& uniform(data, size)
    &&& size > 0
    &&& drawn_from(shards, code_word(data, parity))
}

/// No shard is missing.
pub open spec fn is_complete(shards: Seq<Option<Vec<u8>>>) -> bool {
    forall|i: int| 0 <= i < shards.len() ==> (#[trigger] shards[i]) is Some
}

/// The contents of a list of shards none of which is missing.
pub open spec fn complete_views(shards: Seq<Option<Vec<u8>>>) -> Seq<Seq<u8>> {
    Seq::new(shards.len(), |i: int| shards[i]->0@)
}

/// All shards have the same size, which is not zero.
pub open spec fn well_sized(shards: Seq<Seq<u8>>) -> bool {
    &&& shards.len() > 0
    &&& shards[0].len() > 0
    &&& uniform(shards, shards[0].len())
}

/// Calls `ReedSolomon::encode` of a codec made for `data` and `parity` shards. The data shards
/// stay as they are; the parity shards are overwritten with a function of the data shards alone
/// and keep their size.
#[verifier::external_body]
pub(crate) fn rs_encode(shards: &mut Vec<Shard>, data: usize, parity: usize)
    requires
        valid_code(data as nat, parity as nat),
        old(shards)@.len() == data + parity,
        well_sized(shard_views(old(shards)@)),
    ensures
        shard_views(final(shards)@) == shard_views(old(shards)@).take(data as int) + rs_parity(
            shard_views(old(shards)@).take(data as int),
            parity as nat,
        ),
        final(shards)@.len() == data + parity,
        uniform(shard_views(final(shards)@), old(shards)@[0]@.len()),
{
    let codec = ReedSolomon::new(data, parity).expect("invalid code parameters");
    codec.encode(shards).expect("malformed shards")
}

/// Calls `ReedSolomon::verify` of a codec made for `data` and `parity` shards: it tells whether
/// the parity shards are those of the data shards.
#[verifier::external_body]
pub(crate) fn rs_verify(shards: &Vec<Shard>, data: usize, parity: usize) -> (correct: bool)
    requires
        valid_code(data as nat, parity as nat),
        shards@.len() == data + parity,
        well_sized(shard_views(shards@)),
    ensures
        correct == (shard_views(shards@) == code_word(
            shard_views(shards@).take(data as int),
            parity as nat,
        )),
{
    let codec = ReedSolomon::new(data, parity).expect("invalid code parameters");
    codec.verify(shards).expect("malformed shards")
}

/// Calls `ReedSolomon::reconstruct` of a codec made for `data` and `parity` shards. It fails on
/// a wrong number of shards, on empty shards or shards of different sizes, and on fewer than
/// `data` shards, in this order; the shards are then left alone. Otherwise it fills in the
/// missing shards, with the size of the others, and keeps those that were there. Since any
/// `data` shards of a code word determine it, shards drawn from one are completed to it.
#[verifier::external_body]
pub(crate) fn rs_reconstruct(
    shards: &mut Vec<Option<Shard>>,
    data: usize,
    parity: usize,
) -> (outcome: Result<(), CodingError>)
    requires
        valid_code(data as nat, parity as nat),
    ensures
        match reconstruction_fault(
            sparse_views(old(shards)@),
            data as nat,
            (data + parity) as nat,
        ) {
            Some(fault) => outcome == Err::<(), CodingError>(fault) && *final(shards) == *old(
                shards,
            ),
            None => {
                &&& outcome is Ok
                &&& is_complete(final(shards)@)
                &&& complete_views(final(shards)@) == rs_completed(
                    sparse_views(old(shards)@),
                    data as nat,
                )
                &&& final(shards)@.len() == data + parity
                &&& well_sized(complete_views(final(shards)@))
                &&& drawn_from(sparse_views(old(shards)@), complete_views(final(shards)@))
                &&& forall|source: Seq<Seq<u8>>, size: nat|
                    source.len() == data && #[trigger] from_code_word(
                        sparse_views(old(shards)@),
                        source,
                        parity as nat,
                        size,
                    ) ==> complete_views(final(shards)@) == code_word(source, parity as nat)
            },
        },
{
    ReedSolomon::new(data, parity).expect("invalid code").reconstruct(shards).map_err(|e| match e {
        RsError::TooFewShards => CodingError::TooFewShards,
        RsError::TooManyShards => CodingError::TooManyShards,
        RsError::TooFewDataShards => CodingError::TooFewDataShards,
        RsError::TooManyDataShards => CodingError::TooManyDataShards,
        RsError::TooFewParityShards => CodingError::TooFewParityShards,
        RsError::TooManyParityShards => CodingError::TooManyParityShards,
        RsError::TooFewBufferShards => CodingError::TooFewBufferShards,
        RsError::TooManyBufferShards => CodingError::TooManyBufferShards,
        RsError::IncorrectShardSize => CodingError::IncorrectShardSize,
        RsError::TooFewShardsPresent => CodingError::TooFewShardsPresent,
        RsError::EmptyShard => CodingError::EmptyShard,
        RsError::InvalidShardFlags => CodingError::InvalidShardFlags,
        RsError::InvalidIndex => CodingError::InvalidIndex,
    })
}

/// The shards one after the other.
pub open spec fn joined(shards: Seq<Seq<u8>>) -> Seq<u8>
    decreases shards.len(),
{
    if shards.len() == 0 {
        Seq::empty()
    } else {
        joined(shards.drop_last()) + shards.last()
    }
}

pub proof fn lemma_joined_len(shards: Seq<Seq<u8>>, size: nat)
    requires
        uniform(shards, size),
    ensures
        joined(shards).len() == shards.len() * size,
    decreases shards.len(),
{
    if shards.len() > 0 {
        let front = shards.drop_last();
        assert(uniform(front, size)) by {
            assert forall|i: int| 0 <= i < front.len() implies (#[trigger] front[i]).len() == size by {
                assert(front[i] == shards[i]);
            }
        }
        lemma_joined_len(front, size);
        assert((shards.len() - 1) * size + size == shards.len() * size) by (nonlinear_arith);
    }
}

/// Byte `j` of shard `i` is byte `i * size + j` of the joined shards.
pub proof fn lemma_joined_index(shards: Seq<Seq<u8>>, size: nat, i: int, j: int)
    requires
        uniform(shards, size),
        0 <= i < shards.len(),
        0 <= j < size,
    ensures
        0 <= i * size + j < joined(shards).len(),
        joined(shards)[i * size + j] == shards[i][j],
    decreases shards.len(),
{
    let front = shards.drop_last();
    assert(uniform(front, size)) by {
        assert forall|x: int| 0 <= x < front.len() implies (#[trigger] front[x]).len() == size by {
            assert(front[x] == shards[x]);
        }
    }
    lemma_joined_len(shards, size);
    lemma_joined_len(front, size);
    assert(i * size + j < (i + 1) * size && 0 <= i * size) by (nonlinear_arith)
        requires
            0 <= j < size,
            0 <= i,
    ;
    assert((i + 1) * size <= shards.len() * size) by (nonlinear_arith)
        requires
            i + 1 <= shards.len(),
    ;
    if i < front.len() {
        lemma_joined_index(front, size, i, j);
        assert(front[i] == shards[i]);
    } else {
        assert(i == front.len());
    }
}

/// Shards drawn from shards of one size have no fault in their sizes.
pub proof fn lemma_drawn_sizes(shards: Seq<Option<Seq<u8>>>, word: Seq<Seq<u8>>, size: nat)
    requires
        drawn_from(shards, word),
        uniform(word, size),
        size > 0,
    ensures
        size_fault(shards) is None,
    decreases shards.len(),
{
    if shards.len() > 0 {
        let front = shards.drop_last();
        assert forall|i: int| 0 <= i < front.len() && (#[trigger] front[i]) is Some implies i
            < word.len() && front[i]->0 == word[i] by {
            assert(front[i] == shards[i]);
        }
        lemma_drawn_sizes(front, word, size);
        if shards.last() is Some {
            let last = shards.len() - 1;
            assert(shards[last] is Some);
            assert(word[last].len() == size);
            assert forall|i: int| 0 <= i < front.len() && (#[trigger] front[i]) is Some implies front[i]->0.len()
                == size by {
                assert(word[i].len() == size);
            }
        }
    }
}

} // verus!
