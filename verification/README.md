# hotstuff

Verified building blocks of a HotStuff node whose mempool proves that the batches of
transactions are available. The library under `src/` holds the data structures, the codes and
Merkle trees, and the rules of the node; its behaviour is stated in contracts that Verus proves.
The code under `app/` surrounds it with tasks, the network, the database and the command line.

- `bytes`, `table`: byte strings, little-endian numbers, and tables keyed by byte strings.
- `crypto`, `hashing`, `coding`, `smt`: what comes from outside crates, each call behind a small
  function whose contract says what is relied upon.
- `proof_layout`, `range_proof`, `range_places`, `erasure`, `fragments`: encoded Merkle proofs,
  Merkle proofs for neighbouring leaves, erasure-coded blocks, and the fragments of a block that
  each node gets.
- `committee`, `messages`, `mempool`, `error`: who takes part, and what is said.
- `coded_batch`, `keys`, `voter`, `aggregator`, `vote_runs`, `helper`, `shard_cleaner`,
  `synchronizer`, `reconstructor`, `store`: the mempool, from coding a batch to dropping its shards.
- `consensus_core`, `proposer`: rounds, votes, commits and proposals.
- `merkle_bench`, `simple_sharding`, `inspector`, `block_sizes`: what the benchmarks and the
  tools compute.

Proof functions whose names begin with `law_` state what holds of several functions together.
