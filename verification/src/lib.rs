//! Verified building blocks of a HotStuff node with a proof-of-availability mempool.

pub mod aggregator;
pub mod batch_laws;
pub mod block_laws;
pub mod block_sizes;
pub mod bytes;
pub mod coded_batch;
pub mod coding;
pub mod committee;
pub mod committee_laws;
pub mod consensus_core;
pub mod consensus_laws;
pub mod crypto;
pub mod erasure;
pub mod error;
pub mod fragments;
pub mod hashing;
pub mod helper;
pub mod inspector;
pub mod keys;
pub mod mempool;
pub mod mempool_laws;
pub mod merkle_bench;
pub mod messages;
pub mod proof_layout;
pub mod proposer;
pub mod range_places;
pub mod range_proof;
pub mod reconstructor;
pub mod shard_cleaner;
pub mod simple_sharding;
pub mod smt;
pub mod store;
pub mod synchronizer;
pub mod table;
pub mod tool_laws;
pub mod vote_laws;
pub mod vote_runs;
pub mod voter;
