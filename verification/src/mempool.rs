//! The messages of the mempool.

use vstd::prelude::*;
use crate::coded_batch::Batch;

verus! {

/// How many messages each channel of the mempool holds.
pub const CHANNEL_CAPACITY: usize = 1_000;

/// What the mempools of the nodes send each other.
#[derive(Debug)]
pub enum MempoolMessage {
    Batch(Batch),
}

/// The mempool: it makes batches of the transactions of the clients.
pub struct Mempool;

} // verus!
