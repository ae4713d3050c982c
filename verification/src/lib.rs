//! A light-client bridge that tracks the canonical chain of an Ethash
//! proof-of-work ledger from submitted block headers, verifying each
//! header's proof of work through Merkle-witnessed DAG lookups.

use vstd::prelude::*;

pub mod bridge;
pub mod ext;
pub mod hashes;
pub mod merkle;
pub mod store;
pub mod u256;

verus! {

/// Number of blocks below the best header beyond which state is pruned.
pub const FINALITY_DEPTH: u64 = 30;

/// Number of blocks in one Ethash epoch.
pub const EPOCH_LENGTH: u64 = 30000;

} // verus!
