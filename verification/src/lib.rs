//! A minimal peer-to-peer cryptocurrency node library.
//!
//! The library holds the consensus core: the chain state machine (block
//! validation, balance accounting, difficulty adjustment, fork choice), the
//! proof-of-work predicate and nonce search, the signed-transfer transaction
//! model, the deterministic wire codec, and the decision logic that a node's
//! event loop runs on inbound gossip. Networking, threads and the interactive
//! prompt live outside the library and call into it with plain values.

use vstd::prelude::*;

pub mod blockchain;
pub mod client;
pub mod codec;
pub mod hashes;
pub mod keys;
pub mod mining;
pub mod node;
pub mod transaction;

verus! {

/// Coinbase reward credited to a block's miner upon adoption.
pub const MINING_REW: u64 = 100;

/// Difficulty target interval in seconds.
pub const TIME_BASE: u64 = 30;

/// Relies on std::time::SystemTime::now, for the wall clock: the result is
/// whole seconds since the Unix epoch, or zero if the clock reads earlier
/// than the epoch. Nothing is assumed about the value.
#[verifier::external_body]
pub fn now() -> u64 {
    match std::time::SystemTime::now().duration_since(std::time::UNIX_EPOCH) {
        Ok(d) => d.as_secs(),
        Err(_) => 0,
    }
}

} // verus!
