//! Staking ledger with lazy fair-share reward distribution.
//!
//! Accounts lock tokens in unbonding-period buckets, receive voting and
//! reward power for them, and withdraw rewards that are paid into the pool
//! at arbitrary times.
use vstd::prelude::*;

pub mod bonding;
pub mod claims;
pub mod decisions;
pub mod distribution;
pub mod error;
pub mod laws;
pub mod ledger;
pub mod msg;
pub mod power;
pub mod voting;

verus! {

/// Name under which the staking contract records its version.
pub const CONTRACT_NAME: &'static str = "crates.io:wynd_stake";

} // verus!
