//! A fork-aware accounts store for a blockchain-style replicated state
//! machine. Accounts are versioned per fork: each account keeps one
//! finalized value plus a queue of inflight per-slot edits, and the store
//! commits the edits of a winning fork atomically when a slot is finalized,
//! discarding the edits of losing siblings in the same pass.

pub mod accounts_db;
pub mod bank;
pub mod versioned_account;

use vstd::prelude::*;

verus! {

/// The total supply seeded into the treasury account at genesis.
pub const GENESIS_SUPPLY: u64 = 1_000_000;

/// A point in the fork tree; slot 0 is genesis.
pub type Slot = u64;

/// Opaque unsigned key identifying an account.
pub type AccountId = u64;

/// The value payload of an account: a single non-negative balance.
#[derive(Clone, Copy, Debug, PartialEq, Eq, Structural)]
pub struct Account {
    pub balance: u64,
}

impl Default for Account {
    /// An account that has never received funds: balance zero.
    fn default() -> (r: Self)
        ensures
            r == (Account { balance: 0 }),
    {
        Account { balance: 0 }
    }
}

} // verus!
