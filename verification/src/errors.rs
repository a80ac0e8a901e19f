//! The failures that ledger operations report to their callers.

use vstd::prelude::*;

verus! {

/// Every failure surfaces synchronously as one of these kinds; the ledger
/// never retries on its own.
#[derive(Clone, Copy, Debug, PartialEq, Eq, Structural)]
pub enum ChainError {
    /// The persistent store failed, or it holds data the ledger cannot read.
    StorageError,
    /// `create_blockchain` found a chain already present at the store.
    ChainAlreadyExists,
    /// `new` (open) found no chain at the store.
    ChainNotFound,
    /// A transfer asked for more value than the sender's unspent total.
    InsufficientFunds,
    /// Proof-of-work ran out of nonces without meeting the target.
    MiningExhausted,
}

} // verus!
