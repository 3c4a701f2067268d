//! Errors reported at the engine boundary.

use vstd::prelude::*;

verus! {

/// Why a transaction was rejected. Every rejection leaves the account,
/// the history, and the event log unchanged.
#[derive(Debug, Clone, Copy, PartialEq, Eq, Structural)]
pub enum ProcessingError {
    /// A deposit or withdrawal carried no amount.
    MissingAmount,
    /// The amount was zero or negative.
    InvalidAmount,
    /// The target account is locked and therefore terminal.
    AccountLocked,
    /// A withdrawal exceeded the available balance.
    InsufficientFunds,
    /// The referenced transaction is missing or not a deposit.
    TransactionNotFound,
    /// The referenced transaction belongs to a different client.
    ClientMismatch,
    /// A dispute named a transaction that is already disputed.
    AlreadyDisputed,
    /// A resolve or chargeback named a transaction that is not disputed.
    NotDisputed,
    /// A new-money transaction reused an already-accepted ID.
    DuplicateTransaction,
    /// The owning worker could not be reached.
    WorkerUnavailable,
}

impl ProcessingError {
    /// A short description of the error.
    pub fn message(&self) -> &'static str {
        match self {
            ProcessingError::MissingAmount => "missing amount",
            ProcessingError::InvalidAmount => "invalid amount",
            ProcessingError::AccountLocked => "account locked",
            ProcessingError::InsufficientFunds => "insufficient funds",
            ProcessingError::TransactionNotFound => "transaction not found",
            ProcessingError::ClientMismatch => "client mismatch",
            ProcessingError::AlreadyDisputed => "already disputed",
            ProcessingError::NotDisputed => "not disputed",
            ProcessingError::DuplicateTransaction => "duplicate transaction ID",
            ProcessingError::WorkerUnavailable => "worker unavailable",
        }
    }
}

} // verus!
