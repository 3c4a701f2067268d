//! A verified payments-processing core.
//!
//! The library ingests a stream of account transactions (deposits,
//! withdrawals, disputes, resolves, chargebacks) and maintains per-client
//! account state. Balances are exact fixed-point decimals with four
//! fractional digits, kept as plain integers.
//!
//! The engine routes each record through a registry of globally unique
//! new-money transaction IDs, applies it in the owning client's worker, and
//! appends accepted records to an event log that can rebuild the state.
//! Every operation carries a contract stated over a mathematical model, and
//! the account invariants — `held` never negative, `total` exactly
//! `available + held` and bounded by the stored deposits — are proved to
//! hold after every operation. The laws module states and proves the
//! properties that tie the operations together: dispute/resolve round
//! trips, registry permanence, replay determinism, and single-client
//! ordering.

pub mod account_worker;
pub mod amount;
pub mod codec;
pub mod errors;
pub mod event_store;
pub mod laws;
pub mod models;
pub mod scalable_engine;
pub mod shard_manager;
pub mod storage;
pub mod tx_registry;
