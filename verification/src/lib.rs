//! An on-ledger escrow-payment engine.
//!
//! One account (the payer) locks an asset balance on behalf of another (the
//! recipient). The locked funds are then released along one of several
//! finalization paths: mutual release, cancellation, a timed refund with a
//! dispute window, or third-party resolution by a designated resolver
//! account. A "pull" variant lets the recipient request a payment that the
//! payer later accepts and settles in one step.
//!
//! The engine owns its state explicitly: a ledger model of free and locked
//! balances, the payment store, a bounded registry of scheduled deferred
//! actions, and the event log. Every operation is an all-or-nothing mutation
//! of that state, and the central invariant — each account's locked balance
//! equals the sum of its live outgoing payments — is proved to hold across
//! every operation.

pub mod types;
pub mod ledger;
pub mod store;
pub mod requests;
pub mod tasks;
pub mod escrow;
