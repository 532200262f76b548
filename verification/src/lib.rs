//! Staking, election and slashing of a bounded set of oracles, and the
//! aggregation of the prices they report.
//!
//! The logic is a sequential state machine over plain values. Each operation
//! takes the current block height where it needs one and returns the list of
//! effects (instructions for the currency service and the membership
//! notifier, and notifications) that the host has to carry out, in order.

pub mod types;
pub mod sorting;
pub mod lists;
pub mod ledger;
pub mod stake;
pub mod oracle;
pub mod release;
pub mod liveness;
pub mod election;
pub mod calls;
pub mod witness;
pub mod queries;
pub mod checks;
pub mod laws;
pub mod price;
