//! Two small persistent ledgers: a keyed expense store with a per-owner
//! secondary index and time-bucketed aggregation, and an auction listing
//! state machine with a strictly monotonic best bid.
//!
//! The host environment that ultimately runs these ledgers supplies three
//! services the core does not implement: caller identity verification,
//! a monotonic clock, and durable atomic storage. The library models them
//! as injected values: mutating operations take the already-authorized
//! `caller` principal, time-dependent operations take the clock reading
//! `now`, and each ledger owns its state directly.

pub mod auction;
pub mod errors;
pub mod expense;
