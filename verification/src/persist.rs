//! Persistence of trades and depth snapshots.
pub mod event;
pub mod worker;
