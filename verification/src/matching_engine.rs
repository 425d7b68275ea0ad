//! The matching engine: what it does with each event from the order queue.
pub mod engine;
pub mod event;
