//! Market data pushed to websocket clients.
pub mod event;
