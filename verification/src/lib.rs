//! A limit order book with price-time priority matching, together with the
//! pure pieces of the services around it: event conversion for persistence,
//! snapshot checksums and content negotiation for the HTTP routes.

pub mod error;
pub mod event;
pub mod input;
pub mod kafka_worker;
pub mod matching_engine;
pub mod orderbook;
pub mod output;
pub mod persist;
pub mod route;
pub mod text;
pub mod websocket;
