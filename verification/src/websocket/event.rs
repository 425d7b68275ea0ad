use vstd::prelude::*;

use crate::input::Side;

verus! {

/// A market data message: a trade, or the best levels of each side as
/// `(price, quantity)` pairs.
#[derive(Debug, Clone)]
pub enum MarketEvent {
    Trade { price: u64, side: Side, quantity: u64, timestamp: i64 },
    DepthSnapshot { asks: Vec<(u64, u64)>, bids: Vec<(u64, u64)> },
    DepthUpdate { asks: Vec<(u64, u64)>, bids: Vec<(u64, u64)> },
}

} // verus!
