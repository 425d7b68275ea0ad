use vstd::prelude::*;

verus! {

/// Errors reported by the order book.
#[derive(Debug, Clone, Copy, PartialEq, Eq, Structural)]
pub enum OrderbookError {
    /// Order price cannot be 0.
    PriceError,
    /// Order quantity cannot be 0.
    QuantityError,
    /// Index is out of bound.
    IndexError,
    /// New order quantity is exceeding old order quantity.
    OrderQuantityExceeded,
    /// This order does not exist in the orderbook.
    OrderDoNotExist,
    /// Depth cache is stale.
    DepthCacheStale,
}

/// Result type of the order book operations.
pub type Result<T> = std::result::Result<T, OrderbookError>;

} // verus!
