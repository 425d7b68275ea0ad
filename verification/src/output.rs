use vstd::prelude::*;

verus! {

/// Answer to a request that placed an order: the id given to it, in decimal.
#[derive(Debug)]
pub struct CreateOrderResponse {
    pub order_id: String,
}

impl CreateOrderResponse {
    /// The answer for an order that was given the id `order_id`.
    pub fn for_order(order_id: u64) -> (r: Self)
        ensures
            r.order_id@ == crate::text::decimal(order_id as nat),
    {
        CreateOrderResponse { order_id: crate::text::u64_to_decimal(order_id) }
    }
}

/// Answer to a request that deletes an order.
#[derive(Debug)]
pub struct DeleteOrderResponse {
    pub order_id: u64,
    pub success: bool,
}

/// The best levels of each side: each entry is `[price, total quantity]`,
/// asks lowest price first, bids highest price first.
#[derive(Debug)]
pub struct Depth {
    pub asks: Vec<[u64; 2]>,
    pub bids: Vec<[u64; 2]>,
    pub last_update_id: String,
}

} // verus!
