use vstd::prelude::*;

verus! {

/// The side of an order.
#[derive(Debug, Clone, Copy, PartialEq, Eq, Structural)]
pub enum Side {
    Buy,
    Sell,
}

/// Body of a request that places an order.
#[derive(Debug)]
pub struct CreateOrderInput {
    pub quantity: u64,
    pub side: Side,
    pub price: u64,
}

/// Body of a request that deletes an order.
#[derive(Debug)]
pub struct DeleteOrderInput {
    pub order_id: u64,
}

} // verus!
