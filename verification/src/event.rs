use vstd::prelude::*;

use crate::input::Side;

verus! {

/// A request for the matching engine.
#[derive(Debug, Clone, Copy)]
pub enum OrderEvent {
    NewOrder { order_id: u64, price: u64, side: Side, quantity: u64 },
    DeleteOrder { order_id: u64 },
}

} // verus!
