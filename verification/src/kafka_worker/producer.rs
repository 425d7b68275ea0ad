use vstd::prelude::*;

use crate::matching_engine::event::PersistEvent;

verus! {

/// The Kafka topic an event is published to: trades go to `trades`,
/// everything else to `orders`.
pub fn topic_for(event: &PersistEvent) -> (topic: &'static str)
    ensures
        event is TradeExecuted ==> topic@ == "trades"@,
        !(event is TradeExecuted) ==> topic@ == "orders"@,
{
    match event {
        PersistEvent::TradeExecuted { .. } => "trades",
        _ => "orders",
    }
}

} // verus!
