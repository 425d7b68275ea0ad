//! What the matching loop decides: how each queued event changes the book,
//! which events go on for persistence, and when the depth snapshot is refreshed.
use vstd::prelude::*;

use crate::event::OrderEvent;
use crate::input::Side;
use crate::matching_engine::event::PersistEvent;
use crate::orderbook::book::delete_effect;
use crate::orderbook::matching::{match_effect, rest_fits};
use crate::orderbook::{ExecutedOrder, Order, OrderBook};

verus! {

/// `x` can be stored in an `i64`.
pub open spec fn fits_i64(x: u64) -> bool {
    x <= i64::MAX
}

/// The persisted form of a trade, when every field fits in an `i64`.
pub open spec fn trade_event(e: ExecutedOrder) -> Option<PersistEvent> {
    if fits_i64(e.maker_id) && fits_i64(e.taker_id) && fits_i64(e.price) && fits_i64(e.quantity) {
        Some(
            PersistEvent::TradeExecuted {
                maker_id: e.maker_id as i64,
                taker_id: e.taker_id as i64,
                price: e.price as i64,
                quantity: e.quantity as i64,
                timestamp: e.timestamp,
            },
        )
    } else {
        None
    }
}

/// The persisted form of a new order, when its id, price and quantity fit in an `i64`.
pub open spec fn order_event(e: Order) -> Option<PersistEvent> {
    if fits_i64(e.order_id) && fits_i64(e.price) && fits_i64(e.quantity) {
        Some(
            PersistEvent::NewOrder {
                order_id: e.order_id,
                price: e.price,
                quantity: e.quantity,
                side: e.side,
            },
        )
    } else {
        None
    }
}

/// Converts a trade for persistence. The first field (in the order maker,
/// taker, price, quantity) that does not fit in an `i64` is reported.
pub fn to_persist_trade(e: ExecutedOrder) -> (r: std::result::Result<PersistEvent, &'static str>)
    ensures
        r is Ok <==> trade_event(e) is Some,
        r is Ok ==> Some(r->Ok_0) == trade_event(e),
        !fits_i64(e.maker_id) ==> r->Err_0@ == "maker_id overflow"@,
        fits_i64(e.maker_id) && !fits_i64(e.taker_id) ==> r->Err_0@ == "taker_id overflow"@,
        fits_i64(e.maker_id) && fits_i64(e.taker_id) && !fits_i64(e.price) ==> r->Err_0@
            == "price overflow"@,
        fits_i64(e.maker_id) && fits_i64(e.taker_id) && fits_i64(e.price) && !fits_i64(e.quantity)
            ==> r->Err_0@ == "quantity overflow"@,
{
    let max = i64::MAX as u64;
    if e.maker_id > max {
        return Err("maker_id overflow");
    }
    if e.taker_id > max {
        return Err("taker_id overflow");
    }
    if e.price > max {
        return Err("price overflow");
    }
    if e.quantity > max {
        return Err("quantity overflow");
    }
    Ok(
        PersistEvent::TradeExecuted {
            maker_id: e.maker_id as i64,
            taker_id: e.taker_id as i64,
            price: e.price as i64,
            quantity: e.quantity as i64,
            timestamp: e.timestamp,
        },
    )
}

/// Converts a new order for persistence. The first field (in the order id,
/// price, quantity) that does not fit in an `i64` is reported.
pub fn to_persist_order(e: Order) -> (r: std::result::Result<PersistEvent, &'static str>)
    ensures
        r is Ok <==> order_event(e) is Some,
        r is Ok ==> Some(r->Ok_0) == order_event(e),
        !fits_i64(e.order_id) ==> r->Err_0@ == "order_id overflow"@,
        fits_i64(e.order_id) && !fits_i64(e.price) ==> r->Err_0@ == "price overflow"@,
        fits_i64(e.order_id) && fits_i64(e.price) && !fits_i64(e.quantity) ==> r->Err_0@
            == "quantity overflow"@,
{
    let max = i64::MAX as u64;
    if e.order_id > max {
        return Err("order_id overflow");
    }
    if e.price > max {
        return Err("price overflow");
    }
    if e.quantity > max {
        return Err("quantity overflow");
    }
    Ok(PersistEvent::NewOrder { order_id: e.order_id, price: e.price, quantity: e.quantity, side: e.side })
}

/// The order carried by a new-order event.
pub open spec fn event_order(order_id: u64, price: u64, side: Side, quantity: u64) -> Order {
    Order { order_id, price, quantity, side }
}

/// The events persisted for a new order: the order itself, then each
/// executed trade, each when it can be converted.
pub open spec fn new_order_events(o: Order, trades: Seq<ExecutedOrder>) -> Seq<PersistEvent> {
    let first = match order_event(o) {
        Some(ev) => seq![ev],
        None => Seq::empty(),
    };
    first + trades.filter_map(|t: ExecutedOrder| trade_event(t))
}

/// The book may take `event`: a new order whose unfilled rest could not be
/// rested without its level total leaving `u64` is excluded.
pub open spec fn event_fits(book: &OrderBook, event: OrderEvent) -> bool {
    match event {
        OrderEvent::NewOrder { order_id, price, side, quantity } => {
            let o = event_order(order_id, price, side, quantity);
            o.validation() is Ok ==> rest_fits(book, o)
        },
        OrderEvent::DeleteOrder { .. } => true,
    }
}

/// Every field of the trade fits in an `i64`.
pub open spec fn trade_fits(t: ExecutedOrder) -> bool {
    fits_i64(t.maker_id) && fits_i64(t.taker_id) && fits_i64(t.price) && fits_i64(t.quantity)
}

proof fn lemma_trades_all_convert(trades: Seq<ExecutedOrder>)
    requires
        forall|i: int| 0 <= i < trades.len() ==> trade_fits(#[trigger] trades[i]),
    ensures
        trades.filter_map(|t: ExecutedOrder| trade_event(t)).len() == trades.len(),
        forall|i: int|
            0 <= i < trades.len() ==> trades.filter_map(|t: ExecutedOrder| trade_event(t))[i]
                == trade_event(#[trigger] trades[i])->0,
    decreases trades.len(),
{
    if trades.len() > 0 {
        let rest = trades.drop_last();
        assert forall|i: int| 0 <= i < rest.len() implies trade_fits(#[trigger] rest[i]) by {
            assert(rest[i] == trades[i]);
        }
        lemma_trades_all_convert(rest);
        assert(trade_fits(trades[trades.len() - 1]));
        assert forall|i: int|
            0 <= i < trades.len() implies trades.filter_map(|t: ExecutedOrder| trade_event(t))[i]
            == trade_event(#[trigger] trades[i])->0 by {
            if i < rest.len() {
                assert(rest[i] == trades[i]);
            }
        }
    }
}

/// For a new order whose id, price and quantity fit in an `i64` and whose
/// trades' fields all do, the events persisted are the order first, then
/// one executed-trade event per trade, in the order of the trades, each
/// carrying that trade's maker, taker, price, quantity and time stamp.
pub proof fn law_new_order_events_complete(o: Order, trades: Seq<ExecutedOrder>)
    requires
        fits_i64(o.order_id),
        fits_i64(o.price),
        fits_i64(o.quantity),
        forall|i: int| 0 <= i < trades.len() ==> trade_fits(#[trigger] trades[i]),
    ensures
        new_order_events(o, trades).len() == trades.len() + 1,
        new_order_events(o, trades)[0] == (PersistEvent::NewOrder {
            order_id: o.order_id,
            price: o.price,
            quantity: o.quantity,
            side: o.side,
        }),
        forall|i: int|
            0 <= i < trades.len() ==> new_order_events(o, trades)[i + 1] == (
            PersistEvent::TradeExecuted {
                maker_id: (#[trigger] trades[i]).maker_id as i64,
                taker_id: trades[i].taker_id as i64,
                price: trades[i].price as i64,
                quantity: trades[i].quantity as i64,
                timestamp: trades[i].timestamp,
            }),
{
    lemma_trades_all_convert(trades);
    let ev = new_order_events(o, trades);
    let conv = trades.filter_map(|t: ExecutedOrder| trade_event(t));
    assert(ev == seq![order_event(o)->0] + conv);
    assert forall|i: int| 0 <= i < trades.len() implies ev[i + 1] == (PersistEvent::TradeExecuted {
        maker_id: (#[trigger] trades[i]).maker_id as i64,
        taker_id: trades[i].taker_id as i64,
        price: trades[i].price as i64,
        quantity: trades[i].quantity as i64,
        timestamp: trades[i].timestamp,
    }) by {
        assert(ev[i + 1] == conv[i]);
    }
}

/// Whether the book may take `event`: a new order is checked by computing
/// what would be left of it after matching and whether that rest can be
/// added to its resting level's total.
pub fn event_fits_book(book: &OrderBook, event: &OrderEvent) -> (r: bool)
    requires
        book.wf(),
    ensures
        r == event_fits(book, *event),
{
    match event {
        OrderEvent::NewOrder { order_id, price, side, quantity } => {
            let o = Order { order_id: *order_id, price: *price, quantity: *quantity, side: *side };
            match o.validate() {
                Err(_) => {
                    return true;
                },
                Ok(_) => {},
            }
            let rest = book.unfilled_rest(&o);
            if rest == 0 {
                return true;
            }
            let resting = match side {
                Side::Buy => &book.bids,
                Side::Sell => &book.asks,
            };
            match resting.get(price) {
                None => true,
                Some(l) => l.total_quantity.checked_add(rest).is_some(),
            }
        },
        OrderEvent::DeleteOrder { .. } => true,
    }
}

/// Applies one queued event to the book and returns the events to persist,
/// in the order they are to be sent. A new order is matched (with the current
/// time) and persisted with its trades; a deletion persists nothing.
pub fn process_event(book: &mut OrderBook, event: OrderEvent) -> (out: Vec<PersistEvent>)
    requires
        old(book).wf(),
        event_fits(old(book), event),
    ensures
        final(book).wf(),
        match event {
            OrderEvent::NewOrder { order_id, price, side, quantity } => {
                let o = event_order(order_id, price, side, quantity);
                exists|ts: i64, r: crate::error::Result<Vec<ExecutedOrder>>|
                    {
                        &&& match_effect(old(book), final(book), o, ts, r)
                        &&& out@ == new_order_events(
                            o,
                            match r {
                                Ok(v) => v@,
                                Err(_) => Seq::empty(),
                            },
                        )
                    }
            },
            OrderEvent::DeleteOrder { order_id } => {
                &&& exists|r: crate::error::Result<()>| delete_effect(old(book), final(book), order_id, r)
                &&& out@.len() == 0
            },
        },
{
    let mut out: Vec<PersistEvent> = Vec::new();
    match event {
        OrderEvent::NewOrder { order_id, price, side, quantity } => {
            let order = Order { order_id, price, quantity, side };
            if let Ok(ev) = to_persist_order(order) {
                out.push(ev);
            }
            let ghost first = out@;
            let r = book.matching_order(order);
            let ghost trades: Seq<ExecutedOrder> = if r is Ok {
                r->Ok_0@
            } else {
                Seq::empty()
            };
            if let Ok(executed) = &r {
                let mut i: usize = 0;
                while i < executed.len()
                    invariant
                        0 <= i <= executed@.len(),
                        trades == executed@,
                        out@ == first + trades.take(i as int).filter_map(
                            |t: ExecutedOrder| trade_event(t),
                        ),
                    decreases executed@.len() - i,
                {
                    let ghost before = out@;
                    let t = executed[i];
                    if let Ok(ev) = to_persist_trade(t) {
                        out.push(ev);
                    }
                    proof {
                        trades.lemma_filter_map_take_succ(|t: ExecutedOrder| trade_event(t), i as int);
                        assert(out@ =~= first + trades.take(i as int + 1).filter_map(
                            |t: ExecutedOrder| trade_event(t),
                        ));
                    }
                    i = i + 1;
                }
                proof {
                    assert(trades.take(i as int) =~= trades);
                }
            } else {
                proof {
                    assert(trades.filter_map(|t: ExecutedOrder| trade_event(t)) =~= Seq::empty());
                    assert(out@ =~= first + trades.filter_map(|t: ExecutedOrder| trade_event(t)));
                }
            }
            proof {
                let o = event_order(order_id, price, side, quantity);
                assert(first =~= match order_event(o) {
                    Some(ev) => seq![ev],
                    None => Seq::empty(),
                });
                let ts = choose|ts: i64| match_effect(old(book), final(book), o, ts, r);
                assert(match_effect(old(book), final(book), o, ts, r));
            }
        },
        OrderEvent::DeleteOrder { order_id } => {
            let r = book.delete_order(order_id);
            proof {
                assert(delete_effect(old(book), final(book), order_id, r));
            }
        },
    }
    out
}

/// What the matching loop does while the order queue is empty.
#[derive(Debug, Clone, Copy, PartialEq, Eq, Structural)]
pub enum IdleAction {
    /// Busy-wait for the next event.
    Spin,
    /// Give the thread back to the scheduler.
    Yield,
}

/// Number of events after which the depth snapshot is refreshed.
pub const EVENTS_PER_DEPTH_REFRESH: u32 = 100;

/// Number of idle rounds spent spinning before yielding.
pub const SPIN_ROUNDS: u32 = 1000;

/// The counters of the matching loop.
#[derive(Debug, Clone, Copy)]
pub struct LoopCounters {
    pub idle_iterations: u32,
    pub process_iterations: u32,
}

impl LoopCounters {
    pub fn new() -> (c: Self)
        ensures
            c.idle_iterations == 0 && c.process_iterations == 0,
    {
        LoopCounters { idle_iterations: 0, process_iterations: 0 }
    }

    /// After an event was processed: returns whether the depth snapshot is to
    /// be refreshed now, which is after every `EVENTS_PER_DEPTH_REFRESH`
    /// events or when the refresh timer has expired.
    pub fn after_event(&mut self, timer_expired: bool) -> (refresh: bool)
        requires
            old(self).process_iterations < u32::MAX,
        ensures
            final(self).idle_iterations == 0,
            refresh == (old(self).process_iterations + 1 >= EVENTS_PER_DEPTH_REFRESH || timer_expired),
            final(self).process_iterations == if refresh {
                0
            } else {
                old(self).process_iterations + 1
            },
            final(self).process_iterations < EVENTS_PER_DEPTH_REFRESH,
            !timer_expired ==> final(self).process_iterations == count_after_events(
                old(self).process_iterations as nat,
                1,
            ),
    {
        proof {
            assert(count_after_events(old(self).process_iterations as nat, 0)
                == old(self).process_iterations);
        }
        self.idle_iterations = 0;
        self.process_iterations = self.process_iterations + 1;
        if self.process_iterations >= EVENTS_PER_DEPTH_REFRESH || timer_expired {
            self.process_iterations = 0;
            true
        } else {
            false
        }
    }

    /// After the queue was found empty: returns whether the depth snapshot is
    /// to be refreshed (on the first idle round only) and how to wait.
    pub fn after_idle(&mut self) -> (r: (bool, IdleAction))
        requires
            old(self).idle_iterations < u32::MAX,
        ensures
            final(self).process_iterations == 0,
            final(self).idle_iterations == old(self).idle_iterations + 1,
            r.0 == (final(self).idle_iterations == 1),
            r.1 == if final(self).idle_iterations < SPIN_ROUNDS {
                IdleAction::Spin
            } else {
                IdleAction::Yield
            },
    {
        self.process_iterations = 0;
        self.idle_iterations = self.idle_iterations + 1;
        let refresh = self.idle_iterations == 1;
        let action = if self.idle_iterations < SPIN_ROUNDS {
            IdleAction::Spin
        } else {
            IdleAction::Yield
        };
        (refresh, action)
    }
}

/// The event counter after `k` more events, starting from `c`, when the
/// refresh timer does not expire (as `LoopCounters::after_event` counts).
pub open spec fn count_after_events(c: nat, k: nat) -> nat
    decreases k,
{
    if k == 0 {
        c
    } else {
        let p = count_after_events(c, (k - 1) as nat);
        if p + 1 >= EVENTS_PER_DEPTH_REFRESH {
            0
        } else {
            p + 1
        }
    }
}

/// The `k`-th of these events (counting from 1) refreshes the depth snapshot.
pub open spec fn refreshes_at(c: nat, k: nat) -> bool {
    k >= 1 && count_after_events(c, (k - 1) as nat) + 1 >= EVENTS_PER_DEPTH_REFRESH
}

proof fn lemma_count_after_events(c: nat, k: nat)
    requires
        c + k < EVENTS_PER_DEPTH_REFRESH,
    ensures
        count_after_events(c, k) == c + k,
    decreases k,
{
    if k > 0 {
        lemma_count_after_events(c, (k - 1) as nat);
    }
}

/// While events keep coming, the depth snapshot is refreshed after at most
/// `EVENTS_PER_DEPTH_REFRESH` events: from a counter at `c`, the events before
/// the `(EVENTS_PER_DEPTH_REFRESH - c)`-th do not refresh it and that one does,
/// even when the timer never expires.
pub proof fn law_refresh_within_event_bound(c: nat)
    requires
        c < EVENTS_PER_DEPTH_REFRESH,
    ensures
        refreshes_at(c, (EVENTS_PER_DEPTH_REFRESH - c) as nat),
        forall|k: nat| 1 <= k < EVENTS_PER_DEPTH_REFRESH - c ==> !#[trigger] refreshes_at(c, k),
{
    lemma_count_after_events(c, (EVENTS_PER_DEPTH_REFRESH - c - 1) as nat);
    assert forall|k: nat| 1 <= k < EVENTS_PER_DEPTH_REFRESH - c implies !#[trigger] refreshes_at(c, k) by {
        lemma_count_after_events(c, (k - 1) as nat);
    }
}

} // verus!
