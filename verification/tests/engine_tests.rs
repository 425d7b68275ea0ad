use orderbook::event::OrderEvent;
use orderbook::input::Side;
use orderbook::kafka_worker::producer::topic_for;
use orderbook::matching_engine::engine::{
    event_fits_book, process_event, to_persist_order, to_persist_trade, IdleAction, LoopCounters,
};
use orderbook::matching_engine::event::PersistEvent;
use orderbook::orderbook::{ExecutedOrder, Order, OrderBook};

fn trade(maker_id: u64, taker_id: u64, price: u64, quantity: u64) -> ExecutedOrder {
    ExecutedOrder { maker_id, taker_id, price, quantity, timestamp: 77 }
}

#[test]
fn to_persist_trade_converts_fields() {
    match to_persist_trade(trade(1, 2, 3, 4)) {
        Ok(PersistEvent::TradeExecuted { maker_id, taker_id, price, quantity, timestamp }) => {
            assert_eq!((maker_id, taker_id, price, quantity, timestamp), (1, 2, 3, 4, 77));
        }
        _ => panic!("expected a trade event"),
    }
}

#[test]
fn to_persist_trade_reports_first_overflow() {
    let big = i64::MAX as u64 + 1;
    assert_eq!(to_persist_trade(trade(big, big, 1, 1)).err(), Some("maker_id overflow"));
    assert_eq!(to_persist_trade(trade(1, big, big, 1)).err(), Some("taker_id overflow"));
    assert_eq!(to_persist_trade(trade(1, 1, big, big)).err(), Some("price overflow"));
    assert_eq!(to_persist_trade(trade(1, 1, 1, big)).err(), Some("quantity overflow"));
    assert!(to_persist_trade(trade(i64::MAX as u64, 1, 1, 1)).is_ok());
}

#[test]
fn to_persist_order_converts_and_checks() {
    let o = Order { order_id: 5, price: 10, quantity: 2, side: Side::Sell };
    match to_persist_order(o) {
        Ok(PersistEvent::NewOrder { order_id, price, quantity, side }) => {
            assert_eq!((order_id, price, quantity, side), (5, 10, 2, Side::Sell));
        }
        _ => panic!("expected an order event"),
    }
    let big = u64::MAX;
    let o = Order { order_id: big, price: big, quantity: big, side: Side::Buy };
    assert_eq!(to_persist_order(o).err(), Some("order_id overflow"));
    let o = Order { order_id: 1, price: big, quantity: big, side: Side::Buy };
    assert_eq!(to_persist_order(o).err(), Some("price overflow"));
    let o = Order { order_id: 1, price: 1, quantity: big, side: Side::Buy };
    assert_eq!(to_persist_order(o).err(), Some("quantity overflow"));
}

#[test]
fn process_new_order_persists_order_then_trades() {
    let mut book = OrderBook::new();
    let rest = OrderEvent::NewOrder { order_id: 1, price: 100, side: Side::Sell, quantity: 5 };
    assert!(event_fits_book(&book, &rest));
    let out = process_event(&mut book, rest);
    assert_eq!(out.len(), 1);
    assert!(matches!(out[0], PersistEvent::NewOrder { order_id: 1, .. }));
    let take = OrderEvent::NewOrder { order_id: 2, price: 100, side: Side::Buy, quantity: 2 };
    let out = process_event(&mut book, take);
    assert_eq!(out.len(), 2);
    assert!(matches!(out[0], PersistEvent::NewOrder { order_id: 2, .. }));
    assert!(matches!(
        out[1],
        PersistEvent::TradeExecuted { maker_id: 1, taker_id: 2, price: 100, quantity: 2, .. }
    ));
}

#[test]
fn process_invalid_order_persists_only_order() {
    let mut book = OrderBook::new();
    let ev = OrderEvent::NewOrder { order_id: 3, price: 0, side: Side::Buy, quantity: 1 };
    let out = process_event(&mut book, ev);
    assert_eq!(out.len(), 1);
    assert!(book.bids.is_empty());
}

#[test]
fn process_delete_persists_nothing() {
    let mut book = OrderBook::new();
    process_event(&mut book, OrderEvent::NewOrder { order_id: 1, price: 100, side: Side::Buy, quantity: 5 });
    let out = process_event(&mut book, OrderEvent::DeleteOrder { order_id: 1 });
    assert!(out.is_empty());
    assert!(book.order_location.is_empty());
    let out = process_event(&mut book, OrderEvent::DeleteOrder { order_id: 9 });
    assert!(out.is_empty());
}

#[test]
fn event_fits_book_detects_level_overflow() {
    let mut book = OrderBook::new();
    process_event(&mut book, OrderEvent::NewOrder { order_id: 1, price: 100, side: Side::Buy, quantity: u64::MAX - 1 });
    let ev = OrderEvent::NewOrder { order_id: 2, price: 100, side: Side::Buy, quantity: 2 };
    assert!(!event_fits_book(&book, &ev));
    let ev = OrderEvent::NewOrder { order_id: 2, price: 100, side: Side::Buy, quantity: 1 };
    assert!(event_fits_book(&book, &ev));
}

#[test]
fn event_fits_book_counts_only_the_unfilled_rest() {
    let mut book = OrderBook::new();
    book.insert_resting_order(Order { order_id: 1, price: 100, quantity: u64::MAX - 1, side: Side::Buy }).unwrap();
    book.insert_resting_order(Order { order_id: 2, price: 100, quantity: 4, side: Side::Sell }).unwrap();
    // A buy of 5 at 100 takes the 4 resting asks and rests only 1.
    let ev = OrderEvent::NewOrder { order_id: 3, price: 100, side: Side::Buy, quantity: 5 };
    assert!(event_fits_book(&book, &ev));
    let ev = OrderEvent::NewOrder { order_id: 3, price: 100, side: Side::Buy, quantity: 6 };
    assert!(!event_fits_book(&book, &ev));
    let ev = OrderEvent::NewOrder { order_id: 3, price: 100, side: Side::Buy, quantity: 0 };
    assert!(event_fits_book(&book, &ev));
    let ev = OrderEvent::NewOrder { order_id: 3, price: 100, side: Side::Buy, quantity: 5 };
    process_event(&mut book, ev);
    assert!(book.asks.is_empty());
    assert_eq!(book.bids.get(&100).unwrap().total_quantity, u64::MAX);
}

#[test]
fn counters_refresh_after_hundred_events() {
    let mut c = LoopCounters::new();
    for _ in 0..99 {
        assert!(!c.after_event(false));
    }
    assert!(c.after_event(false));
    assert_eq!(c.process_iterations, 0);
    assert!(c.after_event(true));
}

#[test]
fn counters_idle_refresh_once_then_yield() {
    let mut c = LoopCounters::new();
    assert_eq!(c.after_idle(), (true, IdleAction::Spin));
    assert_eq!(c.after_idle(), (false, IdleAction::Spin));
    c.idle_iterations = 999;
    assert_eq!(c.after_idle(), (false, IdleAction::Yield));
    assert!(!c.after_event(false));
    assert_eq!(c.idle_iterations, 0);
}

#[test]
fn topics_split_trades_from_orders() {
    let t = PersistEvent::TradeExecuted { maker_id: 1, taker_id: 2, price: 3, quantity: 4, timestamp: 5 };
    assert_eq!(topic_for(&t), "trades");
    assert_eq!(topic_for(&PersistEvent::DeleteOrder { order_id: 1 }), "orders");
    let o = PersistEvent::NewOrder { order_id: 1, price: 1, quantity: 1, side: Side::Buy };
    assert_eq!(topic_for(&o), "orders");
}
