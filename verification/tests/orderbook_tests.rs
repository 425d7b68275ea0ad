use orderbook::error::OrderbookError;
use orderbook::input::Side;
use orderbook::orderbook::{Order, OrderBook, PriceLevel};

fn order(order_id: u64, price: u64, quantity: u64, side: Side) -> Order {
    Order { order_id, price, quantity, side }
}

#[test]
fn validate_accepts_positive_order() {
    assert!(order(1, 10, 5, Side::Buy).validate().is_ok());
}

#[test]
fn validate_refuses_zero_quantity() {
    assert_eq!(order(1, 10, 0, Side::Buy).validate(), Err(OrderbookError::QuantityError));
}

#[test]
fn validate_refuses_zero_price() {
    assert_eq!(order(1, 0, 5, Side::Sell).validate(), Err(OrderbookError::PriceError));
}

#[test]
fn validate_checks_quantity_before_price() {
    assert_eq!(order(1, 0, 0, Side::Sell).validate(), Err(OrderbookError::QuantityError));
}

#[test]
fn price_level_push_appends_live_entry() {
    let mut level = PriceLevel::new();
    level.push(&order(7, 10, 5, Side::Buy));
    level.push(&order(8, 10, 3, Side::Buy));
    assert_eq!(level.orders, vec![7, 8]);
    assert_eq!(level.quantity, vec![5, 3]);
    assert_eq!(level.tombstone, vec![false, false]);
    assert_eq!(level.total_quantity, 8);
}

#[test]
fn price_level_remove_order_tombstones_and_reduces_total() {
    let mut level = PriceLevel::new();
    level.push(&order(7, 10, 5, Side::Buy));
    level.push(&order(8, 10, 3, Side::Buy));
    assert!(level.remove_order(0).is_ok());
    assert_eq!(level.tombstone, vec![true, false]);
    assert_eq!(level.total_quantity, 3);
    assert_eq!(level.orders, vec![7, 8]);
}

#[test]
fn price_level_remove_order_refuses_index_past_end() {
    let mut level = PriceLevel::new();
    level.push(&order(7, 10, 5, Side::Buy));
    assert_eq!(level.remove_order(1), Err(OrderbookError::IndexError));
    assert_eq!(level.remove_order(5), Err(OrderbookError::IndexError));
    assert_eq!(level.total_quantity, 5);
    assert_eq!(level.tombstone, vec![false]);
}

#[test]
fn price_level_reduce_quantity_lowers_total() {
    let mut level = PriceLevel::new();
    level.push(&order(1, 100, 5, Side::Sell));
    level.push(&order(2, 100, 3, Side::Sell));
    assert!(level.reduce_quantity(0, 2).is_ok());
    assert_eq!(level.quantity, vec![2, 3]);
    assert_eq!(level.total_quantity, 5);
    assert_eq!(level.orders, vec![1, 2]);
    assert_eq!(level.tombstone, vec![false, false]);
}

#[test]
fn price_level_reduce_quantity_raises_total_below_new_quantity() {
    let mut level = PriceLevel::new();
    level.push(&order(7, 10, 5, Side::Buy));
    level.total_quantity = 1;
    assert!(level.reduce_quantity(0, 4).is_ok());
    assert_eq!(level.total_quantity, 4);
}

#[test]
fn price_level_reduce_quantity_errors() {
    let mut level = PriceLevel::new();
    level.push(&order(7, 10, 5, Side::Buy));
    assert_eq!(level.reduce_quantity(1, 1), Err(OrderbookError::IndexError));
    assert_eq!(level.reduce_quantity(0, 6), Err(OrderbookError::OrderQuantityExceeded));
    assert_eq!(level.quantity, vec![5]);
}

#[test]
fn new_book_is_empty_and_stale() {
    let book = OrderBook::new();
    assert!(book.asks.is_empty());
    assert!(book.bids.is_empty());
    assert_eq!(book.trade_len, 0);
    assert!(book.trade_buf.is_empty());
    assert!(book.order_location.is_empty());
    assert!(book.depth_cache.stale);
    assert_eq!(book.depth_cache.bid_count, 0);
    assert_eq!(book.depth_cache.ask_count, 0);
}

#[test]
fn insert_resting_order_records_location() {
    let mut book = OrderBook::new();
    assert!(book.insert_resting_order(order(1, 100, 5, Side::Buy)).is_ok());
    assert!(book.insert_resting_order(order(2, 100, 7, Side::Buy)).is_ok());
    assert!(book.insert_resting_order(order(3, 105, 2, Side::Sell)).is_ok());
    let level = book.bids.get(&100).unwrap();
    assert_eq!(level.orders, vec![1, 2]);
    assert_eq!(level.total_quantity, 12);
    let loc = book.order_location.get(&2).unwrap();
    assert_eq!(loc.side, Side::Buy);
    assert_eq!(loc.price, 100);
    assert_eq!(loc.index, 1);
    assert_eq!(book.asks.get(&105).unwrap().orders, vec![3]);
    assert!(book.depth_cache.stale);
}

#[test]
fn insert_resting_order_refuses_invalid_order() {
    let mut book = OrderBook::new();
    assert_eq!(
        book.insert_resting_order(order(1, 100, 0, Side::Buy)),
        Err(OrderbookError::QuantityError)
    );
    assert_eq!(
        book.insert_resting_order(order(1, 0, 4, Side::Buy)),
        Err(OrderbookError::PriceError)
    );
    assert!(book.bids.is_empty());
    assert!(book.order_location.is_empty());
}

#[test]
fn delete_order_unknown_is_refused() {
    let mut book = OrderBook::new();
    assert_eq!(book.delete_order(42), Err(OrderbookError::OrderDoNotExist));
}

#[test]
fn delete_order_tombstones_entry() {
    let mut book = OrderBook::new();
    book.insert_resting_order(order(1, 100, 5, Side::Buy)).unwrap();
    book.insert_resting_order(order(2, 100, 7, Side::Buy)).unwrap();
    assert!(book.delete_order(1).is_ok());
    let level = book.bids.get(&100).unwrap();
    assert_eq!(level.tombstone, vec![true, false]);
    assert_eq!(level.total_quantity, 7);
    assert!(book.order_location.get(&1).is_none());
    assert_eq!(book.delete_order(1), Err(OrderbookError::OrderDoNotExist));
}

#[test]
fn delete_last_order_drops_level() {
    let mut book = OrderBook::new();
    book.insert_resting_order(order(1, 100, 5, Side::Sell)).unwrap();
    assert!(book.delete_order(1).is_ok());
    assert!(book.asks.get(&100).is_none());
}

#[test]
fn buy_matches_best_ask_first() {
    let mut book = OrderBook::new();
    book.insert_resting_order(order(1, 102, 5, Side::Sell)).unwrap();
    book.insert_resting_order(order(2, 101, 5, Side::Sell)).unwrap();
    let trades = book.match_order_at(order(3, 102, 7, Side::Buy), 1000).unwrap();
    assert_eq!(trades.len(), 2);
    assert_eq!((trades[0].maker_id, trades[0].price, trades[0].quantity), (2, 101, 5));
    assert_eq!((trades[1].maker_id, trades[1].price, trades[1].quantity), (1, 102, 2));
    for t in &trades {
        assert_eq!(t.taker_id, 3);
        assert_eq!(t.timestamp, 1000);
    }
    assert_eq!(book.trade_len, 2);
    assert_eq!(book.trade_buf.len(), 2);
    assert!(book.bids.is_empty());
}

#[test]
fn sell_matches_best_bid_first() {
    let mut book = OrderBook::new();
    book.insert_resting_order(order(1, 98, 5, Side::Buy)).unwrap();
    book.insert_resting_order(order(2, 99, 5, Side::Buy)).unwrap();
    let trades = book.match_order_at(order(3, 98, 6, Side::Sell), 5).unwrap();
    assert_eq!(trades.len(), 2);
    assert_eq!((trades[0].maker_id, trades[0].price, trades[0].quantity), (2, 99, 5));
    assert_eq!((trades[1].maker_id, trades[1].price, trades[1].quantity), (1, 98, 1));
}

#[test]
fn matching_respects_time_priority_within_level() {
    let mut book = OrderBook::new();
    book.insert_resting_order(order(1, 100, 3, Side::Sell)).unwrap();
    book.insert_resting_order(order(2, 100, 3, Side::Sell)).unwrap();
    let trades = book.match_order_at(order(3, 100, 4, Side::Buy), 0).unwrap();
    assert_eq!(trades.len(), 2);
    assert_eq!((trades[0].maker_id, trades[0].quantity), (1, 3));
    assert_eq!((trades[1].maker_id, trades[1].quantity), (2, 1));
    let level = book.asks.get(&100).unwrap();
    assert_eq!(level.quantity, vec![0, 2]);
    assert_eq!(level.tombstone, vec![true, false]);
}

#[test]
fn buy_does_not_trade_above_limit_and_rests() {
    let mut book = OrderBook::new();
    book.insert_resting_order(order(1, 105, 5, Side::Sell)).unwrap();
    let trades = book.match_order_at(order(2, 104, 5, Side::Buy), 0).unwrap();
    assert!(trades.is_empty());
    assert_eq!(book.bids.get(&104).unwrap().orders, vec![2]);
    assert_eq!(book.order_location.get(&2).unwrap().price, 104);
    assert_eq!(book.asks.get(&105).unwrap().quantity, vec![5]);
}

#[test]
fn partial_fill_rests_remainder() {
    let mut book = OrderBook::new();
    book.insert_resting_order(order(1, 100, 3, Side::Sell)).unwrap();
    let trades = book.match_order_at(order(2, 101, 10, Side::Buy), 0).unwrap();
    assert_eq!(trades.len(), 1);
    assert_eq!(trades[0].quantity, 3);
    let level = book.bids.get(&101).unwrap();
    assert_eq!(level.orders, vec![2]);
    assert_eq!(level.quantity, vec![7]);
}

#[test]
fn filled_level_is_dropped() {
    let mut book = OrderBook::new();
    book.insert_resting_order(order(1, 100, 5, Side::Sell)).unwrap();
    let trades = book.match_order_at(order(2, 100, 5, Side::Buy), 0).unwrap();
    assert_eq!(trades.len(), 1);
    assert_eq!((trades[0].maker_id, trades[0].taker_id, trades[0].price, trades[0].quantity), (1, 2, 100, 5));
    assert!(book.asks.is_empty());
    assert!(book.bids.is_empty());
    let depth = book.get_depth(20);
    assert!(depth.asks.is_empty());
    assert!(depth.bids.is_empty());
}

#[test]
fn taker_rests_beyond_emptied_level() {
    let mut book = OrderBook::new();
    book.insert_resting_order(order(1, 100, 2, Side::Sell)).unwrap();
    let trades = book.match_order_at(order(2, 101, 5, Side::Buy), 0).unwrap();
    assert_eq!(trades.len(), 1);
    assert_eq!((trades[0].maker_id, trades[0].taker_id, trades[0].price, trades[0].quantity), (1, 2, 100, 2));
    assert!(book.asks.is_empty());
    assert_eq!(book.bids.get(&101).unwrap().total_quantity, 3);
    let loc = book.order_location.get(&2).unwrap();
    assert_eq!((loc.side, loc.price, loc.index), (Side::Buy, 101, 0));
    let depth = book.get_depth(20);
    assert_eq!(depth.bids, vec![[101, 3]]);
    assert!(depth.asks.is_empty());
}

#[test]
fn partial_fill_lowers_level_total() {
    let mut book = OrderBook::new();
    book.insert_resting_order(order(1, 100, 5, Side::Sell)).unwrap();
    let trades = book.match_order_at(order(2, 101, 3, Side::Buy), 0).unwrap();
    assert_eq!(trades.len(), 1);
    assert_eq!((trades[0].maker_id, trades[0].taker_id, trades[0].price, trades[0].quantity), (1, 2, 100, 3));
    assert!(book.bids.is_empty());
    let level = book.asks.get(&100).unwrap();
    assert_eq!(level.quantity[0], 2);
    assert_eq!(level.total_quantity, 2);
    assert!(book.order_location.get(&1).is_some());
    assert_eq!(book.get_depth(20).asks, vec![[100, 2]]);
}

#[test]
fn filled_maker_cannot_be_deleted() {
    let mut book = OrderBook::new();
    book.insert_resting_order(order(1, 100, 5, Side::Sell)).unwrap();
    book.insert_resting_order(order(2, 100, 4, Side::Sell)).unwrap();
    book.match_order_at(order(3, 100, 6, Side::Buy), 0).unwrap();
    assert!(book.order_location.get(&1).is_none());
    assert_eq!(book.delete_order(1), Err(OrderbookError::OrderDoNotExist));
    let level = book.asks.get(&100).unwrap();
    assert_eq!(level.quantity, vec![0, 3]);
    assert_eq!(level.total_quantity, 3);
    assert!(book.delete_order(2).is_ok());
    assert!(book.asks.is_empty());
}

#[test]
fn book_stays_uncrossed_after_sweep() {
    let mut book = OrderBook::new();
    book.insert_resting_order(order(1, 101, 2, Side::Sell)).unwrap();
    book.insert_resting_order(order(2, 102, 2, Side::Sell)).unwrap();
    book.insert_resting_order(order(3, 104, 2, Side::Sell)).unwrap();
    book.insert_resting_order(order(4, 99, 2, Side::Buy)).unwrap();
    book.match_order_at(order(5, 103, 10, Side::Buy), 0).unwrap();
    let best_bid = *book.bids.keys().next_back().unwrap();
    let best_ask = *book.asks.keys().next().unwrap();
    assert_eq!((best_bid, best_ask), (103, 104));
    assert_eq!(book.bids.get(&103).unwrap().total_quantity, 6);
}

#[test]
fn matching_refuses_invalid_taker() {
    let mut book = OrderBook::new();
    book.insert_resting_order(order(1, 100, 3, Side::Sell)).unwrap();
    assert_eq!(
        book.match_order_at(order(2, 100, 0, Side::Buy), 0).map(|v| v.len()),
        Err(OrderbookError::QuantityError)
    );
    assert_eq!(book.asks.get(&100).unwrap().quantity, vec![3]);
}

#[test]
fn matching_order_stamps_current_time() {
    let mut book = OrderBook::new();
    book.insert_resting_order(order(1, 100, 3, Side::Sell)).unwrap();
    let trades = book.matching_order(order(2, 100, 1, Side::Buy)).unwrap();
    assert_eq!(trades.len(), 1);
    assert!(trades[0].timestamp > 1_600_000_000_000);
}

#[test]
fn trade_buffer_full_still_records_trades() {
    let mut book = OrderBook::new();
    for i in 0..50u64 {
        book.insert_resting_order(order(1000 + i, 100, 1, Side::Sell)).unwrap();
    }
    let trades = book.match_order_at(order(1, 100, 50, Side::Buy), 0).unwrap();
    assert_eq!(trades.len(), 50);
    assert_eq!(book.trade_len, 50);
    assert_eq!(book.trade_buf.len(), 50);
    assert!(book.asks.is_empty());
    book.insert_resting_order(order(2, 100, 5, Side::Sell)).unwrap();
    let trades = book.match_order_at(order(3, 100, 5, Side::Buy), 0).unwrap();
    assert_eq!(trades.len(), 1);
    assert_eq!((trades[0].maker_id, trades[0].quantity), (2, 5));
    assert_eq!(book.trade_len, 50);
    assert_eq!(book.trade_buf.len(), 50);
    assert!(book.asks.is_empty());
    assert!(book.bids.is_empty());
}

#[test]
fn trade_buffer_keeps_first_trades_that_fit() {
    let mut book = OrderBook::new();
    for i in 0..48u64 {
        book.insert_resting_order(order(1000 + i, 100, 1, Side::Sell)).unwrap();
    }
    book.match_order_at(order(1, 100, 48, Side::Buy), 0).unwrap();
    for i in 0..5u64 {
        book.insert_resting_order(order(2000 + i, 100, 1, Side::Sell)).unwrap();
    }
    let trades = book.match_order_at(order(2, 100, 5, Side::Buy), 0).unwrap();
    assert_eq!(trades.len(), 5);
    assert_eq!(book.trade_len, 50);
    assert_eq!(book.trade_buf.len(), 50);
}

#[test]
fn conservation_of_quantity() {
    let mut book = OrderBook::new();
    book.insert_resting_order(order(1, 100, 4, Side::Sell)).unwrap();
    book.insert_resting_order(order(2, 101, 4, Side::Sell)).unwrap();
    let trades = book.match_order_at(order(3, 101, 10, Side::Buy), 0).unwrap();
    let traded: u64 = trades.iter().map(|t| t.quantity).sum();
    let rested: u64 = book.bids.get(&101).unwrap().quantity[0];
    assert_eq!(traded + rested, 10);
}

#[test]
fn get_depth_lists_best_levels() {
    let mut book = OrderBook::new();
    book.insert_resting_order(order(1, 99, 5, Side::Buy)).unwrap();
    book.insert_resting_order(order(2, 98, 6, Side::Buy)).unwrap();
    book.insert_resting_order(order(3, 99, 1, Side::Buy)).unwrap();
    book.insert_resting_order(order(4, 101, 2, Side::Sell)).unwrap();
    book.insert_resting_order(order(5, 103, 3, Side::Sell)).unwrap();
    let depth = book.get_depth(20);
    assert_eq!(depth.bids, vec![[99, 6], [98, 6]]);
    assert_eq!(depth.asks, vec![[101, 2], [103, 3]]);
    assert_eq!(depth.last_update_id, "0");
    assert!(!book.depth_cache.stale);
    let depth = book.get_depth(1);
    assert_eq!(depth.bids, vec![[99, 6]]);
    assert_eq!(depth.asks, vec![[101, 2]]);
}

#[test]
fn get_depth_caps_at_twenty_levels() {
    let mut book = OrderBook::new();
    for i in 0..25u64 {
        book.insert_resting_order(order(i + 1, 100 + i, 1, Side::Sell)).unwrap();
    }
    let depth = book.get_depth(50);
    assert_eq!(depth.asks.len(), 20);
    assert_eq!(depth.asks[0], [100, 1]);
    assert_eq!(depth.asks[19], [119, 1]);
    assert!(depth.bids.is_empty());
}

#[test]
fn get_depth_uses_cache_until_stale() {
    let mut book = OrderBook::new();
    book.insert_resting_order(order(1, 99, 5, Side::Buy)).unwrap();
    assert_eq!(book.get_depth(20).bids, vec![[99, 5]]);
    book.insert_resting_order(order(2, 100, 5, Side::Buy)).unwrap();
    assert!(book.depth_cache.stale);
    assert_eq!(book.get_depth(20).bids, vec![[100, 5], [99, 5]]);
}

#[test]
fn deleted_order_is_not_matched() {
    let mut book = OrderBook::new();
    book.insert_resting_order(order(1, 100, 5, Side::Sell)).unwrap();
    book.insert_resting_order(order(2, 100, 5, Side::Sell)).unwrap();
    book.delete_order(1).unwrap();
    let trades = book.match_order_at(order(3, 100, 3, Side::Buy), 0).unwrap();
    assert_eq!(trades.len(), 1);
    assert_eq!(trades[0].maker_id, 2);
    let level = book.asks.get(&100).unwrap();
    assert_eq!(level.quantity, vec![5, 2]);
}

#[test]
fn rested_order_is_last_of_its_level() {
    let mut book = OrderBook::new();
    book.insert_resting_order(order(1, 100, 5, Side::Buy)).unwrap();
    book.insert_resting_order(order(2, 100, 6, Side::Buy)).unwrap();
    let level = book.bids.get(&100).unwrap();
    let loc = book.order_location.get(&2).unwrap();
    assert_eq!(loc.index, level.orders.len() - 1);
    assert_eq!(level.orders[loc.index], 2);
    assert_eq!(level.quantity[loc.index], 6);
    assert!(!level.tombstone[loc.index]);
}

#[test]
fn sell_trades_at_or_above_limit() {
    let mut book = OrderBook::new();
    book.insert_resting_order(order(1, 97, 5, Side::Buy)).unwrap();
    book.insert_resting_order(order(2, 99, 5, Side::Buy)).unwrap();
    let trades = book.match_order_at(order(3, 98, 20, Side::Sell), 0).unwrap();
    assert_eq!(trades.len(), 1);
    assert!(trades.iter().all(|t| t.price >= 98));
    // The rest of the sell rests at its limit; the bid below it is untouched.
    assert_eq!(book.asks.get(&98).unwrap().quantity, vec![15]);
    assert_eq!(book.bids.get(&97).unwrap().quantity, vec![5]);
}

#[test]
fn delete_keeps_book_uncrossed() {
    let mut book = OrderBook::new();
    book.insert_resting_order(order(1, 99, 2, Side::Buy)).unwrap();
    book.insert_resting_order(order(2, 98, 2, Side::Buy)).unwrap();
    book.insert_resting_order(order(3, 101, 2, Side::Sell)).unwrap();
    assert!(book.delete_order(1).is_ok());
    assert!(book.bids.get(&99).is_none());
    let best_bid = *book.bids.keys().next_back().unwrap();
    let best_ask = *book.asks.keys().next().unwrap();
    assert!(best_bid < best_ask);
}

#[test]
fn unfilled_rest_matches_what_rests() {
    let mut book = OrderBook::new();
    book.insert_resting_order(order(1, 100, 3, Side::Sell)).unwrap();
    book.insert_resting_order(order(2, 101, 4, Side::Sell)).unwrap();
    book.insert_resting_order(order(3, 103, 9, Side::Sell)).unwrap();
    assert_eq!(book.unfilled_rest(&order(4, 101, 10, Side::Buy)), 3);
    assert_eq!(book.unfilled_rest(&order(4, 100, 2, Side::Buy)), 0);
    assert_eq!(book.unfilled_rest(&order(4, 99, 2, Side::Buy)), 2);
    assert_eq!(book.unfilled_rest(&order(4, 100, 5, Side::Sell)), 5);
    book.match_order_at(order(4, 101, 10, Side::Buy), 0).unwrap();
    assert_eq!(book.bids.get(&101).unwrap().quantity, vec![3]);
}

#[test]
fn every_trade_but_the_last_fills_its_maker() {
    let mut book = OrderBook::new();
    book.insert_resting_order(order(1, 100, 2, Side::Sell)).unwrap();
    book.insert_resting_order(order(2, 100, 3, Side::Sell)).unwrap();
    book.insert_resting_order(order(3, 101, 4, Side::Sell)).unwrap();
    let trades = book.match_order_at(order(4, 101, 7, Side::Buy), 0).unwrap();
    let q: Vec<(u64, u64)> = trades.iter().map(|t| (t.maker_id, t.quantity)).collect();
    assert_eq!(q, vec![(1, 2), (2, 3), (3, 2)]);
    assert_eq!(book.delete_order(1), Err(OrderbookError::OrderDoNotExist));
    assert_eq!(book.delete_order(2), Err(OrderbookError::OrderDoNotExist));
    assert_eq!(book.asks.get(&101).unwrap().total_quantity, 2);
    assert!(book.delete_order(3).is_ok());
    assert!(book.asks.is_empty());
}
