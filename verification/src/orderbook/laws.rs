//! What every match guarantees about the trades it executes.
use vstd::prelude::*;

use crate::input::Side;
use crate::orderbook::matching::{
    crosses, lemma_contains_concat, lemma_contains_push, fill_level, fill_upto, lemma_fill_inv, lemma_match_inv, match_effect,
    match_order_prices, match_outcome, match_start, match_upto, opposite_after, traded_quantity,
    FillState, MatchState,
};
use crate::orderbook::sorted::{lemma_ascending_exists, strictly_ascending};
use crate::orderbook::book::{delete_effect, level_with, next_index, side_after_delete};
use crate::orderbook::{
    lemma_live_upto_removed, side_wf, ExecutedOrder, LevelModel, Order, OrderBook, OrderLocation,
};

verus! {

/// Facts that hold of every trade a scan of one level records.
pub open spec fn fill_facts(init: FillState, st: FillState, price: u64, taker: Order, ts: i64) -> bool {
    forall|i: int|
        0 <= i < st.trades.len() ==> {
            let t = #[trigger] st.trades[i];
            &&& t.price == price
            &&& t.taker_id == taker.order_id
            &&& t.timestamp == ts
            &&& t.quantity > 0
            &&& exists|j: int|
                0 <= j < init.level.len() && init.level.orders[j] == t.maker_id
                    && !init.level.tombstone[j] && t.quantity <= init.level.quantity[j]
        }
}

/// The entries from `k` on are as they were before the scan.
pub open spec fn untouched_from(init: FillState, st: FillState, k: int) -> bool {
    &&& st.level.orders == init.level.orders
    &&& st.level.len() == init.level.len()
    &&& st.level.tombstone.len() == init.level.tombstone.len()
    &&& st.level.quantity.len() == init.level.quantity.len()
    &&& forall|j: int|
        k <= j < init.level.len() ==> st.level.tombstone[j] == init.level.tombstone[j]
            && st.level.quantity[j] == init.level.quantity[j]
}

/// Every entry the scan passed while the taker still had quantity is removed.
pub open spec fn passed_removed(st: FillState, k: int) -> bool {
    st.remaining > 0 ==> forall|j: int| 0 <= j < k ==> st.level.tombstone[j]
}

pub proof fn lemma_fill_facts(init: FillState, k: int, price: u64, taker: Order, ts: i64)
    requires
        0 <= k <= init.level.len(),
        init.level.sound(),
        init.trades.len() == 0,
        init.filled.len() == 0,
    ensures
        fill_facts(init, fill_upto(init, k, price, taker, ts), price, taker, ts),
        untouched_from(init, fill_upto(init, k, price, taker, ts), k),
        passed_removed(fill_upto(init, k, price, taker, ts), k),
    decreases k,
{
    if k > 0 {
        lemma_fill_facts(init, k - 1, price, taker, ts);
        lemma_fill_inv(init, k - 1, price, taker, ts);
        let prev = fill_upto(init, k - 1, price, taker, ts);
        let next = fill_upto(init, k, price, taker, ts);
        let idx = k - 1;
        if !(prev.remaining == 0 || prev.level.tombstone[idx]) {
            let t = next.trades.last();
            assert(next.trades == prev.trades.push(t));
            assert(init.level.orders[idx] == t.maker_id && !init.level.tombstone[idx]);
            assert(prev.level.quantity[idx] > 0);
            assert(t.quantity <= init.level.quantity[idx]);
            assert forall|i: int| 0 <= i < next.trades.len() implies {
                let t = #[trigger] next.trades[i];
                &&& t.price == price
                &&& t.taker_id == taker.order_id
                &&& t.timestamp == ts
                &&& t.quantity > 0
                &&& exists|j: int|
                    0 <= j < init.level.len() && init.level.orders[j] == t.maker_id
                        && !init.level.tombstone[j] && t.quantity <= init.level.quantity[j]
            } by {
                if i < prev.trades.len() {
                    assert(next.trades[i] == prev.trades[i]);
                } else {
                    assert(init.level.orders[idx] == next.trades[i].maker_id);
                }
            }
        }
    }
}

/// Facts that hold of every trade of a match so far, and the prices not yet
/// met are untouched.
pub open spec fn match_facts(init: MatchState, st: MatchState, prices: Seq<u64>, k: int, taker: Order, ts: i64) -> bool {
    &&& forall|i: int|
        0 <= i < st.trades.len() ==> {
            let t = #[trigger] st.trades[i];
            &&& crosses(taker, t.price)
            &&& t.taker_id == taker.order_id
            &&& t.timestamp == ts
            &&& t.quantity > 0
            &&& exists|j: int| 0 <= j < k && prices[j] == t.price
            &&& init.side.contains_key(t.price)
            &&& exists|e: int|
                0 <= e < init.side[t.price].len() && init.side[t.price].orders[e] == t.maker_id
                    && !init.side[t.price].tombstone[e] && t.quantity <= init.side[t.price].quantity[e]
        }
    &&& forall|j: int|
        k <= j < prices.len() && init.side.contains_key(prices[j]) ==> st.side.contains_key(prices[j])
            && st.side[prices[j]] == init.side[prices[j]]
}

pub proof fn lemma_match_facts(init: MatchState, prices: Seq<u64>, k: int, taker: Order, ts: i64)
    requires
        0 <= k <= prices.len(),
        prices.no_duplicates(),
        side_wf(init.side),
        init.trades.len() == 0,
        init.emptied.len() == 0,
        init.filled.len() == 0,
    ensures
        match_facts(init, match_upto(init, prices, k, taker, ts), prices, k, taker, ts),
    decreases k,
{
    if k > 0 {
        lemma_match_facts(init, prices, k - 1, taker, ts);
        lemma_match_inv(init, prices, k - 1, taker, ts);
        let prev = match_upto(init, prices, k - 1, taker, ts);
        let next = match_upto(init, prices, k, taker, ts);
        let price = prices[k - 1];
        if !(prev.remaining == 0 || !crosses(taker, price) || !prev.side.contains_key(price)) {
            let l = prev.side[price];
            assert(l == init.side[price]);
            let f0 = FillState { level: l, remaining: prev.remaining, trades: Seq::empty(), filled: Seq::empty() };
            let f = fill_level(l, prev.remaining, price, taker, ts);
            lemma_fill_facts(f0, l.len() as int, price, taker, ts);
            assert(next.trades == prev.trades + f.trades);
            assert forall|i: int| 0 <= i < next.trades.len() implies {
                let t = #[trigger] next.trades[i];
                &&& crosses(taker, t.price)
                &&& t.taker_id == taker.order_id
                &&& t.timestamp == ts
                &&& t.quantity > 0
                &&& exists|j: int| 0 <= j < k && prices[j] == t.price
                &&& init.side.contains_key(t.price)
                &&& exists|e: int|
                    0 <= e < init.side[t.price].len() && init.side[t.price].orders[e]
                        == t.maker_id && !init.side[t.price].tombstone[e]
                        && t.quantity <= init.side[t.price].quantity[e]
            } by {
                if i < prev.trades.len() {
                    assert(next.trades[i] == prev.trades[i]);
                    let j = choose|j: int| 0 <= j < k - 1 && prices[j] == prev.trades[i].price;
                    assert(0 <= j < k && prices[j] == next.trades[i].price);
                } else {
                    let t = next.trades[i];
                    assert(t == f.trades[i - prev.trades.len()]);
                    assert(prices[k - 1] == t.price);
                }
            }
            assert forall|j: int|
                k <= j < prices.len() && init.side.contains_key(prices[j]) implies next.side.contains_key(
                prices[j],
            ) && next.side[prices[j]] == init.side[prices[j]] by {
                assert(prices[j] != price);
            }
        }
    }
}

/// The prices are met best first: ascending for a buy, descending for a sell.
pub open spec fn best_first(prices: Seq<u64>, side: Side) -> bool {
    match side {
        Side::Buy => strictly_ascending(prices),
        Side::Sell => forall|i: int, j: int| 0 <= i < j < prices.len() ==> prices[i] > prices[j],
    }
}

/// The trades come best price first.
pub open spec fn trades_best_first(trades: Seq<ExecutedOrder>, side: Side) -> bool {
    forall|i: int, j: int|
        0 <= i < j < trades.len() ==> match side {
            Side::Buy => trades[i].price <= trades[j].price,
            Side::Sell => trades[i].price >= trades[j].price,
        }
}

pub proof fn lemma_match_order(init: MatchState, prices: Seq<u64>, k: int, taker: Order, ts: i64)
    requires
        0 <= k <= prices.len(),
        best_first(prices, taker.side),
        side_wf(init.side),
        init.trades.len() == 0,
        init.emptied.len() == 0,
        init.filled.len() == 0,
    ensures
        trades_best_first(match_upto(init, prices, k, taker, ts).trades, taker.side),
        forall|i: int|
            0 <= i < match_upto(init, prices, k, taker, ts).trades.len() ==> exists|j: int|
                0 <= j < k && prices[j] == (#[trigger] match_upto(init, prices, k, taker, ts).trades[i]).price,
    decreases k,
{
    if k > 0 {
        lemma_match_order(init, prices, k - 1, taker, ts);
        lemma_match_inv(init, prices, k - 1, taker, ts);
        let prev = match_upto(init, prices, k - 1, taker, ts);
        let next = match_upto(init, prices, k, taker, ts);
        let price = prices[k - 1];
        if !(prev.remaining == 0 || !crosses(taker, price) || !prev.side.contains_key(price)) {
            let l = prev.side[price];
            let f0 = FillState { level: l, remaining: prev.remaining, trades: Seq::empty(), filled: Seq::empty() };
            let f = fill_level(l, prev.remaining, price, taker, ts);
            lemma_fill_facts(f0, l.len() as int, price, taker, ts);
            assert(next.trades == prev.trades + f.trades);
            assert forall|i: int| 0 <= i < next.trades.len() implies exists|j: int|
                0 <= j < k && prices[j] == (#[trigger] next.trades[i]).price by {
                if i < prev.trades.len() {
                    assert(next.trades[i] == prev.trades[i]);
                    let j = choose|j: int| 0 <= j < k - 1 && prices[j] == prev.trades[i].price;
                    assert(0 <= j < k && prices[j] == next.trades[i].price);
                } else {
                    assert(next.trades[i] == f.trades[i - prev.trades.len()]);
                    assert(prices[k - 1] == next.trades[i].price);
                }
            }
            assert forall|a: int, b: int| 0 <= a < b < next.trades.len() implies match taker.side {
                Side::Buy => next.trades[a].price <= next.trades[b].price,
                Side::Sell => next.trades[a].price >= next.trades[b].price,
            } by {
                if b < prev.trades.len() {
                    assert(next.trades[a] == prev.trades[a]);
                    assert(next.trades[b] == prev.trades[b]);
                } else if a >= prev.trades.len() {
                    assert(next.trades[a] == f.trades[a - prev.trades.len()]);
                    assert(next.trades[b] == f.trades[b - prev.trades.len()]);
                } else {
                    assert(next.trades[a] == prev.trades[a]);
                    assert(next.trades[b] == f.trades[b - prev.trades.len()]);
                    let j = choose|j: int| 0 <= j < k - 1 && prices[j] == prev.trades[a].price;
                    assert(prices[j] == next.trades[a].price);
                }
            }
        }
    }
}

/// After the first `k` prices, every crossing level that was met while the
/// taker kept quantity has only removed entries.
pub open spec fn met_levels_cleared(st: MatchState, prices: Seq<u64>, k: int, taker: Order) -> bool {
    st.remaining > 0 ==> forall|j: int, e: int|
        0 <= j < k && crosses(taker, prices[j]) && st.side.contains_key(prices[j]) && 0 <= e
            < st.side[prices[j]].len() ==> #[trigger] st.side[prices[j]].tombstone[e]
}

pub proof fn lemma_match_clears(init: MatchState, prices: Seq<u64>, k: int, taker: Order, ts: i64)
    requires
        0 <= k <= prices.len(),
        prices.no_duplicates(),
        side_wf(init.side),
        init.trades.len() == 0,
        init.emptied.len() == 0,
        init.filled.len() == 0,
    ensures
        met_levels_cleared(match_upto(init, prices, k, taker, ts), prices, k, taker),
    decreases k,
{
    if k > 0 {
        lemma_match_clears(init, prices, k - 1, taker, ts);
        lemma_match_inv(init, prices, k - 1, taker, ts);
        lemma_match_inv(init, prices, k, taker, ts);
        let prev = match_upto(init, prices, k - 1, taker, ts);
        let next = match_upto(init, prices, k, taker, ts);
        let price = prices[k - 1];
        if next.remaining > 0 {
            assert(prev.remaining > 0);
            if crosses(taker, price) && prev.side.contains_key(price) {
                let l = prev.side[price];
                let f0 = FillState { level: l, remaining: prev.remaining, trades: Seq::empty(), filled: Seq::empty() };
                lemma_fill_facts(f0, l.len() as int, price, taker, ts);
            }
            assert forall|j: int, e: int|
                0 <= j < k && crosses(taker, prices[j]) && next.side.contains_key(prices[j])
                    && 0 <= e < next.side[prices[j]].len() implies #[trigger] next.side[
                prices[j]
            ].tombstone[e] by {
                if j < k - 1 {
                    assert(prices[j] != price);
                    assert(prev.side.contains_key(prices[j]));
                }
            }
        }
    }
}

/// Every trade of a match is at a price the taker accepts, names the taker
/// and carries the match's time stamp.
pub proof fn law_trades_within_limit(opposite: Map<u64, LevelModel>, taker: Order, ts: i64)
    requires
        opposite.dom().finite(),
        side_wf(opposite),
    ensures
        forall|i: int|
            0 <= i < match_outcome(opposite, taker, ts).trades.len() ==> {
                let t = #[trigger] match_outcome(opposite, taker, ts).trades[i];
                &&& crosses(taker, t.price)
                &&& t.taker_id == taker.order_id
                &&& t.timestamp == ts
            },
{
    lemma_outcome_facts(opposite, taker, ts);
}

/// Every maker of a trade was a live resting order at the trade's price with
/// at least the traded quantity, and no trade is for a zero quantity.
pub proof fn law_trades_from_resting_orders(opposite: Map<u64, LevelModel>, taker: Order, ts: i64)
    requires
        opposite.dom().finite(),
        side_wf(opposite),
    ensures
        forall|i: int|
            0 <= i < match_outcome(opposite, taker, ts).trades.len() ==> {
                let t = #[trigger] match_outcome(opposite, taker, ts).trades[i];
                &&& opposite.contains_key(t.price)
                &&& exists|e: int|
                    0 <= e < opposite[t.price].len() && opposite[t.price].orders[e] == t.maker_id
                        && !opposite[t.price].tombstone[e] && t.quantity <= opposite[t.price].quantity[e]
                &&& t.quantity > 0
            },
{
    lemma_outcome_facts(opposite, taker, ts);
}

/// What the trades of a match fill plus what is left of the taker is the
/// taker's quantity, and the same quantity leaves the opposite side's levels.
pub proof fn law_quantity_conservation(opposite: Map<u64, LevelModel>, taker: Order, ts: i64)
    requires
        opposite.dom().finite(),
        side_wf(opposite),
    ensures
        traded_quantity(match_outcome(opposite, taker, ts).trades) + match_outcome(
            opposite,
            taker,
            ts,
        ).remaining == taker.quantity,
{
    let prices = match_order_prices(opposite, taker.side);
    lemma_match_inv(match_start(opposite, taker), prices, prices.len() as int, taker, ts);
}

/// A buy meets the lowest asks first and a sell the highest bids first.
pub proof fn law_price_priority(opposite: Map<u64, LevelModel>, taker: Order, ts: i64)
    requires
        opposite.dom().finite(),
        side_wf(opposite),
    ensures
        trades_best_first(match_outcome(opposite, taker, ts).trades, taker.side),
{
    let prices = match_order_prices(opposite, taker.side);
    lemma_prices_listing(opposite, taker.side);
    lemma_match_order(match_start(opposite, taker), prices, prices.len() as int, taker, ts);
}

/// When the taker keeps quantity after a match, the opposite side is left
/// with no level at a price the taker accepts.
pub proof fn law_no_crossing_order_left(opposite: Map<u64, LevelModel>, taker: Order, ts: i64)
    requires
        opposite.dom().finite(),
        side_wf(opposite),
    ensures
        ({
            let out = match_outcome(opposite, taker, ts);
            out.remaining > 0 ==> forall|p: u64| #[trigger]
                opposite_after(out).contains_key(p) ==> !crosses(taker, p)
        }),
{
    let prices = match_order_prices(opposite, taker.side);
    lemma_prices_listing(opposite, taker.side);
    let init = match_start(opposite, taker);
    let n = prices.len() as int;
    lemma_match_clears(init, prices, n, taker, ts);
    lemma_match_inv(init, prices, n, taker, ts);
    let out = match_upto(init, prices, n, taker, ts);
    if out.remaining > 0 {
        assert forall|p: u64| #[trigger] opposite_after(out).contains_key(p) implies !crosses(
            taker,
            p,
        ) by {
            if crosses(taker, p) {
                assert(out.side.contains_key(p));
                assert(prices.to_set().contains(p));
                let j = choose|j: int| 0 <= j < prices.len() && prices[j] == p;
                let l = out.side[p];
                assert forall|e: int| 0 <= e < l.len() implies l.tombstone[e] by {
                    assert(out.side[prices[j]].tombstone[e]);
                }
                lemma_live_upto_removed(l, l.len() as int);
                assert(out.emptied.contains(p));
                assert(out.emptied.to_set().contains(p));
            }
        }
    }
}

/// A scan of a sound level takes its whole total from the taker, or all the
/// taker has when that is less.
pub proof fn lemma_fill_remaining(level: LevelModel, remaining: u64, price: u64, taker: Order, ts: i64)
    requires
        level.sound(),
    ensures
        fill_level(level, remaining, price, taker, ts).remaining == if remaining
            <= level.total_quantity {
            0
        } else {
            remaining - level.total_quantity
        },
{
    let f0 = FillState { level, remaining, trades: Seq::empty(), filled: Seq::empty() };
    let n = level.len() as int;
    lemma_fill_inv(f0, n, price, taker, ts);
    lemma_fill_facts(f0, n, price, taker, ts);
    let f = fill_upto(f0, n, price, taker, ts);
    if f.remaining > 0 {
        lemma_live_upto_removed(f.level, n);
    }
}

impl OrderBook {
    /// Every bid price is below every ask price.
    pub open spec fn uncrossed(&self) -> bool {
        forall|b: u64, a: u64|
            #[trigger] self.bid_levels().contains_key(b) && #[trigger] self.ask_levels().contains_key(a)
                ==> b < a
    }
}

/// Matching an order keeps an uncrossed book uncrossed: the opposite side
/// only loses levels, and what is left of the taker rests only where no
/// opposite level remains that it would cross.
pub proof fn law_book_stays_uncrossed(
    old: &OrderBook,
    new: &OrderBook,
    taker: Order,
    ts: i64,
    r: crate::error::Result<Vec<ExecutedOrder>>,
)
    requires
        old.wf(),
        old.uncrossed(),
        match_effect(old, new, taker, ts, r),
    ensures
        new.uncrossed(),
{
    if taker.validation() is Ok {
        let opp = old.opposite_levels(taker.side);
        match taker.side {
            Side::Buy => crate::orderbook::book::lemma_levels_dom(old.asks@),
            Side::Sell => crate::orderbook::book::lemma_levels_dom(old.bids@),
        }
        let prices = match_order_prices(opp, taker.side);
        lemma_match_inv(match_start(opp, taker), prices, prices.len() as int, taker, ts);
        law_no_crossing_order_left(opp, taker, ts);
        let out = match_outcome(opp, taker, ts);
        let after = opposite_after(out);
        assert forall|p: u64| #[trigger] after.contains_key(p) implies opp.contains_key(p) by {
            assert(out.side.contains_key(p));
        }
        assert forall|b: u64, a: u64|
            #[trigger] new.bid_levels().contains_key(b) && #[trigger] new.ask_levels().contains_key(a)
                implies b < a by {
            match taker.side {
                Side::Buy => {
                    assert(after.contains_key(a));
                    if !old.bid_levels().contains_key(b) {
                        assert(b == taker.price);
                        assert(!crosses(taker, a));
                    }
                },
                Side::Sell => {
                    assert(after.contains_key(b));
                    if !old.ask_levels().contains_key(a) {
                        assert(a == taker.price);
                        assert(!crosses(taker, b));
                    }
                },
            }
        }
    }
}

/// Deleting an order keeps an uncrossed book uncrossed: a deletion only
/// lowers or drops one level.
pub proof fn law_delete_keeps_uncrossed(old: &OrderBook, new: &OrderBook, order_id: u64, r: crate::error::Result<()>)
    requires
        old.uncrossed(),
        delete_effect(old, new, order_id, r),
    ensures
        new.uncrossed(),
{
    assert forall|b: u64, a: u64|
        #[trigger] new.bid_levels().contains_key(b) && #[trigger] new.ask_levels().contains_key(a)
            implies b < a by {
        if !old.locations().contains_key(order_id) {
            assert(new.bid_levels() == old.bid_levels());
            assert(new.ask_levels() == old.ask_levels());
        }
        assert(old.bid_levels().contains_key(b));
        assert(old.ask_levels().contains_key(a));
    }
}

/// A maker that a match filled completely has no location afterwards, so
/// deleting it is refused and changes nothing.
pub proof fn law_filled_maker_cannot_be_deleted(
    old: &OrderBook,
    mid: &OrderBook,
    new: &OrderBook,
    taker: Order,
    ts: i64,
    r: crate::error::Result<Vec<ExecutedOrder>>,
    id: u64,
    r2: crate::error::Result<()>,
)
    requires
        taker.validation() is Ok,
        match_effect(old, mid, taker, ts, r),
        match_outcome(old.opposite_levels(taker.side), taker, ts).filled.contains(id),
        id != taker.order_id,
        delete_effect(mid, new, id, r2),
    ensures
        r2 == Err::<(), crate::error::OrderbookError>(crate::error::OrderbookError::OrderDoNotExist),
        new.same_contents(mid),
{
    let out = match_outcome(old.opposite_levels(taker.side), taker, ts);
    assert(out.filled.to_set().contains(id));
    assert(!mid.locations().contains_key(id));
}

/// Every trade but the last fills its maker completely (the maker is among
/// `filled`); the last one may leave its maker with some quantity only when
/// it takes all that was left of the taker.
pub open spec fn makers_filled_but_last(trades: Seq<ExecutedOrder>, filled: Seq<u64>, remaining: u64) -> bool {
    forall|i: int|
        0 <= i < trades.len() ==> filled.contains((#[trigger] trades[i]).maker_id) || (i == trades.len()
            - 1 && remaining == 0)
}

pub proof fn lemma_fill_makers(init: FillState, k: int, price: u64, taker: Order, ts: i64)
    requires
        0 <= k <= init.level.len(),
        init.level.sound(),
        init.trades.len() == 0,
        init.filled.len() == 0,
    ensures
        makers_filled_but_last(
            fill_upto(init, k, price, taker, ts).trades,
            fill_upto(init, k, price, taker, ts).filled,
            fill_upto(init, k, price, taker, ts).remaining,
        ),
    decreases k,
{
    if k > 0 {
        lemma_fill_makers(init, k - 1, price, taker, ts);
        let prev = fill_upto(init, k - 1, price, taker, ts);
        let next = fill_upto(init, k, price, taker, ts);
        let idx = k - 1;
        if !(prev.remaining == 0 || prev.level.tombstone[idx]) {
            let t = next.trades.last();
            assert(next.trades == prev.trades.push(t));
            let maker = prev.level.orders[idx];
            assert forall|i: int| 0 <= i < next.trades.len() implies next.filled.contains(
                (#[trigger] next.trades[i]).maker_id,
            ) || (i == next.trades.len() - 1 && next.remaining == 0) by {
                if i < prev.trades.len() {
                    assert(next.trades[i] == prev.trades[i]);
                    assert(prev.filled.contains(prev.trades[i].maker_id));
                    lemma_contains_push(prev.filled, maker, prev.trades[i].maker_id);
                } else {
                    lemma_contains_push(prev.filled, maker, t.maker_id);
                }
            }
        }
    }
}

pub proof fn lemma_match_makers(init: MatchState, prices: Seq<u64>, k: int, taker: Order, ts: i64)
    requires
        0 <= k,
        side_wf(init.side),
        init.trades.len() == 0,
        init.emptied.len() == 0,
        init.filled.len() == 0,
    ensures
        makers_filled_but_last(
            match_upto(init, prices, k, taker, ts).trades,
            match_upto(init, prices, k, taker, ts).filled,
            match_upto(init, prices, k, taker, ts).remaining,
        ),
    decreases k,
{
    if k == 0 {
        assert(init.trades =~= Seq::<ExecutedOrder>::empty());
    } else {
        lemma_match_makers(init, prices, k - 1, taker, ts);
        lemma_match_inv(init, prices, k - 1, taker, ts);
        let prev = match_upto(init, prices, k - 1, taker, ts);
        let next = match_upto(init, prices, k, taker, ts);
        let price = prices[k - 1];
        if !(prev.remaining == 0 || !crosses(taker, price) || !prev.side.contains_key(price)) {
            let l = prev.side[price];
            let f0 = FillState { level: l, remaining: prev.remaining, trades: Seq::empty(), filled: Seq::empty() };
            lemma_fill_makers(f0, l.len() as int, price, taker, ts);
            let f = fill_level(l, prev.remaining, price, taker, ts);
            assert(next.trades == prev.trades + f.trades);
            assert forall|i: int| 0 <= i < next.trades.len() implies next.filled.contains(
                (#[trigger] next.trades[i]).maker_id,
            ) || (i == next.trades.len() - 1 && next.remaining == 0) by {
                if i < prev.trades.len() {
                    assert(next.trades[i] == prev.trades[i]);
                    assert(prev.filled.contains(prev.trades[i].maker_id));
                    lemma_contains_concat(prev.filled, f.filled, prev.trades[i].maker_id);
                } else {
                    let j = i - prev.trades.len();
                    assert(next.trades[i] == f.trades[j]);
                    lemma_contains_concat(prev.filled, f.filled, f.trades[j].maker_id);
                }
            }
        }
    }
}

/// Every trade of a match but the last fills its maker completely, and the
/// last one does too unless it takes all that was left of the taker.
pub proof fn law_makers_filled_but_last(opposite: Map<u64, LevelModel>, taker: Order, ts: i64)
    requires
        side_wf(opposite),
    ensures
        makers_filled_but_last(
            match_outcome(opposite, taker, ts).trades,
            match_outcome(opposite, taker, ts).filled,
            match_outcome(opposite, taker, ts).remaining,
        ),
{
    let prices = match_order_prices(opposite, taker.side);
    lemma_match_makers(match_start(opposite, taker), prices, prices.len() as int, taker, ts);
}

/// The maker of a trade that filled it completely (every trade but the last,
/// and the last one too when the taker kept quantity) cannot be deleted
/// afterwards: the deletion is refused and changes nothing.
pub proof fn law_traded_maker_cannot_be_deleted(
    old: &OrderBook,
    mid: &OrderBook,
    new: &OrderBook,
    taker: Order,
    ts: i64,
    trades: Vec<ExecutedOrder>,
    i: int,
    r2: crate::error::Result<()>,
)
    requires
        old.wf(),
        match_effect(old, mid, taker, ts, Ok(trades)),
        0 <= i < trades@.len(),
        i < trades@.len() - 1 || match_outcome(old.opposite_levels(taker.side), taker, ts).remaining
            > 0,
        trades@[i].maker_id != taker.order_id,
        delete_effect(mid, new, trades@[i].maker_id, r2),
    ensures
        r2 == Err::<(), crate::error::OrderbookError>(crate::error::OrderbookError::OrderDoNotExist),
        new.same_contents(mid),
{
    let opp = old.opposite_levels(taker.side);
    let out = match_outcome(opp, taker, ts);
    law_makers_filled_but_last(opp, taker, ts);
    assert(trades@ == out.trades);
    assert(out.filled.contains(out.trades[i].maker_id));
    law_filled_maker_cannot_be_deleted(old, mid, new, taker, ts, Ok(trades), trades@[i].maker_id, r2);
}

/// After a match that leaves part of the taker, the taker can be found by its
/// id: its location is recorded on its side at its price, at the index after
/// the entries that were there (whether or not a level was already there),
/// and that entry is its live rest with the unfilled quantity.
pub proof fn law_rested_taker_is_located(
    old: &OrderBook,
    new: &OrderBook,
    taker: Order,
    ts: i64,
    r: crate::error::Result<Vec<ExecutedOrder>>,
)
    requires
        old.wf(),
        taker.validation() is Ok,
        match_effect(old, new, taker, ts, r),
        match_outcome(old.opposite_levels(taker.side), taker, ts).remaining > 0,
    ensures
        ({
            let rest = match_outcome(old.opposite_levels(taker.side), taker, ts).remaining;
            let idx = next_index(old.resting_levels(taker.side), taker.price);
            let level = new.resting_levels(taker.side)[taker.price];
            &&& new.locations().contains_key(taker.order_id)
            &&& new.locations()[taker.order_id] == OrderLocation {
                side: taker.side,
                price: taker.price,
                index: idx as usize,
            }
            &&& new.resting_levels(taker.side).contains_key(taker.price)
            &&& level.len() == idx + 1
            &&& level.orders[idx as int] == taker.order_id
            &&& level.quantity[idx as int] == rest
            &&& !level.tombstone[idx as int]
        }),
{
    let out = match_outcome(old.opposite_levels(taker.side), taker, ts);
    let side = old.resting_levels(taker.side);
    let base = if side.contains_key(taker.price) {
        side[taker.price]
    } else {
        LevelModel::empty()
    };
    assert(new.resting_levels(taker.side) == crate::orderbook::matching::resting_after(old, taker, out.remaining));
    assert(new.resting_levels(taker.side)[taker.price] == base.pushed(taker.order_id, out.remaining));
    assert(new.locations() == crate::orderbook::matching::locations_after(old, taker, out));
    assert(new.locations().contains_key(taker.order_id));
    assert(next_index(side, taker.price) == base.orders.len());
    assert(base.wf());
}

/// What a match returns: a refused taker gets its validation error; an
/// accepted one gets trades that all name it, are at prices it accepts, carry
/// the time stamp of the match and are for nonzero quantities, and whose
/// quantities together with what is left of it make up its whole quantity.
pub proof fn law_match_result(
    old: &OrderBook,
    new: &OrderBook,
    taker: Order,
    ts: i64,
    r: crate::error::Result<Vec<ExecutedOrder>>,
)
    requires
        old.wf(),
        match_effect(old, new, taker, ts, r),
    ensures
        taker.validation() is Err ==> r == Err::<Vec<ExecutedOrder>, crate::error::OrderbookError>(
            taker.validation()->Err_0,
        ),
        taker.validation() is Ok ==> r is Ok,
        r is Ok ==> traded_quantity(r->Ok_0@) + match_outcome(
            old.opposite_levels(taker.side),
            taker,
            ts,
        ).remaining == taker.quantity,
        r is Ok ==> forall|i: int|
            0 <= i < r->Ok_0@.len() ==> {
                let t = #[trigger] r->Ok_0@[i];
                &&& t.taker_id == taker.order_id
                &&& crosses(taker, t.price)
                &&& t.timestamp == ts
                &&& t.quantity > 0
            },
{
    if taker.validation() is Ok {
        let opp = old.opposite_levels(taker.side);
        match taker.side {
            Side::Buy => crate::orderbook::book::lemma_levels_dom(old.asks@),
            Side::Sell => crate::orderbook::book::lemma_levels_dom(old.bids@),
        }
        law_quantity_conservation(opp, taker, ts);
        law_trades_within_limit(opp, taker, ts);
        law_trades_from_resting_orders(opp, taker, ts);
    }
}

/// Deleting an order forgets that order's location and no other, and
/// succeeds exactly when the order had a location.
pub proof fn law_delete_forgets_only_that_order(
    old: &OrderBook,
    new: &OrderBook,
    order_id: u64,
    r: crate::error::Result<()>,
)
    requires
        delete_effect(old, new, order_id, r),
    ensures
        new.locations() == old.locations().remove(order_id),
        r is Ok <==> old.locations().contains_key(order_id),
{
    if !old.locations().contains_key(order_id) {
        assert(old.locations().remove(order_id) =~= old.locations());
    }
}

/// The prices met list the side's prices once each, best first.
pub proof fn lemma_prices_listing(opposite: Map<u64, LevelModel>, side: Side)
    requires
        opposite.dom().finite(),
    ensures
        match_order_prices(opposite, side).no_duplicates(),
        match_order_prices(opposite, side).to_set() == opposite.dom(),
        best_first(match_order_prices(opposite, side), side),
{
    lemma_ascending_exists(opposite.dom());
    let asc = crate::orderbook::sorted::ascending_prices(opposite.dom());
    let prices = match_order_prices(opposite, side);
    match side {
        Side::Buy => {},
        Side::Sell => {
            assert forall|x: u64| prices.to_set().contains(x) <==> asc.to_set().contains(x) by {
                if prices.to_set().contains(x) {
                    let i = choose|i: int| 0 <= i < prices.len() && prices[i] == x;
                    assert(asc[asc.len() - 1 - i] == x);
                }
                if asc.to_set().contains(x) {
                    let i = choose|i: int| 0 <= i < asc.len() && asc[i] == x;
                    assert(prices[asc.len() - 1 - i] == x);
                }
            }
            assert(prices.to_set() =~= asc.to_set());
            assert forall|i: int, j: int| 0 <= i < j < prices.len() implies prices[i] > prices[j] by {
                assert(asc[asc.len() - 1 - j] < asc[asc.len() - 1 - i]);
            }
        },
    }
}

pub proof fn lemma_outcome_facts(opposite: Map<u64, LevelModel>, taker: Order, ts: i64)
    requires
        opposite.dom().finite(),
        side_wf(opposite),
    ensures
        ({
            let prices = match_order_prices(opposite, taker.side);
            match_facts(match_start(opposite, taker), match_outcome(opposite, taker, ts), prices, prices.len() as int, taker, ts)
        }),
{
    let prices = match_order_prices(opposite, taker.side);
    lemma_prices_listing(opposite, taker.side);
    lemma_match_facts(match_start(opposite, taker), prices, prices.len() as int, taker, ts);
}

/// The trades of a scan name makers in the order of their entries.
pub open spec fn arrival_order(level: LevelModel, trades: Seq<ExecutedOrder>, k: int) -> bool {
    &&& forall|i: int| 0 <= i < trades.len() ==> #[trigger] maker_entry_before(level, trades[i], k)
    &&& forall|i: int, j: int|
        0 <= i < j < trades.len() ==> #[trigger] makers_in_order(level, trades[i], trades[j], k)
}

/// The maker of `t` is a live entry of `level` before position `k`.
pub open spec fn maker_entry_before(level: LevelModel, t: ExecutedOrder, k: int) -> bool {
    exists|e: int| 0 <= e < k && level.orders[e] == t.maker_id && !level.tombstone[e]
}

/// The makers of `a` and `b` are live entries of `level` before position
/// `k`, that of `a` first.
pub open spec fn makers_in_order(level: LevelModel, a: ExecutedOrder, b: ExecutedOrder, k: int) -> bool {
    exists|e1: int, e2: int|
        0 <= e1 < e2 < k && level.orders[e1] == a.maker_id && level.orders[e2] == b.maker_id
            && !level.tombstone[e1] && !level.tombstone[e2]
}

pub proof fn lemma_arrival_weaken(level: LevelModel, trades: Seq<ExecutedOrder>, k1: int, k2: int)
    requires
        arrival_order(level, trades, k1),
        k1 <= k2,
    ensures
        arrival_order(level, trades, k2),
{
    assert forall|i: int| 0 <= i < trades.len() implies #[trigger] maker_entry_before(level, trades[i], k2) by {
        assert(maker_entry_before(level, trades[i], k1));
        let e = choose|e: int| 0 <= e < k1 && level.orders[e] == trades[i].maker_id && !level.tombstone[e];
        assert(0 <= e < k2);
    }
    assert forall|i: int, j: int| 0 <= i < j < trades.len() implies #[trigger] makers_in_order(level, trades[i], trades[j], k2) by {
        assert(makers_in_order(level, trades[i], trades[j], k1));
        let (e1, e2) = choose|e1: int, e2: int|
            0 <= e1 < e2 < k1 && level.orders[e1] == trades[i].maker_id && level.orders[e2]
                == trades[j].maker_id && !level.tombstone[e1] && !level.tombstone[e2];
        assert(0 <= e1 < e2 < k2);
    }
}

pub proof fn lemma_fill_arrival(init: FillState, k: int, price: u64, taker: Order, ts: i64)
    requires
        0 <= k <= init.level.len(),
        init.level.sound(),
        init.trades.len() == 0,
        init.filled.len() == 0,
    ensures
        arrival_order(init.level, fill_upto(init, k, price, taker, ts).trades, k),
    decreases k,
{
    if k > 0 {
        lemma_fill_arrival(init, k - 1, price, taker, ts);
        lemma_fill_facts(init, k - 1, price, taker, ts);
        let prev = fill_upto(init, k - 1, price, taker, ts);
        let next = fill_upto(init, k, price, taker, ts);
        let idx = k - 1;
        if !(prev.remaining == 0 || prev.level.tombstone[idx]) {
            let t = next.trades.last();
            assert(next.trades == prev.trades.push(t));
            assert(init.level.orders[idx] == t.maker_id && !init.level.tombstone[idx]);
            assert forall|i: int| 0 <= i < next.trades.len() implies #[trigger] maker_entry_before(
                init.level,
                next.trades[i],
                k,
            ) by {
                if i < prev.trades.len() {
                    assert(next.trades[i] == prev.trades[i]);
                    assert(maker_entry_before(init.level, prev.trades[i], k - 1));
                    let e = choose|e: int|
                        0 <= e < k - 1 && init.level.orders[e] == prev.trades[i].maker_id
                            && !init.level.tombstone[e];
                    assert(0 <= e < k);
                } else {
                    assert(next.trades[i] == t);
                    assert(0 <= idx < k);
                }
            }
            assert forall|i: int, j: int| 0 <= i < j < next.trades.len() implies #[trigger] makers_in_order(
                init.level,
                next.trades[i],
                next.trades[j],
                k,
            ) by {
                assert(next.trades[i] == prev.trades[i]);
                if j < prev.trades.len() {
                    assert(next.trades[j] == prev.trades[j]);
                    assert(makers_in_order(init.level, prev.trades[i], prev.trades[j], k - 1));
                    let (e1, e2) = choose|e1: int, e2: int|
                        0 <= e1 < e2 < k - 1 && init.level.orders[e1] == prev.trades[i].maker_id
                            && init.level.orders[e2] == prev.trades[j].maker_id
                            && !init.level.tombstone[e1] && !init.level.tombstone[e2];
                    assert(0 <= e1 < e2 < k);
                } else {
                    assert(maker_entry_before(init.level, prev.trades[i], k - 1));
                    let e1 = choose|e: int|
                        0 <= e < k - 1 && init.level.orders[e] == prev.trades[i].maker_id
                            && !init.level.tombstone[e];
                    assert(j == prev.trades.len());
                    assert(next.trades[j] == t);
                    assert(0 <= e1 < idx < k);
                    assert(init.level.orders[e1] == next.trades[i].maker_id);
                    assert(init.level.orders[idx] == next.trades[j].maker_id);
                }
            }
            assert(arrival_order(init.level, next.trades, k));
        } else {
            assert(next.trades == prev.trades);
            lemma_arrival_weaken(init.level, prev.trades, k - 1, k);
            assert(arrival_order(init.level, next.trades, k));
        }
    }
}

/// Trades at the same price name makers in the order in which the makers
/// arrived at that price.
pub open spec fn same_price_arrival(side: Map<u64, LevelModel>, trades: Seq<ExecutedOrder>) -> bool {
    forall|i: int, j: int|
        0 <= i < j < trades.len() && trades[i].price == trades[j].price ==> #[trigger] arrived_in_order(
            side,
            trades[i],
            trades[j],
        )
}

/// The makers of `a` and `b` are live entries of the level at `a`'s price,
/// that of `a` first.
pub open spec fn arrived_in_order(side: Map<u64, LevelModel>, a: ExecutedOrder, b: ExecutedOrder) -> bool {
    makers_in_order(side[a.price], a, b, side[a.price].len() as int)
}

pub proof fn lemma_match_arrival(init: MatchState, prices: Seq<u64>, k: int, taker: Order, ts: i64)
    requires
        0 <= k <= prices.len(),
        prices.no_duplicates(),
        side_wf(init.side),
        init.trades.len() == 0,
        init.emptied.len() == 0,
        init.filled.len() == 0,
    ensures
        same_price_arrival(init.side, match_upto(init, prices, k, taker, ts).trades),
    decreases k,
{
    if k > 0 {
        lemma_match_arrival(init, prices, k - 1, taker, ts);
        lemma_match_facts(init, prices, k - 1, taker, ts);
        lemma_match_inv(init, prices, k - 1, taker, ts);
        let prev = match_upto(init, prices, k - 1, taker, ts);
        let next = match_upto(init, prices, k, taker, ts);
        let price = prices[k - 1];
        if !(prev.remaining == 0 || !crosses(taker, price) || !prev.side.contains_key(price)) {
            let l = prev.side[price];
            assert(l == init.side[price]);
            let f0 = FillState { level: l, remaining: prev.remaining, trades: Seq::empty(), filled: Seq::empty() };
            let f = fill_level(l, prev.remaining, price, taker, ts);
            lemma_fill_facts(f0, l.len() as int, price, taker, ts);
            lemma_fill_arrival(f0, l.len() as int, price, taker, ts);
            assert(next.trades == prev.trades + f.trades);
            let n = prev.trades.len();
            assert forall|i: int, j: int|
                0 <= i < j < next.trades.len() && next.trades[i].price == next.trades[j].price implies #[trigger] arrived_in_order(
                init.side,
                next.trades[i],
                next.trades[j],
            ) by {
                if j < n {
                    assert(next.trades[i] == prev.trades[i]);
                    assert(next.trades[j] == prev.trades[j]);
                    assert(arrived_in_order(init.side, prev.trades[i], prev.trades[j]));
                } else if i >= n {
                    assert(next.trades[i] == f.trades[i - n]);
                    assert(next.trades[j] == f.trades[j - n]);
                    assert(f.trades[i - n].price == price);
                    assert(makers_in_order(l, f.trades[i - n], f.trades[j - n], l.len() as int));
                } else {
                    assert(next.trades[i] == prev.trades[i]);
                    assert(next.trades[j] == f.trades[j - n]);
                    let l2 = choose|l2: int| 0 <= l2 < k - 1 && prices[l2] == prev.trades[i].price;
                    assert(prices[l2] != prices[k - 1]);
                }
            }
        }
    }
}

/// Within a price, makers are met in the order they arrived.
pub proof fn law_time_priority(opposite: Map<u64, LevelModel>, taker: Order, ts: i64)
    requires
        opposite.dom().finite(),
        side_wf(opposite),
    ensures
        same_price_arrival(opposite, match_outcome(opposite, taker, ts).trades),
{
    let prices = match_order_prices(opposite, taker.side);
    lemma_prices_listing(opposite, taker.side);
    let init = match_start(opposite, taker);
    lemma_match_arrival(init, prices, prices.len() as int, taker, ts);
}

/// A rested order is the last entry of its level, live, with its full quantity.
pub proof fn law_rested_order_is_last(side: Map<u64, LevelModel>, o: Order)
    requires
        side_wf(side),
    ensures
        ({
            let level = side.insert(o.price, level_with(side, o.price, o.order_id, o.quantity))[o.price];
            let idx = next_index(side, o.price) as int;
            &&& level.wf()
            &&& level.len() == idx + 1
            &&& level.orders[idx] == o.order_id
            &&& level.quantity[idx] == o.quantity
            &&& !level.tombstone[idx]
        }),
{
}

/// Deleting a rested order by the location it was given removes its entry:
/// the entry is tombstoned, or its level is gone. A tombstoned entry is never
/// met again by a match.
pub proof fn law_deleted_order_not_live(side: Map<u64, LevelModel>, o: Order)
    requires
        side_wf(side),
        next_index(side, o.price) <= usize::MAX,
    ensures
        ({
            let rested = side.insert(o.price, level_with(side, o.price, o.order_id, o.quantity));
            let loc = OrderLocation {
                side: o.side,
                price: o.price,
                index: next_index(side, o.price) as usize,
            };
            let after = side_after_delete(rested, loc);
            !after.contains_key(o.price) || after[o.price].tombstone[loc.index as int]
        }),
{
}

/// A tombstoned entry of a level is skipped by every scan: its quantity and
/// removal mark stay as they were.
pub proof fn law_tombstoned_entry_skipped(level: LevelModel, remaining: u64, price: u64, taker: Order, ts: i64, e: int)
    requires
        level.sound(),
        0 <= e < level.len(),
        level.tombstone[e],
    ensures
        fill_level(level, remaining, price, taker, ts).level.tombstone[e],
        fill_level(level, remaining, price, taker, ts).level.quantity[e] == level.quantity[e],
{
    let init = FillState { level, remaining, trades: Seq::empty(), filled: Seq::empty() };
    lemma_skips(init, level.len() as int, price, taker, ts, e);
}

proof fn lemma_skips(init: FillState, k: int, price: u64, taker: Order, ts: i64, e: int)
    requires
        0 <= k <= init.level.len(),
        init.level.sound(),
        0 <= e < init.level.len(),
        init.level.tombstone[e],
        init.trades.len() == 0,
        init.filled.len() == 0,
    ensures
        fill_upto(init, k, price, taker, ts).level.tombstone[e],
        fill_upto(init, k, price, taker, ts).level.quantity[e] == init.level.quantity[e],
    decreases k,
{
    if k > 0 {
        lemma_skips(init, k - 1, price, taker, ts, e);
        lemma_fill_facts(init, k - 1, price, taker, ts);
    }
}

} // verus!
