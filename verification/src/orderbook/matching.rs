//! Matching an incoming order against the opposite side of the book.
use vstd::prelude::*;

use std::collections::{BTreeMap, HashMap};

use crate::error::Result;
use crate::input::Side;
use crate::orderbook::book::{
    can_rest, lemma_levels_insert, lemma_levels_remove, level_with, next_index,
};
use crate::orderbook::laws::{lemma_fill_remaining, lemma_match_facts, lemma_prices_listing};
use crate::orderbook::sorted::{ascending_prices, collect_ascending, descending_prices};
use crate::orderbook::{
    buffer_room, entry_live, lemma_live_upto_update, lemma_sound_live_entry, lemma_sound_reduced,
    levels, side_wf, DepthCache, ExecutedOrder, LevelModel, Order, OrderBook, OrderLocation,
    PriceLevel, TradeMsg, TRADE_BUF_CAPACITY,
};

verus! {

broadcast use {vstd::std_specs::btree::group_btree_axioms, vstd::std_specs::hash::group_hash_axioms};

/// The sum of the quantities of `trades`.
pub open spec fn traded_quantity(trades: Seq<ExecutedOrder>) -> nat
    decreases trades.len(),
{
    if trades.len() == 0 {
        0
    } else {
        traded_quantity(trades.drop_last()) + trades.last().quantity as nat
    }
}

pub proof fn lemma_traded_push(trades: Seq<ExecutedOrder>, t: ExecutedOrder)
    ensures
        traded_quantity(trades.push(t)) == traded_quantity(trades) + t.quantity,
{
    assert(trades.push(t).drop_last() =~= trades);
}

pub proof fn lemma_traded_quantity_append(a: Seq<ExecutedOrder>, b: Seq<ExecutedOrder>)
    ensures
        traded_quantity(a + b) == traded_quantity(a) + traded_quantity(b),
    decreases b.len(),
{
    if b.len() > 0 {
        lemma_traded_quantity_append(a, b.drop_last());
        assert((a + b).drop_last() =~= a + b.drop_last());
    } else {
        assert(a + b =~= a);
    }
}

pub proof fn lemma_contains_push(a: Seq<u64>, y: u64, x: u64)
    ensures
        a.push(y).contains(x) <==> a.contains(x) || x == y,
{
    if a.contains(x) {
        let i = choose|i: int| 0 <= i < a.len() && a[i] == x;
        assert(a.push(y)[i] == x);
    }
    if x == y {
        assert(a.push(y)[a.len() as int] == x);
    }
    if a.push(y).contains(x) {
        let i = choose|i: int| 0 <= i < a.len() + 1 && a.push(y)[i] == x;
        if i < a.len() {
            assert(a[i] == x);
        }
    }
}

pub proof fn lemma_contains_concat(a: Seq<u64>, b: Seq<u64>, x: u64)
    ensures
        (a + b).contains(x) <==> a.contains(x) || b.contains(x),
{
    if a.contains(x) {
        let i = choose|i: int| 0 <= i < a.len() && a[i] == x;
        assert((a + b)[i] == x);
    }
    if b.contains(x) {
        let i = choose|i: int| 0 <= i < b.len() && b[i] == x;
        assert((a + b)[a.len() + i] == x);
    }
    if (a + b).contains(x) {
        let i = choose|i: int| 0 <= i < a.len() + b.len() && (a + b)[i] == x;
        if i < a.len() {
            assert(a[i] == x);
        } else {
            assert(b[i - a.len()] == x);
        }
    }
}

/// The progress of matching against one price level: the level, what is
/// left of the taker, the trades so far and the makers filled completely.
pub struct FillState {
    pub level: LevelModel,
    pub remaining: u64,
    pub trades: Seq<ExecutedOrder>,
    pub filled: Seq<u64>,
}

/// The progress of matching against a side of the book.
pub struct MatchState {
    pub side: Map<u64, LevelModel>,
    pub remaining: u64,
    pub trades: Seq<ExecutedOrder>,
    pub emptied: Seq<u64>,
    pub filled: Seq<u64>,
}

/// A resting order at `price` can trade with `taker`: a buy takes asks at or
/// below its limit, a sell takes bids at or above it.
pub open spec fn crosses(taker: Order, price: u64) -> bool {
    match taker.side {
        Side::Buy => price <= taker.price,
        Side::Sell => price >= taker.price,
    }
}

/// One entry of a level meets the taker. A removed entry is skipped. Otherwise
/// the traded quantity is the smaller of the two remaining quantities; it is
/// taken off both, the trade is recorded, and an entry left with nothing is
/// removed and its maker noted as filled.
pub open spec fn fill_step(st: FillState, idx: int, price: u64, taker: Order, ts: i64) -> FillState {
    if st.remaining == 0 || st.level.tombstone[idx] {
        st
    } else {
        let maker_quantity = st.level.quantity[idx];
        let traded: u64 = if st.remaining < maker_quantity {
            st.remaining
        } else {
            maker_quantity
        };
        let left = (maker_quantity - traded) as u64;
        let level = st.level.reduced(idx, left);
        let trade = ExecutedOrder {
            maker_id: st.level.orders[idx],
            taker_id: taker.order_id,
            price,
            quantity: traded,
            timestamp: ts,
        };
        FillState {
            level: if left == 0 {
                level.removed(idx)
            } else {
                level
            },
            remaining: (st.remaining - traded) as u64,
            trades: st.trades.push(trade),
            filled: if left == 0 {
                st.filled.push(st.level.orders[idx])
            } else {
                st.filled
            },
        }
    }
}

/// The state after the first `k` entries of the level were met.
pub open spec fn fill_upto(st: FillState, k: int, price: u64, taker: Order, ts: i64) -> FillState
    decreases k,
{
    if k <= 0 {
        st
    } else {
        fill_step(fill_upto(st, k - 1, price, taker, ts), k - 1, price, taker, ts)
    }
}

/// The state after a level was scanned in arrival order.
pub open spec fn fill_level(level: LevelModel, remaining: u64, price: u64, taker: Order, ts: i64) -> FillState {
    fill_upto(
        FillState { level, remaining, trades: Seq::empty(), filled: Seq::empty() },
        level.len() as int,
        price,
        taker,
        ts,
    )
}

/// One price of the side meets the taker: a level that crosses is scanned,
/// and its price is noted when the level's total is then zero.
pub open spec fn match_step(st: MatchState, price: u64, taker: Order, ts: i64) -> MatchState {
    if st.remaining == 0 || !crosses(taker, price) || !st.side.contains_key(price) {
        st
    } else {
        let f = fill_level(st.side[price], st.remaining, price, taker, ts);
        MatchState {
            side: st.side.insert(price, f.level),
            remaining: f.remaining,
            trades: st.trades + f.trades,
            emptied: if f.level.total_quantity == 0 {
                st.emptied.push(price)
            } else {
                st.emptied
            },
            filled: st.filled + f.filled,
        }
    }
}

/// The state after the first `k` prices were met.
pub open spec fn match_upto(st: MatchState, prices: Seq<u64>, k: int, taker: Order, ts: i64) -> MatchState
    decreases k,
{
    if k <= 0 {
        st
    } else {
        match_step(match_upto(st, prices, k - 1, taker, ts), prices[k - 1], taker, ts)
    }
}

/// The order in which the prices of the opposite side are met: the best first.
pub open spec fn match_order_prices(opposite: Map<u64, LevelModel>, side: Side) -> Seq<u64> {
    match side {
        Side::Buy => ascending_prices(opposite.dom()),
        Side::Sell => descending_prices(opposite.dom()),
    }
}

/// The state before the taker meets the opposite side.
pub open spec fn match_start(opposite: Map<u64, LevelModel>, taker: Order) -> MatchState {
    MatchState {
        side: opposite,
        remaining: taker.quantity,
        trades: Seq::empty(),
        emptied: Seq::empty(),
        filled: Seq::empty(),
    }
}

/// The state after the taker met the whole opposite side, before emptied
/// levels are dropped.
pub open spec fn match_outcome(opposite: Map<u64, LevelModel>, taker: Order, ts: i64) -> MatchState {
    let prices = match_order_prices(opposite, taker.side);
    match_upto(match_start(opposite, taker), prices, prices.len() as int, taker, ts)
}

/// The opposite side after matching: emptied levels are dropped.
pub open spec fn opposite_after(out: MatchState) -> Map<u64, LevelModel> {
    out.side.remove_keys(out.emptied.to_set())
}

/// Whether the unfilled rest of the taker can be rested (its level total stays
/// within `u64`). The time stamp of a match does not decide what is left of
/// the taker (`lemma_remaining_ignores_time`), so the outcome at time 0 is used.
pub open spec fn rest_fits(book: &OrderBook, taker: Order) -> bool {
    let out = match_outcome(book.opposite_levels(taker.side), taker, 0);
    out.remaining > 0 ==> can_rest(book.resting_levels(taker.side), taker.price, out.remaining)
}

// ----------------------------------------------------------------------------
// Facts about the scan of one level.

pub proof fn lemma_fill_stable(st: FillState, k: int, j: int, price: u64, taker: Order, ts: i64)
    requires
        0 <= k <= j,
        fill_upto(st, k, price, taker, ts).remaining == 0,
    ensures
        fill_upto(st, j, price, taker, ts) == fill_upto(st, k, price, taker, ts),
    decreases j - k,
{
    if j > k {
        lemma_fill_stable(st, k, j - 1, price, taker, ts);
    }
}

/// What every step of a scan keeps: the level stays sound with the same
/// orders, what was traded is taken off both the taker and the level's
/// total, and an entry that became removed belongs to a filled maker.
pub open spec fn fill_inv(init: FillState, st: FillState) -> bool {
    &&& st.level.sound()
    &&& st.level.len() == init.level.len()
    &&& st.level.orders == init.level.orders
    &&& st.remaining <= init.remaining
    &&& traded_quantity(st.trades) + st.remaining == init.remaining
    &&& traded_quantity(st.trades) + st.level.total_quantity == init.level.total_quantity
    &&& forall|i: int|
        0 <= i < st.level.len() && #[trigger] st.level.tombstone[i] ==> init.level.tombstone[i]
            || st.filled.contains(init.level.orders[i])
}

pub proof fn lemma_fill_inv(init: FillState, k: int, price: u64, taker: Order, ts: i64)
    requires
        0 <= k <= init.level.len(),
        init.level.sound(),
        init.trades.len() == 0,
        init.filled.len() == 0,
    ensures
        fill_inv(init, fill_upto(init, k, price, taker, ts)),
    decreases k,
{
    if k == 0 {
        assert(init.trades =~= Seq::<ExecutedOrder>::empty());
    } else {
        lemma_fill_inv(init, k - 1, price, taker, ts);
        let prev = fill_upto(init, k - 1, price, taker, ts);
        let next = fill_upto(init, k, price, taker, ts);
        let idx = k - 1;
        if !(prev.remaining == 0 || prev.level.tombstone[idx]) {
            let mq = prev.level.quantity[idx];
            let traded: u64 = if prev.remaining < mq {
                prev.remaining
            } else {
                mq
            };
            let left = (mq - traded) as u64;
            let lvl = prev.level.reduced(idx, left);
            lemma_sound_reduced(prev.level, idx, left);
            lemma_traded_push(prev.trades, next.trades.last());
            assert(next.trades == prev.trades.push(next.trades.last()));
            if left == 0 {
                let l2 = lvl.removed(idx);
                lemma_live_upto_update(lvl, l2, lvl.len() as int, idx);
                assert(l2.live_positive());
                assert(l2.sound());
                assert forall|i: int|
                    0 <= i < next.level.len() && #[trigger] next.level.tombstone[i] implies init.level.tombstone[i]
                        || next.filled.contains(init.level.orders[i]) by {
                    lemma_contains_push(prev.filled, prev.level.orders[idx], init.level.orders[i]);
                    if i != idx {
                        assert(prev.level.tombstone[i]);
                    }
                }
            } else {
                assert forall|i: int|
                    0 <= i < next.level.len() && #[trigger] next.level.tombstone[i] implies init.level.tombstone[i]
                        || next.filled.contains(init.level.orders[i]) by {
                    assert(prev.level.tombstone[i]);
                }
            }
        }
    }
}

// ----------------------------------------------------------------------------
// Facts about matching against a side.

pub proof fn lemma_match_stable(
    st: MatchState,
    prices: Seq<u64>,
    k: int,
    j: int,
    taker: Order,
    ts: i64,
)
    requires
        0 <= k <= j,
        match_upto(st, prices, k, taker, ts).remaining == 0,
    ensures
        match_upto(st, prices, j, taker, ts) == match_upto(st, prices, k, taker, ts),
    decreases j - k,
{
    if j > k {
        lemma_match_stable(st, prices, k, j - 1, taker, ts);
    }
}

/// What every step of a match keeps: the levels stay sound with the same
/// orders, an entry that became removed belongs to a filled maker, exactly
/// the levels with a zero total are noted as emptied, and what was traded is
/// taken off the taker.
pub open spec fn match_inv(init: MatchState, st: MatchState) -> bool {
    &&& st.side.dom() == init.side.dom()
    &&& forall|p: u64| #[trigger]
        st.side.contains_key(p) ==> st.side[p].sound() && st.side[p].orders == init.side[p].orders
            && st.side[p].len() == init.side[p].len()
    &&& forall|p: u64, i: int|
        st.side.contains_key(p) && 0 <= i < st.side[p].len() && #[trigger] st.side[p].tombstone[i]
            ==> init.side[p].tombstone[i] || st.filled.contains(init.side[p].orders[i])
    &&& forall|p: u64|
        st.side.contains_key(p) && #[trigger] st.side[p].total_quantity == 0 ==> st.emptied.contains(p)
    &&& forall|p: u64| #[trigger]
        st.emptied.contains(p) ==> st.side.contains_key(p) && st.side[p].total_quantity == 0
    &&& traded_quantity(st.trades) + st.remaining == init.remaining
    &&& st.remaining <= init.remaining
}

pub proof fn lemma_match_inv(init: MatchState, prices: Seq<u64>, k: int, taker: Order, ts: i64)
    requires
        0 <= k,
        side_wf(init.side),
        init.trades.len() == 0,
        init.emptied.len() == 0,
        init.filled.len() == 0,
    ensures
        match_inv(init, match_upto(init, prices, k, taker, ts)),
    decreases k,
{
    if k == 0 {
        assert(init.trades =~= Seq::<ExecutedOrder>::empty());
        assert forall|p: u64| init.side.contains_key(p) && #[trigger] init.side[p].total_quantity
            == 0 implies init.emptied.contains(p) by {}
    } else {
        lemma_match_inv(init, prices, k - 1, taker, ts);
        let prev = match_upto(init, prices, k - 1, taker, ts);
        let price = prices[k - 1];
        if !(prev.remaining == 0 || !crosses(taker, price) || !prev.side.contains_key(price)) {
            let l = prev.side[price];
            let f0 = FillState {
                level: l,
                remaining: prev.remaining,
                trades: Seq::empty(),
                filled: Seq::empty(),
            };
            lemma_fill_inv(f0, l.len() as int, price, taker, ts);
            let f = fill_level(l, prev.remaining, price, taker, ts);
            let next = match_upto(init, prices, k, taker, ts);
            lemma_traded_quantity_append(prev.trades, f.trades);
            assert(next.side.dom() =~= init.side.dom());
            assert forall|p: u64| #[trigger] next.side.contains_key(p) implies next.side[p].sound()
                && next.side[p].orders == init.side[p].orders && next.side[p].len()
                == init.side[p].len() by {
                if p != price {
                    assert(prev.side.contains_key(p));
                }
            }
            assert forall|p: u64, i: int|
                next.side.contains_key(p) && 0 <= i < next.side[p].len()
                    && #[trigger] next.side[p].tombstone[i] implies init.side[p].tombstone[i]
                || next.filled.contains(init.side[p].orders[i]) by {
                assert(prev.side.contains_key(p));
                if p == price {
                    lemma_contains_concat(prev.filled, f.filled, init.side[p].orders[i]);
                    if l.tombstone[i] {
                        assert(prev.side[p].tombstone[i]);
                    }
                } else {
                    assert(prev.side[p].tombstone[i]);
                    lemma_contains_concat(prev.filled, f.filled, init.side[p].orders[i]);
                }
            }
            assert forall|p: u64|
                next.side.contains_key(p) && #[trigger] next.side[p].total_quantity
                    == 0 implies next.emptied.contains(p) by {
                assert(prev.side.contains_key(p));
                if f.level.total_quantity == 0 {
                    lemma_contains_push(prev.emptied, price, p);
                } else if p != price {
                    assert(prev.side[p].total_quantity == 0);
                }
            }
            assert forall|p: u64| #[trigger]
                next.emptied.contains(p) implies next.side.contains_key(p)
                && next.side[p].total_quantity == 0 by {
                if f.level.total_quantity == 0 {
                    lemma_contains_push(prev.emptied, price, p);
                }
                if p == price && prev.emptied.contains(p) {
                    assert(l.total_quantity == 0);
                }
            }
        }
    }
}

// ----------------------------------------------------------------------------
// Execution.

/// Scans `level` (at `price`) in arrival order against the taker's remaining
/// quantity, appending the trades to `executed` and the makers it fills
/// completely to `filled`.
fn fill(
    level: &mut PriceLevel,
    price: u64,
    taker: &Order,
    remaining: &mut u64,
    executed: &mut Vec<ExecutedOrder>,
    filled: &mut Vec<u64>,
    ts: i64,
)
    requires
        old(level)@.sound(),
    ensures
        ({
            let f = fill_level(old(level)@, *old(remaining), price, *taker, ts);
            &&& final(level)@ == f.level
            &&& *final(remaining) == f.remaining
            &&& final(executed)@ == old(executed)@ + f.trades
            &&& final(filled)@ == old(filled)@ + f.filled
        }),
{
    let ghost init = FillState {
        level: level@,
        remaining: *remaining,
        trades: Seq::empty(),
        filled: Seq::empty(),
    };
    let ghost exec0 = executed@;
    let ghost filled0 = filled@;
    let n = level.orders.len();
    let mut idx: usize = 0;
    proof {
        lemma_fill_inv(init, 0, price, *taker, ts);
        assert(executed@ =~= exec0 + init.trades);
        assert(filled@ =~= filled0 + init.filled);
    }
    while idx < n && *remaining > 0
        invariant
            n == init.level.len(),
            0 <= idx <= n,
            init.level.sound(),
            init.trades.len() == 0,
            init.filled.len() == 0,
            ({
                let f = fill_upto(init, idx as int, price, *taker, ts);
                &&& level@ == f.level
                &&& *remaining == f.remaining
                &&& executed@ == exec0 + f.trades
                &&& filled@ == filled0 + f.filled
                &&& fill_inv(init, f)
            }),
        decreases n - idx,
    {
        proof {
            lemma_fill_inv(init, idx as int + 1, price, *taker, ts);
        }
        let ghost prev = fill_upto(init, idx as int, price, *taker, ts);
        if !level.tombstone[idx] {
            let maker_id = level.orders[idx];
            let maker_quantity = level.quantity[idx];
            let traded = if *remaining < maker_quantity {
                *remaining
            } else {
                maker_quantity
            };
            *remaining = *remaining - traded;
            let left = maker_quantity - traded;
            let _ = level.reduce_quantity(idx, left);
            let trade = ExecutedOrder {
                maker_id,
                taker_id: taker.order_id,
                price,
                quantity: traded,
                timestamp: ts,
            };
            executed.push(trade);
            if left == 0 {
                let _ = level.remove_order(idx);
                filled.push(maker_id);
            }
            proof {
                let f = fill_upto(init, idx as int + 1, price, *taker, ts);
                assert(f.trades == prev.trades.push(trade));
                assert(executed@ =~= exec0 + f.trades);
                assert(filled@ =~= filled0 + f.filled);
            }
        }
        idx = idx + 1;
    }
    proof {
        if idx < n {
            lemma_fill_stable(init, idx as int, n as int, price, *taker, ts);
        }
    }
}

/// Matches the taker against `book`, the side opposite to it, best price
/// first, then drops the levels whose total reached zero.
fn match_side(
    book: &mut BTreeMap<u64, PriceLevel>,
    taker: &Order,
    remaining: &mut u64,
    executed: &mut Vec<ExecutedOrder>,
    filled: &mut Vec<u64>,
    ts: i64,
)
    requires
        side_wf(levels(old(book)@)),
        *old(remaining) == taker.quantity,
        old(executed)@.len() == 0,
        old(filled)@.len() == 0,
    ensures
        ({
            let out = match_outcome(levels(old(book)@), *taker, ts);
            &&& levels(final(book)@) == opposite_after(out)
            &&& *final(remaining) == out.remaining
            &&& final(executed)@ == out.trades
            &&& final(filled)@ == out.filled
            &&& match_inv(match_start(levels(old(book)@), *taker), out)
        }),
{
    let ghost opp = levels(book@);
    let ghost init = match_start(opp, *taker);
    let ghost prices = match_order_prices(opp, taker.side);
    let asc = collect_ascending(book);
    proof {
        crate::orderbook::book::lemma_levels_dom(book@);
        assert(asc@ == ascending_prices(opp.dom()));
        assert(executed@ =~= init.trades);
        assert(filled@ =~= init.filled);
    }
    let n = asc.len();
    let buy = match taker.side {
        Side::Buy => true,
        Side::Sell => false,
    };
    let mut emptied: Vec<u64> = Vec::new();
    let mut k: usize = 0;
    proof {
        lemma_match_inv(init, prices, 0, *taker, ts);
    }
    while k < n && *remaining > 0
        invariant
            n == asc@.len(),
            asc@ == ascending_prices(opp.dom()),
            prices == match_order_prices(opp, taker.side),
            prices.len() == n,
            buy <==> taker.side == Side::Buy,
            0 <= k <= n,
            init == match_start(opp, *taker),
            side_wf(init.side),
            ({
                let st = match_upto(init, prices, k as int, *taker, ts);
                &&& levels(book@) == st.side
                &&& *remaining == st.remaining
                &&& executed@ == st.trades
                &&& filled@ == st.filled
                &&& emptied@ == st.emptied
                &&& match_inv(init, st)
            }),
        decreases n - k,
    {
        proof {
            lemma_match_inv(init, prices, k as int + 1, *taker, ts);
        }
        let ghost prev = match_upto(init, prices, k as int, *taker, ts);
        let price = if buy {
            asc[k]
        } else {
            asc[n - 1 - k]
        };
        proof {
            assert(price == prices[k as int]);
        }
        let cross = if buy {
            price <= taker.price
        } else {
            price >= taker.price
        };
        if cross {
            match book.remove(&price) {
                Some(mut level) => {
                    proof {
                        lemma_levels_remove(old(book)@, price);
                        lemma_levels_remove(book@, price);
                        assert(prev.side.contains_key(price));
                    }
                    fill(&mut level, price, taker, remaining, executed, filled, ts);
                    if level.total_quantity == 0 {
                        emptied.push(price);
                    }
                    let ghost mid = book@;
                    book.insert(price, level);
                    proof {
                        lemma_levels_insert(mid, price, level);
                        let st = match_upto(init, prices, k as int + 1, *taker, ts);
                        assert(levels(book@) =~= st.side);
                        assert(executed@ =~= st.trades);
                        assert(filled@ =~= st.filled);
                    }
                },
                None => {
                    proof {
                        assert(!prev.side.contains_key(price));
                    }
                },
            }
        }
        k = k + 1;
    }
    proof {
        if k < n {
            lemma_match_stable(init, prices, k as int, n as int, *taker, ts);
        }
    }
    let ghost out = match_upto(init, prices, n as int, *taker, ts);
    let mut i: usize = 0;
    while i < emptied.len()
        invariant
            0 <= i <= emptied@.len(),
            emptied@ == out.emptied,
            levels(book@) == out.side.remove_keys(emptied@.take(i as int).to_set()),
        decreases emptied@.len() - i,
    {
        let ghost before = book@;
        book.remove(&emptied[i]);
        proof {
            lemma_levels_remove(before, emptied@[i as int]);
            assert(emptied@.take(i as int + 1) =~= emptied@.take(i as int).push(emptied@[i as int]));
            emptied@.take(i as int).lemma_push_to_set_commute(emptied@[i as int]);
            assert(emptied@.take(i as int + 1).to_set() =~= emptied@.take(i as int).to_set().insert(
                emptied@[i as int],
            ));
            assert(levels(book@) =~= out.side.remove_keys(emptied@.take(i as int + 1).to_set()));
        }
        i = i + 1;
    }
    proof {
        assert(emptied@.take(i as int) =~= emptied@);
    }
}

/// Appends the first trades of `trades` to the trade buffer, as many as it
/// has room for.
fn record_trades(trade_buf: &mut Vec<TradeMsg>, trade_len: &mut usize, trades: &Vec<ExecutedOrder>)
    requires
        old(trade_buf)@.len() == *old(trade_len),
        *old(trade_len) <= TRADE_BUF_CAPACITY,
    ensures
        ({
            let room = buffer_room(*old(trade_len) as nat, trades@.len());
            &&& *final(trade_len) == *old(trade_len) + room
            &&& final(trade_buf)@ == old(trade_buf)@ + trades@.take(room as int).map_values(
                |t: ExecutedOrder| TradeMsg::of(t),
            )
        }),
{
    let ghost buf0 = trade_buf@;
    let ghost len0 = *trade_len;
    let mut i: usize = 0;
    while i < trades.len() && *trade_len < TRADE_BUF_CAPACITY
        invariant
            0 <= i <= trades@.len(),
            *trade_len == len0 + i,
            len0 <= *trade_len <= TRADE_BUF_CAPACITY,
            trade_buf@ == buf0 + trades@.take(i as int).map_values(|t: ExecutedOrder| TradeMsg::of(t)),
        decreases trades@.len() - i,
    {
        trade_buf.push(TradeMsg::new(&trades[i]));
        *trade_len = *trade_len + 1;
        proof {
            assert(trades@.take(i as int + 1) =~= trades@.take(i as int).push(trades@[i as int]));
            assert(trade_buf@ =~= buf0 + trades@.take(i as int + 1).map_values(
                |t: ExecutedOrder| TradeMsg::of(t),
            ));
        }
        i = i + 1;
    }
}

/// Forgets the locations of the orders in `ids`.
fn forget_locations(locations: &mut HashMap<u64, OrderLocation>, ids: &Vec<u64>)
    ensures
        final(locations)@ == old(locations)@.remove_keys(ids@.to_set()),
{
    let mut i: usize = 0;
    while i < ids.len()
        invariant
            0 <= i <= ids@.len(),
            locations@ == old(locations)@.remove_keys(ids@.take(i as int).to_set()),
        decreases ids@.len() - i,
    {
        let ghost before = locations@;
        locations.remove(&ids[i]);
        proof {
            assert(ids@.take(i as int + 1) =~= ids@.take(i as int).push(ids@[i as int]));
            ids@.take(i as int).lemma_push_to_set_commute(ids@[i as int]);
            assert(locations@ =~= old(locations)@.remove_keys(ids@.take(i as int + 1).to_set()));
        }
        i = i + 1;
    }
    proof {
        assert(ids@.take(i as int) =~= ids@);
    }
}

/// The resting side after the unfilled rest `remaining` of `taker` was
/// rested (unchanged when nothing is left).
pub open spec fn resting_after(book: &OrderBook, taker: Order, remaining: u64) -> Map<u64, LevelModel> {
    let side = book.resting_levels(taker.side);
    if remaining > 0 {
        side.insert(taker.price, level_with(side, taker.price, taker.order_id, remaining))
    } else {
        side
    }
}

/// The order locations after a match: the makers filled completely are
/// forgotten, and the unfilled rest of `taker`, if any, is recorded.
pub open spec fn locations_after(book: &OrderBook, taker: Order, out: MatchState) -> Map<u64, OrderLocation> {
    let kept = book.locations().remove_keys(out.filled.to_set());
    if out.remaining > 0 {
        kept.insert(
            taker.order_id,
            OrderLocation {
                side: taker.side,
                price: taker.price,
                index: next_index(book.resting_levels(taker.side), taker.price) as usize,
            },
        )
    } else {
        kept
    }
}

/// `new` and `r` are what matching `taker` at time `ts` makes of `old`: a
/// refused taker changes nothing; otherwise the trades are those of
/// `match_outcome`, as many of them as fit are appended to the trade buffer,
/// emptied levels of the opposite side are dropped, the makers filled
/// completely lose their locations, an unfilled rest is rested, and the depth
/// cache is marked stale.
pub open spec fn match_effect(
    old: &OrderBook,
    new: &OrderBook,
    taker: Order,
    ts: i64,
    r: Result<Vec<ExecutedOrder>>,
) -> bool {
    match taker.validation() {
        Err(e) => r == Err::<Vec<ExecutedOrder>, crate::error::OrderbookError>(e) && new.same_contents(old),
        Ok(_) => {
            let out = match_outcome(old.opposite_levels(taker.side), taker, ts);
            let room = buffer_room(old.trade_len as nat, out.trades.len());
            &&& r is Ok
            &&& r->Ok_0@ == out.trades
            &&& new.opposite_levels(taker.side) == opposite_after(out)
            &&& new.resting_levels(taker.side) == resting_after(old, taker, out.remaining)
            &&& new.locations() == locations_after(old, taker, out)
            &&& new.trade_len == old.trade_len + room
            &&& new.trade_buf@ == old.trade_buf@ + out.trades.take(room as int).map_values(
                |t: ExecutedOrder| TradeMsg::of(t),
            )
            &&& new.depth_cache == DepthCache { stale: true, ..old.depth_cache }
        },
    }
}

impl OrderBook {
    /// Matches `taker` against the opposite side at time `timestamp`, best
    /// price first and arrival order within a price, and rests what is left of it.
    pub fn match_order_at(&mut self, taker: Order, timestamp: i64) -> (r: Result<Vec<ExecutedOrder>>)
        requires
            old(self).wf(),
            taker.validation() is Ok ==> rest_fits(old(self), taker),
        ensures
            final(self).wf(),
            match_effect(old(self), final(self), taker, timestamp, r),
    {
        taker.validate()?;
        proof {
            lemma_remaining_ignores_time(old(self).opposite_levels(taker.side), taker, 0, timestamp);
        }
        let mut executed: Vec<ExecutedOrder> = Vec::new();
        let mut filled: Vec<u64> = Vec::new();
        let mut remaining = taker.quantity;
        let ghost old_opp = old(self).opposite_levels(taker.side);
        match taker.side {
            Side::Buy => match_side(
                &mut self.asks,
                &taker,
                &mut remaining,
                &mut executed,
                &mut filled,
                timestamp,
            ),
            Side::Sell => match_side(
                &mut self.bids,
                &taker,
                &mut remaining,
                &mut executed,
                &mut filled,
                timestamp,
            ),
        }
        record_trades(&mut self.trade_buf, &mut self.trade_len, &executed);
        forget_locations(&mut self.order_location, &filled);
        self.depth_cache.stale = true;
        proof {
            let out = match_outcome(old_opp, taker, timestamp);
            let after = opposite_after(out);
            let fset = out.filled.to_set();
            assert forall|p: u64| #[trigger] after.contains_key(p) implies after[p].sound()
                && after[p].total_quantity > 0 by {
                assert(out.side.contains_key(p));
                if after[p].total_quantity == 0 {
                    assert(out.emptied.contains(p));
                    assert(out.emptied.to_set().contains(p));
                }
            }
            assert forall|id: u64| #[trigger] self.locations().contains_key(id) implies entry_live(
                self.resting_levels(self.locations()[id].side),
                self.locations()[id],
                id,
            ) by {
                let loc = old(self).locations()[id];
                assert(old(self).locations().contains_key(id));
                assert(!fset.contains(id));
                assert(self.locations()[id] == loc);
                assert(entry_live(old(self).resting_levels(loc.side), loc, id));
                if loc.side != taker.side {
                    assert(old(self).resting_levels(loc.side) == old_opp);
                    assert(self.resting_levels(loc.side) == after);
                    let p = loc.price;
                    let i = loc.index as int;
                    assert(out.side.contains_key(p));
                    assert(out.side[p].orders[i] == id);
                    if out.side[p].tombstone[i] {
                        assert(out.filled.contains(old_opp[p].orders[i]));
                        assert(fset.contains(id));
                    }
                    lemma_sound_live_entry(out.side[p], i);
                    if out.emptied.to_set().contains(p) {
                        assert(out.emptied.contains(p));
                    }
                } else {
                    assert(self.resting_levels(loc.side) == old(self).resting_levels(loc.side));
                }
            }
        }
        if remaining > 0 {
            let rest = Order { quantity: remaining, ..taker };
            self.insert_resting_order(rest)?;
        }
        Ok(executed)
    }

    /// Matches `taker` against the opposite side, stamping its trades with
    /// the current time in milliseconds, and rests what is left of it.
    pub fn matching_order(&mut self, taker: Order) -> (r: Result<Vec<ExecutedOrder>>)
        requires
            old(self).wf(),
            taker.validation() is Ok ==> rest_fits(old(self), taker),
        ensures
            final(self).wf(),
            exists|ts: i64| match_effect(old(self), final(self), taker, ts, r),
    {
        let timestamp = now_millis();
        self.match_order_at(taker, timestamp)
    }
}

impl OrderBook {
    /// What would be left of `taker` after matching it against the opposite
    /// side, computed without changing the book: each crossing level, best
    /// first, takes its whole total or all that is left.
    pub fn unfilled_rest(&self, taker: &Order) -> (rest: u64)
        requires
            self.wf(),
        ensures
            rest == match_outcome(self.opposite_levels(taker.side), *taker, 0).remaining,
    {
        let book = match taker.side {
            Side::Buy => &self.asks,
            Side::Sell => &self.bids,
        };
        let ghost opp = levels(book@);
        let ghost prices = match_order_prices(opp, taker.side);
        let ghost init = match_start(opp, *taker);
        proof {
            crate::orderbook::book::lemma_levels_dom(book@);
            lemma_prices_listing(opp, taker.side);
        }
        let asc = collect_ascending(book);
        let n = asc.len();
        let buy = match taker.side {
            Side::Buy => true,
            Side::Sell => false,
        };
        let mut rest = taker.quantity;
        let mut k: usize = 0;
        while k < n
            invariant
                n == asc@.len(),
                asc@ == ascending_prices(opp.dom()),
                opp == levels(book@),
                opp == self.opposite_levels(taker.side),
                prices == match_order_prices(opp, taker.side),
                prices.len() == n,
                prices.no_duplicates(),
                buy <==> taker.side == Side::Buy,
                0 <= k <= n,
                init == match_start(opp, *taker),
                side_wf(opp),
                rest == match_upto(init, prices, k as int, *taker, 0).remaining,
            decreases n - k,
        {
            proof {
                lemma_match_facts(init, prices, k as int, *taker, 0);
                lemma_match_inv(init, prices, k as int, *taker, 0);
            }
            let ghost prev = match_upto(init, prices, k as int, *taker, 0);
            let price = if buy {
                asc[k]
            } else {
                asc[n - 1 - k]
            };
            proof {
                assert(price == prices[k as int]);
            }
            let cross = if buy {
                price <= taker.price
            } else {
                price >= taker.price
            };
            if rest > 0 && cross {
                match book.get(&price) {
                    Some(l) => {
                        proof {
                            assert(opp.contains_key(price));
                            assert(prev.side[price] == l@);
                            lemma_fill_remaining(l@, rest, price, *taker, 0);
                        }
                        rest = if rest <= l.total_quantity {
                            0
                        } else {
                            rest - l.total_quantity
                        };
                    },
                    None => {
                        proof {
                            assert(!prev.side.contains_key(price));
                        }
                    },
                }
            }
            k = k + 1;
        }
        rest
    }
}

/// Reads the system clock through chrono: converts `SystemTime::now()` to a
/// `chrono::DateTime<Utc>` and takes its milliseconds since the Unix epoch
/// (negative for a clock set before 1970). Nothing is promised of the value.
/// chrono's conversion fails only for times that chrono cannot represent
/// (hundreds of thousands of years away), which a system clock does not read.
#[verifier::external_body]
fn now_millis() -> i64 {
    chrono::DateTime::<chrono::Utc>::from(std::time::SystemTime::now()).timestamp_millis()
}

// ----------------------------------------------------------------------------
// The time stamp does not decide anything in a match but the trades' stamps.

pub proof fn lemma_fill_ignores_time(st: FillState, k: int, price: u64, taker: Order, t1: i64, t2: i64)
    requires
        0 <= k,
    ensures
        fill_upto(st, k, price, taker, t1).remaining == fill_upto(st, k, price, taker, t2).remaining,
        fill_upto(st, k, price, taker, t1).level == fill_upto(st, k, price, taker, t2).level,
        fill_upto(st, k, price, taker, t1).filled == fill_upto(st, k, price, taker, t2).filled,
    decreases k,
{
    if k > 0 {
        lemma_fill_ignores_time(st, k - 1, price, taker, t1, t2);
    }
}

pub proof fn lemma_match_ignores_time(st: MatchState, prices: Seq<u64>, k: int, taker: Order, t1: i64, t2: i64)
    requires
        0 <= k,
    ensures
        match_upto(st, prices, k, taker, t1).remaining == match_upto(st, prices, k, taker, t2).remaining,
        match_upto(st, prices, k, taker, t1).side == match_upto(st, prices, k, taker, t2).side,
    decreases k,
{
    if k > 0 {
        lemma_match_ignores_time(st, prices, k - 1, taker, t1, t2);
        let prev1 = match_upto(st, prices, k - 1, taker, t1);
        let price = prices[k - 1];
        if !(prev1.remaining == 0 || !crosses(taker, price) || !prev1.side.contains_key(price)) {
            let l = prev1.side[price];
            lemma_fill_ignores_time(
                FillState { level: l, remaining: prev1.remaining, trades: Seq::empty(), filled: Seq::empty() },
                l.len() as int,
                price,
                taker,
                t1,
                t2,
            );
        }
    }
}

pub proof fn lemma_remaining_ignores_time(opposite: Map<u64, LevelModel>, taker: Order, t1: i64, t2: i64)
    ensures
        match_outcome(opposite, taker, t1).remaining == match_outcome(opposite, taker, t2).remaining,
{
    let prices = match_order_prices(opposite, taker.side);
    lemma_match_ignores_time(match_start(opposite, taker), prices, prices.len() as int, taker, t1, t2);
}

} // verus!
