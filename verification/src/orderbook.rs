use vstd::prelude::*;

use std::collections::{BTreeMap, HashMap};

use crate::error::{OrderbookError, Result};
use crate::input::Side;

pub mod book;
pub mod depth;
pub mod laws;
pub mod matching;
pub mod sorted;

verus! {

/// An order as submitted to the book.
#[derive(Debug, Clone, Copy)]
pub struct Order {
    pub order_id: u64,
    pub price: u64,
    pub quantity: u64,
    pub side: Side,
}

impl Order {
    /// What `validate` answers: a zero quantity is refused first, then a zero price.
    pub open spec fn validation(self) -> Result<()> {
        if self.quantity == 0 {
            Err(OrderbookError::QuantityError)
        } else if self.price == 0 {
            Err(OrderbookError::PriceError)
        } else {
            Ok(())
        }
    }

    /// Checks that the order has a nonzero quantity and a nonzero price.
    pub fn validate(&self) -> (r: Result<()>)
        ensures
            r == self.validation(),
    {
        if self.quantity == 0 {
            return Err(OrderbookError::QuantityError);
        }
        if self.price == 0 {
            return Err(OrderbookError::PriceError);
        }
        Ok(())
    }
}

/// The resting orders at one price, in arrival order. Entry `i` is the order
/// `orders[i]` with remaining quantity `quantity[i]`; `tombstone[i]` marks an
/// entry that was removed. Entries are never physically removed.
#[derive(Debug)]
pub struct PriceLevel {
    pub orders: Vec<u64>,
    pub quantity: Vec<u64>,
    pub total_quantity: u64,
    pub tombstone: Vec<bool>,
}

/// The mathematical value of a price level.
pub struct LevelModel {
    pub orders: Seq<u64>,
    pub quantity: Seq<u64>,
    pub total_quantity: u64,
    pub tombstone: Seq<bool>,
}

impl View for PriceLevel {
    type V = LevelModel;

    open spec fn view(&self) -> LevelModel {
        LevelModel {
            orders: self.orders@,
            quantity: self.quantity@,
            total_quantity: self.total_quantity,
            tombstone: self.tombstone@,
        }
    }
}

impl LevelModel {
    /// The number of entries.
    pub open spec fn len(self) -> nat {
        self.orders.len()
    }

    /// The three entry sequences have the same length.
    pub open spec fn wf(self) -> bool {
        &&& self.quantity.len() == self.orders.len()
        &&& self.tombstone.len() == self.orders.len()
    }

    /// Every entry that is not removed has a nonzero remaining quantity.
    pub open spec fn live_positive(self) -> bool {
        forall|i: int| 0 <= i < self.len() && !self.tombstone[i] ==> self.quantity[i] > 0
    }

    /// A level with no entries.
    pub open spec fn empty() -> LevelModel {
        LevelModel {
            orders: Seq::empty(),
            quantity: Seq::empty(),
            total_quantity: 0,
            tombstone: Seq::empty(),
        }
    }

    /// The level after appending a live entry.
    pub open spec fn pushed(self, order_id: u64, quantity: u64) -> LevelModel {
        LevelModel {
            orders: self.orders.push(order_id),
            quantity: self.quantity.push(quantity),
            total_quantity: (self.total_quantity + quantity) as u64,
            tombstone: self.tombstone.push(false),
        }
    }

    /// The level after marking entry `idx` removed: its remaining quantity is
    /// taken off the total (stopping at zero) and the entry is tombstoned.
    pub open spec fn removed(self, idx: int) -> LevelModel {
        LevelModel {
            total_quantity: self.total_quantity.saturating_sub(self.quantity[idx]),
            tombstone: self.tombstone.update(idx, true),
            ..self
        }
    }

    /// The level after setting the remaining quantity of entry `idx` to `q`:
    /// the entry's old quantity is taken off the total (stopping at zero) and
    /// `q` is added (stopping at `u64::MAX`).
    pub open spec fn reduced(self, idx: int, q: u64) -> LevelModel {
        LevelModel {
            quantity: self.quantity.update(idx, q),
            total_quantity: self.total_quantity.saturating_sub(self.quantity[idx]).saturating_add(q),
            ..self
        }
    }

    /// What entry `i` adds to the live quantity: its remaining quantity unless
    /// it is removed.
    pub open spec fn live_at(self, i: int) -> int {
        if self.tombstone[i] {
            0
        } else {
            self.quantity[i] as int
        }
    }

    /// The sum of the remaining quantities of the live entries among the first `n`.
    pub open spec fn live_upto(self, n: int) -> int
        decreases n,
    {
        if n <= 0 {
            0
        } else {
            self.live_upto(n - 1) + self.live_at(n - 1)
        }
    }

    /// The sum of the remaining quantities of all live entries.
    pub open spec fn live_total(self) -> int {
        self.live_upto(self.len() as int)
    }

    /// A level as the book keeps it: well formed, every live entry has a
    /// nonzero remaining quantity, and the total is the sum of the live
    /// entries' remaining quantities.
    pub open spec fn sound(self) -> bool {
        &&& self.wf()
        &&& self.live_positive()
        &&& self.total_quantity == self.live_total()
    }
}

/// The live sum is never negative and is at least what each live entry adds.
pub proof fn lemma_live_upto_bounds(l: LevelModel, n: int, i: int)
    requires
        l.wf(),
        0 <= n <= l.len(),
    ensures
        l.live_upto(n) >= 0,
        0 <= i < n ==> l.live_upto(n) >= l.live_at(i),
    decreases n,
{
    if n > 0 {
        lemma_live_upto_bounds(l, n - 1, i);
        lemma_live_upto_bounds(l, n - 1, n - 1);
    }
}

/// Changing one entry changes the live sum by what that entry adds.
pub proof fn lemma_live_upto_update(l: LevelModel, l2: LevelModel, n: int, idx: int)
    requires
        l.wf(),
        l2.wf(),
        l2.len() == l.len(),
        0 <= idx < l.len(),
        0 <= n <= l.len(),
        forall|j: int| 0 <= j < l.len() && j != idx ==> l2.live_at(j) == l.live_at(j),
    ensures
        l2.live_upto(n) == l.live_upto(n) + if idx < n {
            l2.live_at(idx) - l.live_at(idx)
        } else {
            0
        },
    decreases n,
{
    if n > 0 {
        lemma_live_upto_update(l, l2, n - 1, idx);
    }
}

/// Appending an entry leaves the live sum of the earlier entries unchanged.
pub proof fn lemma_live_upto_push(l: LevelModel, order_id: u64, quantity: u64, n: int)
    requires
        l.wf(),
        0 <= n <= l.len(),
    ensures
        l.pushed(order_id, quantity).live_upto(n) == l.live_upto(n),
    decreases n,
{
    if n > 0 {
        lemma_live_upto_push(l, order_id, quantity, n - 1);
    }
}

/// A level whose first `n` entries are all removed has nothing live among them.
pub proof fn lemma_live_upto_removed(l: LevelModel, n: int)
    requires
        l.wf(),
        0 <= n <= l.len(),
        forall|j: int| 0 <= j < n ==> l.tombstone[j],
    ensures
        l.live_upto(n) == 0,
    decreases n,
{
    if n > 0 {
        lemma_live_upto_removed(l, n - 1);
    }
}

/// In a sound level a live entry is covered by the total, which is then nonzero.
pub proof fn lemma_sound_live_entry(l: LevelModel, i: int)
    requires
        l.sound(),
        0 <= i < l.len(),
        !l.tombstone[i],
    ensures
        l.total_quantity >= l.quantity[i],
        l.total_quantity > 0,
{
    lemma_live_upto_bounds(l, l.len() as int, i);
}

/// Appending a live entry with a nonzero quantity to a sound level keeps it sound.
pub proof fn lemma_sound_pushed(l: LevelModel, order_id: u64, quantity: u64)
    requires
        l.sound(),
        quantity > 0,
        l.total_quantity + quantity <= u64::MAX,
    ensures
        l.pushed(order_id, quantity).sound(),
        l.pushed(order_id, quantity).total_quantity > 0,
{
    let l2 = l.pushed(order_id, quantity);
    lemma_live_upto_push(l, order_id, quantity, l.len() as int);
    assert(l2.live_upto(l.len() as int + 1) == l2.live_upto(l.len() as int) + l2.live_at(
        l.len() as int,
    ));
}

/// Removing a live entry of a sound level keeps it sound; its quantity leaves the total.
pub proof fn lemma_sound_removed(l: LevelModel, idx: int)
    requires
        l.sound(),
        0 <= idx < l.len(),
        !l.tombstone[idx],
    ensures
        l.removed(idx).sound(),
        l.removed(idx).total_quantity == l.total_quantity - l.quantity[idx],
{
    lemma_sound_live_entry(l, idx);
    let l2 = l.removed(idx);
    lemma_live_upto_update(l, l2, l.len() as int, idx);
}

/// Lowering a live entry of a sound level to `q` keeps the total equal to the
/// live sum; the level stays sound when `q` is nonzero.
pub proof fn lemma_sound_reduced(l: LevelModel, idx: int, q: u64)
    requires
        l.sound(),
        0 <= idx < l.len(),
        !l.tombstone[idx],
        q <= l.quantity[idx],
    ensures
        l.reduced(idx, q).wf(),
        l.reduced(idx, q).total_quantity == l.total_quantity - l.quantity[idx] + q,
        l.reduced(idx, q).total_quantity == l.reduced(idx, q).live_total(),
        q > 0 ==> l.reduced(idx, q).sound(),
{
    lemma_sound_live_entry(l, idx);
    let l2 = l.reduced(idx, q);
    lemma_live_upto_update(l, l2, l.len() as int, idx);
}

impl PriceLevel {
    /// An empty level.
    pub fn new() -> (level: Self)
        ensures
            level@ == LevelModel::empty(),
    {
        PriceLevel {
            orders: Vec::with_capacity(20),
            quantity: Vec::with_capacity(20),
            total_quantity: 0,
            tombstone: Vec::with_capacity(20),
        }
    }

    /// Appends `order` as a live entry and adds its quantity to the total.
    pub fn push(&mut self, order: &Order)
        requires
            old(self).total_quantity + order.quantity <= u64::MAX,
        ensures
            final(self)@ == old(self)@.pushed(order.order_id, order.quantity),
    {
        self.orders.push(order.order_id);
        self.quantity.push(order.quantity);
        self.total_quantity = self.total_quantity + order.quantity;
        self.tombstone.push(false);
    }

    /// Marks entry `idx` removed. An index past the last entry is refused.
    pub fn remove_order(&mut self, idx: usize) -> (r: Result<()>)
        requires
            old(self)@.wf(),
        ensures
            idx >= old(self)@.len() ==> r == Err::<(), OrderbookError>(OrderbookError::IndexError)
                && final(self)@ == old(self)@,
            idx < old(self)@.len() ==> r is Ok && final(self)@ == old(self)@.removed(idx as int),
    {
        if idx >= self.tombstone.len() {
            return Err(OrderbookError::IndexError);
        }
        self.total_quantity = self.total_quantity.saturating_sub(self.quantity[idx]);
        self.tombstone.set(idx, true);
        Ok(())
    }

    /// Sets the remaining quantity of entry `idx` to `new_maker_quantity`,
    /// which may not exceed the current one.
    pub fn reduce_quantity(&mut self, idx: usize, new_maker_quantity: u64) -> (r: Result<()>)
        requires
            old(self)@.wf(),
        ensures
            idx >= old(self)@.len() ==> r == Err::<(), OrderbookError>(OrderbookError::IndexError)
                && final(self)@ == old(self)@,
            idx < old(self)@.len() && new_maker_quantity > old(self)@.quantity[idx as int] ==> r
                == Err::<(), OrderbookError>(OrderbookError::OrderQuantityExceeded) && final(self)@
                == old(self)@,
            idx < old(self)@.len() && new_maker_quantity <= old(self)@.quantity[idx as int] ==> r is Ok
                && final(self)@ == old(self)@.reduced(idx as int, new_maker_quantity),
    {
        if idx >= self.orders.len() {
            return Err(OrderbookError::IndexError);
        }
        if new_maker_quantity > self.quantity[idx] {
            return Err(OrderbookError::OrderQuantityExceeded);
        }
        let total = self.total_quantity.saturating_sub(self.quantity[idx]).saturating_add(
            new_maker_quantity,
        );
        self.quantity.set(idx, new_maker_quantity);
        self.total_quantity = total;
        Ok(())
    }
}

/// A trade between a resting maker order and an incoming taker order.
#[derive(Debug, Clone, Copy)]
pub struct ExecutedOrder {
    pub maker_id: u64,
    pub taker_id: u64,
    pub price: u64,
    pub quantity: u64,
    pub timestamp: i64,
}

/// The best price levels of each side as of the last rebuild: entry `i` is
/// `[price, total_quantity]`; the first `bid_count` (`ask_count`) entries are in use.
#[derive(Debug, Clone, Copy)]
pub struct DepthCache {
    pub asks: [[u64; 2]; 20],
    pub bids: [[u64; 2]; 20],
    pub stale: bool,
    pub bid_count: usize,
    pub ask_count: usize,
}

/// A trade as kept in the book's trade buffer.
#[derive(Debug, Clone, Copy)]
pub struct TradeMsg {
    price: u64,
    maker_id: u64,
    taker_id: u64,
    timestamp: i64,
    quantity: u64,
}

impl TradeMsg {
    /// The buffered form of a trade.
    pub closed spec fn of(t: ExecutedOrder) -> TradeMsg {
        TradeMsg {
            price: t.price,
            maker_id: t.maker_id,
            taker_id: t.taker_id,
            timestamp: t.timestamp,
            quantity: t.quantity,
        }
    }

    /// The buffered form of `t`.
    pub(crate) fn new(t: &ExecutedOrder) -> (m: TradeMsg)
        ensures
            m == TradeMsg::of(*t),
    {
        TradeMsg {
            price: t.price,
            maker_id: t.maker_id,
            taker_id: t.taker_id,
            timestamp: t.timestamp,
            quantity: t.quantity,
        }
    }
}

/// Where a resting order was placed: its side, its price and its entry index
/// in the price level.
#[derive(Debug, Clone, Copy)]
pub struct OrderLocation {
    pub side: Side,
    pub price: u64,
    pub index: usize,
}

/// Capacity of the trade buffer.
pub const TRADE_BUF_CAPACITY: usize = 50;

/// Number of levels per side that the depth cache holds.
pub const DEPTH_LEVELS: usize = 20;

/// A limit order book: asks and bids keyed by price, the trades executed so
/// far (up to the buffer's capacity), the location of every resting order and
/// a cache of the best levels.
#[derive(Debug)]
pub struct OrderBook {
    pub asks: BTreeMap<u64, PriceLevel>,
    pub bids: BTreeMap<u64, PriceLevel>,
    pub trade_len: usize,
    pub depth_cache: DepthCache,
    pub trade_buf: Vec<TradeMsg>,
    pub order_location: HashMap<u64, OrderLocation>,
}

/// The mathematical value of one side of the book.
pub open spec fn levels(m: Map<u64, PriceLevel>) -> Map<u64, LevelModel> {
    Map::new(|p: u64| m.contains_key(p), |p: u64| m[p]@)
}

/// Every level of a side is sound and holds some live quantity.
pub open spec fn side_wf(m: Map<u64, LevelModel>) -> bool {
    forall|p: u64| #[trigger] m.contains_key(p) ==> m[p].sound() && m[p].total_quantity > 0
}

/// The entry that `loc` names on `side` is a live entry of order `id`.
pub open spec fn entry_live(side: Map<u64, LevelModel>, loc: OrderLocation, id: u64) -> bool {
    &&& side.contains_key(loc.price)
    &&& loc.index < side[loc.price].len()
    &&& side[loc.price].orders[loc.index as int] == id
    &&& !side[loc.price].tombstone[loc.index as int]
}

/// How many of `n` new trades fit in a trade buffer that holds `len`.
pub open spec fn buffer_room(len: nat, n: nat) -> nat {
    if len >= TRADE_BUF_CAPACITY {
        0
    } else if n < TRADE_BUF_CAPACITY - len {
        n
    } else {
        (TRADE_BUF_CAPACITY - len) as nat
    }
}

/// `entries` lists, in the order of `prices`, each price with the total
/// quantity of its level.
pub open spec fn lists_levels(
    entries: Seq<[u64; 2]>,
    side: Map<u64, LevelModel>,
    prices: Seq<u64>,
) -> bool {
    &&& entries.len() == prices.len()
    &&& forall|i: int|
        0 <= i < entries.len() ==> (#[trigger] entries[i])[0] == prices[i] && entries[i][1]
            == side[prices[i]].total_quantity
}

/// The best `n` prices of the bid side: the highest first.
pub open spec fn best_bids(side: Map<u64, LevelModel>, n: nat) -> Seq<u64> {
    let all = sorted::descending_prices(side.dom());
    all.take(if n < all.len() { n as int } else { all.len() as int })
}

/// The best `n` prices of the ask side: the lowest first.
pub open spec fn best_asks(side: Map<u64, LevelModel>, n: nat) -> Seq<u64> {
    let all = sorted::ascending_prices(side.dom());
    all.take(if n < all.len() { n as int } else { all.len() as int })
}

impl OrderBook {
    /// The ask side as levels.
    pub open spec fn ask_levels(&self) -> Map<u64, LevelModel> {
        levels(self.asks@)
    }

    /// The bid side as levels.
    pub open spec fn bid_levels(&self) -> Map<u64, LevelModel> {
        levels(self.bids@)
    }

    /// The side on which an order of side `side` rests.
    pub open spec fn resting_levels(&self, side: Side) -> Map<u64, LevelModel> {
        match side {
            Side::Buy => self.bid_levels(),
            Side::Sell => self.ask_levels(),
        }
    }

    /// The side against which an order of side `side` is matched.
    pub open spec fn opposite_levels(&self, side: Side) -> Map<u64, LevelModel> {
        match side {
            Side::Buy => self.ask_levels(),
            Side::Sell => self.bid_levels(),
        }
    }

    /// Where each resting order was placed, by order id.
    pub open spec fn locations(&self) -> Map<u64, OrderLocation> {
        self.order_location@
    }

    /// The depth cache holds the best levels of each side.
    pub open spec fn depth_cache_current(&self) -> bool {
        let c = self.depth_cache;
        &&& lists_levels(
            c.bids@.take(c.bid_count as int),
            self.bid_levels(),
            best_bids(self.bid_levels(), DEPTH_LEVELS as nat),
        )
        &&& lists_levels(
            c.asks@.take(c.ask_count as int),
            self.ask_levels(),
            best_asks(self.ask_levels(), DEPTH_LEVELS as nat),
        )
    }

    /// Every recorded location names a live entry of its order.
    pub open spec fn locations_valid(&self) -> bool {
        forall|id: u64| #[trigger]
            self.locations().contains_key(id) ==> entry_live(
                self.resting_levels(self.locations()[id].side),
                self.locations()[id],
                id,
            )
    }

    /// The invariant of the book: every level is sound and holds some live
    /// quantity; every recorded location names a live entry of its order; the
    /// trade buffer holds `trade_len` trades, at most its capacity; and a
    /// cache that is not stale holds the best levels of each side.
    pub open spec fn wf(&self) -> bool {
        &&& side_wf(self.ask_levels())
        &&& side_wf(self.bid_levels())
        &&& self.locations_valid()
        &&& self.trade_buf@.len() == self.trade_len
        &&& self.trade_len <= TRADE_BUF_CAPACITY
        &&& self.depth_cache.bid_count <= DEPTH_LEVELS
        &&& self.depth_cache.ask_count <= DEPTH_LEVELS
        &&& !self.depth_cache.stale ==> self.depth_cache_current()
    }
}

} // verus!
