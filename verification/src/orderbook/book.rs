//! Creating a book, resting an order and deleting an order.
use vstd::prelude::*;

use std::collections::{BTreeMap, HashMap};

use crate::error::{OrderbookError, Result};
use crate::input::Side;
use crate::orderbook::{
    entry_live, lemma_sound_live_entry, lemma_sound_pushed, lemma_sound_removed, levels, side_wf,
    DepthCache, LevelModel, Order, OrderBook, OrderLocation, PriceLevel, TRADE_BUF_CAPACITY,
};

verus! {

broadcast use {vstd::std_specs::btree::group_btree_axioms, vstd::std_specs::hash::group_hash_axioms};

pub proof fn lemma_levels_insert(m: Map<u64, PriceLevel>, p: u64, l: PriceLevel)
    ensures
        levels(m.insert(p, l)) == levels(m).insert(p, l@),
{
    assert(levels(m.insert(p, l)) =~= levels(m).insert(p, l@));
}

pub proof fn lemma_levels_remove(m: Map<u64, PriceLevel>, p: u64)
    ensures
        levels(m.remove(p)) == levels(m).remove(p),
{
    assert(levels(m.remove(p)) =~= levels(m).remove(p));
}

pub proof fn lemma_levels_dom(m: Map<u64, PriceLevel>)
    ensures
        levels(m).dom() == m.dom(),
{
    assert(levels(m).dom() =~= m.dom());
}

/// The level at `price` after an order with id `order_id` and quantity `quantity`
/// is appended to it (a new level when there is none).
pub open spec fn level_with(side: Map<u64, LevelModel>, price: u64, order_id: u64, quantity: u64) -> LevelModel {
    let base = if side.contains_key(price) {
        side[price]
    } else {
        LevelModel::empty()
    };
    base.pushed(order_id, quantity)
}

/// The entry index that an order appended at `price` receives.
pub open spec fn next_index(side: Map<u64, LevelModel>, price: u64) -> nat {
    if side.contains_key(price) {
        side[price].len()
    } else {
        0
    }
}

/// Appending the order at `price` keeps the level's total within `u64`.
pub open spec fn can_rest(side: Map<u64, LevelModel>, price: u64, quantity: u64) -> bool {
    side.contains_key(price) ==> side[price].total_quantity + quantity <= u64::MAX
}

/// A side after the entry at `loc` is removed: the entry is tombstoned when it
/// exists, and the level is dropped when its total is then zero.
pub open spec fn side_after_delete(side: Map<u64, LevelModel>, loc: OrderLocation) -> Map<u64, LevelModel> {
    if !side.contains_key(loc.price) {
        side
    } else {
        let l = side[loc.price];
        let l2 = if loc.index < l.len() {
            l.removed(loc.index as int)
        } else {
            l
        };
        if l2.total_quantity == 0 {
            side.remove(loc.price)
        } else {
            side.insert(loc.price, l2)
        }
    }
}

/// Appends `order` to its level of `book`, creating the level when needed,
/// and returns the entry index it received.
fn rest_on(book: &mut BTreeMap<u64, PriceLevel>, order: &Order) -> (idx: usize)
    requires
        can_rest(levels(old(book)@), order.price, order.quantity),
    ensures
        levels(final(book)@) == levels(old(book)@).insert(
            order.price,
            level_with(levels(old(book)@), order.price, order.order_id, order.quantity),
        ),
        idx == next_index(levels(old(book)@), order.price),
{
    let mut level = match book.remove(&order.price) {
        Some(l) => l,
        None => PriceLevel::new(),
    };
    let idx = level.orders.len();
    level.push(order);
    proof {
        lemma_levels_remove(old(book)@, order.price);
    }
    book.insert(order.price, level);
    proof {
        lemma_levels_insert(old(book)@.remove(order.price), order.price, level);
        assert(levels(final(book)@) =~= levels(old(book)@).insert(
            order.price,
            level_with(levels(old(book)@), order.price, order.order_id, order.quantity),
        ));
    }
    idx
}

/// Removes the entry at `loc` from `book`, dropping the level when its total
/// becomes zero.
fn remove_at(book: &mut BTreeMap<u64, PriceLevel>, loc: &OrderLocation)
    requires
        side_wf(levels(old(book)@)),
    ensures
        levels(final(book)@) == side_after_delete(levels(old(book)@), *loc),
{
    let price = loc.price;
    match book.remove(&price) {
        Some(mut l) => {
            proof {
                lemma_levels_remove(old(book)@, price);
                assert(levels(old(book)@).contains_key(price));
            }
            let _ = l.remove_order(loc.index);
            if l.total_quantity != 0 {
                book.insert(price, l);
                proof {
                    lemma_levels_insert(old(book)@.remove(price), price, l);
                    assert(levels(final(book)@) =~= levels(old(book)@).insert(price, l@));
                }
            }
        },
        None => {
            proof {
                assert(!levels(old(book)@).contains_key(price));
            }
        },
    }
}

impl OrderBook {
    /// The contents of `self` and `other` are the same.
    pub open spec fn same_contents(&self, other: &OrderBook) -> bool {
        &&& self.asks@ == other.asks@
        &&& self.bids@ == other.bids@
        &&& self.order_location@ == other.order_location@
        &&& self.trade_buf@ == other.trade_buf@
        &&& self.trade_len == other.trade_len
        &&& self.depth_cache == other.depth_cache
    }

    /// `self` is `other` with `side` of the book replaced by `new_side`, the
    /// locations replaced by `locs`, and the depth cache marked stale.
    pub open spec fn side_changed(
        &self,
        other: &OrderBook,
        side: Side,
        new_side: Map<u64, LevelModel>,
        locs: Map<u64, OrderLocation>,
    ) -> bool {
        &&& self.resting_levels(side) == new_side
        &&& match side {
            Side::Buy => self.asks@ == other.asks@,
            Side::Sell => self.bids@ == other.bids@,
        }
        &&& self.order_location@ == locs
        &&& self.trade_buf@ == other.trade_buf@
        &&& self.trade_len == other.trade_len
        &&& self.depth_cache == DepthCache { stale: true, ..other.depth_cache }
    }

    /// An empty book with a stale, zeroed depth cache.
    pub fn new() -> (book: Self)
        ensures
            book.wf(),
            book.asks@ == Map::<u64, PriceLevel>::empty(),
            book.bids@ == Map::<u64, PriceLevel>::empty(),
            book.trade_len == 0,
            book.trade_buf@ == Seq::<crate::orderbook::TradeMsg>::empty(),
            book.order_location@ == Map::<u64, OrderLocation>::empty(),
            book.depth_cache.stale,
            book.depth_cache.bid_count == 0,
            book.depth_cache.ask_count == 0,
            forall|i: int| 0 <= i < 20 ==> book.depth_cache.bids[i] == [0u64, 0u64] && book.depth_cache.asks[i] == [0u64, 0u64],
    {
        let book = OrderBook {
            asks: BTreeMap::new(),
            bids: BTreeMap::new(),
            trade_len: 0,
            trade_buf: Vec::with_capacity(TRADE_BUF_CAPACITY),
            order_location: HashMap::with_capacity(1000),
            depth_cache: DepthCache {
                asks: [[0u64; 2]; 20],
                bids: [[0u64; 2]; 20],
                stale: true,
                bid_count: 0,
                ask_count: 0,
            },
        };
        proof {
            assert(levels(book.asks@) =~= Map::empty());
            assert(levels(book.bids@) =~= Map::empty());
        }
        book
    }
}

/// `new` and `r` are what deleting `order_id` makes of `old`: an unknown
/// order is refused and nothing changes; otherwise its location is forgotten,
/// its entry removed as `side_after_delete` says, and the depth cache marked stale.
pub open spec fn delete_effect(old: &OrderBook, new: &OrderBook, order_id: u64, r: Result<()>) -> bool {
    if !old.locations().contains_key(order_id) {
        r == Err::<(), OrderbookError>(OrderbookError::OrderDoNotExist) && new.same_contents(old)
    } else {
        let loc = old.locations()[order_id];
        &&& r is Ok
        &&& new.side_changed(
            old,
            loc.side,
            side_after_delete(old.resting_levels(loc.side), loc),
            old.locations().remove(order_id),
        )
    }
}

impl OrderBook {
    /// Rests `order` on its side of the book at its price, behind the orders
    /// already there, and records its location. An order with a zero quantity
    /// or price is refused and nothing changes.
    pub fn insert_resting_order(&mut self, order: Order) -> (r: Result<()>)
        requires
            old(self).wf(),
            order.validation() is Ok ==> can_rest(
                old(self).resting_levels(order.side),
                order.price,
                order.quantity,
            ),
        ensures
            final(self).wf(),
            r == order.validation(),
            r is Err ==> final(self).same_contents(old(self)),
            r is Ok ==> final(self).side_changed(
                old(self),
                order.side,
                old(self).resting_levels(order.side).insert(
                    order.price,
                    level_with(
                        old(self).resting_levels(order.side),
                        order.price,
                        order.order_id,
                        order.quantity,
                    ),
                ),
                old(self).locations().insert(
                    order.order_id,
                    OrderLocation {
                        side: order.side,
                        price: order.price,
                        index: next_index(old(self).resting_levels(order.side), order.price) as usize,
                    },
                ),
            ),
    {
        order.validate()?;
        let index = match order.side {
            Side::Buy => rest_on(&mut self.bids, &order),
            Side::Sell => rest_on(&mut self.asks, &order),
        };
        self.order_location.insert(
            order.order_id,
            OrderLocation { side: order.side, price: order.price, index },
        );
        self.depth_cache.stale = true;
        proof {
            let side = old(self).resting_levels(order.side);
            let base = if side.contains_key(order.price) {
                side[order.price]
            } else {
                LevelModel::empty()
            };
            let l = level_with(side, order.price, order.order_id, order.quantity);
            lemma_sound_pushed(base, order.order_id, order.quantity);
            let new_side = self.resting_levels(order.side);
            assert forall|p: u64| #[trigger] new_side.contains_key(p) implies new_side[p].sound()
                && new_side[p].total_quantity > 0 by {
                if p != order.price {
                    assert(side.contains_key(p));
                }
            }
            assert forall|id: u64| #[trigger] self.locations().contains_key(id) implies entry_live(
                self.resting_levels(self.locations()[id].side),
                self.locations()[id],
                id,
            ) by {
                if id != order.order_id {
                    let loc = old(self).locations()[id];
                    assert(old(self).locations().contains_key(id));
                    assert(entry_live(old(self).resting_levels(loc.side), loc, id));
                    if loc.side == order.side && loc.price == order.price {
                        assert(base == side[order.price]);
                        assert(l.orders[loc.index as int] == base.orders[loc.index as int]);
                        assert(l.tombstone[loc.index as int] == base.tombstone[loc.index as int]);
                    }
                }
            }
        }
        Ok(())
    }

    /// Removes the resting order `order_id`: its location is forgotten, its
    /// entry is tombstoned when the recorded index is within its level, and
    /// the level is dropped when its total is then zero. An unknown order is
    /// refused and nothing changes.
    pub fn delete_order(&mut self, order_id: u64) -> (r: Result<()>)
        requires
            old(self).wf(),
        ensures
            final(self).wf(),
            delete_effect(old(self), final(self), order_id, r),
    {
        let loc = match self.order_location.remove(&order_id) {
            Some(l) => l,
            None => {
                proof {
                    assert(self.order_location@ =~= old(self).order_location@);
                }
                return Err(OrderbookError::OrderDoNotExist);
            },
        };
        match loc.side {
            Side::Buy => remove_at(&mut self.bids, &loc),
            Side::Sell => remove_at(&mut self.asks, &loc),
        }
        self.depth_cache.stale = true;
        proof {
            let side = old(self).resting_levels(loc.side);
            let new_side = side_after_delete(side, loc);
            assert(old(self).locations().contains_key(order_id));
            assert(entry_live(side, loc, order_id));
            let l = side[loc.price];
            let l2 = l.removed(loc.index as int);
            lemma_sound_removed(l, loc.index as int);
            assert forall|p: u64| #[trigger] new_side.contains_key(p) implies new_side[p].sound()
                && new_side[p].total_quantity > 0 by {
                assert(side.contains_key(p));
            }
            assert forall|id: u64| #[trigger] self.locations().contains_key(id) implies entry_live(
                self.resting_levels(self.locations()[id].side),
                self.locations()[id],
                id,
            ) by {
                let loc2 = old(self).locations()[id];
                assert(old(self).locations().contains_key(id));
                assert(entry_live(old(self).resting_levels(loc2.side), loc2, id));
                if loc2.side == loc.side && loc2.price == loc.price {
                    assert(loc2.index != loc.index);
                    assert(!l2.tombstone[loc2.index as int]);
                    lemma_sound_live_entry(l2, loc2.index as int);
                }
            }
        }
        Ok(())
    }
}

} // verus!
