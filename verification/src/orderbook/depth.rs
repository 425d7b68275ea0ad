//! The depth cache: the best levels of each side.
use vstd::prelude::*;

use crate::orderbook::sorted::{ascending_prices, collect_ascending, descending_prices};
use crate::orderbook::{best_asks, best_bids, levels, lists_levels, OrderBook, DEPTH_LEVELS};
use crate::output::Depth;

verus! {

broadcast use {vstd::std_specs::btree::group_btree_axioms, vstd::std_specs::hash::group_hash_axioms};

/// The smaller of `a` and `b`.
pub open spec fn min_nat(a: nat, b: nat) -> nat {
    if a < b {
        a
    } else {
        b
    }
}

impl OrderBook {
    /// The books, locations and trades of `self` and `other` are the same.
    pub open spec fn same_book(&self, other: &OrderBook) -> bool {
        &&& self.asks@ == other.asks@
        &&& self.bids@ == other.bids@
        &&& self.order_location@ == other.order_location@
        &&& self.trade_buf@ == other.trade_buf@
        &&& self.trade_len == other.trade_len
    }

    /// Refills the depth cache with the best `DEPTH_LEVELS` levels of each
    /// side and marks it current.
    pub fn rebuild_depth_cache(&mut self)
        requires
            old(self).wf(),
        ensures
            final(self).wf(),
            final(self).same_book(old(self)),
            !final(self).depth_cache.stale,
            final(self).depth_cache_current(),
            final(self).depth_cache.bid_count == min_nat(DEPTH_LEVELS as nat, old(self).bids@.dom().len()),
            final(self).depth_cache.ask_count == min_nat(DEPTH_LEVELS as nat, old(self).asks@.dom().len()),
    {
        let ghost bl = self.bid_levels();
        let ghost al = self.ask_levels();
        proof {
            crate::orderbook::book::lemma_levels_dom(self.bids@);
            crate::orderbook::book::lemma_levels_dom(self.asks@);
            crate::orderbook::sorted::lemma_ascending_exists(bl.dom());
            crate::orderbook::sorted::lemma_ascending_exists(al.dom());
        }
        let asc = collect_ascending(&self.bids);
        let n = asc.len();
        let mut i: usize = 0;
        while i < n && i < DEPTH_LEVELS
            invariant
                asc@ == ascending_prices(bl.dom()),
                asc@.to_set() == bl.dom(),
                bl.dom() == self.bids@.dom(),
                n == asc@.len(),
                bl == levels(self.bids@),
                self.bids@ == old(self).bids@,
                self.asks@ == old(self).asks@,
                self.order_location@ == old(self).order_location@,
                self.trade_buf@ == old(self).trade_buf@,
                self.trade_len == old(self).trade_len,
                0 <= i <= n,
                i <= DEPTH_LEVELS,
                lists_levels(
                    self.depth_cache.bids@.take(i as int),
                    bl,
                    descending_prices(bl.dom()).take(i as int),
                ),
            decreases n - i,
        {
            let price = asc[n - 1 - i];
            proof {
                assert(asc@.to_set().contains(price));
            }
            let total = match self.bids.get(&price) {
                Some(l) => l.total_quantity,
                None => 0,
            };
            let ghost before = self.depth_cache.bids@;
            self.depth_cache.bids[i] = [price, total];
            proof {
                let d = descending_prices(bl.dom());
                assert(d[i as int] == price);
                assert(bl[price].total_quantity == total);
                let e = self.depth_cache.bids@.take(i as int + 1);
                assert forall|j: int| 0 <= j < i + 1 implies (#[trigger] e[j])[0] == d.take(
                    i as int + 1,
                )[j] && e[j][1] == bl[d.take(i as int + 1)[j]].total_quantity by {
                    if j < i {
                        assert(e[j] == before.take(i as int)[j]);
                        assert(d.take(i as int + 1)[j] == d.take(i as int)[j]);
                    }
                }
            }
            i = i + 1;
        }
        self.depth_cache.bid_count = i;
        let ghost n_bids = n;
        let ghost bids_cache = self.depth_cache.bids;
        let ghost bid_count = self.depth_cache.bid_count;
        let asc = collect_ascending(&self.asks);
        let n = asc.len();
        let mut i: usize = 0;
        while i < n && i < DEPTH_LEVELS
            invariant
                asc@ == ascending_prices(al.dom()),
                asc@.to_set() == al.dom(),
                al.dom() == self.asks@.dom(),
                n == asc@.len(),
                al == levels(self.asks@),
                self.bids@ == old(self).bids@,
                self.asks@ == old(self).asks@,
                self.order_location@ == old(self).order_location@,
                self.trade_buf@ == old(self).trade_buf@,
                self.trade_len == old(self).trade_len,
                self.depth_cache.bids == bids_cache,
                self.depth_cache.bid_count == bid_count,
                lists_levels(
                    bids_cache@.take(bid_count as int),
                    bl,
                    descending_prices(bl.dom()).take(bid_count as int),
                ),
                0 <= i <= n,
                i <= DEPTH_LEVELS,
                lists_levels(
                    self.depth_cache.asks@.take(i as int),
                    al,
                    ascending_prices(al.dom()).take(i as int),
                ),
            decreases n - i,
        {
            let price = asc[i];
            proof {
                assert(asc@.to_set().contains(price));
            }
            let total = match self.asks.get(&price) {
                Some(l) => l.total_quantity,
                None => 0,
            };
            let ghost before = self.depth_cache.asks@;
            self.depth_cache.asks[i] = [price, total];
            proof {
                let d = ascending_prices(al.dom());
                assert(al[price].total_quantity == total);
                let e = self.depth_cache.asks@.take(i as int + 1);
                assert forall|j: int| 0 <= j < i + 1 implies (#[trigger] e[j])[0] == d.take(
                    i as int + 1,
                )[j] && e[j][1] == al[d.take(i as int + 1)[j]].total_quantity by {
                    if j < i {
                        assert(e[j] == before.take(i as int)[j]);
                        assert(d.take(i as int + 1)[j] == d.take(i as int)[j]);
                    }
                }
            }
            i = i + 1;
        }
        self.depth_cache.ask_count = i;
        self.depth_cache.stale = false;
        proof {
            assert(descending_prices(bl.dom()).len() == n_bids);
            assert(self.depth_cache_current());
        }
    }
}

impl OrderBook {
    /// The best `limit` levels of each side (at most `DEPTH_LEVELS`), taken
    /// from the depth cache, which is rebuilt first when stale.
    pub fn get_depth(&mut self, limit: usize) -> (depth: Depth)
        requires
            old(self).wf(),
        ensures
            final(self).wf(),
            final(self).same_book(old(self)),
            !final(self).depth_cache.stale,
            lists_levels(
                depth.bids@,
                old(self).bid_levels(),
                best_bids(old(self).bid_levels(), min_nat(limit as nat, DEPTH_LEVELS as nat)),
            ),
            lists_levels(
                depth.asks@,
                old(self).ask_levels(),
                best_asks(old(self).ask_levels(), min_nat(limit as nat, DEPTH_LEVELS as nat)),
            ),
            depth.last_update_id@ == "0"@,
    {
        if self.depth_cache.stale {
            self.rebuild_depth_cache();
        }
        let ghost bl = self.bid_levels();
        let ghost al = self.ask_levels();
        proof {
            crate::orderbook::book::lemma_levels_dom(self.bids@);
            crate::orderbook::book::lemma_levels_dom(self.asks@);
            crate::orderbook::sorted::lemma_ascending_exists(bl.dom());
            crate::orderbook::sorted::lemma_ascending_exists(al.dom());
        }
        let nb = if self.depth_cache.bid_count < limit {
            self.depth_cache.bid_count
        } else {
            limit
        };
        let mut bids: Vec<[u64; 2]> = Vec::new();
        let mut i: usize = 0;
        while i < nb
            invariant
                0 <= i <= nb,
                nb <= self.depth_cache.bid_count <= DEPTH_LEVELS,
                bids@ == self.depth_cache.bids@.take(i as int),
            decreases nb - i,
        {
            bids.push(self.depth_cache.bids[i]);
            proof {
                assert(bids@ =~= self.depth_cache.bids@.take(i as int + 1));
            }
            i = i + 1;
        }
        let na = if self.depth_cache.ask_count < limit {
            self.depth_cache.ask_count
        } else {
            limit
        };
        let mut asks: Vec<[u64; 2]> = Vec::new();
        let mut i: usize = 0;
        while i < na
            invariant
                0 <= i <= na,
                na <= self.depth_cache.ask_count <= DEPTH_LEVELS,
                asks@ == self.depth_cache.asks@.take(i as int),
            decreases na - i,
        {
            asks.push(self.depth_cache.asks[i]);
            proof {
                assert(asks@ =~= self.depth_cache.asks@.take(i as int + 1));
            }
            i = i + 1;
        }
        proof {
            let m = min_nat(limit as nat, DEPTH_LEVELS as nat);
            let cb = self.depth_cache.bids@.take(self.depth_cache.bid_count as int);
            let pb = best_bids(bl, DEPTH_LEVELS as nat);
            assert(bids@ == cb.take(nb as int));
            assert(best_bids(bl, m) == pb.take(nb as int));
            let ca = self.depth_cache.asks@.take(self.depth_cache.ask_count as int);
            let pa = best_asks(al, DEPTH_LEVELS as nat);
            assert(asks@ == ca.take(na as int));
            assert(best_asks(al, m) == pa.take(na as int));
        }
        Depth { bids, asks, last_update_id: "0".to_string() }
    }
}

} // verus!
