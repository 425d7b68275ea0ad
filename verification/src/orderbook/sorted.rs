//! The prices of one side of the book in ascending order.
use vstd::prelude::*;

use std::collections::BTreeMap;
use vstd::std_specs::iter::IteratorSpec;
use vstd::std_specs::cmp::OrdSpec;

use crate::orderbook::PriceLevel;

verus! {

broadcast use {vstd::std_specs::btree::group_btree_axioms, vstd::laws_cmp::group_laws_cmp};

/// Every element is smaller than every later element.
pub open spec fn strictly_ascending(s: Seq<u64>) -> bool {
    forall|i: int, j: int| 0 <= i < j < s.len() ==> s[i] < s[j]
}

/// The prices of `dom` listed once each, lowest first.
pub open spec fn ascending_prices(dom: Set<u64>) -> Seq<u64> {
    choose|s: Seq<u64>| strictly_ascending(s) && s.to_set() == dom
}

/// The prices of `dom` listed once each, highest first.
pub open spec fn descending_prices(dom: Set<u64>) -> Seq<u64> {
    ascending_prices(dom).reverse()
}

/// Two ascending listings of the same set are the same listing.
pub proof fn lemma_ascending_unique(s1: Seq<u64>, s2: Seq<u64>)
    requires
        strictly_ascending(s1),
        strictly_ascending(s2),
        s1.to_set() == s2.to_set(),
    ensures
        s1 == s2,
    decreases s1.len(),
{
    if s1.len() == 0 {
        if s2.len() > 0 {
            assert(s2.to_set().contains(s2[0]));
        }
        assert(s1 =~= s2);
    } else {
        assert(s1.to_set().contains(s1[0]));
        assert(s2.len() > 0);
        assert(s2.to_set().contains(s2[0]));
        let i = choose|i: int| 0 <= i < s1.len() && s1[i] == s2[0];
        let j = choose|j: int| 0 <= j < s2.len() && s2[j] == s1[0];
        assert(s1[0] == s2[0]);
        let t1 = s1.drop_first();
        let t2 = s2.drop_first();
        assert forall|x: u64| t1.to_set().contains(x) <==> t2.to_set().contains(x) by {
            if t1.to_set().contains(x) {
                let k = choose|k: int| 0 <= k < t1.len() && t1[k] == x;
                assert(s1[k + 1] == x);
                assert(s1.to_set().contains(x));
                let l = choose|l: int| 0 <= l < s2.len() && s2[l] == x;
                assert(l != 0);
                assert(t2[l - 1] == x);
            }
            if t2.to_set().contains(x) {
                let k = choose|k: int| 0 <= k < t2.len() && t2[k] == x;
                assert(s2[k + 1] == x);
                assert(s2.to_set().contains(x));
                let l = choose|l: int| 0 <= l < s1.len() && s1[l] == x;
                assert(l != 0);
                assert(t1[l - 1] == x);
            }
        }
        assert(t1.to_set() =~= t2.to_set());
        lemma_ascending_unique(t1, t2);
        assert(s1.len() == s2.len());
        assert forall|k: int| 0 <= k < s1.len() implies s1[k] == s2[k] by {
            if k > 0 {
                assert(t1[k - 1] == t2[k - 1]);
            }
        }
        assert(s1 =~= s2);
    }
}

/// Every finite set of prices has an ascending listing.
pub proof fn lemma_ascending_exists(dom: Set<u64>)
    requires
        dom.finite(),
    ensures
        strictly_ascending(ascending_prices(dom)),
        ascending_prices(dom).to_set() == dom,
        ascending_prices(dom).len() == dom.len(),
{
    let w = ascending_witness(dom);
    let s = ascending_prices(dom);
    assert(s.no_duplicates());
    s.unique_seq_to_set();
}

proof fn ascending_witness(dom: Set<u64>) -> (s: Seq<u64>)
    requires
        dom.finite(),
    ensures
        strictly_ascending(s),
        s.to_set() == dom,
    decreases dom.len(),
{
    if dom.len() == 0 {
        let s = Seq::<u64>::empty();
        assert(s.to_set() =~= dom);
        s
    } else {
        let leq = |a: u64, b: u64| a <= b;
        dom.find_unique_maximal_ensures(leq);
        let m = dom.find_unique_maximal(leq);
        let rest = dom.remove(m);
        let t = ascending_witness(rest);
        let s = t.push(m);
        assert forall|i: int| 0 <= i < t.len() implies t[i] < m by {
            assert(t.to_set().contains(t[i]));
            assert(leq(t[i], m) || leq(m, t[i]));
        }
        assert forall|x: u64| s.to_set().contains(x) <==> dom.contains(x) by {
            if dom.contains(x) && x != m {
                assert(t.to_set().contains(x));
                let k = choose|k: int| 0 <= k < t.len() && t[k] == x;
                assert(s[k] == x);
            }
            if dom.contains(x) && x == m {
                assert(s[s.len() - 1] == x);
            }
            if s.to_set().contains(x) {
                let k = choose|k: int| 0 <= k < s.len() && s[k] == x;
                if k < t.len() {
                    assert(t[k] == x);
                    assert(t.to_set().contains(x));
                }
            }
        }
        assert(s.to_set() =~= dom);
        s
    }
}

/// The prices of a book side, lowest first.
pub fn collect_ascending(book: &BTreeMap<u64, PriceLevel>) -> (prices: Vec<u64>)
    ensures
        prices@ == ascending_prices(book@.dom()),
{
    let mut prices: Vec<u64> = Vec::new();
    let ghost all: Seq<u64> = book.keys().remaining().unref();
    for k in it: book.keys()
        invariant
            all == it.seq().unref(),
            prices@ == all.take(it.index()),
    {
        prices.push(*k);
        assert(all.take(it.index() + 1) =~= prices@);
    }
    proof {
        assert(prices@ =~= all);
        let r = book.keys().remaining();
        vstd::std_specs::btree::axiom_spec_keys_iter(book);
        assert(vstd::laws_cmp::obeys_cmp::<&u64>());
        assert(vstd::std_specs::btree::increasing_seq(r));
        vstd::std_specs::btree::axiom_increasing_seq_meaning::<&u64>(r);
        assert(all.len() == r.len());
        assert forall|i: int, j: int| 0 <= i < j < all.len() implies all[i] < all[j] by {
            assert(OrdSpec::cmp_spec(&r[i], &r[j]) is Less);
        }
        assert forall|x: u64| all.to_set().contains(x) <==> book@.dom().contains(x) by {
            if book@.dom().contains(x) {
                assert(r.unref().to_set().contains(x));
            }
        }
        assert(all.to_set() =~= book@.dom());
        lemma_ascending_unique(all, ascending_prices(book@.dom()));
    }
    prices
}

} // verus!
