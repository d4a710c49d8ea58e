use vstd::prelude::*;
use vstd::std_specs::cmp::OrdSpec;
use vstd::std_specs::iter::IteratorSpec;
use std::collections::BTreeMap;

use crate::types::{OrderId, Price, Qty, Side};

verus! {

/// A resting order as it is stored in the arena: one link of the doubly
/// linked queue of its price level.
#[derive(Clone, Copy, PartialEq, Eq, Structural, Debug)]
pub struct BookNode {
    pub order_id: OrderId,
    pub remaining: Qty,
    pub price: Price,
    pub side: Side,
    pub prev: Option<usize>,
    pub next: Option<usize>,
}

/// The first and last arena slots of the queue at one price.
#[derive(Clone, Copy, PartialEq, Eq, Structural, Debug)]
pub struct PriceLevel {
    pub head: Option<usize>,
    pub tail: Option<usize>,
}

impl PriceLevel {
    /// A level with no orders.
    pub fn new() -> (l: Self)
        ensures
            l.head is None,
            l.tail is None,
    {
        PriceLevel { head: None, tail: None }
    }

    /// Whether the level holds no order.
    pub fn is_empty(&self) -> (b: bool)
        ensures
            b == self.head is None,
    {
        self.head.is_none()
    }
}

/// The price levels of both sides, keyed by price.
pub struct OrderBook {
    pub bids: BTreeMap<u64, PriceLevel>,
    pub asks: BTreeMap<u64, PriceLevel>,
}

impl OrderBook {
    /// A book with no levels.
    pub fn new() -> (b: Self)
        ensures
            b.bids@ == Map::<u64, PriceLevel>::empty(),
            b.asks@ == Map::<u64, PriceLevel>::empty(),
    {
        OrderBook { bids: BTreeMap::new(), asks: BTreeMap::new() }
    }

    /// The lowest price with an ask level, if any.
    pub fn best_ask(&self) -> (r: Option<u64>)
        ensures
            r is None <==> self.asks@.dom().is_empty(),
            r matches Some(k) ==> self.asks@.contains_key(k) && forall|j: u64|
                self.asks@.contains_key(j) ==> k <= j,
    {
        broadcast use vstd::std_specs::btree::group_btree_axioms;

        let m = &self.asks;
        proof {
            assert(vstd::laws_cmp::obeys_cmp::<u64>());
        }
        let ghost s = vstd::std_specs::btree::spec_btree_map_iter(m).remaining();
        let levels = m.iter();
        proof {
            assert(forall|j: u64| m@.contains_key(j) ==> s.contains((&j, &m@[j])));
        }
        for kv in it: levels
            invariant
                it.index() == 0,
                it.seq() == s,
                m@ == self.asks@,
                s.len() == m@.dom().len(),
                m@.dom().finite(),
                vstd::std_specs::btree::increasing_seq(
                    s.map_values(|kv: (&u64, &PriceLevel)| *kv.0),
                ),
                forall|j: u64| m@.contains_key(j) ==> s.contains((&j, &m@[j])),
                forall|i: int| 0 <= i < s.len() ==> m@.contains_key(*s[i].0),
        {
            proof {
                assert(kv == s[0]);
                let keys = s.map_values(|kv: (&u64, &PriceLevel)| *kv.0);
                assert forall|j: u64| m@.contains_key(j) implies *kv.0 <= j by {
                    assert(s.contains((&j, &m@[j])));
                    let i = choose|i: int| 0 <= i < s.len() && s[i] == (&j, &m@[j]);
                    if i > 0 {
                        assert(keys[0].cmp_spec(&keys[i]) is Less);
                    }
                }
            }
            return Some(*kv.0);
        }
        None
    }

    /// The highest price with a bid level, if any.
    pub fn best_bid(&self) -> (r: Option<u64>)
        ensures
            r is None <==> self.bids@.dom().is_empty(),
            r matches Some(k) ==> self.bids@.contains_key(k) && forall|j: u64|
                self.bids@.contains_key(j) ==> j <= k,
    {
        broadcast use vstd::std_specs::btree::group_btree_axioms;
        broadcast use vstd::std_specs::iter::rev_postcondition;

        let m = &self.bids;
        proof {
            assert(vstd::laws_cmp::obeys_cmp::<u64>());
        }
        let ghost s = vstd::std_specs::btree::spec_btree_map_iter(m).remaining();
        let forward = m.iter();
        let levels = forward.rev();
        proof {
            assert(forall|j: u64| m@.contains_key(j) ==> s.contains((&j, &m@[j])));
            assert(levels.remaining() == s.reverse());
        }
        for kv in it: levels
            invariant
                it.index() == 0,
                it.seq() == s.reverse(),
                m@ == self.bids@,
                s.len() == m@.dom().len(),
                m@.dom().finite(),
                vstd::std_specs::btree::increasing_seq(
                    s.map_values(|kv: (&u64, &PriceLevel)| *kv.0),
                ),
                forall|j: u64| m@.contains_key(j) ==> s.contains((&j, &m@[j])),
                forall|i: int| 0 <= i < s.len() ==> m@.contains_key(*s[i].0),
        {
            proof {
                assert(kv == s[s.len() - 1]);
                let keys = s.map_values(|kv: (&u64, &PriceLevel)| *kv.0);
                assert forall|j: u64| m@.contains_key(j) implies j <= *kv.0 by {
                    assert(s.contains((&j, &m@[j])));
                    let i = choose|i: int| 0 <= i < s.len() && s[i] == (&j, &m@[j]);
                    if i < s.len() - 1 {
                        assert(keys[i].cmp_spec(&keys[s.len() - 1]) is Less);
                    }
                }
            }
            return Some(*kv.0);
        }
        None
    }
}

} // verus!
