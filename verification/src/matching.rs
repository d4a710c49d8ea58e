use vstd::prelude::*;
use std::collections::HashMap;

use crate::arena::Arena;
use crate::links::{
    index_ok, lemma_owner, lemma_placed_after_unlink, lemma_queue_push, lemma_queue_unlink,
    lemma_side_frame, lemma_side_insert, lemma_side_remove, lemma_side_view_wf, node_ok, placed,
    queue_ok, queue_view, queues_of, resting_at, side_ok, side_view,
};
use crate::model::{
    after_sweep, best_price, cancel_state, crosses, fill_level, fresh_slot, holds_slot, indexed_in,
    is_best, lemma_best_unique, lemma_fill_left, lemma_fill_shape, lemma_fill_unfold,
    lemma_remove_keys_union, lemma_sweep_advance, lemma_sweep_left, lemma_sweep_stop,
    lemma_without_absent, lemma_without_present, level_or_empty, limit_outcome, make_trade,
    market_outcome, opposite, push_level, rest_state, side_wf, state_wf, sweep, with_order,
    without_slot, BookState, Resting,
};
use crate::orderbook::{BookNode, OrderBook, PriceLevel};
use crate::types::{Order, OrderId, OrderType, Price, Qty, Side, Trade};

verus! {

broadcast use {vstd::std_specs::hash::group_hash_axioms, vstd::std_specs::btree::group_btree_axioms};

/// The matching engine: the book of resting orders, the arena that holds
/// their nodes, the index from order id to arena slot, and every order
/// submitted, by id.
pub struct MatchingEngine {
    book: OrderBook,
    arena: Arena<BookNode>,
    order_index: HashMap<u64, usize>,
    order_store: HashMap<u64, Order>,
    /// For each bid price, the arena slots of its queue, front first.
    bid_queues: Ghost<Map<u64, Seq<usize>>>,
    /// For each ask price, the arena slots of its queue, front first.
    ask_queues: Ghost<Map<u64, Seq<usize>>>,
}

impl View for MatchingEngine {
    type V = BookState;

    closed spec fn view(&self) -> BookState {
        BookState {
            bids: side_view(self.arena@, self.bid_queues@),
            asks: side_view(self.arena@, self.ask_queues@),
            index: self.order_index@,
            store: self.order_store@,
        }
    }
}

impl MatchingEngine {
    /// The internal invariant: the arena is consistent, each side's levels
    /// are linked queues of live nodes, every live node is queued, and the
    /// index points at live nodes with the right id.
    pub closed spec fn wf(&self) -> bool {
        &&& self.arena.wf()
        &&& side_ok(self.arena@, Side::Buy, self.book.bids@, self.bid_queues@)
        &&& side_ok(self.arena@, Side::Sell, self.book.asks@, self.ask_queues@)
        &&& placed(self.arena@, self.bid_queues@, self.ask_queues@)
        &&& index_ok(self.arena@, self.order_index@)
    }

    /// Seen as values, a well-formed engine has the shape `state_wf`
    /// describes: no empty level, no empty order, no slot twice, and no
    /// index entry that misses its order.
    pub proof fn lemma_state_wf(&self)
        requires
            self.wf(),
        ensures
            state_wf(self@),
    {
        let a = self.arena@;
        lemma_side_view_wf(a, Side::Buy, self.book.bids@, self.bid_queues@);
        lemma_side_view_wf(a, Side::Sell, self.book.asks@, self.ask_queues@);
        let bv = self@.bids;
        let av = self@.asks;
        assert forall|p: u64, i: int, q: u64, j: int|
            #![trigger bv[p][i], av[q][j]]
            bv.contains_key(p) && 0 <= i < bv[p].len() && av.contains_key(q) && 0 <= j < av[q].len()
                implies bv[p][i].slot != av[q][j].slot by {
            assert(node_ok(a, Side::Buy, p, self.bid_queues@[p], i));
            assert(node_ok(a, Side::Sell, q, self.ask_queues@[q], j));
        }
        assert forall|id: u64| #[trigger] self@.index.contains_key(id) implies indexed_in(
            bv,
            id,
            self@.index[id],
        ) || indexed_in(av, id, self@.index[id]) by {
            let x = self.order_index@[id];
            let n = a[x as int].unwrap();
            assert(a[x as int] is Some);
            let qs = queues_of(n.side, self.bid_queues@, self.ask_queues@);
            let i = qs[n.price.0].index_of(x);
            assert(qs[n.price.0][i] == x);
            if n.side == Side::Buy {
                assert(bv[n.price.0][i] == resting_at(a, x));
            } else {
                assert(av[n.price.0][i] == resting_at(a, x));
            }
        }
    }

    /// An engine with an empty book.
    pub fn new() -> (e: Self)
        ensures
            e.wf(),
            e@.bids == Map::<u64, Seq<Resting>>::empty(),
            e@.asks == Map::<u64, Seq<Resting>>::empty(),
            e@.index == Map::<u64, usize>::empty(),
            e@.store == Map::<u64, Order>::empty(),
    {
        let e = MatchingEngine {
            book: OrderBook::new(),
            arena: Arena::new(),
            order_index: HashMap::new(),
            order_store: HashMap::new(),
            bid_queues: Ghost(Map::empty()),
            ask_queues: Ghost(Map::empty()),
        };
        proof {
            assert(e@.bids =~= Map::<u64, Seq<Resting>>::empty());
            assert(e@.asks =~= Map::<u64, Seq<Resting>>::empty());
        }
        e
    }

    /// Records `order` under its id, then matches it as a market or a
    /// limit order.
    pub fn process(&mut self, order: Order) -> (trades: Vec<Trade>)
        requires
            old(self).wf(),
        ensures
            final(self).wf(),
            match order.order_type {
                OrderType::Market => market_outcome(
                    with_order(old(self)@, order),
                    order,
                    trades@,
                    final(self)@,
                ),
                OrderType::Limit => limit_outcome(
                    with_order(old(self)@, order),
                    order,
                    trades@,
                    final(self)@,
                ),
            },
    {
        self.order_store.insert(order.id.0, order.clone());
        proof {
            assert(self@ == with_order(old(self)@, order));
        }
        match order.order_type {
            OrderType::Market => self.process_market(order),
            OrderType::Limit => self.process_limit(order),
        }
    }

    /// Matches a market order against the other side, best price first,
    /// until it is filled or that side is empty; what is left of it is
    /// dropped.
    pub fn process_market(&mut self, order: Order) -> (trades: Vec<Trade>)
        requires
            old(self).wf(),
        ensures
            final(self).wf(),
            market_outcome(old(self)@, order, trades@, final(self)@),
    {
        let ghost given = order;
        let mut order = order;
        let side = order.side;
        let book_side = side.other();
        let mut trades: Vec<Trade> = Vec::new();
        let ghost sw0 = sweep(old(self)@.side(book_side), side, order.id.0, order.qty.0 as nat, None);
        let ghost mut done: Set<u64> = Set::empty();
        proof {
            self.lemma_side_facts(book_side);
            assert(self@.index.remove_keys(done) =~= self@.index);
            assert(done.union(sw0.done) =~= sw0.done);
            assert(trades@ + sw0.trades =~= sw0.trades);
        }
        loop
            invariant
                self.wf(),
                order.side == side,
                book_side == opposite(side),
                sw0 == sweep(old(self)@.side(book_side), side, order.id.0, given.qty.0 as nat, None),
                order.id == given.id,
                ({
                    let sw = sweep(self@.side(book_side), side, order.id.0, order.qty.0 as nat, None);
                    &&& trades@ + sw.trades == sw0.trades
                    &&& sw.book == sw0.book
                    &&& sw.left == sw0.left
                    &&& done.union(sw.done) == sw0.done
                }),
                self@.side(side) == old(self)@.side(side),
                self@.index == old(self)@.index.remove_keys(done),
                self@.store == old(self)@.store,
            ensures
                order.qty.0 == 0 || self@.side(book_side).dom().is_empty(),
            decreases self@.side(book_side).dom().len() + (if order.qty.0 > 0 {
                1int
            } else {
                0int
            }),
        {
            if order.qty.0 == 0 {
                break;
            }
            proof {
                self.lemma_side_facts(book_side);
            }
            let best = match self.best_against(side) {
                Some(p) => p,
                None => {
                    break;
                },
            };
            let ghost v0 = self@;
            let ghost qty0 = order.qty.0;
            let ghost trades0 = trades@;
            let ghost done0 = done;
            proof {
                lemma_fill_shape(v0.side(book_side)[best], best, qty0 as nat, side, order.id.0);
                assert(v0.side(book_side)[best].len() > 0);
            }
            let mut new_trades = self.match_level(Price(best), &mut order);
            if new_trades.len() == 0 {
                break;
            }
            trades.append(&mut new_trades);
            proof {
                let f = fill_level(v0.side(book_side)[best], best, qty0 as nat, side, order.id.0);
                lemma_sweep_advance(
                    v0.side(book_side),
                    self@.side(book_side),
                    side,
                    order.id.0,
                    qty0 as nat,
                    order.qty.0 as nat,
                    None,
                    best,
                    trades0,
                    trades@,
                    done0,
                    sw0,
                );
                done = done.union(f.done);
                lemma_remove_keys_union(old(self)@.index, done0, f.done);
            }
        }
        proof {
            self.lemma_side_facts(book_side);
            lemma_sweep_stop(self@.side(book_side), side, order.id.0, order.qty.0 as nat, None);
            let sw = sweep(self@.side(book_side), side, order.id.0, order.qty.0 as nat, None);
            assert(sw.trades.len() == 0);
            assert(sw.done =~= Set::<u64>::empty());
            assert(done =~= sw0.done);
            let b = after_sweep(old(self)@, side, sw0);
            assert(trades@ =~= sw0.trades);
            assert(self@.index =~= b.index);
            if side == Side::Buy {
                assert(self@ == b);
            } else {
                assert(self@ == b);
            }
        }
        trades
    }

    /// Matches a limit order against the other side while its best price
    /// is at the order's price or better, then rests what is left of it at
    /// its price.
    fn process_limit(&mut self, order: Order) -> (trades: Vec<Trade>)
        requires
            old(self).wf(),
        ensures
            final(self).wf(),
            limit_outcome(old(self)@, order, trades@, final(self)@),
    {
        let ghost given = order;
        let mut order = order;
        let side = order.side;
        let book_side = side.other();
        let mut trades: Vec<Trade> = Vec::new();
        let ghost limit = Some(order.price.0);
        let ghost sw0 = sweep(old(self)@.side(book_side), side, order.id.0, order.qty.0 as nat, limit);
        let ghost mut done: Set<u64> = Set::empty();
        proof {
            self.lemma_side_facts(book_side);
            assert(self@.index.remove_keys(done) =~= self@.index);
            assert(done.union(sw0.done) =~= sw0.done);
            assert(trades@ + sw0.trades =~= sw0.trades);
        }
        loop
            invariant
                self.wf(),
                order == (Order { qty: order.qty, ..given }),
                side == given.side,
                book_side == opposite(side),
                limit == Some(given.price.0),
                sw0 == sweep(old(self)@.side(book_side), side, given.id.0, given.qty.0 as nat, limit),
                ({
                    let sw = sweep(self@.side(book_side), side, given.id.0, order.qty.0 as nat, limit);
                    &&& trades@ + sw.trades == sw0.trades
                    &&& sw.book == sw0.book
                    &&& sw.left == sw0.left
                    &&& done.union(sw.done) == sw0.done
                }),
                self@.side(side) == old(self)@.side(side),
                self@.index == old(self)@.index.remove_keys(done),
                self@.store == old(self)@.store,
            ensures
                order.qty.0 == 0 || self@.side(book_side).dom().is_empty() || !crosses(
                    side,
                    best_price(self@.side(book_side), book_side),
                    limit,
                ),
            decreases self@.side(book_side).dom().len() + (if order.qty.0 > 0 {
                1int
            } else {
                0int
            }),
        {
            if order.qty.0 == 0 {
                break;
            }
            proof {
                self.lemma_side_facts(book_side);
            }
            let best = match self.best_against(side) {
                Some(p) => p,
                None => {
                    break;
                },
            };
            proof {
                lemma_best_unique(self@.side(book_side), book_side, best);
            }
            let crosses_now = match side {
                Side::Buy => best <= order.price.0,
                Side::Sell => best >= order.price.0,
            };
            if !crosses_now {
                break;
            }
            let ghost v0 = self@;
            let ghost qty0 = order.qty.0;
            let ghost trades0 = trades@;
            let ghost done0 = done;
            proof {
                lemma_fill_shape(v0.side(book_side)[best], best, qty0 as nat, side, order.id.0);
                assert(v0.side(book_side)[best].len() > 0);
            }
            let mut new_trades = self.match_level(Price(best), &mut order);
            if new_trades.len() == 0 {
                break;
            }
            trades.append(&mut new_trades);
            proof {
                let f = fill_level(v0.side(book_side)[best], best, qty0 as nat, side, order.id.0);
                lemma_sweep_advance(
                    v0.side(book_side),
                    self@.side(book_side),
                    side,
                    order.id.0,
                    qty0 as nat,
                    order.qty.0 as nat,
                    limit,
                    best,
                    trades0,
                    trades@,
                    done0,
                    sw0,
                );
                done = done.union(f.done);
                lemma_remove_keys_union(old(self)@.index, done0, f.done);
            }
        }
        proof {
            self.lemma_side_facts(book_side);
            lemma_sweep_left(old(self)@.side(book_side), side, given.id.0, given.qty.0 as nat, limit);
            lemma_sweep_stop(self@.side(book_side), side, order.id.0, order.qty.0 as nat, limit);
            let sw = sweep(self@.side(book_side), side, order.id.0, order.qty.0 as nat, limit);
            assert(sw.trades.len() == 0);
            assert(sw.done =~= Set::<u64>::empty());
            assert(done =~= sw0.done);
            assert(trades@ =~= sw0.trades);
            assert(order.qty.0 == sw0.left);
            let mid = after_sweep(old(self)@, side, sw0);
            assert(self@.index =~= mid.index);
            if side == Side::Buy {
                assert(self@ == mid);
            } else {
                assert(self@ == mid);
            }
        }
        if order.qty.0 > 0 {
            self.rest(order);
        }
        trades
    }

    /// Puts what is left of `order` at the back of the queue at its price,
    /// opening the level if there is none, and indexes it.
    fn rest(&mut self, order: Order)
        requires
            old(self).wf(),
            order.qty.0 > 0,
        ensures
            final(self).wf(),
            exists|slot: usize|
                fresh_slot(old(self)@, slot) && final(self)@ == rest_state(
                    old(self)@,
                    order.side,
                    order.price.0,
                    order.id.0,
                    order.qty.0,
                    slot,
                ),
    {
        let side = order.side;
        let price = order.price.0;
        let ghost a0 = self.arena@;
        let ghost qs0 = self.queues(side);
        let ghost oq0 = self.queues(opposite(side));
        let node = BookNode {
            order_id: order.id,
            remaining: order.qty,
            price: order.price,
            side: order.side,
            prev: None,
            next: None,
        };
        let idx = self.arena.insert(node);
        self.order_index.insert(order.id.0, idx);
        proof {
            // the new slot was vacant, so no queue holds it
            assert forall|k: u64| #[trigger] qs0.contains_key(k) implies !qs0[k].contains(idx) by {
                if qs0[k].contains(idx) {
                    lemma_owner(a0, side, self.levels(side), qs0, k, idx);
                }
            }
            assert forall|k: u64| #[trigger] oq0.contains_key(k) implies !oq0[k].contains(idx) by {
                if oq0[k].contains(idx) {
                    lemma_owner(a0, opposite(side), self.levels(opposite(side)), oq0, k, idx);
                }
            }
        }
        let mut level = match self.level_get(side, price) {
            Some(l) => l,
            None => PriceLevel::new(),
        };
        let ghost lvl0 = level;
        match level.tail {
            Some(tail) => {
                proof {
                    assert(queue_ok(a0, side, price, qs0[price], lvl0));
                    assert(node_ok(a0, side, price, qs0[price], qs0[price].len() - 1));
                }
                let tail_node = *self.arena.get(tail).unwrap();
                self.arena.set(tail, BookNode { next: Some(idx), ..tail_node });
                let new_node = *self.arena.get(idx).unwrap();
                self.arena.set(idx, BookNode { prev: Some(tail), ..new_node });
                level.tail = Some(idx);
            },
            None => {
                level.head = Some(idx);
                level.tail = Some(idx);
            },
        }
        self.level_put(side, price, level);
        let ghost a3 = self.arena@;
        let ghost q2 = if qs0.contains_key(price) {
            qs0[price].push(idx)
        } else {
            seq![idx]
        };
        proof {
            let tail_slot = if qs0.contains_key(price) {
                qs0[price][qs0[price].len() - 1]
            } else {
                idx
            };
            let changed = set![idx, tail_slot];
            let lv0 = old(self).levels(side);
            let olv = old(self).levels(opposite(side));
            if qs0.contains_key(price) {
                lemma_owner(a0, side, lv0, qs0, price, tail_slot);
            }
            // the queues other than this one hold neither the new slot nor the old tail
            assert forall|k: u64, x: usize|
                qs0.remove(price).contains_key(k) && changed.contains(x) implies !qs0.remove(
                price,
            )[k].contains(x) by {
                if x == tail_slot && x != idx && qs0[k].contains(x) {
                    lemma_owner(a0, side, lv0, qs0, k, x);
                }
            }
            assert forall|k: u64, x: usize| oq0.contains_key(k) && changed.contains(x) implies !oq0[k].contains(
                x,
            ) by {
                if x == tail_slot && x != idx && oq0[k].contains(x) {
                    lemma_owner(a0, opposite(side), olv, oq0, k, x);
                }
            }
            lemma_side_remove(a0, side, lv0, qs0, price);
            lemma_side_frame(a0, a3, side, lv0.remove(price), qs0.remove(price), changed);
            lemma_side_frame(a0, a3, opposite(side), olv, oq0, changed);
            if qs0.contains_key(price) {
                assert(queue_ok(a0, side, price, qs0[price], lvl0));
                lemma_queue_push(a0, a3, side, price, qs0[price], lvl0, idx);
            } else {
                assert(node_ok(a3, side, price, q2, 0));
                assert(queue_view(a3, q2) =~= seq![resting_at(a3, idx)]);
            }
            lemma_side_insert(a3, side, lv0, qs0, price, level, q2);
        }
        self.set_queues(side, Ghost(qs0.insert(price, q2)));
        proof {
            let tail_slot = if qs0.contains_key(price) {
                qs0[price][qs0[price].len() - 1]
            } else {
                idx
            };
            assert(self.levels(side) == old(self).levels(side).insert(price, level));
            assert(self.levels(opposite(side)) == old(self).levels(opposite(side)));
            if side == Side::Buy {
                assert(side_ok(a3, Side::Buy, self.book.bids@, self.bid_queues@));
                assert(side_ok(a3, Side::Sell, self.book.asks@, self.ask_queues@));
            } else {
                assert(side_ok(a3, Side::Buy, self.book.bids@, self.bid_queues@));
                assert(side_ok(a3, Side::Sell, self.book.asks@, self.ask_queues@));
            }
            assert forall|x: usize| #![trigger a3[x as int]] x < a3.len() && a3[x as int] is Some implies {
                let n = a3[x as int].unwrap();
                &&& queues_of(n.side, self.bid_queues@, self.ask_queues@).contains_key(n.price.0)
                &&& queues_of(n.side, self.bid_queues@, self.ask_queues@)[n.price.0].contains(x)
            } by {
                let n = a3[x as int].unwrap();
                if x == idx {
                    assert(q2[q2.len() - 1] == idx);
                } else {
                    assert(a0[x as int] is Some);
                    assert(a0[x as int].unwrap().side == n.side && a0[x as int].unwrap().price == n.price);
                    let m = a0[x as int].unwrap();
                    assert(queues_of(m.side, old(self).bid_queues@, old(self).ask_queues@).contains_key(
                        m.price.0,
                    ));
                    let oq = queues_of(m.side, old(self).bid_queues@, old(self).ask_queues@)[m.price.0];
                    assert(oq.contains(x));
                    if m.side == side && m.price.0 == price {
                        let j = oq.index_of(x);
                        assert(q2[j] == x);
                    }
                }
            }
            assert(placed(a3, self.bid_queues@, self.ask_queues@));
            assert forall|id: u64| #[trigger] self.order_index@.contains_key(id) implies {
                &&& self.order_index@[id] < a3.len()
                &&& a3[self.order_index@[id] as int] is Some
                &&& a3[self.order_index@[id] as int].unwrap().order_id.0 == id
            } by {
                if id != order.id.0 {
                    assert(old(self).order_index@.contains_key(id));
                    let y = old(self).order_index@[id];
                    assert(a0[y as int] is Some);
                }
            }
            assert(index_ok(a3, self.order_index@));
            // the view
            let e = Resting { id: order.id.0, qty: order.qty.0, slot: idx };
            assert(resting_at(a3, idx) == e);
            assert(fresh_slot(old(self)@, idx)) by {
                if holds_slot(old(self)@.bids, idx) {
                    let (k, i) = choose|k: u64, i: int|
                        #![trigger old(self)@.bids[k][i]]
                        old(self)@.bids.contains_key(k) && 0 <= i < old(self)@.bids[k].len()
                            && old(self)@.bids[k][i].slot == idx;
                    lemma_side_view_wf(a0, Side::Buy, old(self).book.bids@, old(self).bid_queues@);
                    assert(old(self).bid_queues@[k][i] == idx);
                    assert(old(self).bid_queues@[k].contains(idx));
                    lemma_owner(a0, Side::Buy, old(self).book.bids@, old(self).bid_queues@, k, idx);
                }
                if holds_slot(old(self)@.asks, idx) {
                    let (k, i) = choose|k: u64, i: int|
                        #![trigger old(self)@.asks[k][i]]
                        old(self)@.asks.contains_key(k) && 0 <= i < old(self)@.asks[k].len()
                            && old(self)@.asks[k][i].slot == idx;
                    lemma_side_view_wf(a0, Side::Sell, old(self).book.asks@, old(self).ask_queues@);
                    assert(old(self).ask_queues@[k][i] == idx);
                    assert(old(self).ask_queues@[k].contains(idx));
                    lemma_owner(a0, Side::Sell, old(self).book.asks@, old(self).ask_queues@, k, idx);
                }
            }
            let new_side = side_view(a3, qs0.insert(price, q2));
            let old_side = side_view(a0, qs0);
            assert(new_side =~= push_level(old_side, price, e));
            assert(self@.index =~= old(self)@.index.insert(order.id.0, idx));
            assert(self@ == rest_state(old(self)@, side, price, order.id.0, order.qty.0, idx));
        }

    }

    /// Matches `order` against the queue at `price` on the other side, front
    /// first, until the order or the level runs out; filled resting orders
    /// leave the book and the index, and an emptied level leaves the side.
    fn match_level(&mut self, price: Price, order: &mut Order) -> (trades: Vec<Trade>)
        requires
            old(self).wf(),
            old(self)@.side(opposite(old(order).side)).contains_key(price.0),
        ensures
            final(self).wf(),
            ({
                let book_side = opposite(old(order).side);
                let f = fill_level(
                    old(self)@.side(book_side)[price.0],
                    price.0,
                    old(order).qty.0 as nat,
                    old(order).side,
                    old(order).id.0,
                );
                &&& trades@ == f.trades
                &&& f.left <= old(order).qty.0
                &&& *final(order) == Order { qty: Qty(f.left as u64), ..*old(order) }
                &&& final(self)@.side(book_side) == (if f.rest.len() == 0 {
                    old(self)@.side(book_side).remove(price.0)
                } else {
                    old(self)@.side(book_side).insert(price.0, f.rest)
                })
                &&& final(self)@.side(old(order).side) == old(self)@.side(old(order).side)
                &&& final(self)@.index == old(self)@.index.remove_keys(f.done)
                &&& final(self)@.store == old(self)@.store
            }),
    {
        let side = order.side;
        let book_side = side.other();
        let mut trades: Vec<Trade> = Vec::new();
        let ghost q0 = self@.side(book_side)[price.0];
        let ghost f0 = fill_level(q0, price.0, order.qty.0 as nat, side, order.id.0);
        let ghost mut done: Set<u64> = Set::empty();
        proof {
            lemma_fill_left(q0, price.0, order.qty.0 as nat, side, order.id.0);
            assert(self@.index.remove_keys(done) =~= self@.index);
            assert(done.union(f0.done) =~= f0.done);
        }
        loop
            invariant
                self.wf(),
                order.side == side,
                order.id == old(order).id,
                order.price == old(order).price,
                order.order_type == old(order).order_type,
                side == old(order).side,
                book_side == opposite(side),
                f0 == fill_level(q0, price.0, old(order).qty.0 as nat, side, order.id.0),
                q0 == old(self)@.side(book_side)[price.0],
                ({
                    let f = fill_level(
                        level_or_empty(self@.side(book_side), price.0),
                        price.0,
                        order.qty.0 as nat,
                        side,
                        order.id.0,
                    );
                    &&& trades@ + f.trades == f0.trades
                    &&& f.rest == f0.rest
                    &&& f.left == f0.left
                    &&& done.union(f.done) == f0.done
                }),
                self@.side(book_side).remove(price.0) == old(self)@.side(book_side).remove(price.0),
                self@.side(side) == old(self)@.side(side),
                self@.index == old(self)@.index.remove_keys(done),
                self@.store == old(self)@.store,
            ensures
                order.qty.0 == 0 || !self@.side(book_side).contains_key(price.0),
            decreases level_or_empty(self@.side(book_side), price.0).len() + (if order.qty.0 > 0 {
                1int
            } else {
                0int
            }),
        {
            if order.qty.0 == 0 {
                break;
            }
            proof {
                self.lemma_side_facts(book_side);
            }
            let level = match self.level_get(book_side, price.0) {
                Some(l) => l,
                None => {
                    break;
                },
            };
            let head = level.head.unwrap();
            let node = *self.arena.get(head).unwrap();
            let ghost cur = level_or_empty(self@.side(book_side), price.0);
            let ghost qty0 = order.qty.0;
            let ghost v0 = self@;
            let ghost trades0 = trades@;
            let ghost done0 = done;
            proof {
                assert(self.levels(book_side).contains_key(price.0));
                assert(cur[0] == resting_at(self.arena@, head));
                assert(cur[0].id == node.order_id.0 && cur[0].qty == node.remaining.0 && cur[0].slot == head);
                assert(self.queues(book_side)[price.0].contains(head));
            }
            let traded = if node.remaining.0 < order.qty.0 {
                node.remaining.0
            } else {
                order.qty.0
            };
            order.qty = Qty(order.qty.0 - traded);
            trades.push(
                Trade {
                    buy: if side == Side::Buy {
                        order.id
                    } else {
                        node.order_id
                    },
                    sell: if side == Side::Sell {
                        order.id
                    } else {
                        node.order_id
                    },
                    price: price,
                    qty: Qty(traded),
                },
            );
            if traded == node.remaining.0 {
                proof {
                    done = done.insert(node.order_id.0);
                }
                self.detach(book_side, price.0, head);
                proof {
                    let t = make_trade(side, order.id.0, cur[0].id, price.0, cur[0].qty);
                    assert(trades@ == trades0.push(t));
                    let f = fill_level(cur, price.0, qty0 as nat, side, order.id.0);
                    let f2 = fill_level(cur.drop_first(), price.0, order.qty.0 as nat, side, order.id.0);
                    lemma_fill_unfold(cur, price.0, qty0 as nat, side, order.id.0);
                    assert(f.trades == seq![t] + f2.trades);
                    lemma_without_present(v0.side(book_side), head, price.0, 0);
                    assert(level_or_empty(self@.side(book_side), price.0) =~= cur.drop_first());
                    assert(trades@ + f2.trades =~= trades0 + f.trades);
                    assert(done.union(f2.done) =~= done0.union(f.done));
                    assert(self@.index =~= old(self)@.index.remove_keys(done));
                    assert(self@.side(book_side).remove(price.0) =~= v0.side(book_side).remove(price.0));
                }
            } else {
                self.trim(book_side, price.0, head, traded);
                proof {
                    let t = make_trade(side, order.id.0, cur[0].id, price.0, qty0);
                    assert(trades@ == trades0.push(t));
                    let f = fill_level(cur, price.0, qty0 as nat, side, order.id.0);
                    lemma_fill_unfold(cur, price.0, qty0 as nat, side, order.id.0);
                    assert(order.qty.0 == 0);
                    assert(level_or_empty(self@.side(book_side), price.0) == f.rest);
                    lemma_fill_unfold(f.rest, price.0, 0, side, order.id.0);
                    assert(trades@ =~= trades0 + f.trades);
                    assert(self@.side(book_side).remove(price.0) =~= v0.side(book_side).remove(price.0));
                }
            }
        }
        proof {
            self.lemma_side_facts(book_side);
            let cur = level_or_empty(self@.side(book_side), price.0);
            lemma_fill_unfold(cur, price.0, order.qty.0 as nat, side, order.id.0);
            assert(trades@ =~= f0.trades);
            assert(done =~= f0.done);
            if self@.side(book_side).contains_key(price.0) {
                assert(cur.len() > 0);
                assert(order.qty.0 == 0);
                assert(f0.rest == cur);
                let m1 = self@.side(book_side);
                let m0 = old(self)@.side(book_side);
                assert forall|k: u64| #[trigger] m1.contains_key(k) <==> m0.insert(price.0, cur).contains_key(k) by {
                    if k != price.0 {
                        assert(m1.remove(price.0).contains_key(k) == m1.contains_key(k));
                        assert(m0.remove(price.0).contains_key(k) == m0.contains_key(k));
                    }
                }
                assert forall|k: u64| #[trigger] m1.contains_key(k) implies m1[k] == m0.insert(price.0, cur)[k] by {
                    if k != price.0 {
                        assert(m1.remove(price.0)[k] == m1[k]);
                        assert(m0.remove(price.0)[k] == m0[k]);
                    }
                }
                assert(m1 =~= m0.insert(price.0, f0.rest));
            } else {
                assert(self@.side(book_side) =~= old(self)@.side(book_side).remove(price.0));
            }
        }
        trades
    }

    /// Cancels the live order indexed under `id`: unlinks it from its
    /// level, drops the level if it empties, and frees it. Answers whether
    /// there was such an order.
    pub fn cancel(&mut self, id: OrderId) -> (r: bool)
        requires
            old(self).wf(),
        ensures
            final(self).wf(),
            r == old(self)@.index.contains_key(id.0),
            r ==> final(self)@ == cancel_state(old(self)@, id.0),
            !r ==> final(self)@ == old(self)@,
    {
        let node_index = match self.order_index.get(&id.0) {
            Some(i) => *i,
            None => {
                return false;
            },
        };
        let node = *self.arena.get(node_index).unwrap();
        let price = node.price;
        let side = node.side;
        proof {
            let a = self.arena@;
            assert(a[node_index as int] is Some);
            assert(queues_of(side, self.bid_queues@, self.ask_queues@).contains_key(price.0));
            assert(self.queues(side) == queues_of(side, self.bid_queues@, self.ask_queues@));
            self.lemma_side_facts(opposite(side));
            let other = self@.side(opposite(side));
            if holds_slot(other, node_index) {
                let (k, i) = choose|k: u64, i: int|
                    #![trigger other[k][i]]
                    other.contains_key(k) && 0 <= i < other[k].len() && other[k][i].slot == node_index;
                lemma_side_view_wf(a, opposite(side), self.levels(opposite(side)), self.queues(opposite(side)));
                if opposite(side) == Side::Buy {
                    assert(other == side_view(a, self.queues(opposite(side))));
                } else {
                    assert(other == side_view(a, self.queues(opposite(side))));
                }
                assert(self.queues(opposite(side))[k][i] == node_index);
                assert(self.queues(opposite(side))[k].contains(node_index));
                lemma_owner(a, opposite(side), self.levels(opposite(side)), self.queues(opposite(side)), k, node_index);
            }
            lemma_without_absent(other, node_index);
        }
        self.detach(side, price.0, node_index);
        proof {
            let c = cancel_state(old(self)@, id.0);
            if side == Side::Buy {
                assert(self@ == c);
            } else {
                assert(self@ == c);
            }
        }
        true
    }

    /// Whether an order is indexed under `id`, so that `cancel` would find it.
    pub fn is_resting(&self, id: OrderId) -> (r: bool)
        requires
            self.wf(),
        ensures
            r == self@.index.contains_key(id.0),
    {
        self.order_index.contains_key(&id.0)
    }

    /// The order submitted under `id`, if any (the latest one, where a
    /// client reused the id).
    pub fn stored_order(&self, id: OrderId) -> (r: Option<Order>)
        requires
            self.wf(),
        ensures
            r == (if self@.store.contains_key(id.0) {
                Some(self@.store[id.0])
            } else {
                None::<Order>
            }),
    {
        match self.order_store.get(&id.0) {
            Some(o) => Some(*o),
            None => None,
        }
    }

    /// The best price of one side: the highest bid or the lowest ask.
    pub fn best_price(&self, side: Side) -> (r: Option<Price>)
        requires
            self.wf(),
        ensures
            r is None <==> self@.side(side).dom().is_empty(),
            r matches Some(p) ==> is_best(self@.side(side), side, p.0),
    {
        match self.best_against(side.other()) {
            Some(p) => Some(Price(p)),
            None => None,
        }
    }

    /// The orders resting at `price` on `side`, oldest first, as id and
    /// open quantity; empty where there is no such level.
    pub fn level(&self, side: Side, price: Price) -> (r: Vec<(OrderId, Qty)>)
        requires
            self.wf(),
        ensures
            r@.len() == level_or_empty(self@.side(side), price.0).len(),
            forall|i: int|
                0 <= i < r@.len() ==> #[trigger] r@[i] == (
                    OrderId(level_or_empty(self@.side(side), price.0)[i].id),
                    Qty(level_or_empty(self@.side(side), price.0)[i].qty),
                ),
    {
        let mut out: Vec<(OrderId, Qty)> = Vec::new();
        proof {
            self.lemma_side_facts(side);
        }
        let level = match self.level_get(side, price.0) {
            Some(l) => l,
            None => {
                return out;
            },
        };
        let ghost q = self.queues(side)[price.0];
        let ghost v = level_or_empty(self@.side(side), price.0);
        let ghost a = self.arena@;
        proof {
            lemma_side_view_wf(a, side, self.levels(side), self.queues(side));
            if side == Side::Buy {
                assert(self@.side(side) == side_view(a, self.queues(side)));
            } else {
                assert(self@.side(side) == side_view(a, self.queues(side)));
            }
            assert(queue_ok(a, side, price.0, q, level));
        }
        let mut cursor = level.head;
        let ghost mut i: int = 0;
        while cursor.is_some()
            invariant
                self.wf(),
                a == self.arena@,
                queue_ok(a, side, price.0, q, level),
                v.len() == q.len(),
                forall|j: int| 0 <= j < q.len() ==> #[trigger] v[j] == resting_at(a, q[j]),
                0 <= i <= q.len(),
                i < q.len() ==> cursor == Some(q[i]),
                i == q.len() ==> cursor is None,
                out@.len() == i,
                forall|j: int| 0 <= j < i ==> #[trigger] out@[j] == (OrderId(v[j].id), Qty(v[j].qty)),
            decreases q.len() - i,
        {
            let slot = cursor.unwrap();
            proof {
                assert(node_ok(a, side, price.0, q, i));
            }
            let node = *self.arena.get(slot).unwrap();
            out.push((node.order_id, node.remaining));
            cursor = node.next;
            proof {
                assert(v[i] == resting_at(a, q[i]));
                i = i + 1;
            }
        }
        out
    }

    /// The price levels of one side.
    closed spec fn levels(&self, side: Side) -> Map<u64, PriceLevel> {
        match side {
            Side::Buy => self.book.bids@,
            Side::Sell => self.book.asks@,
        }
    }

    /// The queues of one side.
    closed spec fn queues(&self, side: Side) -> Map<u64, Seq<usize>> {
        queues_of(side, self.bid_queues@, self.ask_queues@)
    }

    /// What the internal invariant says of one side seen from outside: its
    /// prices are those of its levels, and the front of each queue is the
    /// level's head.
    proof fn lemma_side_facts(&self, side: Side)
        requires
            self.wf(),
        ensures
            forall|p: u64| #[trigger]
                self@.side(side).contains_key(p) <==> self.levels(side).contains_key(p),
            forall|p: u64| #[trigger]
                self.levels(side).contains_key(p) ==> {
                    &&& self.queues(side).contains_key(p)
                    &&& self.levels(side)[p].head == Some(self.queues(side)[p][0])
                    &&& self@.side(side)[p].len() == self.queues(side)[p].len()
                    &&& self@.side(side)[p].len() > 0
                    &&& self@.side(side)[p][0] == resting_at(self.arena@, self.queues(side)[p][0])
                    &&& self.queues(side)[p][0] < self.arena@.len()
                    &&& self.arena@[self.queues(side)[p][0] as int] is Some
                },
            side_wf(self@.side(side)),
    {
        let a = self.arena@;
        lemma_side_view_wf(a, side, self.levels(side), self.queues(side));
        if side == Side::Buy {
            assert(self@.side(side) == side_view(a, self.queues(side)));
        } else {
            assert(self@.side(side) == side_view(a, self.queues(side)));
        }
        assert forall|p: u64| #[trigger] self.levels(side).contains_key(p) implies {
            &&& self.queues(side).contains_key(p)
            &&& self.levels(side)[p].head == Some(self.queues(side)[p][0])
            &&& self@.side(side)[p].len() == self.queues(side)[p].len()
            &&& self@.side(side)[p].len() > 0
            &&& self@.side(side)[p][0] == resting_at(self.arena@, self.queues(side)[p][0])
            &&& self.queues(side)[p][0] < self.arena@.len()
            &&& self.arena@[self.queues(side)[p][0] as int] is Some
        } by {
            assert(queue_ok(a, side, p, self.queues(side)[p], self.levels(side)[p]));
            assert(node_ok(a, side, p, self.queues(side)[p], 0));
        }
    }

    /// The best price on the side an order of `taker_side` trades against:
    /// the lowest ask for a buy, the highest bid for a sell.
    fn best_against(&self, taker_side: Side) -> (r: Option<u64>)
        requires
            self.wf(),
        ensures
            r is None <==> self@.side(opposite(taker_side)).dom().is_empty(),
            r matches Some(k) ==> is_best(self@.side(opposite(taker_side)), opposite(taker_side), k),
    {
        proof {
            self.lemma_side_facts(opposite(taker_side));
            assert(self@.side(opposite(taker_side)).dom() =~= self.levels(opposite(taker_side)).dom());
        }
        match taker_side {
            Side::Buy => self.book.best_ask(),
            Side::Sell => self.book.best_bid(),
        }
    }

    /// The level at `price` on `side`, if there is one.
    fn level_get(&self, side: Side, price: u64) -> (r: Option<PriceLevel>)
        ensures
            r == (if self.levels(side).contains_key(price) {
                Some(self.levels(side)[price])
            } else {
                None
            }),
    {
        let found = match side {
            Side::Buy => self.book.bids.get(&price),
            Side::Sell => self.book.asks.get(&price),
        };
        match found {
            Some(l) => Some(*l),
            None => None,
        }
    }

    /// Sets the level at `price` on `side`.
    fn level_put(&mut self, side: Side, price: u64, lvl: PriceLevel)
        ensures
            final(self).levels(side) == old(self).levels(side).insert(price, lvl),
            final(self).levels(opposite(side)) == old(self).levels(opposite(side)),
            final(self).arena == old(self).arena,
            final(self).order_index == old(self).order_index,
            final(self).order_store == old(self).order_store,
            final(self).bid_queues == old(self).bid_queues,
            final(self).ask_queues == old(self).ask_queues,
    {
        match side {
            Side::Buy => {
                self.book.bids.insert(price, lvl);
            },
            Side::Sell => {
                self.book.asks.insert(price, lvl);
            },
        }
    }

    /// Removes the level at `price` on `side`.
    fn level_drop(&mut self, side: Side, price: u64)
        ensures
            final(self).levels(side) == old(self).levels(side).remove(price),
            final(self).levels(opposite(side)) == old(self).levels(opposite(side)),
            final(self).arena == old(self).arena,
            final(self).order_index == old(self).order_index,
            final(self).order_store == old(self).order_store,
            final(self).bid_queues == old(self).bid_queues,
            final(self).ask_queues == old(self).ask_queues,
    {
        match side {
            Side::Buy => {
                self.book.bids.remove(&price);
            },
            Side::Sell => {
                self.book.asks.remove(&price);
            },
        }
    }

    /// Replaces the queues of one side.
    fn set_queues(&mut self, side: Side, qs: Ghost<Map<u64, Seq<usize>>>)
        ensures
            final(self).queues(side) == qs@,
            final(self).queues(opposite(side)) == old(self).queues(opposite(side)),
            final(self).book == old(self).book,
            final(self).arena == old(self).arena,
            final(self).order_index == old(self).order_index,
            final(self).order_store == old(self).order_store,
    {
        match side {
            Side::Buy => {
                self.bid_queues = qs;
            },
            Side::Sell => {
                self.ask_queues = qs;
            },
        }
    }

    /// Unlinks the order held in `slot` from the queue at `price` on
    /// `side`, drops the level if that empties it, forgets the order's id in
    /// the index, and frees the slot.
    fn detach(&mut self, side: Side, price: u64, slot: usize)
        requires
            old(self).wf(),
            old(self).queues(side).contains_key(price),
            old(self).queues(side)[price].contains(slot),
        ensures
            final(self).wf(),
            final(self)@.side(side) == without_slot(old(self)@.side(side), slot),
            final(self)@.side(opposite(side)) == old(self)@.side(opposite(side)),
            final(self)@.index == old(self)@.index.remove(
                old(self).arena@[slot as int].unwrap().order_id.0,
            ),
            final(self)@.store == old(self)@.store,
    {
        let ghost a0 = self.arena@;
        let ghost qs0 = self.queues(side);
        let ghost oq0 = self.queues(opposite(side));
        let ghost lv0 = self.levels(side);
        let ghost olv = self.levels(opposite(side));
        let ghost q = qs0[price];
        let ghost i = q.index_of(slot);
        let ghost n = q.len();
        proof {
            assert(queue_ok(a0, side, price, q, lv0[price]));
            assert(node_ok(a0, side, price, q, i));
            if i > 0 {
                assert(node_ok(a0, side, price, q, i - 1));
            }
            if i < n - 1 {
                assert(node_ok(a0, side, price, q, i + 1));
            }
        }
        let node = *self.arena.get(slot).unwrap();
        let prev = node.prev;
        let next = node.next;
        let mut level = self.level_get(side, price).unwrap();
        let ghost lvl0 = level;
        match prev {
            Some(pv) => {
                let pn = *self.arena.get(pv).unwrap();
                self.arena.set(pv, BookNode { next: next, ..pn });
            },
            None => {
                level.head = next;
            },
        }
        match next {
            Some(nx) => {
                let nn = *self.arena.get(nx).unwrap();
                self.arena.set(nx, BookNode { prev: prev, ..nn });
            },
            None => {
                level.tail = prev;
            },
        }
        if level.is_empty() {
            self.level_drop(side, price);
        } else {
            self.level_put(side, price, level);
        }
        self.order_index.remove(&node.order_id.0);
        let ghost a2 = self.arena@;
        self.arena.remove(slot);
        let ghost a3 = self.arena@;
        let ghost q2 = q.remove(i);
        let ghost qs2 = if n == 1 {
            qs0.remove(price)
        } else {
            qs0.insert(price, q2)
        };
        proof {
            let before = if i > 0 { q[i - 1] } else { slot };
            let after = if i < n - 1 { q[i + 1] } else { slot };
            let changed = set![slot, before, after];
            assert(slot != before || i == 0);
            assert(slot != after || i == n - 1);
            assert(a2[slot as int] == a0[slot as int]);
            assert(a3[slot as int] is None);
            assert forall|y: usize|
                y < a0.len() && !changed.contains(y) implies #[trigger] a3[y as int] == a0[y as int] by {}
            assert forall|k: u64, x: usize|
                qs0.remove(price).contains_key(k) && changed.contains(x) implies !qs0.remove(
                price,
            )[k].contains(x) by {
                if qs0[k].contains(x) {
                    lemma_owner(a0, side, lv0, qs0, k, x);
                }
            }
            assert forall|k: u64, x: usize| oq0.contains_key(k) && changed.contains(x) implies !oq0[k].contains(
                x,
            ) by {
                if oq0[k].contains(x) {
                    lemma_owner(a0, opposite(side), olv, oq0, k, x);
                }
            }
            lemma_side_remove(a0, side, lv0, qs0, price);
            lemma_side_frame(a0, a3, side, lv0.remove(price), qs0.remove(price), changed);
            lemma_side_frame(a0, a3, opposite(side), olv, oq0, changed);
            if n > 1 {
                assert(i == 0 ==> q[0] != q[1]);
                lemma_queue_unlink(a0, a3, side, price, q, lvl0, i, level);
                lemma_side_insert(a3, side, lv0, qs0, price, level, q2);
            } else {
                assert(q.len() == 1 && q[0] == slot);
                assert(lv0.remove(price) == self.levels(side));
            }
        }
        self.set_queues(side, Ghost(qs2));
        proof {
            if side == Side::Buy {
                assert(side_ok(a3, Side::Buy, self.book.bids@, self.bid_queues@));
                assert(side_ok(a3, Side::Sell, self.book.asks@, self.ask_queues@));
            } else {
                assert(side_ok(a3, Side::Buy, self.book.bids@, self.bid_queues@));
                assert(side_ok(a3, Side::Sell, self.book.asks@, self.ask_queues@));
            }
            lemma_placed_after_unlink(
                a0,
                a3,
                old(self).bid_queues@,
                old(self).ask_queues@,
                self.bid_queues@,
                self.ask_queues@,
                side,
                price,
                i,
            );
            assert(placed(a3, self.bid_queues@, self.ask_queues@));
            assert forall|id: u64| #[trigger] self.order_index@.contains_key(id) implies {
                &&& self.order_index@[id] < a3.len()
                &&& a3[self.order_index@[id] as int] is Some
                &&& a3[self.order_index@[id] as int].unwrap().order_id.0 == id
            } by {
                assert(old(self).order_index@.contains_key(id));
                let y = old(self).order_index@[id];
                assert(a0[y as int] is Some);
                assert(y != slot);
            }
            assert(index_ok(a3, self.order_index@));
            let v0 = side_view(a0, qs0);
            lemma_side_view_wf(a0, side, lv0, qs0);
            assert(v0[price][i].slot == slot);
            lemma_without_present(v0, slot, price, i);
            assert(side_view(a3, qs2) =~= without_slot(v0, slot));
            if side == Side::Buy {
                assert(self@.side(side) == side_view(a3, qs2));
            } else {
                assert(self@.side(side) == side_view(a3, qs2));
            }
        }
    }

    /// Takes `by` off the open quantity of the order at the front of the
    /// queue at `price` on `side`; it stays in place.
    fn trim(&mut self, side: Side, price: u64, slot: usize, by: u64)
        requires
            old(self).wf(),
            old(self).queues(side).contains_key(price),
            old(self).queues(side)[price][0] == slot,
            by < old(self)@.side(side)[price][0].qty,
        ensures
            final(self).wf(),
            final(self)@.side(side) == old(self)@.side(side).insert(
                price,
                old(self)@.side(side)[price].update(
                    0,
                    Resting {
                        qty: (old(self)@.side(side)[price][0].qty - by) as u64,
                        ..old(self)@.side(side)[price][0]
                    },
                ),
            ),
            final(self)@.side(opposite(side)) == old(self)@.side(opposite(side)),
            final(self)@.index == old(self)@.index,
            final(self)@.store == old(self)@.store,
    {
        let ghost a0 = self.arena@;
        let ghost qs0 = self.queues(side);
        let ghost oq0 = self.queues(opposite(side));
        let ghost lv0 = self.levels(side);
        let ghost olv = self.levels(opposite(side));
        let ghost q = qs0[price];
        proof {
            assert(queue_ok(a0, side, price, q, lv0[price]));
            assert(node_ok(a0, side, price, q, 0));
            lemma_side_view_wf(a0, side, lv0, qs0);
            if side == Side::Buy {
                assert(old(self)@.side(side) == side_view(a0, qs0));
            } else {
                assert(old(self)@.side(side) == side_view(a0, qs0));
            }
            assert(old(self)@.side(side)[price][0] == resting_at(a0, slot));
        }
        let node = *self.arena.get(slot).unwrap();
        self.arena.set(slot, BookNode { remaining: Qty(node.remaining.0 - by), ..node });
        proof {
            let a1 = self.arena@;
            let changed = set![slot];
            assert forall|k: u64, x: usize|
                qs0.remove(price).contains_key(k) && changed.contains(x) implies !qs0.remove(
                price,
            )[k].contains(x) by {
                if qs0[k].contains(x) {
                    lemma_owner(a0, side, lv0, qs0, k, x);
                }
            }
            assert forall|k: u64, x: usize| oq0.contains_key(k) && changed.contains(x) implies !oq0[k].contains(
                x,
            ) by {
                if oq0[k].contains(x) {
                    lemma_owner(a0, opposite(side), olv, oq0, k, x);
                }
            }
            lemma_side_remove(a0, side, lv0, qs0, price);
            lemma_side_frame(a0, a1, side, lv0.remove(price), qs0.remove(price), changed);
            lemma_side_frame(a0, a1, opposite(side), olv, oq0, changed);
            assert forall|i: int| 0 <= i < q.len() implies #[trigger] node_ok(a1, side, price, q, i)
                && resting_at(a1, q[i]) == (if i == 0 {
                Resting { qty: (resting_at(a0, slot).qty - by) as u64, ..resting_at(a0, slot) }
            } else {
                resting_at(a0, q[i])
            }) by {
                assert(node_ok(a0, side, price, q, i));
                if i != 0 {
                    assert(q[i] != q[0]);
                }
            }
            assert(queue_ok(a1, side, price, q, lv0[price]));
            lemma_side_insert(a1, side, lv0, qs0, price, lv0[price], q);
            assert(lv0.insert(price, lv0[price]) =~= lv0);
            assert(qs0.insert(price, q) =~= qs0);
            assert forall|i: int| 0 <= i < q.len() implies queue_view(a1, q)[i] == queue_view(a0, q).update(
                0,
                Resting { qty: (resting_at(a0, slot).qty - by) as u64, ..resting_at(a0, slot) },
            )[i] by {
                assert(node_ok(a1, side, price, q, i));
            }
            assert(queue_view(a1, q) =~= queue_view(a0, q).update(
                0,
                Resting { qty: (resting_at(a0, slot).qty - by) as u64, ..resting_at(a0, slot) },
            ));
            assert(side_view(a1, qs0) =~= side_view(a0, qs0).insert(
                price,
                queue_view(a0, q).update(
                    0,
                    Resting { qty: (resting_at(a0, slot).qty - by) as u64, ..resting_at(a0, slot) },
                ),
            ));
            assert forall|x: usize| #![trigger a1[x as int]] x < a1.len() && a1[x as int] is Some implies {
                let n = a1[x as int].unwrap();
                &&& queues_of(n.side, self.bid_queues@, self.ask_queues@).contains_key(n.price.0)
                &&& queues_of(n.side, self.bid_queues@, self.ask_queues@)[n.price.0].contains(x)
            } by {
                assert(a0[x as int] is Some);
            }
            assert forall|id: u64| #[trigger] self.order_index@.contains_key(id) implies {
                &&& self.order_index@[id] < a1.len()
                &&& a1[self.order_index@[id] as int] is Some
                &&& a1[self.order_index@[id] as int].unwrap().order_id.0 == id
            } by {
                assert(old(self).order_index@.contains_key(id));
            }
            if side == Side::Buy {
                assert(self@.side(side) == side_view(a1, qs0));
            } else {
                assert(self@.side(side) == side_view(a1, qs0));
            }
        }
    }
}

} // verus!
