use vstd::prelude::*;

use crate::types::{Order, OrderId, Price, Qty, Side, Trade};

verus! {

/// One order resting in the book: its id, the quantity still open, and the
/// arena slot that holds it (which tells two resting orders apart even when
/// a client reused an id).
pub struct Resting {
    pub id: u64,
    pub qty: u64,
    pub slot: usize,
}

/// What the engine holds, seen as values: each side as a map from price to
/// the queue of orders resting there (oldest first), the index from order
/// id to slot, and every order the engine was given, by id.
pub struct BookState {
    pub bids: Map<u64, Seq<Resting>>,
    pub asks: Map<u64, Seq<Resting>>,
    pub index: Map<u64, usize>,
    pub store: Map<u64, Order>,
}

impl BookState {
    /// The levels of one side.
    pub open spec fn side(self, side: Side) -> Map<u64, Seq<Resting>> {
        match side {
            Side::Buy => self.bids,
            Side::Sell => self.asks,
        }
    }
}

/// The side that an order of side `s` trades against.
pub open spec fn opposite(s: Side) -> Side {
    match s {
        Side::Buy => Side::Sell,
        Side::Sell => Side::Buy,
    }
}

/// `k` is the best price of `levels` held on `book_side`: the highest bid
/// or the lowest ask.
pub open spec fn is_best(levels: Map<u64, Seq<Resting>>, book_side: Side, k: u64) -> bool {
    &&& levels.contains_key(k)
    &&& forall|j: u64|
        #[trigger] levels.contains_key(j) ==> match book_side {
            Side::Buy => j <= k,
            Side::Sell => k <= j,
        }
}

/// The best price of a side that has at least one level.
pub open spec fn best_price(levels: Map<u64, Seq<Resting>>, book_side: Side) -> u64 {
    choose|k: u64| is_best(levels, book_side, k)
}

/// Whether an order of side `taker_side` with limit `limit` (`None` for a
/// market order) may trade at `level_price`.
pub open spec fn crosses(taker_side: Side, level_price: u64, limit: Option<u64>) -> bool {
    match limit {
        None => true,
        Some(p) => match taker_side {
            Side::Buy => level_price <= p,
            Side::Sell => level_price >= p,
        },
    }
}

/// The trade between an incoming order and a resting one.
pub open spec fn make_trade(taker_side: Side, taker: u64, maker: u64, price: u64, qty: u64) -> Trade {
    match taker_side {
        Side::Buy => Trade {
            buy: OrderId(taker),
            sell: OrderId(maker),
            price: Price(price),
            qty: Qty(qty),
        },
        Side::Sell => Trade {
            buy: OrderId(maker),
            sell: OrderId(taker),
            price: Price(price),
            qty: Qty(qty),
        },
    }
}

/// The outcome of matching against the book: the trades in order, the
/// levels left, the quantity left unfilled, and the ids of the resting
/// orders that were filled completely.
pub struct Fill {
    pub trades: Seq<Trade>,
    pub rest: Seq<Resting>,
    pub left: nat,
    pub done: Set<u64>,
}

/// Matching `qty` of an order against the queue at one price, oldest
/// resting order first: each resting order is filled completely while the
/// incoming quantity lasts, and the first one that is larger than what is
/// left is reduced by it.
#[verifier::opaque]
pub open spec fn fill_level(
    queue: Seq<Resting>,
    price: u64,
    qty: nat,
    taker_side: Side,
    taker: u64,
) -> Fill
    decreases queue.len(),
{
    if qty == 0 || queue.len() == 0 {
        Fill { trades: Seq::empty(), rest: queue, left: qty, done: Set::empty() }
    } else if queue[0].qty <= qty {
        let r = fill_level(queue.drop_first(), price, (qty - queue[0].qty) as nat, taker_side, taker);
        Fill {
            trades: seq![make_trade(taker_side, taker, queue[0].id, price, queue[0].qty)] + r.trades,
            rest: r.rest,
            left: r.left,
            done: r.done.insert(queue[0].id),
        }
    } else {
        Fill {
            trades: seq![make_trade(taker_side, taker, queue[0].id, price, qty as u64)],
            rest: queue.update(0, Resting { qty: (queue[0].qty - qty) as u64, ..queue[0] }),
            left: 0,
            done: Set::empty(),
        }
    }
}

/// The queue at `price`, or an empty one where the side has no such level.
pub open spec fn level_or_empty(levels: Map<u64, Seq<Resting>>, price: u64) -> Seq<Resting> {
    if levels.contains_key(price) {
        levels[price]
    } else {
        Seq::empty()
    }
}

/// The outcome of matching an order against one side of the book.
pub struct Sweep {
    pub trades: Seq<Trade>,
    pub book: Map<u64, Seq<Resting>>,
    pub left: nat,
    pub done: Set<u64>,
}

/// Matching `qty` of an order of side `taker_side` against the levels of
/// the other side: best price first, each level by `fill_level`, until the
/// order is filled, the side is empty, or (for a limit order) the best
/// price no longer crosses the limit. A level that is used up leaves the map.
#[verifier::opaque]
pub open spec fn sweep(
    levels: Map<u64, Seq<Resting>>,
    taker_side: Side,
    taker: u64,
    qty: nat,
    limit: Option<u64>,
) -> Sweep
    decreases levels.dom().len(),
    when levels.dom().finite()
{
    let book_side = opposite(taker_side);
    if qty == 0 || levels.dom().is_empty() || !crosses(
        taker_side,
        best_price(levels, book_side),
        limit,
    ) {
        Sweep { trades: Seq::empty(), book: levels, left: qty, done: Set::empty() }
    } else {
        let k = best_price(levels, book_side);
        let f = fill_level(levels[k], k, qty, taker_side, taker);
        if f.rest.len() == 0 {
            proof {
                lemma_best_exists(levels, book_side);
            }
            let r = sweep(levels.remove(k), taker_side, taker, f.left, limit);
            Sweep {
                trades: f.trades + r.trades,
                book: r.book,
                left: r.left,
                done: f.done.union(r.done),
            }
        } else {
            Sweep { trades: f.trades, book: levels.insert(k, f.rest), left: f.left, done: f.done }
        }
    }
}

/// The state after an order of `side` has swept the other side with
/// outcome `sw`: that side becomes what the sweep left, and the ids of the
/// resting orders it filled leave the index.
pub open spec fn after_sweep(s: BookState, side: Side, sw: Sweep) -> BookState {
    BookState {
        bids: if side == Side::Sell {
            sw.book
        } else {
            s.bids
        },
        asks: if side == Side::Buy {
            sw.book
        } else {
            s.asks
        },
        index: s.index.remove_keys(sw.done),
        store: s.store,
    }
}

/// The state with `order` recorded under its id.
pub open spec fn with_order(s: BookState, order: Order) -> BookState {
    BookState { store: s.store.insert(order.id.0, order), ..s }
}

/// `trades` and `after` are what a market order gives from state `before`:
/// it sweeps the other side with no limit, and nothing of it rests.
pub open spec fn market_outcome(before: BookState, order: Order, trades: Seq<Trade>, after: BookState) -> bool {
    let sw = sweep(before.side(opposite(order.side)), order.side, order.id.0, order.qty.0 as nat, None);
    &&& trades == sw.trades
    &&& after == after_sweep(before, order.side, sw)
}

/// `trades` and `after` are what a limit order gives from state `before`:
/// it sweeps the other side down to its limit price, and what is left of it
/// rests at that price in a slot that no resting order held.
pub open spec fn limit_outcome(before: BookState, order: Order, trades: Seq<Trade>, after: BookState) -> bool {
    let sw = sweep(
        before.side(opposite(order.side)),
        order.side,
        order.id.0,
        order.qty.0 as nat,
        Some(order.price.0),
    );
    let mid = after_sweep(before, order.side, sw);
    &&& trades == sw.trades
    &&& sw.left == 0 ==> after == mid
    &&& sw.left > 0 ==> exists|slot: usize|
        fresh_slot(mid, slot) && after == rest_state(
            mid,
            order.side,
            order.price.0,
            order.id.0,
            sw.left as u64,
            slot,
        )
}

/// A side with `entry` added behind every order already resting at `price`.
pub open spec fn push_level(
    levels: Map<u64, Seq<Resting>>,
    price: u64,
    entry: Resting,
) -> Map<u64, Seq<Resting>> {
    if levels.contains_key(price) {
        levels.insert(price, levels[price].push(entry))
    } else {
        levels.insert(price, seq![entry])
    }
}

/// The state after `qty` of order `id` comes to rest at `price` on `side`
/// in `slot`: it joins the back of that level, and the index points the id
/// at it.
pub open spec fn rest_state(
    s: BookState,
    side: Side,
    price: u64,
    id: u64,
    qty: u64,
    slot: usize,
) -> BookState {
    let e = Resting { id, qty, slot };
    BookState {
        bids: if side == Side::Buy {
            push_level(s.bids, price, e)
        } else {
            s.bids
        },
        asks: if side == Side::Sell {
            push_level(s.asks, price, e)
        } else {
            s.asks
        },
        index: s.index.insert(id, slot),
        store: s.store,
    }
}

/// A side with the order held in `slot` taken out; a level that it leaves
/// empty is dropped.
pub open spec fn without_slot(levels: Map<u64, Seq<Resting>>, slot: usize) -> Map<u64, Seq<Resting>> {
    Map::new(
        |p: u64| levels.contains_key(p) && levels[p].filter(|e: Resting| e.slot != slot).len() > 0,
        |p: u64| levels[p].filter(|e: Resting| e.slot != slot),
    )
}

/// The state after the order indexed under `id` is cancelled: the order in
/// the slot the index gives for `id` leaves the book (and its level, if it
/// was the last there), and `id` leaves the index.
pub open spec fn cancel_state(s: BookState, id: u64) -> BookState {
    let slot = s.index[id];
    BookState {
        bids: without_slot(s.bids, slot),
        asks: without_slot(s.asks, slot),
        index: s.index.remove(id),
        store: s.store,
    }
}

/// `slot` holds a resting order of `levels`.
pub open spec fn holds_slot(levels: Map<u64, Seq<Resting>>, slot: usize) -> bool {
    exists|p: u64, i: int|
        #![trigger levels[p][i]]
        levels.contains_key(p) && 0 <= i < levels[p].len() && levels[p][i].slot == slot
}

/// No resting order of the state is held in `slot`.
pub open spec fn fresh_slot(s: BookState, slot: usize) -> bool {
    !holds_slot(s.bids, slot) && !holds_slot(s.asks, slot)
}

/// The shape every state of the engine has: finitely many levels, none of
/// them empty, every resting quantity positive, every slot in at most one
/// place of the book, and every indexed id pointing at a resting order with
/// that id.
pub open spec fn state_wf(s: BookState) -> bool {
    &&& side_wf(s.bids)
    &&& side_wf(s.asks)
    &&& forall|p: u64, i: int, q: u64, j: int|
        #![trigger s.bids[p][i], s.asks[q][j]]
        s.bids.contains_key(p) && 0 <= i < s.bids[p].len() && s.asks.contains_key(q) && 0 <= j
            < s.asks[q].len() ==> s.bids[p][i].slot != s.asks[q][j].slot
    &&& forall|id: u64|
        #[trigger] s.index.contains_key(id) ==> indexed_in(s.bids, id, s.index[id])
            || indexed_in(s.asks, id, s.index[id])
}

/// One side's shape: see `state_wf`.
pub open spec fn side_wf(levels: Map<u64, Seq<Resting>>) -> bool {
    &&& levels.dom().finite()
    &&& forall|p: u64| #[trigger] levels.contains_key(p) ==> levels[p].len() > 0
    &&& forall|p: u64, i: int|
        #![trigger levels[p][i]]
        levels.contains_key(p) && 0 <= i < levels[p].len() ==> levels[p][i].qty > 0
    &&& forall|p: u64, i: int, q: u64, j: int|
        #![trigger levels[p][i], levels[q][j]]
        levels.contains_key(p) && 0 <= i < levels[p].len() && levels.contains_key(q) && 0 <= j
            < levels[q].len() && levels[p][i].slot == levels[q][j].slot ==> p == q && i == j
}

/// A resting order of `levels` with id `id` sits in `slot`.
pub open spec fn indexed_in(levels: Map<u64, Seq<Resting>>, id: u64, slot: usize) -> bool {
    exists|p: u64, i: int|
        #![trigger levels[p][i]]
        levels.contains_key(p) && 0 <= i < levels[p].len() && levels[p][i].slot == slot
            && levels[p][i].id == id
}

/// Every finite nonempty side has a best price.
pub proof fn lemma_best_exists(levels: Map<u64, Seq<Resting>>, book_side: Side)
    requires
        levels.dom().finite(),
        !levels.dom().is_empty(),
    ensures
        is_best(levels, book_side, best_price(levels, book_side)),
    decreases levels.dom().len(),
{
    let x = levels.dom().choose();
    let smaller = levels.remove(x);
    if smaller.dom().is_empty() {
        assert forall|j: u64| #[trigger] levels.contains_key(j) implies j == x by {
            if j != x {
                assert(smaller.contains_key(j));
            }
        }
        assert(is_best(levels, book_side, x));
    } else {
        lemma_best_exists(smaller, book_side);
        let y = best_price(smaller, book_side);
        let better = match book_side {
            Side::Buy => if x <= y { y } else { x },
            Side::Sell => if x <= y { x } else { y },
        };
        assert forall|j: u64| #[trigger] levels.contains_key(j) implies match book_side {
            Side::Buy => j <= better,
            Side::Sell => better <= j,
        } by {
            if j != x {
                assert(smaller.contains_key(j));
            }
        }
        assert(is_best(levels, book_side, better));
    }
}

/// A side has at most one best price.
pub proof fn lemma_best_unique(levels: Map<u64, Seq<Resting>>, book_side: Side, k: u64)
    requires
        is_best(levels, book_side, k),
    ensures
        best_price(levels, book_side) == k,
{
    let c = best_price(levels, book_side);
    assert(is_best(levels, book_side, c));
    assert(levels.contains_key(c) && levels.contains_key(k));
}

/// `fill_level` unfolded once.
pub proof fn lemma_fill_unfold(queue: Seq<Resting>, price: u64, qty: nat, taker_side: Side, taker: u64)
    ensures
        fill_level(queue, price, qty, taker_side, taker) == (if qty == 0 || queue.len() == 0 {
            Fill { trades: Seq::empty(), rest: queue, left: qty, done: Set::empty() }
        } else if queue[0].qty <= qty {
            let r = fill_level(queue.drop_first(), price, (qty - queue[0].qty) as nat, taker_side, taker);
            Fill {
                trades: seq![make_trade(taker_side, taker, queue[0].id, price, queue[0].qty)] + r.trades,
                rest: r.rest,
                left: r.left,
                done: r.done.insert(queue[0].id),
            }
        } else {
            Fill {
                trades: seq![make_trade(taker_side, taker, queue[0].id, price, qty as u64)],
                rest: queue.update(0, Resting { qty: (queue[0].qty - qty) as u64, ..queue[0] }),
                left: 0,
                done: Set::empty(),
            }
        }),
{
    reveal(fill_level);
}

/// Matching at one price never leaves more than it was given.
pub proof fn lemma_fill_left(queue: Seq<Resting>, price: u64, qty: nat, taker_side: Side, taker: u64)
    ensures
        fill_level(queue, price, qty, taker_side, taker).left <= qty,
    decreases queue.len(),
{
    reveal(fill_level);
    if qty != 0 && queue.len() != 0 && queue[0].qty <= qty {
        lemma_fill_left(queue.drop_first(), price, (qty - queue[0].qty) as nat, taker_side, taker);
    }
}

/// What matching at one price leaves of the queue and of the order: if
/// part of the queue is left, nothing of the order is; an order with
/// something to fill against a nonempty queue trades at least once.
pub proof fn lemma_fill_shape(queue: Seq<Resting>, price: u64, qty: nat, taker_side: Side, taker: u64)
    ensures
        fill_level(queue, price, qty, taker_side, taker).rest.len() > 0 ==> fill_level(
            queue,
            price,
            qty,
            taker_side,
            taker,
        ).left == 0 || qty == 0,
        qty > 0 && queue.len() > 0 ==> fill_level(queue, price, qty, taker_side, taker).trades.len()
            > 0,
        fill_level(queue, price, qty, taker_side, taker).left <= qty,
    decreases queue.len(),
{
    reveal(fill_level);
    lemma_fill_left(queue, price, qty, taker_side, taker);
    if qty != 0 && queue.len() != 0 && queue[0].qty <= qty {
        lemma_fill_shape(queue.drop_first(), price, (qty - queue[0].qty) as nat, taker_side, taker);
    }
}

/// What matching at one price leaves of a queue of positive orders is a
/// suffix of it, the first order of which may be reduced but stays positive.
pub proof fn lemma_fill_rest(queue: Seq<Resting>, price: u64, qty: nat, taker_side: Side, taker: u64)
    requires
        forall|i: int| 0 <= i < queue.len() ==> #[trigger] queue[i].qty > 0,
    ensures
        ({
            let rest = fill_level(queue, price, qty, taker_side, taker).rest;
            let d = queue.len() - rest.len();
            &&& 0 <= d
            &&& forall|i: int|
                0 <= i < rest.len() ==> {
                    &&& #[trigger] rest[i].slot == queue[i + d].slot
                    &&& rest[i].id == queue[i + d].id
                    &&& 0 < rest[i].qty <= queue[i + d].qty
                }
        }),
    decreases queue.len(),
{
    lemma_fill_unfold(queue, price, qty, taker_side, taker);
    if qty != 0 && queue.len() != 0 && queue[0].qty <= qty {
        let tail = queue.drop_first();
        assert forall|i: int| 0 <= i < tail.len() implies #[trigger] tail[i].qty > 0 by {
            assert(tail[i] == queue[i + 1]);
        }
        lemma_fill_rest(tail, price, (qty - queue[0].qty) as nat, taker_side, taker);
        let rest = fill_level(queue, price, qty, taker_side, taker).rest;
        let d = queue.len() - rest.len();
        assert forall|i: int| 0 <= i < rest.len() implies {
            &&& #[trigger] rest[i].slot == queue[i + d].slot
            &&& rest[i].id == queue[i + d].id
            &&& 0 < rest[i].qty <= queue[i + d].qty
        } by {
            assert(tail[i + d - 1] == queue[i + d]);
        }
    }
}

/// Putting at a price of a well-shaped side what matching left of the
/// queue there keeps the side well shaped.
pub proof fn lemma_side_wf_after_fill(
    levels: Map<u64, Seq<Resting>>,
    k: u64,
    qty: nat,
    taker_side: Side,
    taker: u64,
)
    requires
        side_wf(levels),
        levels.contains_key(k),
        fill_level(levels[k], k, qty, taker_side, taker).rest.len() > 0,
    ensures
        side_wf(levels.insert(k, fill_level(levels[k], k, qty, taker_side, taker).rest)),
{
    let q = levels[k];
    let rest = fill_level(q, k, qty, taker_side, taker).rest;
    let d = q.len() - rest.len();
    assert forall|i: int| 0 <= i < q.len() implies #[trigger] q[i].qty > 0 by {}
    lemma_fill_rest(q, k, qty, taker_side, taker);
    let m2 = levels.insert(k, rest);
    assert forall|p: u64, i: int|
        #![trigger m2[p][i]]
        m2.contains_key(p) && 0 <= i < m2[p].len() implies m2[p][i].qty > 0 by {
        if p == k {
            assert(rest[i].slot == q[i + d].slot);
        }
    }
    assert forall|p: u64, i: int, r: u64, j: int|
        #![trigger m2[p][i], m2[r][j]]
        m2.contains_key(p) && 0 <= i < m2[p].len() && m2.contains_key(r) && 0 <= j < m2[r].len()
            && m2[p][i].slot == m2[r][j].slot implies p == r && i == j by {
        let ii = if p == k { i + d } else { i };
        let jj = if r == k { j + d } else { j };
        assert(m2[p][i].slot == levels[p][ii].slot);
        assert(m2[r][j].slot == levels[r][jj].slot);
    }
}

/// A sweep that cannot start (nothing to fill, nothing to fill against, or
/// a best price beyond the limit) trades nothing and changes nothing.
pub proof fn lemma_sweep_stop(
    levels: Map<u64, Seq<Resting>>,
    taker_side: Side,
    taker: u64,
    qty: nat,
    limit: Option<u64>,
)
    requires
        levels.dom().finite(),
        qty == 0 || levels.dom().is_empty() || !crosses(
            taker_side,
            best_price(levels, opposite(taker_side)),
            limit,
        ),
    ensures
        sweep(levels, taker_side, taker, qty, limit) == (Sweep {
            trades: Seq::empty(),
            book: levels,
            left: qty,
            done: Set::empty(),
        }),
{
    reveal(sweep);
}

/// One step of a sweep: matching at the best price, then sweeping what is
/// left with what is left of the order.
pub proof fn lemma_sweep_step(
    levels: Map<u64, Seq<Resting>>,
    taker_side: Side,
    taker: u64,
    qty: nat,
    limit: Option<u64>,
    k: u64,
)
    requires
        levels.dom().finite(),
        qty > 0,
        is_best(levels, opposite(taker_side), k),
        crosses(taker_side, k, limit),
    ensures
        ({
            let f = fill_level(levels[k], k, qty, taker_side, taker);
            let next = if f.rest.len() == 0 {
                levels.remove(k)
            } else {
                levels.insert(k, f.rest)
            };
            let s = sweep(levels, taker_side, taker, qty, limit);
            let s2 = sweep(next, taker_side, taker, f.left, limit);
            &&& s.trades == f.trades + s2.trades
            &&& s.book == s2.book
            &&& s.left == s2.left
            &&& s.done == f.done.union(s2.done)
        }),
{
    reveal(sweep);
    lemma_best_unique(levels, opposite(taker_side), k);
    let f = fill_level(levels[k], k, qty, taker_side, taker);
    lemma_fill_shape(levels[k], k, qty, taker_side, taker);
    if f.rest.len() != 0 {
        let next = levels.insert(k, f.rest);
        assert(next.dom().finite());
        let s2 = sweep(next, taker_side, taker, f.left, limit);
        assert(f.trades + s2.trades =~= f.trades);
        assert(f.done.union(s2.done) =~= f.done);
    }
}

/// A sweep never leaves more of the order than it was given.
pub proof fn lemma_sweep_left(
    levels: Map<u64, Seq<Resting>>,
    taker_side: Side,
    taker: u64,
    qty: nat,
    limit: Option<u64>,
)
    requires
        levels.dom().finite(),
    ensures
        sweep(levels, taker_side, taker, qty, limit).left <= qty,
    decreases levels.dom().len(),
{
    reveal(sweep);
    let book_side = opposite(taker_side);
    if !(qty == 0 || levels.dom().is_empty() || !crosses(taker_side, best_price(levels, book_side), limit)) {
        let k = best_price(levels, book_side);
        lemma_best_exists(levels, book_side);
        let f = fill_level(levels[k], k, qty, taker_side, taker);
        lemma_fill_left(levels[k], k, qty, taker_side, taker);
        if f.rest.len() == 0 {
            lemma_sweep_left(levels.remove(k), taker_side, taker, f.left, limit);
        }
    }
}

/// What a matching loop keeps while it sweeps level by level: after one
/// more level, the trades so far followed by what the rest of the sweep
/// would give are still the whole sweep's trades, and so on.
pub proof fn lemma_sweep_advance(
    m0: Map<u64, Seq<Resting>>,
    m1: Map<u64, Seq<Resting>>,
    taker_side: Side,
    taker: u64,
    qty0: nat,
    qty1: nat,
    limit: Option<u64>,
    k: u64,
    trades0: Seq<Trade>,
    trades1: Seq<Trade>,
    done0: Set<u64>,
    whole: Sweep,
)
    requires
        m0.dom().finite(),
        qty0 > 0,
        is_best(m0, opposite(taker_side), k),
        crosses(taker_side, k, limit),
        m1 == (if fill_level(m0[k], k, qty0, taker_side, taker).rest.len() == 0 {
            m0.remove(k)
        } else {
            m0.insert(k, fill_level(m0[k], k, qty0, taker_side, taker).rest)
        }),
        qty1 == fill_level(m0[k], k, qty0, taker_side, taker).left,
        trades1 == trades0 + fill_level(m0[k], k, qty0, taker_side, taker).trades,
        trades0 + sweep(m0, taker_side, taker, qty0, limit).trades == whole.trades,
        sweep(m0, taker_side, taker, qty0, limit).book == whole.book,
        sweep(m0, taker_side, taker, qty0, limit).left == whole.left,
        done0.union(sweep(m0, taker_side, taker, qty0, limit).done) == whole.done,
    ensures
        m1.dom().finite(),
        trades1 + sweep(m1, taker_side, taker, qty1, limit).trades == whole.trades,
        sweep(m1, taker_side, taker, qty1, limit).book == whole.book,
        sweep(m1, taker_side, taker, qty1, limit).left == whole.left,
        done0.union(fill_level(m0[k], k, qty0, taker_side, taker).done).union(
            sweep(m1, taker_side, taker, qty1, limit).done,
        ) == whole.done,
        m1.dom().len() < m0.dom().len() || qty1 == 0,
{
    let f = fill_level(m0[k], k, qty0, taker_side, taker);
    lemma_sweep_step(m0, taker_side, taker, qty0, limit, k);
    lemma_fill_shape(m0[k], k, qty0, taker_side, taker);
    let s2 = sweep(m1, taker_side, taker, qty1, limit);
    assert(trades1 + s2.trades =~= trades0 + (f.trades + s2.trades));
    assert(done0.union(f.done).union(s2.done) =~= done0.union(f.done.union(s2.done)));
}

/// Removing two sets of keys one after the other removes their union.
pub proof fn lemma_remove_keys_union<K, V>(m: Map<K, V>, a: Set<K>, b: Set<K>)
    ensures
        m.remove_keys(a).remove_keys(b) == m.remove_keys(a.union(b)),
{
    assert(m.remove_keys(a).remove_keys(b) =~= m.remove_keys(a.union(b)));
}

/// Filtering with a predicate that every element meets keeps the sequence.
pub proof fn lemma_filter_keeps_all<A>(s: Seq<A>, pred: spec_fn(A) -> bool)
    requires
        forall|i: int| 0 <= i < s.len() ==> pred(#[trigger] s[i]),
    ensures
        s.filter(pred) == s,
    decreases s.len(),
{
    reveal(Seq::filter);
    if s.len() > 0 {
        lemma_filter_keeps_all(s.drop_last(), pred);
        assert(s.drop_last().push(s.last()) =~= s);
    }
}

/// Filtering with a predicate that only the `i`th element fails removes it.
pub proof fn lemma_filter_drops_one<A>(s: Seq<A>, pred: spec_fn(A) -> bool, i: int)
    requires
        0 <= i < s.len(),
        !pred(s[i]),
        forall|j: int| 0 <= j < s.len() && j != i ==> pred(#[trigger] s[j]),
    ensures
        s.filter(pred) == s.remove(i),
{
    let a = s.subrange(0, i);
    let b = s.subrange(i, i + 1);
    let c = s.subrange(i + 1, s.len() as int);
    assert(s =~= a + b + c);
    Seq::filter_distributes_over_add(a + b, c, pred);
    Seq::filter_distributes_over_add(a, b, pred);
    assert forall|j: int| 0 <= j < a.len() implies pred(#[trigger] a[j]) by {
        assert(a[j] == s[j]);
    }
    assert forall|j: int| 0 <= j < c.len() implies pred(#[trigger] c[j]) by {
        assert(c[j] == s[i + 1 + j]);
    }
    lemma_filter_keeps_all(a, pred);
    lemma_filter_keeps_all(c, pred);
    assert(b.filter(pred) =~= Seq::<A>::empty()) by {
        reveal(Seq::filter);
        assert(b.drop_last() =~= Seq::<A>::empty());
        assert(b.drop_last().filter(pred) =~= Seq::<A>::empty());
    }
    assert(s.remove(i) =~= a + c);
    assert(a + Seq::<A>::empty() =~= a);
}

/// Taking out a slot that no resting order of the side holds changes nothing.
pub proof fn lemma_without_absent(levels: Map<u64, Seq<Resting>>, slot: usize)
    requires
        side_wf(levels),
        !holds_slot(levels, slot),
    ensures
        without_slot(levels, slot) == levels,
{
    assert forall|p: u64| #[trigger] levels.contains_key(p) implies levels[p].filter(
        |e: Resting| e.slot != slot,
    ) == levels[p] by {
        assert forall|i: int| 0 <= i < levels[p].len() implies (|e: Resting| e.slot != slot)(
            #[trigger] levels[p][i],
        ) by {}
        lemma_filter_keeps_all(levels[p], |e: Resting| e.slot != slot);
    }
    assert(without_slot(levels, slot) =~= levels);
}

/// Taking out the slot of the `i`th order at price `p` removes that order,
/// and the level with it when it was the only one.
pub proof fn lemma_without_present(levels: Map<u64, Seq<Resting>>, slot: usize, p: u64, i: int)
    requires
        side_wf(levels),
        levels.contains_key(p),
        0 <= i < levels[p].len(),
        levels[p][i].slot == slot,
    ensures
        without_slot(levels, slot) == (if levels[p].len() == 1 {
            levels.remove(p)
        } else {
            levels.insert(p, levels[p].remove(i))
        }),
{
    let pred = |e: Resting| e.slot != slot;
    assert forall|j: int| 0 <= j < levels[p].len() && j != i implies pred(#[trigger] levels[p][j]) by {}
    lemma_filter_drops_one(levels[p], pred, i);
    assert forall|k: u64| #[trigger] levels.contains_key(k) && k != p implies levels[k].filter(pred)
        == levels[k] by {
        assert forall|j: int| 0 <= j < levels[k].len() implies pred(#[trigger] levels[k][j]) by {}
        lemma_filter_keeps_all(levels[k], pred);
    }
    assert(without_slot(levels, slot) =~= (if levels[p].len() == 1 {
        levels.remove(p)
    } else {
        levels.insert(p, levels[p].remove(i))
    }));
}

} // verus!
