use vstd::prelude::*;

use crate::model::{
    after_sweep, best_price, cancel_state, crosses, fill_level, fresh_slot, holds_slot, is_best,
    lemma_best_exists, lemma_best_unique, lemma_fill_shape, lemma_fill_unfold,
    lemma_filter_drops_one, lemma_filter_keeps_all, lemma_side_wf_after_fill, lemma_without_absent,
    limit_outcome, make_trade, market_outcome, opposite, push_level, rest_state, side_wf, state_wf,
    sweep, with_order, without_slot, indexed_in, level_or_empty, lemma_without_present, BookState,
    Resting, Sweep,
};
use crate::types::{Order, Side, Trade};

verus! {

/// A side read as one queue in priority order: the orders of the best
/// price first, oldest first, then those of the next price, and so on;
/// each order paired with its price.
pub open spec fn priority_queue(levels: Map<u64, Seq<Resting>>, book_side: Side) -> Seq<(u64, Resting)>
    decreases levels.dom().len(),
    when levels.dom().finite()
{
    if levels.dom().is_empty() {
        Seq::empty()
    } else {
        let k = best_price(levels, book_side);
        proof {
            lemma_best_exists(levels, book_side);
        }
        tag(levels[k], k) + priority_queue(levels.remove(k), book_side)
    }
}

/// A queue of one price, each order paired with that price.
pub open spec fn tag(queue: Seq<Resting>, price: u64) -> Seq<(u64, Resting)> {
    queue.map_values(|e: Resting| (price, e))
}

/// The outcome of filling an order along a priority queue.
pub struct QueueFill {
    pub trades: Seq<Trade>,
    pub rest: Seq<(u64, Resting)>,
    pub left: nat,
}

/// Filling `qty` of an order along a priority queue: take the orders in
/// turn while their price crosses the limit, each completely while the
/// order lasts, and reduce the first one that is larger than what is left.
pub open spec fn fill_queue(
    queue: Seq<(u64, Resting)>,
    qty: nat,
    taker_side: Side,
    taker: u64,
    limit: Option<u64>,
) -> QueueFill
    decreases queue.len(),
{
    if qty == 0 || queue.len() == 0 || !crosses(taker_side, queue[0].0, limit) {
        QueueFill { trades: Seq::empty(), rest: queue, left: qty }
    } else if queue[0].1.qty <= qty {
        let r = fill_queue(queue.drop_first(), (qty - queue[0].1.qty) as nat, taker_side, taker, limit);
        QueueFill {
            trades: seq![make_trade(taker_side, taker, queue[0].1.id, queue[0].0, queue[0].1.qty)]
                + r.trades,
            rest: r.rest,
            left: r.left,
        }
    } else {
        QueueFill {
            trades: seq![make_trade(taker_side, taker, queue[0].1.id, queue[0].0, qty as u64)],
            rest: queue.update(0, (queue[0].0, Resting { qty: (queue[0].1.qty - qty) as u64, ..queue[0].1 })),
            left: 0,
        }
    }
}

/// Filling along one crossing price and then along the rest of the queue
/// is matching at that price and then filling the rest with what is left.
proof fn lemma_fill_queue_level(
    q: Seq<Resting>,
    k: u64,
    rest: Seq<(u64, Resting)>,
    qty: nat,
    taker_side: Side,
    taker: u64,
    limit: Option<u64>,
)
    requires
        crosses(taker_side, k, limit),
    ensures
        ({
            let f = fill_level(q, k, qty, taker_side, taker);
            let whole = fill_queue(tag(q, k) + rest, qty, taker_side, taker, limit);
            if f.rest.len() == 0 {
                let after = fill_queue(rest, f.left, taker_side, taker, limit);
                &&& whole.trades == f.trades + after.trades
                &&& whole.rest == after.rest
                &&& whole.left == after.left
            } else {
                &&& whole.trades == f.trades
                &&& whole.rest == tag(f.rest, k) + rest
                &&& whole.left == f.left
                &&& f.left == 0
            }
        }),
    decreases q.len(),
{
    lemma_fill_unfold(q, k, qty, taker_side, taker);
    let f = fill_level(q, k, qty, taker_side, taker);
    let s = tag(q, k) + rest;
    if qty == 0 {
        assert(f.rest == q);
        if q.len() == 0 {
            assert(s =~= rest);
        }
    } else if q.len() == 0 {
        assert(s =~= rest);
    } else {
        assert(s[0] == (k, q[0]));
        if q[0].qty <= qty {
            let left1 = (qty - q[0].qty) as nat;
            assert(s.drop_first() =~= tag(q.drop_first(), k) + rest);
            lemma_fill_queue_level(q.drop_first(), k, rest, left1, taker_side, taker, limit);
            let r = fill_level(q.drop_first(), k, left1, taker_side, taker);
            if r.rest.len() == 0 {
                let after = fill_queue(rest, r.left, taker_side, taker, limit);
                assert(fill_queue(s, qty, taker_side, taker, limit).trades =~= f.trades + after.trades);
            } else {
                assert(fill_queue(s, qty, taker_side, taker, limit).trades =~= f.trades);
            }
        } else {
            let red = Resting { qty: (q[0].qty - qty) as u64, ..q[0] };
            assert(s.update(0, (k, red)) =~= tag(q.update(0, red), k) + rest);
        }
    }
}

/// Price-time priority: sweeping a side level by level gives the same
/// trades, the same leftover, and the same remaining orders in the same
/// order as filling the order straight along that side's priority queue:
/// best price first, and at one price, oldest first.
pub proof fn lemma_price_time_priority(
    levels: Map<u64, Seq<Resting>>,
    taker_side: Side,
    taker: u64,
    qty: nat,
    limit: Option<u64>,
)
    requires
        side_wf(levels),
    ensures
        ({
            let sw = sweep(levels, taker_side, taker, qty, limit);
            let fq = fill_queue(priority_queue(levels, opposite(taker_side)), qty, taker_side, taker, limit);
            &&& sw.trades == fq.trades
            &&& sw.left == fq.left
            &&& side_wf(sw.book)
            &&& priority_queue(sw.book, opposite(taker_side)) == fq.rest
        }),
    decreases levels.dom().len(),
{
    reveal(sweep);
    let book_side = opposite(taker_side);
    let pq = priority_queue(levels, book_side);
    if levels.dom().is_empty() {
        assert(pq.len() == 0);
    } else {
        lemma_best_exists(levels, book_side);
        let k = best_price(levels, book_side);
        let q = levels[k];
        let rest_pq = priority_queue(levels.remove(k), book_side);
        assert(pq == tag(q, k) + rest_pq);
        assert(q.len() > 0);
        assert(pq[0] == (k, q[0]));
        if qty == 0 || !crosses(taker_side, k, limit) {
        } else {
            lemma_fill_queue_level(q, k, rest_pq, qty, taker_side, taker, limit);
            let f = fill_level(q, k, qty, taker_side, taker);
            assert(side_wf(levels.remove(k)));
            if f.rest.len() == 0 {
                lemma_price_time_priority(levels.remove(k), taker_side, taker, f.left, limit);
            } else {
                let m2 = levels.insert(k, f.rest);
                lemma_side_wf_after_fill(levels, k, qty, taker_side, taker);
                assert(m2.remove(k) =~= levels.remove(k));
                assert(is_best(m2, book_side, k));
                lemma_best_unique(m2, book_side, k);
                assert(priority_queue(m2, book_side) == tag(f.rest, k) + rest_pq);
            }
        }
    }
}


/// `a` is at least as good a price as `b` for the side that holds them:
/// higher for bids, lower for asks.
pub open spec fn at_least_as_good(book_side: Side, a: u64, b: u64) -> bool {
    match book_side {
        Side::Buy => a >= b,
        Side::Sell => a <= b,
    }
}

/// The priority queue of a side holds only prices of that side, best first.
proof fn lemma_priority_queue_sorted(levels: Map<u64, Seq<Resting>>, book_side: Side)
    requires
        levels.dom().finite(),
    ensures
        forall|i: int|
            0 <= i < priority_queue(levels, book_side).len() ==> levels.contains_key(
                #[trigger] priority_queue(levels, book_side)[i].0,
            ),
        forall|i: int, j: int|
            0 <= i < j < priority_queue(levels, book_side).len() ==> at_least_as_good(
                book_side,
                #[trigger] priority_queue(levels, book_side)[i].0,
                #[trigger] priority_queue(levels, book_side)[j].0,
            ),
    decreases levels.dom().len(),
{
    let pq = priority_queue(levels, book_side);
    if !levels.dom().is_empty() {
        lemma_best_exists(levels, book_side);
        let k = best_price(levels, book_side);
        let q = levels[k];
        let m2 = levels.remove(k);
        let rest = priority_queue(m2, book_side);
        lemma_priority_queue_sorted(m2, book_side);
        assert(pq == tag(q, k) + rest);
        assert forall|i: int| 0 <= i < pq.len() implies levels.contains_key(#[trigger] pq[i].0) by {
            if i < q.len() {
                assert(pq[i] == (k, q[i]));
            } else {
                assert(pq[i] == rest[i - q.len()]);
            }
        }
        assert forall|i: int, j: int| 0 <= i < j < pq.len() implies at_least_as_good(
            book_side,
            #[trigger] pq[i].0,
            #[trigger] pq[j].0,
        ) by {
            if j < q.len() {
                assert(pq[i] == (k, q[i]) && pq[j] == (k, q[j]));
            } else if i < q.len() {
                assert(pq[i] == (k, q[i]));
                assert(pq[j] == rest[j - q.len()]);
                assert(m2.contains_key(rest[j - q.len()].0));
            } else {
                assert(pq[i] == rest[i - q.len()]);
                assert(pq[j] == rest[j - q.len()]);
            }
        }
    }
}

/// The trades of filling along a queue are at the prices of its first
/// orders, in order.
proof fn lemma_fill_queue_prices(
    queue: Seq<(u64, Resting)>,
    qty: nat,
    taker_side: Side,
    taker: u64,
    limit: Option<u64>,
)
    ensures
        fill_queue(queue, qty, taker_side, taker, limit).trades.len() <= queue.len(),
        forall|i: int|
            0 <= i < fill_queue(queue, qty, taker_side, taker, limit).trades.len() ==> (
            #[trigger] fill_queue(queue, qty, taker_side, taker, limit).trades[i]).price.0
                == queue[i].0,
    decreases queue.len(),
{
    let fq = fill_queue(queue, qty, taker_side, taker, limit);
    if qty == 0 || queue.len() == 0 || !crosses(taker_side, queue[0].0, limit) {
    } else if queue[0].1.qty <= qty {
        let tail = queue.drop_first();
        let left1 = (qty - queue[0].1.qty) as nat;
        lemma_fill_queue_prices(tail, left1, taker_side, taker, limit);
        let r = fill_queue(tail, left1, taker_side, taker, limit);
        assert forall|i: int| 0 <= i < fq.trades.len() implies (#[trigger] fq.trades[i]).price.0
            == queue[i].0 by {
            if i > 0 {
                assert(fq.trades[i] == r.trades[i - 1]);
                assert(tail[i - 1] == queue[i]);
            }
        }
    }
}

/// Price priority: an order trades at ever worse prices for it, never
/// coming back to a better one (a buy at rising or equal prices, a sell at
/// falling or equal ones), and every price it trades at was on the book.
pub proof fn lemma_trade_prices_ordered(
    levels: Map<u64, Seq<Resting>>,
    taker_side: Side,
    taker: u64,
    qty: nat,
    limit: Option<u64>,
)
    requires
        side_wf(levels),
    ensures
        forall|i: int, j: int|
            0 <= i < j < sweep(levels, taker_side, taker, qty, limit).trades.len() ==> at_least_as_good(
                opposite(taker_side),
                (#[trigger] sweep(levels, taker_side, taker, qty, limit).trades[i]).price.0,
                (#[trigger] sweep(levels, taker_side, taker, qty, limit).trades[j]).price.0,
            ),
        forall|i: int|
            0 <= i < sweep(levels, taker_side, taker, qty, limit).trades.len() ==> levels.contains_key(
                (#[trigger] sweep(levels, taker_side, taker, qty, limit).trades[i]).price.0,
            ),
{
    let book_side = opposite(taker_side);
    let pq = priority_queue(levels, book_side);
    lemma_price_time_priority(levels, taker_side, taker, qty, limit);
    lemma_priority_queue_sorted(levels, book_side);
    lemma_fill_queue_prices(pq, qty, taker_side, taker, limit);
    let t = sweep(levels, taker_side, taker, qty, limit).trades;
    assert forall|i: int, j: int| 0 <= i < j < t.len() implies at_least_as_good(
        book_side,
        (#[trigger] t[i]).price.0,
        (#[trigger] t[j]).price.0,
    ) by {
        assert(t[i].price.0 == pq[i].0 && t[j].price.0 == pq[j].0);
    }
    assert forall|i: int| 0 <= i < t.len() implies levels.contains_key((#[trigger] t[i]).price.0) by {
        assert(t[i].price.0 == pq[i].0);
    }
}

/// The total quantity of a sequence of trades.
pub open spec fn total_qty(trades: Seq<Trade>) -> nat
    decreases trades.len(),
{
    if trades.len() == 0 {
        0
    } else {
        total_qty(trades.drop_last()) + trades.last().qty.0 as nat
    }
}

/// The total quantity of two runs of trades is the sum of theirs.
pub proof fn lemma_total_qty_add(a: Seq<Trade>, b: Seq<Trade>)
    ensures
        total_qty(a + b) == total_qty(a) + total_qty(b),
    decreases b.len(),
{
    if b.len() == 0 {
        assert(a + b =~= a);
    } else {
        assert((a + b).drop_last() =~= a + b.drop_last());
        lemma_total_qty_add(a, b.drop_last());
    }
}

/// The trade of an order of `taker_side` with id `taker`: it is on the
/// order's side, with a positive quantity, at a price that crosses `limit`.
pub open spec fn taker_trade(t: Trade, taker_side: Side, taker: u64, limit: Option<u64>) -> bool {
    &&& match taker_side {
        Side::Buy => t.buy.0 == taker,
        Side::Sell => t.sell.0 == taker,
    }
    &&& t.qty.0 > 0
    &&& crosses(taker_side, t.price.0, limit)
}

/// Filling along a queue of positive orders: the quantity traded and the
/// quantity left add up to the order's quantity, and every trade is the
/// order's own, positive, and within its limit.
proof fn lemma_fill_queue_trades(
    queue: Seq<(u64, Resting)>,
    qty: nat,
    taker_side: Side,
    taker: u64,
    limit: Option<u64>,
)
    requires
        forall|i: int| 0 <= i < queue.len() ==> #[trigger] queue[i].1.qty > 0,
    ensures
        total_qty(fill_queue(queue, qty, taker_side, taker, limit).trades) + fill_queue(
            queue,
            qty,
            taker_side,
            taker,
            limit,
        ).left == qty,
        forall|i: int|
            0 <= i < fill_queue(queue, qty, taker_side, taker, limit).trades.len() ==> taker_trade(
                #[trigger] fill_queue(queue, qty, taker_side, taker, limit).trades[i],
                taker_side,
                taker,
                limit,
            ),
    decreases queue.len(),
{
    let fq = fill_queue(queue, qty, taker_side, taker, limit);
    if qty == 0 || queue.len() == 0 || !crosses(taker_side, queue[0].0, limit) {
    } else if queue[0].1.qty <= qty {
        let tail = queue.drop_first();
        assert forall|i: int| 0 <= i < tail.len() implies #[trigger] tail[i].1.qty > 0 by {
            assert(tail[i] == queue[i + 1]);
        }
        let left1 = (qty - queue[0].1.qty) as nat;
        lemma_fill_queue_trades(tail, left1, taker_side, taker, limit);
        let r = fill_queue(tail, left1, taker_side, taker, limit);
        let t = make_trade(taker_side, taker, queue[0].1.id, queue[0].0, queue[0].1.qty);
        lemma_total_qty_add(seq![t], r.trades);
        assert(total_qty(seq![t]) == t.qty.0) by {
            assert(seq![t].drop_last() =~= Seq::<Trade>::empty());
            assert(total_qty(Seq::<Trade>::empty()) == 0);
        }
        assert forall|i: int| 0 <= i < fq.trades.len() implies taker_trade(
            #[trigger] fq.trades[i],
            taker_side,
            taker,
            limit,
        ) by {
            if i > 0 {
                assert(fq.trades[i] == r.trades[i - 1]);
            }
        }
    } else {
        let t = make_trade(taker_side, taker, queue[0].1.id, queue[0].0, qty as u64);
        assert(total_qty(seq![t]) == t.qty.0) by {
            assert(seq![t].drop_last() =~= Seq::<Trade>::empty());
            assert(total_qty(Seq::<Trade>::empty()) == 0);
        }
    }
}

/// Every order on a priority queue of a well-shaped side is positive.
proof fn lemma_priority_queue_positive(levels: Map<u64, Seq<Resting>>, book_side: Side)
    requires
        side_wf(levels),
    ensures
        forall|i: int|
            0 <= i < priority_queue(levels, book_side).len() ==> #[trigger] priority_queue(
                levels,
                book_side,
            )[i].1.qty > 0,
    decreases levels.dom().len(),
{
    if !levels.dom().is_empty() {
        lemma_best_exists(levels, book_side);
        let k = best_price(levels, book_side);
        let q = levels[k];
        let rest = priority_queue(levels.remove(k), book_side);
        lemma_priority_queue_positive(levels.remove(k), book_side);
        let pq = priority_queue(levels, book_side);
        assert(pq == tag(q, k) + rest);
        assert forall|i: int| 0 <= i < pq.len() implies #[trigger] pq[i].1.qty > 0 by {
            if i < q.len() {
                assert(pq[i] == (k, q[i]));
            } else {
                assert(pq[i] == rest[i - q.len()]);
            }
        }
    }
}

/// Nothing is created or lost in matching: the quantity an order trades
/// and the quantity it has left add up to what it came with; and each of
/// its trades is its own, of positive quantity, at a price within its limit.
pub proof fn lemma_sweep_trades(
    levels: Map<u64, Seq<Resting>>,
    taker_side: Side,
    taker: u64,
    qty: nat,
    limit: Option<u64>,
)
    requires
        side_wf(levels),
    ensures
        total_qty(sweep(levels, taker_side, taker, qty, limit).trades) + sweep(
            levels,
            taker_side,
            taker,
            qty,
            limit,
        ).left == qty,
        forall|i: int|
            0 <= i < sweep(levels, taker_side, taker, qty, limit).trades.len() ==> taker_trade(
                #[trigger] sweep(levels, taker_side, taker, qty, limit).trades[i],
                taker_side,
                taker,
                limit,
            ),
{
    lemma_price_time_priority(levels, taker_side, taker, qty, limit);
    lemma_priority_queue_positive(levels, opposite(taker_side));
    lemma_fill_queue_trades(priority_queue(levels, opposite(taker_side)), qty, taker_side, taker, limit);
}


/// A sweep only takes levels away from a side or shrinks its best one, and
/// when it leaves part of the order unfilled, nothing that is left on that
/// side crosses the order's limit.
pub proof fn lemma_sweep_book(
    levels: Map<u64, Seq<Resting>>,
    taker_side: Side,
    taker: u64,
    qty: nat,
    limit: Option<u64>,
)
    requires
        levels.dom().finite(),
    ensures
        ({
            let sw = sweep(levels, taker_side, taker, qty, limit);
            &&& sw.book.dom().subset_of(levels.dom())
            &&& sw.book.dom().finite()
            &&& sw.left > 0 ==> forall|k: u64| #[trigger]
                sw.book.contains_key(k) ==> !crosses(taker_side, k, limit)
        }),
    decreases levels.dom().len(),
{
    reveal(sweep);
    let book_side = opposite(taker_side);
    let sw = sweep(levels, taker_side, taker, qty, limit);
    if qty == 0 || levels.dom().is_empty() {
    } else if !crosses(taker_side, best_price(levels, book_side), limit) {
        lemma_best_exists(levels, book_side);
        let b = best_price(levels, book_side);
        assert forall|k: u64| #[trigger] levels.contains_key(k) implies !crosses(taker_side, k, limit) by {
            assert(is_best(levels, book_side, b));
        }
    } else {
        lemma_best_exists(levels, book_side);
        let k = best_price(levels, book_side);
        let f = fill_level(levels[k], k, qty, taker_side, taker);
        lemma_fill_shape(levels[k], k, qty, taker_side, taker);
        if f.rest.len() == 0 {
            lemma_sweep_book(levels.remove(k), taker_side, taker, f.left, limit);
        } else {
            assert(levels.insert(k, f.rest).dom() =~= levels.dom());
        }
    }
}

/// No bid is at or above any ask.
pub open spec fn uncrossed(s: BookState) -> bool {
    forall|b: u64, a: u64| #[trigger] s.bids.contains_key(b) && #[trigger] s.asks.contains_key(a) ==> b < a
}

/// A market order keeps an uncrossed book uncrossed: it only takes from
/// the other side.
pub proof fn lemma_market_keeps_uncrossed(
    before: BookState,
    order: Order,
    trades: Seq<Trade>,
    after: BookState,
)
    requires
        state_wf(before),
        uncrossed(before),
        market_outcome(before, order, trades, after),
    ensures
        uncrossed(after),
{
    let opp = opposite(order.side);
    lemma_sweep_book(before.side(opp), order.side, order.id.0, order.qty.0 as nat, None);
}

/// A limit order keeps an uncrossed book uncrossed: it takes from the
/// other side everything that crosses its price before any of it rests.
pub proof fn lemma_limit_keeps_uncrossed(
    before: BookState,
    order: Order,
    trades: Seq<Trade>,
    after: BookState,
)
    requires
        state_wf(before),
        uncrossed(before),
        limit_outcome(before, order, trades, after),
    ensures
        uncrossed(after),
{
    let opp = opposite(order.side);
    let limit = Some(order.price.0);
    let sw = sweep(before.side(opp), order.side, order.id.0, order.qty.0 as nat, limit);
    lemma_sweep_book(before.side(opp), order.side, order.id.0, order.qty.0 as nat, limit);
    let mid = after_sweep(before, order.side, sw);
    assert(uncrossed(mid));
    if sw.left > 0 {
        let slot = choose|slot: usize|
            fresh_slot(mid, slot) && after == rest_state(
                mid,
                order.side,
                order.price.0,
                order.id.0,
                sw.left as u64,
                slot,
            );
        assert forall|b: u64, a: u64| #[trigger] after.bids.contains_key(b) && #[trigger] after.asks.contains_key(a)
            implies b < a by {
            if order.side == Side::Buy && b == order.price.0 {
                assert(!crosses(order.side, a, limit));
            } else if order.side == Side::Sell && a == order.price.0 {
                assert(!crosses(order.side, b, limit));
            } else {
                assert(mid.bids.contains_key(b) && mid.asks.contains_key(a));
            }
        }
    }
}

/// Taking out of a side an order just pushed there in a slot no other
/// order held gives the side back as it was.
proof fn lemma_without_pushed(levels: Map<u64, Seq<Resting>>, price: u64, e: Resting)
    requires
        !holds_slot(levels, e.slot),
        forall|p: u64| #[trigger] levels.contains_key(p) ==> levels[p].len() > 0,
    ensures
        without_slot(push_level(levels, price, e), e.slot) == levels,
{
    let slot = e.slot;
    let pushed = push_level(levels, price, e);
    let w = without_slot(pushed, slot);
    assert forall|p: u64| #[trigger] pushed.contains_key(p) implies pushed[p].filter(
        |x: Resting| x.slot != slot,
    ) == level_or_nothing(levels, p) by {
        lemma_filter_pushed_level(levels, price, e, p);
    }
    assert(w =~= levels);
}

spec fn level_or_nothing(levels: Map<u64, Seq<Resting>>, p: u64) -> Seq<Resting> {
    if levels.contains_key(p) {
        levels[p]
    } else {
        Seq::empty()
    }
}

proof fn lemma_filter_pushed_level(levels: Map<u64, Seq<Resting>>, price: u64, e: Resting, p: u64)
    requires
        !holds_slot(levels, e.slot),
        push_level(levels, price, e).contains_key(p),
    ensures
        push_level(levels, price, e)[p].filter(|x: Resting| x.slot != e.slot) == level_or_nothing(
            levels,
            p,
        ),
{
    let slot = e.slot;
    let pred = |x: Resting| x.slot != slot;
    let pushed = push_level(levels, price, e);
    if p != price {
        assert forall|i: int| 0 <= i < levels[p].len() implies pred(#[trigger] levels[p][i]) by {
            if levels[p][i].slot == slot {
                assert(holds_slot(levels, slot));
            }
        }
        lemma_filter_keeps_all(levels[p], pred);
    } else if levels.contains_key(price) {
        let q = levels[price].push(e);
        assert forall|j: int| 0 <= j < q.len() && j != q.len() - 1 implies pred(#[trigger] q[j]) by {
            assert(q[j] == levels[price][j]);
            if levels[price][j].slot == slot {
                assert(holds_slot(levels, slot));
            }
        }
        lemma_filter_drops_one(q, pred, q.len() - 1);
        assert(q.remove(q.len() - 1) =~= levels[price]);
    } else {
        let q = seq![e];
        lemma_filter_drops_one(q, pred, 0);
        assert(q.remove(0) =~= Seq::<Resting>::empty());
    }
}

/// Cancelling an order right after it came to rest gives back the book as
/// it was, with the order's id no longer indexed.
pub proof fn lemma_cancel_undoes_rest(
    s: BookState,
    side: Side,
    price: u64,
    id: u64,
    qty: u64,
    slot: usize,
)
    requires
        state_wf(s),
        fresh_slot(s, slot),
    ensures
        ({
            let c = cancel_state(rest_state(s, side, price, id, qty, slot), id);
            &&& c.bids == s.bids
            &&& c.asks == s.asks
            &&& c.index == s.index.remove(id)
            &&& c.store == s.store
        }),
{
    let r = rest_state(s, side, price, id, qty, slot);
    let e = Resting { id, qty, slot };
    assert(r.index[id] == slot);
    if side == Side::Buy {
        lemma_without_pushed(s.bids, price, e);
        lemma_without_absent(s.asks, slot);
    } else {
        lemma_without_pushed(s.asks, price, e);
        lemma_without_absent(s.bids, slot);
    }
    assert(r.index.remove(id) =~= s.index.remove(id));
}


/// Once cancelled, an id is no longer indexed: cancelling it again is refused.
pub proof fn lemma_cancel_forgets(s: BookState, id: u64)
    ensures
        !cancel_state(s, id).index.contains_key(id),
{
}

/// Processing an order records it: reading its id back from the store
/// gives the order, whatever the matching did.
pub proof fn lemma_process_records(before: BookState, order: Order, trades: Seq<Trade>, after: BookState)
    requires
        market_outcome(with_order(before, order), order, trades, after) || limit_outcome(
            with_order(before, order),
            order,
            trades,
            after,
        ),
    ensures
        after.store.contains_key(order.id.0),
        after.store[order.id.0] == order,
{
    let s1 = with_order(before, order);
    if limit_outcome(s1, order, trades, after) {
        let opp = opposite(order.side);
        let sw = sweep(s1.side(opp), order.side, order.id.0, order.qty.0 as nat, Some(order.price.0));
        let mid = after_sweep(s1, order.side, sw);
        if sw.left > 0 {
            let slot = choose|slot: usize|
                fresh_slot(mid, slot) && after == rest_state(
                    mid,
                    order.side,
                    order.price.0,
                    order.id.0,
                    sw.left as u64,
                    slot,
                );
        }
    }
}


/// Every resting order of a side is indexed under its id, at its slot.
pub open spec fn side_indexed(levels: Map<u64, Seq<Resting>>, index: Map<u64, usize>) -> bool {
    forall|p: u64, i: int|
        #![trigger levels[p][i]]
        levels.contains_key(p) && 0 <= i < levels[p].len() ==> index.contains_key(levels[p][i].id)
            && index[levels[p][i].id] == levels[p][i].slot
}

/// Every resting order is indexed under its id, at its slot: `cancel`
/// finds each of them. (This holds as long as clients do not reuse the id
/// of an order that is still resting.)
pub open spec fn index_complete(s: BookState) -> bool {
    side_indexed(s.bids, s.index) && side_indexed(s.asks, s.index)
}

/// An order with id `id` rests on the side.
pub open spec fn has_id(levels: Map<u64, Seq<Resting>>, id: u64) -> bool {
    exists|p: u64, i: int|
        #![trigger levels[p][i]]
        levels.contains_key(p) && 0 <= i < levels[p].len() && levels[p][i].id == id
}

/// No two resting orders of a side share an id.
pub open spec fn ids_unique(levels: Map<u64, Seq<Resting>>) -> bool {
    forall|p: u64, i: int, q: u64, j: int|
        #![trigger levels[p][i], levels[q][j]]
        levels.contains_key(p) && 0 <= i < levels[p].len() && levels.contains_key(q) && 0 <= j
            < levels[q].len() && levels[p][i].id == levels[q][j].id ==> p == q && i == j
}

/// The ids that matching at one price fills completely are those of the
/// orders in front of what it leaves.
proof fn lemma_fill_done(queue: Seq<Resting>, price: u64, qty: nat, taker_side: Side, taker: u64)
    ensures
        ({
            let f = fill_level(queue, price, qty, taker_side, taker);
            let d = queue.len() - f.rest.len();
            &&& 0 <= d
            &&& forall|x: u64| #[trigger]
                f.done.contains(x) ==> exists|j: int| 0 <= j < d && queue[j].id == x
            &&& forall|i: int|
                0 <= i < f.rest.len() ==> #[trigger] f.rest[i].id == queue[i + d].id
                    && f.rest[i].slot == queue[i + d].slot
        }),
    decreases queue.len(),
{
    lemma_fill_unfold(queue, price, qty, taker_side, taker);
    let f = fill_level(queue, price, qty, taker_side, taker);
    if qty != 0 && queue.len() != 0 && queue[0].qty <= qty {
        let tail = queue.drop_first();
        let left1 = (qty - queue[0].qty) as nat;
        lemma_fill_done(tail, price, left1, taker_side, taker);
        let r = fill_level(tail, price, left1, taker_side, taker);
        let d = queue.len() - f.rest.len();
        assert forall|x: u64| #[trigger] f.done.contains(x) implies exists|j: int|
            0 <= j < d && queue[j].id == x by {
            if x == queue[0].id {
                assert(queue[0].id == x);
            } else {
                assert(r.done.contains(x));
                let j = choose|j: int| 0 <= j < tail.len() - r.rest.len() && tail[j].id == x;
                assert(queue[j + 1].id == x);
            }
        }
        assert forall|i: int| 0 <= i < f.rest.len() implies #[trigger] f.rest[i].id == queue[i + d].id
            && f.rest[i].slot == queue[i + d].slot by {
            assert(r.rest[i] == f.rest[i]);
            assert(tail[i + d - 1] == queue[i + d]);
        }
        assert(0 <= d);
    } else if qty != 0 && queue.len() != 0 {
        assert(f.done =~= Set::<u64>::empty());
        assert(f.rest.len() == queue.len());
    } else {
        assert(f.done =~= Set::<u64>::empty());
        assert(f.rest == queue);
    }
}

/// What `lemma_sweep_ids` states of a sweep's outcome `sw` on `levels`.
pub open spec fn sweep_keeps_ids(levels: Map<u64, Seq<Resting>>, sw: Sweep) -> bool {
    &&& forall|p: u64, i: int|
        #![trigger sw.book[p][i]]
        sw.book.contains_key(p) && 0 <= i < sw.book[p].len() ==> {
            &&& has_entry(levels, p, sw.book[p][i].id, sw.book[p][i].slot)
            &&& !sw.done.contains(sw.book[p][i].id)
        }
    &&& forall|x: u64| #[trigger] sw.done.contains(x) ==> has_id(levels, x)
}

/// An order with this id rests in this slot at price `p`.
pub open spec fn has_entry(levels: Map<u64, Seq<Resting>>, p: u64, id: u64, slot: usize) -> bool {
    &&& levels.contains_key(p)
    &&& exists|j: int|
        #![trigger levels[p][j]]
        0 <= j < levels[p].len() && levels[p][j].id == id && levels[p][j].slot == slot
}

/// What a sweep leaves on a side of uniquely identified orders: each order
/// still there was there before, at the same price, with the same id and
/// slot; none of the ids it filled completely is still there; and those
/// ids were all on the side.
proof fn lemma_sweep_ids(
    levels: Map<u64, Seq<Resting>>,
    taker_side: Side,
    taker: u64,
    qty: nat,
    limit: Option<u64>,
)
    requires
        side_wf(levels),
        ids_unique(levels),
    ensures
        sweep_keeps_ids(levels, sweep(levels, taker_side, taker, qty, limit)),
    decreases levels.dom().len(),
{
    reveal(sweep);
    let book_side = opposite(taker_side);
    let sw = sweep(levels, taker_side, taker, qty, limit);
    if qty == 0 || levels.dom().is_empty() || !crosses(taker_side, best_price(levels, book_side), limit) {
        assert(sw.book == levels);
        assert(sw.done =~= Set::<u64>::empty());
        assert forall|p: u64, i: int|
            #![trigger sw.book[p][i]]
            sw.book.contains_key(p) && 0 <= i < sw.book[p].len() implies has_entry(
            levels,
            p,
            sw.book[p][i].id,
            sw.book[p][i].slot,
        ) by {
            assert(levels[p][i] == sw.book[p][i]);
        }
        } else {
        lemma_best_exists(levels, book_side);
        let k = best_price(levels, book_side);
        let q = levels[k];
        let f = fill_level(q, k, qty, taker_side, taker);
        lemma_fill_done(q, k, qty, taker_side, taker);
        let d = q.len() - f.rest.len();
        // the ids filled at price k are ids of orders at price k in front of what is left there
        assert forall|x: u64| #[trigger] f.done.contains(x) implies has_id(levels, x) by {
            let j = choose|j: int| 0 <= j < d && q[j].id == x;
            assert(levels[k][j].id == x);
        }
        if f.rest.len() == 0 {
            let m2 = levels.remove(k);
            assert(side_wf(m2));
            assert(ids_unique(m2)) by {
                assert forall|p: u64, i: int, r: u64, j: int|
                    #![trigger m2[p][i], m2[r][j]]
                    m2.contains_key(p) && 0 <= i < m2[p].len() && m2.contains_key(r) && 0 <= j
                        < m2[r].len() && m2[p][i].id == m2[r][j].id implies p == r && i == j by {
                    assert(levels[p][i] == m2[p][i] && levels[r][j] == m2[r][j]);
                }
            }
            lemma_sweep_ids(m2, taker_side, taker, f.left, limit);
            let sw2 = sweep(m2, taker_side, taker, f.left, limit);
            assert(sw.book == sw2.book);
            assert(sw.done == f.done.union(sw2.done));
            assert forall|p: u64, i: int|
                #![trigger sw.book[p][i]]
                sw.book.contains_key(p) && 0 <= i < sw.book[p].len() implies {
                &&& has_entry(levels, p, sw.book[p][i].id, sw.book[p][i].slot)
                &&& !sw.done.contains(sw.book[p][i].id)
            } by {
                assert(sw2.book[p][i] == sw.book[p][i]);
                assert(has_entry(m2, p, sw2.book[p][i].id, sw2.book[p][i].slot));
                let j = choose|j: int|
                    #![trigger m2[p][j]]
                    0 <= j < m2[p].len() && m2[p][j].id == sw2.book[p][i].id && m2[p][j].slot
                        == sw2.book[p][i].slot;
                assert(levels[p][j] == m2[p][j]);
                assert(!sw2.done.contains(sw2.book[p][i].id));
                if f.done.contains(sw.book[p][i].id) {
                    let jj = choose|jj: int| 0 <= jj < d && q[jj].id == sw.book[p][i].id;
                    assert(levels[k][jj].id == levels[p][j].id);
                }
            }
            assert forall|x: u64| #[trigger] sw.done.contains(x) implies has_id(levels, x) by {
                if !f.done.contains(x) {
                    assert(sw2.done.contains(x));
                    assert(has_id(m2, x));
                    let (p, i) = choose|p: u64, i: int|
                        #![trigger m2[p][i]]
                        m2.contains_key(p) && 0 <= i < m2[p].len() && m2[p][i].id == x;
                    assert(levels[p][i] == m2[p][i]);
                }
            }
                } else {
            let m2 = levels.insert(k, f.rest);
            assert(sw.book == m2);
            assert(sw.done == f.done);
            assert forall|p: u64, i: int|
                #![trigger sw.book[p][i]]
                sw.book.contains_key(p) && 0 <= i < sw.book[p].len() implies {
                &&& has_entry(levels, p, sw.book[p][i].id, sw.book[p][i].slot)
                &&& !sw.done.contains(sw.book[p][i].id)
            } by {
                let jp = if p == k { i + d } else { i };
                if p == k {
                    assert(f.rest[i].id == q[i + d].id);
                    assert(f.rest[i].slot == q[i + d].slot);
                }
                assert(levels[p][jp].id == sw.book[p][i].id);
                if f.done.contains(sw.book[p][i].id) {
                    let jj = choose|jj: int| 0 <= jj < d && q[jj].id == sw.book[p][i].id;
                    assert(levels[k][jj].id == levels[p][jp].id);
                }
            }
            assert forall|x: u64| #[trigger] sw.done.contains(x) implies has_id(levels, x) by {
                assert(f.done.contains(x));
            }
                }
    }
}


/// Cancelling keeps every resting order indexed.
pub proof fn lemma_cancel_keeps_index_complete(s: BookState, id: u64)
    requires
        state_wf(s),
        index_complete(s),
    ensures
        index_complete(cancel_state(s, id)),
{
    let c = cancel_state(s, id);
    let slot0 = s.index[id];
    lemma_without_slot_indexed(s.bids, s.index, id, slot0);
    lemma_without_slot_indexed(s.asks, s.index, id, slot0);
}

/// Taking the order in `slot0` out of a side whose orders are all indexed,
/// when `slot0` is what the index gives for `id`, leaves every remaining
/// order indexed once `id` is forgotten.
proof fn lemma_without_slot_indexed(
    levels: Map<u64, Seq<Resting>>,
    index: Map<u64, usize>,
    id: u64,
    slot0: usize,
)
    requires
        side_indexed(levels, index),
        index.contains_key(id) ==> index[id] == slot0,
    ensures
        side_indexed(without_slot(levels, slot0), index.remove(id)),
{
    let w = without_slot(levels, slot0);
    let pred = |e: Resting| e.slot != slot0;
    assert forall|p: u64, i: int|
        #![trigger w[p][i]]
        w.contains_key(p) && 0 <= i < w[p].len() implies index.remove(id).contains_key(w[p][i].id)
        && index.remove(id)[w[p][i].id] == w[p][i].slot by {
        let e = w[p][i];
        assert(w[p] == levels[p].filter(pred));
        levels[p].lemma_filter_pred(pred, i);
        assert(levels[p].filter(pred).contains(e));
        levels[p].lemma_filter_contains_rev(pred, e);
        let k = choose|k: int| 0 <= k < levels[p].len() && levels[p][k] == e;
        assert(levels[p][k] == e);
    }
}

/// With every resting order indexed, no two resting orders share an id.
proof fn lemma_complete_ids_unique(s: BookState)
    requires
        state_wf(s),
        index_complete(s),
    ensures
        ids_unique(s.bids),
        ids_unique(s.asks),
        forall|p: u64, i: int, q: u64, j: int|
            #![trigger s.bids[p][i], s.asks[q][j]]
            s.bids.contains_key(p) && 0 <= i < s.bids[p].len() && s.asks.contains_key(q) && 0 <= j
                < s.asks[q].len() ==> s.bids[p][i].id != s.asks[q][j].id,
{
}

/// The state after a sweep by an order with a fresh id still has every
/// resting order indexed.
proof fn lemma_after_sweep_complete(
    before: BookState,
    side: Side,
    taker: u64,
    qty: nat,
    limit: Option<u64>,
)
    requires
        state_wf(before),
        index_complete(before),
    ensures
        ({
            let sw = sweep(before.side(opposite(side)), side, taker, qty, limit);
            let mid = after_sweep(before, side, sw);
            &&& index_complete(mid)
            &&& forall|p: u64, i: int|
                #![trigger mid.bids[p][i]]
                mid.bids.contains_key(p) && 0 <= i < mid.bids[p].len() ==> before.index.contains_key(
                    mid.bids[p][i].id,
                )
            &&& forall|p: u64, i: int|
                #![trigger mid.asks[p][i]]
                mid.asks.contains_key(p) && 0 <= i < mid.asks[p].len() ==> before.index.contains_key(
                    mid.asks[p][i].id,
                )
            &&& mid.index.dom().subset_of(before.index.dom())
        }),
{
    let opp = opposite(side);
    let m = before.side(opp);
    let own = before.side(side);
    lemma_complete_ids_unique(before);
    lemma_sweep_ids(m, side, taker, qty, limit);
    lemma_price_time_priority(m, side, taker, qty, limit);
    let sw = sweep(m, side, taker, qty, limit);
    let mid = after_sweep(before, side, sw);
    let idx = before.index.remove_keys(sw.done);
    assert(mid.index == idx);
    // the other side: what the sweep left is indexed and was not filled
    assert forall|p: u64, i: int|
        #![trigger sw.book[p][i]]
        sw.book.contains_key(p) && 0 <= i < sw.book[p].len() implies idx.contains_key(sw.book[p][i].id)
        && idx[sw.book[p][i].id] == sw.book[p][i].slot && before.index.contains_key(sw.book[p][i].id) by {
        assert(has_entry(m, p, sw.book[p][i].id, sw.book[p][i].slot));
        let j = choose|j: int|
            #![trigger m[p][j]]
            0 <= j < m[p].len() && m[p][j].id == sw.book[p][i].id && m[p][j].slot == sw.book[p][i].slot;
        assert(m[p][j].id == sw.book[p][i].id);
    }
    // the order's own side: untouched, and none of its ids was filled
    assert forall|p: u64, i: int|
        #![trigger own[p][i]]
        own.contains_key(p) && 0 <= i < own[p].len() implies idx.contains_key(own[p][i].id)
        && idx[own[p][i].id] == own[p][i].slot by {
        if sw.done.contains(own[p][i].id) {
            assert(has_id(m, own[p][i].id));
            let (q, j) = choose|q: u64, j: int|
                #![trigger m[q][j]]
                m.contains_key(q) && 0 <= j < m[q].len() && m[q][j].id == own[p][i].id;
            if side == Side::Buy {
                assert(before.bids[p][i].id != before.asks[q][j].id);
            } else {
                assert(before.bids[q][j].id != before.asks[p][i].id);
            }
        }
    }
    if side == Side::Buy {
        assert(mid.bids == own && mid.asks == sw.book);
    } else {
        assert(mid.asks == own && mid.bids == sw.book);
    }
}


/// An order with an id that is not in use keeps every resting order
/// indexed, whether it is a market or a limit order: filled orders leave
/// the index with their orders, and what rests is indexed at its slot.
/// (With a reused id this fails: the older order drops out of the index.)
pub proof fn lemma_outcome_keeps_index_complete(
    before: BookState,
    order: Order,
    trades: Seq<Trade>,
    after: BookState,
)
    requires
        state_wf(before),
        index_complete(before),
        !before.index.contains_key(order.id.0),
        market_outcome(before, order, trades, after) || limit_outcome(before, order, trades, after),
    ensures
        index_complete(after),
{
    let side = order.side;
    let limit = if market_outcome(before, order, trades, after) {
        None
    } else {
        Some(order.price.0)
    };
    lemma_after_sweep_complete(before, side, order.id.0, order.qty.0 as nat, limit);
    lemma_after_sweep_complete(before, side, order.id.0, order.qty.0 as nat, Some(order.price.0));
    if !market_outcome(before, order, trades, after) {
        let sw = sweep(
            before.side(opposite(side)),
            side,
            order.id.0,
            order.qty.0 as nat,
            Some(order.price.0),
        );
        let mid = after_sweep(before, side, sw);
        if sw.left > 0 {
            let slot = choose|slot: usize|
                fresh_slot(mid, slot) && after == rest_state(
                    mid,
                    side,
                    order.price.0,
                    order.id.0,
                    sw.left as u64,
                    slot,
                );
            let e = Resting { id: order.id.0, qty: sw.left as u64, slot };
            let idx = mid.index.insert(order.id.0, slot);
            lemma_push_indexed(mid.side(side), mid.index, order.price.0, e, before.index);
            lemma_insert_indexed(mid.side(opposite(side)), mid.index, e, before.index);
            if side == Side::Buy {
                assert(after.bids == push_level(mid.bids, order.price.0, e));
                assert(after.asks == mid.asks);
            } else {
                assert(after.asks == push_level(mid.asks, order.price.0, e));
                assert(after.bids == mid.bids);
            }
        }
    }
}

/// Indexing a new id leaves the orders of a side whose ids were all known
/// before indexed as they were.
proof fn lemma_insert_indexed(
    levels: Map<u64, Seq<Resting>>,
    index: Map<u64, usize>,
    e: Resting,
    known: Map<u64, usize>,
)
    requires
        side_indexed(levels, index),
        !known.contains_key(e.id),
        forall|p: u64, i: int|
            #![trigger levels[p][i]]
            levels.contains_key(p) && 0 <= i < levels[p].len() ==> known.contains_key(levels[p][i].id),
    ensures
        side_indexed(levels, index.insert(e.id, e.slot)),
{
    assert forall|p: u64, i: int|
        #![trigger levels[p][i]]
        levels.contains_key(p) && 0 <= i < levels[p].len() implies index.insert(e.id, e.slot).contains_key(
        levels[p][i].id,
    ) && index.insert(e.id, e.slot)[levels[p][i].id] == levels[p][i].slot by {
        assert(levels[p][i].id != e.id);
    }
}

/// Pushing a newly indexed order onto a side whose orders are indexed
/// (and whose ids were all known before, unlike the new one) keeps that
/// side indexed.
proof fn lemma_push_indexed(
    levels: Map<u64, Seq<Resting>>,
    index: Map<u64, usize>,
    price: u64,
    e: Resting,
    known: Map<u64, usize>,
)
    requires
        side_indexed(levels, index),
        !known.contains_key(e.id),
        forall|p: u64, i: int|
            #![trigger levels[p][i]]
            levels.contains_key(p) && 0 <= i < levels[p].len() ==> known.contains_key(levels[p][i].id),
    ensures
        side_indexed(push_level(levels, price, e), index.insert(e.id, e.slot)),
{
    let pushed = push_level(levels, price, e);
    let idx = index.insert(e.id, e.slot);
    assert forall|p: u64, i: int|
        #![trigger pushed[p][i]]
        pushed.contains_key(p) && 0 <= i < pushed[p].len() implies idx.contains_key(pushed[p][i].id)
        && idx[pushed[p][i].id] == pushed[p][i].slot by {
        if p == price && (!levels.contains_key(price) || i == levels[price].len()) {
            assert(pushed[p][i] == e);
        } else {
            assert(pushed[p][i] == levels[p][i]);
            assert(levels[p][i].id != e.id);
        }
    }
}


/// With every resting order indexed, an id is indexed exactly when an order
/// with that id rests: `cancel` answers `true` for live orders and `false`
/// for ids never seen, already filled, or already cancelled.
pub proof fn lemma_indexed_iff_resting(s: BookState, id: u64)
    requires
        state_wf(s),
        index_complete(s),
    ensures
        s.index.contains_key(id) <==> (has_id(s.bids, id) || has_id(s.asks, id)),
{
    if s.index.contains_key(id) {
        if indexed_in(s.bids, id, s.index[id]) {
            let (p, i) = choose|p: u64, i: int|
                #![trigger s.bids[p][i]]
                s.bids.contains_key(p) && 0 <= i < s.bids[p].len() && s.bids[p][i].slot == s.index[id]
                    && s.bids[p][i].id == id;
            assert(has_id(s.bids, id));
        } else {
            let (p, i) = choose|p: u64, i: int|
                #![trigger s.asks[p][i]]
                s.asks.contains_key(p) && 0 <= i < s.asks[p].len() && s.asks[p][i].slot == s.index[id]
                    && s.asks[p][i].id == id;
            assert(has_id(s.asks, id));
        }
    }
}


/// The total open quantity of a queue of resting orders.
pub open spec fn queue_total(queue: Seq<(u64, Resting)>) -> nat
    decreases queue.len(),
{
    if queue.len() == 0 {
        0
    } else {
        queue[0].1.qty as nat + queue_total(queue.drop_first())
    }
}

/// The open quantity of the orders of a queue whose price an order of
/// `taker_side` with limit `limit` may trade at.
pub open spec fn available(queue: Seq<(u64, Resting)>, taker_side: Side, limit: Option<u64>) -> nat
    decreases queue.len(),
{
    if queue.len() == 0 {
        0
    } else {
        (if crosses(taker_side, queue[0].0, limit) {
            queue[0].1.qty as nat
        } else {
            0
        }) + available(queue.drop_first(), taker_side, limit)
    }
}

/// The orders of a queue are positive and in priority order for the side
/// that holds them.
pub open spec fn in_priority_order(queue: Seq<(u64, Resting)>, book_side: Side) -> bool {
    &&& forall|i: int| 0 <= i < queue.len() ==> #[trigger] queue[i].1.qty > 0
    &&& forall|i: int, j: int|
        0 <= i < j < queue.len() ==> at_least_as_good(book_side, #[trigger] queue[i].0, #[trigger] queue[j].0)
}

/// `trades` are what an order of `taker_side` with id `taker` did along
/// `queue`, in execution order: the `i`th trade is against the `i`th
/// resting order of the queue, at that order's price, between the taker on
/// its own side and that order's id on the other; it takes a positive
/// quantity no larger than that order's, and all of it unless it is the
/// last trade.
pub open spec fn fills_along(queue: Seq<(u64, Resting)>, taker_side: Side, taker: u64, trades: Seq<Trade>) -> bool {
    &&& trades.len() <= queue.len()
    &&& forall|i: int|
        0 <= i < trades.len() ==> {
            &&& (#[trigger] trades[i]).price.0 == queue[i].0
            &&& match taker_side {
                Side::Buy => trades[i].buy.0 == taker && trades[i].sell.0 == queue[i].1.id,
                Side::Sell => trades[i].sell.0 == taker && trades[i].buy.0 == queue[i].1.id,
            }
            &&& 0 < trades[i].qty.0 <= queue[i].1.qty
            &&& i < trades.len() - 1 ==> trades[i].qty.0 == queue[i].1.qty
        }
}

/// The smaller of two quantities.
pub open spec fn min_nat(a: nat, b: nat) -> nat {
    if a <= b {
        a
    } else {
        b
    }
}

/// In a queue in priority order, an order whose price does not cross the
/// limit is followed only by orders that do not either.
proof fn lemma_available_none(queue: Seq<(u64, Resting)>, taker_side: Side, limit: Option<u64>)
    requires
        in_priority_order(queue, opposite(taker_side)),
        queue.len() > 0,
        !crosses(taker_side, queue[0].0, limit),
    ensures
        available(queue, taker_side, limit) == 0,
    decreases queue.len(),
{
    let tail = queue.drop_first();
    if tail.len() > 0 {
        assert(at_least_as_good(opposite(taker_side), queue[0].0, queue[1].0));
        assert(tail[0] == queue[1]);
        assert(in_priority_order(tail, opposite(taker_side))) by {
            assert forall|i: int, j: int| 0 <= i < j < tail.len() implies at_least_as_good(
                opposite(taker_side),
                #[trigger] tail[i].0,
                #[trigger] tail[j].0,
            ) by {
                assert(tail[i] == queue[i + 1] && tail[j] == queue[j + 1]);
            }
            assert forall|i: int| 0 <= i < tail.len() implies #[trigger] tail[i].1.qty > 0 by {
                assert(tail[i] == queue[i + 1]);
            }
        }
        lemma_available_none(tail, taker_side, limit);
    } else {
        assert(available(tail, taker_side, limit) == 0);
    }
}

/// What filling along a queue in priority order gives: its trades go along
/// the queue, their total is the order's quantity or what the queue has
/// within the limit, whichever is less, what is traded leaves the queue,
/// and the rest of the order is what was not traded.
proof fn lemma_fill_queue_facts(
    queue: Seq<(u64, Resting)>,
    qty: nat,
    taker_side: Side,
    taker: u64,
    limit: Option<u64>,
)
    requires
        in_priority_order(queue, opposite(taker_side)),
    ensures
        ({
            let fq = fill_queue(queue, qty, taker_side, taker, limit);
            &&& fills_along(queue, taker_side, taker, fq.trades)
            &&& total_qty(fq.trades) == min_nat(qty, available(queue, taker_side, limit))
            &&& queue_total(fq.rest) + total_qty(fq.trades) == queue_total(queue)
            &&& fq.left + total_qty(fq.trades) == qty
        }),
    decreases queue.len(),
{
    let fq = fill_queue(queue, qty, taker_side, taker, limit);
    assert(total_qty(Seq::<Trade>::empty()) == 0);
    if qty == 0 || queue.len() == 0 {
        assert(available(queue, taker_side, limit) >= 0);
    } else if !crosses(taker_side, queue[0].0, limit) {
        lemma_available_none(queue, taker_side, limit);
    } else {
        let tail = queue.drop_first();
        assert(in_priority_order(tail, opposite(taker_side))) by {
            assert forall|i: int, j: int| 0 <= i < j < tail.len() implies at_least_as_good(
                opposite(taker_side),
                #[trigger] tail[i].0,
                #[trigger] tail[j].0,
            ) by {
                assert(tail[i] == queue[i + 1] && tail[j] == queue[j + 1]);
            }
            assert forall|i: int| 0 <= i < tail.len() implies #[trigger] tail[i].1.qty > 0 by {
                assert(tail[i] == queue[i + 1]);
            }
        }
        assert(queue[0].1.qty > 0);
        if queue[0].1.qty <= qty {
            let left1 = (qty - queue[0].1.qty) as nat;
            lemma_fill_queue_facts(tail, left1, taker_side, taker, limit);
            let r = fill_queue(tail, left1, taker_side, taker, limit);
            let t = make_trade(taker_side, taker, queue[0].1.id, queue[0].0, queue[0].1.qty);
            lemma_total_qty_add(seq![t], r.trades);
            assert(total_qty(seq![t]) == t.qty.0) by {
                assert(seq![t].drop_last() =~= Seq::<Trade>::empty());
            }
            assert(fq.trades == seq![t] + r.trades);
            assert forall|i: int| 0 <= i < fq.trades.len() implies {
                &&& (#[trigger] fq.trades[i]).price.0 == queue[i].0
                &&& match taker_side {
                    Side::Buy => fq.trades[i].buy.0 == taker && fq.trades[i].sell.0 == queue[i].1.id,
                    Side::Sell => fq.trades[i].sell.0 == taker && fq.trades[i].buy.0 == queue[i].1.id,
                }
                &&& 0 < fq.trades[i].qty.0 <= queue[i].1.qty
                &&& i < fq.trades.len() - 1 ==> fq.trades[i].qty.0 == queue[i].1.qty
            } by {
                if i > 0 {
                    assert(fq.trades[i] == r.trades[i - 1]);
                    assert(tail[i - 1] == queue[i]);
                }
            }
        } else {
            let t = make_trade(taker_side, taker, queue[0].1.id, queue[0].0, qty as u64);
            assert(total_qty(seq![t]) == t.qty.0) by {
                assert(seq![t].drop_last() =~= Seq::<Trade>::empty());
            }
            let red = (queue[0].0, Resting { qty: (queue[0].1.qty - qty) as u64, ..queue[0].1 });
            assert(fq.rest == queue.update(0, red));
            assert(fq.rest.drop_first() =~= tail);
        }
    }
}

/// A priority queue of a well-shaped side is in priority order.
proof fn lemma_priority_queue_order(levels: Map<u64, Seq<Resting>>, book_side: Side)
    requires
        side_wf(levels),
    ensures
        in_priority_order(priority_queue(levels, book_side), book_side),
{
    lemma_priority_queue_sorted(levels, book_side);
    lemma_priority_queue_positive(levels, book_side);
}

/// With no limit, everything on a queue is available.
proof fn lemma_available_all(queue: Seq<(u64, Resting)>, taker_side: Side)
    ensures
        available(queue, taker_side, None) == queue_total(queue),
    decreases queue.len(),
{
    if queue.len() > 0 {
        lemma_available_all(queue.drop_first(), taker_side);
    }
}

/// What a market order does, in terms of the book it met: its `i`th trade
/// is against the `i`th order of the other side in priority order (best
/// price first, oldest first at a price), at that order's price, with that
/// order's id as counterparty and all of that order unless it is the last
/// trade; it trades its whole quantity or everything on the other side,
/// whichever is less; exactly what it trades leaves the other side; and its
/// own side is untouched.
pub proof fn lemma_market_trades(before: BookState, order: Order, trades: Seq<Trade>, after: BookState)
    requires
        state_wf(before),
        market_outcome(before, order, trades, after),
    ensures
        ({
            let opp = opposite(order.side);
            let queue = priority_queue(before.side(opp), opp);
            &&& fills_along(queue, order.side, order.id.0, trades)
            &&& total_qty(trades) == min_nat(order.qty.0 as nat, queue_total(queue))
            &&& queue_total(priority_queue(after.side(opp), opp)) + total_qty(trades) == queue_total(queue)
            &&& after.side(order.side) == before.side(order.side)
        }),
{
    let opp = opposite(order.side);
    let m = before.side(opp);
    let queue = priority_queue(m, opp);
    lemma_price_time_priority(m, order.side, order.id.0, order.qty.0 as nat, None);
    lemma_priority_queue_order(m, opp);
    lemma_fill_queue_facts(queue, order.qty.0 as nat, order.side, order.id.0, None);
    lemma_available_all(queue, order.side);
    let sw = sweep(m, order.side, order.id.0, order.qty.0 as nat, None);
    if order.side == Side::Buy {
        assert(after.asks == sw.book && after.bids == before.bids);
    } else {
        assert(after.bids == sw.book && after.asks == before.asks);
    }
}

/// In `after`, what `order` did not trade (`traded` of it was traded)
/// rests in `slot` behind the orders that rested at its price on its side
/// in `before`, and its id is indexed there.
pub open spec fn rests_behind(before: BookState, after: BookState, order: Order, traded: nat, slot: usize) -> bool {
    let own0 = before.side(order.side);
    let own1 = after.side(order.side);
    let p = order.price.0;
    &&& own1.dom() == own0.dom().insert(p)
    &&& own1[p] == level_or_empty(own0, p).push(
        Resting { id: order.id.0, qty: (order.qty.0 - traded) as u64, slot },
    )
    &&& forall|q: u64| #[trigger] own0.contains_key(q) && q != p ==> own1[q] == own0[q]
    &&& after.index.contains_key(order.id.0)
    &&& after.index[order.id.0] == slot
}

/// What a limit order does, in terms of the book it met: its `i`th trade
/// is against the `i`th order of the other side in priority order, at that
/// order's price (never beyond its own limit), with that order's id as
/// counterparty and all of that order unless it is the last trade; it
/// trades its whole quantity or everything on the other side within its
/// limit, whichever is less; exactly what it trades leaves the other side;
/// and what it does not trade joins the back of the queue at its price on
/// its own side, which is otherwise untouched.
pub proof fn lemma_limit_trades(before: BookState, order: Order, trades: Seq<Trade>, after: BookState)
    requires
        state_wf(before),
        limit_outcome(before, order, trades, after),
    ensures
        ({
            let opp = opposite(order.side);
            let queue = priority_queue(before.side(opp), opp);
            let traded = total_qty(trades);
            &&& fills_along(queue, order.side, order.id.0, trades)
            &&& forall|i: int| 0 <= i < trades.len() ==> match order.side {
                Side::Buy => (#[trigger] trades[i]).price.0 <= order.price.0,
                Side::Sell => (#[trigger] trades[i]).price.0 >= order.price.0,
            }
            &&& traded == min_nat(order.qty.0 as nat, available(queue, order.side, Some(order.price.0)))
            &&& queue_total(priority_queue(after.side(opp), opp)) + traded == queue_total(queue)
            &&& traded == order.qty.0 ==> after.side(order.side) == before.side(order.side)
            &&& traded < order.qty.0 ==> exists|slot: usize|
                rests_behind(before, after, order, traded, slot)
        }),
{
    let opp = opposite(order.side);
    let side = order.side;
    let m = before.side(opp);
    let queue = priority_queue(m, opp);
    let limit = Some(order.price.0);
    lemma_price_time_priority(m, side, order.id.0, order.qty.0 as nat, limit);
    lemma_priority_queue_order(m, opp);
    lemma_fill_queue_facts(queue, order.qty.0 as nat, side, order.id.0, limit);
    lemma_sweep_trades(m, side, order.id.0, order.qty.0 as nat, limit);
    let sw = sweep(m, side, order.id.0, order.qty.0 as nat, limit);
    let mid = after_sweep(before, side, sw);
    assert forall|i: int| 0 <= i < trades.len() implies match side {
        Side::Buy => (#[trigger] trades[i]).price.0 <= order.price.0,
        Side::Sell => (#[trigger] trades[i]).price.0 >= order.price.0,
    } by {
        assert(taker_trade(sw.trades[i], side, order.id.0, limit));
    }
    if sw.left > 0 {
        let slot = choose|slot: usize|
            fresh_slot(mid, slot) && after == rest_state(
                mid,
                side,
                order.price.0,
                order.id.0,
                sw.left as u64,
                slot,
            );
        if side == Side::Buy {
            assert(after.asks == sw.book && mid.bids == before.bids);
        } else {
            assert(after.bids == sw.book && mid.asks == before.asks);
        }
        assert(after.index[order.id.0] == slot);
        let own0 = before.side(side);
        let own1 = after.side(side);
        assert(own1 == push_level(own0, order.price.0, Resting { id: order.id.0, qty: sw.left as u64, slot }));
        assert(own1.dom() =~= own0.dom().insert(order.price.0));
        assert(rests_behind(before, after, order, total_qty(trades), slot));
    } else {
        if side == Side::Buy {
            assert(after.asks == sw.book && after.bids == before.bids);
        } else {
            assert(after.bids == sw.book && after.asks == before.asks);
        }
    }
}

/// What matching at one price does (`match_level`): its `i`th trade is
/// against the `i`th order of the queue, oldest first, at that price, with
/// that order's id as counterparty and all of that order unless it is the
/// last trade; it trades the order's quantity or the whole queue,
/// whichever is less; exactly what it trades leaves the queue; and the
/// order keeps what it did not trade.
pub proof fn lemma_level_trades(queue: Seq<Resting>, price: u64, qty: nat, taker_side: Side, taker: u64)
    requires
        forall|i: int| 0 <= i < queue.len() ==> #[trigger] queue[i].qty > 0,
    ensures
        ({
            let f = fill_level(queue, price, qty, taker_side, taker);
            let traded = total_qty(f.trades);
            &&& fills_along(tag(queue, price), taker_side, taker, f.trades)
            &&& traded == min_nat(qty, queue_total(tag(queue, price)))
            &&& queue_total(tag(f.rest, price)) + traded == queue_total(tag(queue, price))
            &&& f.left + traded == qty
        }),
{
    let f = fill_level(queue, price, qty, taker_side, taker);
    let tq = tag(queue, price);
    let empty = Seq::<(u64, Resting)>::empty();
    assert(tq + empty =~= tq);
    lemma_fill_queue_level(queue, price, empty, qty, taker_side, taker, None);
    assert(in_priority_order(tq, opposite(taker_side))) by {
        assert forall|i: int| 0 <= i < tq.len() implies #[trigger] tq[i].1.qty > 0 by {
            assert(tq[i] == (price, queue[i]));
        }
        assert forall|i: int, j: int| 0 <= i < j < tq.len() implies at_least_as_good(
            opposite(taker_side),
            #[trigger] tq[i].0,
            #[trigger] tq[j].0,
        ) by {
            assert(tq[i] == (price, queue[i]) && tq[j] == (price, queue[j]));
        }
    }
    lemma_fill_queue_facts(tq, qty, taker_side, taker, None);
    lemma_available_all(tq, taker_side);
    let fq = fill_queue(tq, qty, taker_side, taker, None);
    if f.rest.len() == 0 {
        assert(fill_queue(empty, f.left, taker_side, taker, None).rest == empty);
        assert(tag(f.rest, price) =~= empty);
        assert(f.trades + fill_queue(empty, f.left, taker_side, taker, None).trades =~= f.trades);
    }
}


/// What cancelling does, in terms of the book: for the order resting in
/// the slot the index gives for `id` (the `i`th at price `p` on `side`), it
/// has that id, it alone leaves its queue (and the level leaves the side if
/// it was the only order there), the other side is untouched, and `id`
/// leaves the index.
pub proof fn lemma_cancel_removes(s: BookState, id: u64, side: Side, p: u64, i: int)
    requires
        state_wf(s),
        s.index.contains_key(id),
        s.side(side).contains_key(p),
        0 <= i < s.side(side)[p].len(),
        s.side(side)[p][i].slot == s.index[id],
    ensures
        ({
            let c = cancel_state(s, id);
            let lv = s.side(side);
            &&& lv[p][i].id == id
            &&& c.side(side) == (if lv[p].len() == 1 {
                lv.remove(p)
            } else {
                lv.insert(p, lv[p].remove(i))
            })
            &&& c.side(opposite(side)) == s.side(opposite(side))
            &&& c.index == s.index.remove(id)
        }),
{
    let slot = s.index[id];
    let lv = s.side(side);
    let other = s.side(opposite(side));
    lemma_without_present(lv, slot, p, i);
    if holds_slot(other, slot) {
        let (q, j) = choose|q: u64, j: int|
            #![trigger other[q][j]]
            other.contains_key(q) && 0 <= j < other[q].len() && other[q][j].slot == slot;
        if side == Side::Buy {
            assert(s.bids[p][i].slot != s.asks[q][j].slot);
        } else {
            assert(s.bids[q][j].slot != s.asks[p][i].slot);
        }
    }
    lemma_without_absent(other, slot);
    if indexed_in(lv, id, slot) {
        let (q, j) = choose|q: u64, j: int|
            #![trigger lv[q][j]]
            lv.contains_key(q) && 0 <= j < lv[q].len() && lv[q][j].slot == slot && lv[q][j].id == id;
        assert(lv[q][j].slot == lv[p][i].slot);
    } else {
        assert(indexed_in(other, id, slot));
        let (q, j) = choose|q: u64, j: int|
            #![trigger other[q][j]]
            other.contains_key(q) && 0 <= j < other[q].len() && other[q][j].slot == slot
                && other[q][j].id == id;
        assert(holds_slot(other, slot));
    }
    if side == Side::Buy {
        assert(cancel_state(s, id).bids == without_slot(lv, slot));
    } else {
        assert(cancel_state(s, id).asks == without_slot(lv, slot));
    }
}

} // verus!
