use vstd::prelude::*;

use crate::model::{side_wf, Resting};
use crate::orderbook::{BookNode, PriceLevel};
use crate::types::Side;

verus! {

/// The resting order held in slot `x`.
pub open spec fn resting_at(a: Seq<Option<BookNode>>, x: usize) -> Resting {
    Resting { id: a[x as int].unwrap().order_id.0, qty: a[x as int].unwrap().remaining.0, slot: x }
}

/// A queue of slots read as the orders they hold.
pub open spec fn queue_view(a: Seq<Option<BookNode>>, q: Seq<usize>) -> Seq<Resting> {
    q.map_values(|x: usize| resting_at(a, x))
}

/// A side's queues read as the orders they hold.
pub open spec fn side_view(a: Seq<Option<BookNode>>, qs: Map<u64, Seq<usize>>) -> Map<
    u64,
    Seq<Resting>,
> {
    qs.map_values(|q: Seq<usize>| queue_view(a, q))
}

/// The node in slot `q[i]` is a live order of this side and price, linked
/// to its neighbours in `q`.
pub open spec fn node_ok(a: Seq<Option<BookNode>>, side: Side, p: u64, q: Seq<usize>, i: int) -> bool {
    let x = q[i];
    &&& x < a.len()
    &&& a[x as int] is Some
    &&& a[x as int].unwrap().side == side
    &&& a[x as int].unwrap().price.0 == p
    &&& a[x as int].unwrap().remaining.0 > 0
    &&& a[x as int].unwrap().prev == (if i == 0 {
        None::<usize>
    } else {
        Some(q[i - 1])
    })
    &&& a[x as int].unwrap().next == (if i == q.len() - 1 {
        None::<usize>
    } else {
        Some(q[i + 1])
    })
}

/// `q` is a nonempty queue whose first and last slots are the level's head
/// and tail and whose nodes are linked in order.
pub open spec fn queue_ok(
    a: Seq<Option<BookNode>>,
    side: Side,
    p: u64,
    q: Seq<usize>,
    lvl: PriceLevel,
) -> bool {
    &&& q.len() > 0
    &&& q.no_duplicates()
    &&& lvl.head == Some(q[0])
    &&& lvl.tail == Some(q[q.len() - 1])
    &&& forall|i: int| 0 <= i < q.len() ==> #[trigger] node_ok(a, side, p, q, i)
}

/// The levels of a side agree with its queues.
pub open spec fn side_ok(
    a: Seq<Option<BookNode>>,
    side: Side,
    lv: Map<u64, PriceLevel>,
    qs: Map<u64, Seq<usize>>,
) -> bool {
    &&& lv.dom() == qs.dom()
    &&& qs.dom().finite()
    &&& forall|p: u64| #[trigger] qs.contains_key(p) ==> queue_ok(a, side, p, qs[p], lv[p])
}

/// The queues of one side.
pub open spec fn queues_of(side: Side, bq: Map<u64, Seq<usize>>, aq: Map<u64, Seq<usize>>) -> Map<
    u64,
    Seq<usize>,
> {
    match side {
        Side::Buy => bq,
        Side::Sell => aq,
    }
}

/// Every occupied slot is queued at its own side and price.
pub open spec fn placed(
    a: Seq<Option<BookNode>>,
    bq: Map<u64, Seq<usize>>,
    aq: Map<u64, Seq<usize>>,
) -> bool {
    forall|x: usize|
        #![trigger a[x as int]]
        x < a.len() && a[x as int] is Some ==> {
            let n = a[x as int].unwrap();
            &&& queues_of(n.side, bq, aq).contains_key(n.price.0)
            &&& queues_of(n.side, bq, aq)[n.price.0].contains(x)
        }
}

/// Every indexed id points at an occupied slot holding an order with that id.
pub open spec fn index_ok(a: Seq<Option<BookNode>>, index: Map<u64, usize>) -> bool {
    forall|id: u64|
        #[trigger] index.contains_key(id) ==> {
            &&& index[id] < a.len()
            &&& a[index[id] as int] is Some
            &&& a[index[id] as int].unwrap().order_id.0 == id
        }
}


/// The view of a side whose queues are well linked has the shape `side_wf`
/// describes.
pub(crate) proof fn lemma_side_view_wf(
    a: Seq<Option<BookNode>>,
    side: Side,
    lv: Map<u64, PriceLevel>,
    qs: Map<u64, Seq<usize>>,
)
    requires
        side_ok(a, side, lv, qs),
    ensures
        side_wf(side_view(a, qs)),
        forall|p: u64| #[trigger] side_view(a, qs).contains_key(p) <==> qs.contains_key(p),
        forall|p: u64, i: int|
            #![trigger side_view(a, qs)[p][i]]
            qs.contains_key(p) && 0 <= i < qs[p].len() ==> side_view(a, qs)[p].len() == qs[p].len()
                && side_view(a, qs)[p][i] == resting_at(a, qs[p][i]),
{
    let v = side_view(a, qs);
    assert(v.dom() =~= qs.dom());
    assert forall|p: u64| #[trigger] v.contains_key(p) implies v[p].len() > 0 by {
        assert(queue_ok(a, side, p, qs[p], lv[p]));
    }
    assert forall|p: u64, i: int|
        #![trigger v[p][i]]
        v.contains_key(p) && 0 <= i < v[p].len() implies v[p][i].qty > 0 by {
        assert(queue_ok(a, side, p, qs[p], lv[p]));
        assert(node_ok(a, side, p, qs[p], i));
    }
    assert forall|p: u64, i: int, q: u64, j: int|
        #![trigger v[p][i], v[q][j]]
        v.contains_key(p) && 0 <= i < v[p].len() && v.contains_key(q) && 0 <= j < v[q].len()
            && v[p][i].slot == v[q][j].slot implies p == q && i == j by {
        assert(queue_ok(a, side, p, qs[p], lv[p]));
        assert(queue_ok(a, side, q, qs[q], lv[q]));
        assert(node_ok(a, side, p, qs[p], i));
        assert(node_ok(a, side, q, qs[q], j));
    }
}


/// A slot queued on a well-linked side holds a node of that side and price.
pub(crate) proof fn lemma_owner(
    a: Seq<Option<BookNode>>,
    side: Side,
    lv: Map<u64, PriceLevel>,
    qs: Map<u64, Seq<usize>>,
    p: u64,
    x: usize,
)
    requires
        side_ok(a, side, lv, qs),
        qs.contains_key(p),
        qs[p].contains(x),
    ensures
        x < a.len(),
        a[x as int] is Some,
        a[x as int].unwrap().side == side,
        a[x as int].unwrap().price.0 == p,
{
    let i = qs[p].index_of(x);
    assert(queue_ok(a, side, p, qs[p], lv[p]));
    assert(node_ok(a, side, p, qs[p], i));
}

/// Changing the arena only at slots that no queue of a side holds keeps
/// that side well linked and leaves its view as it was.
pub(crate) proof fn lemma_side_frame(
    a1: Seq<Option<BookNode>>,
    a2: Seq<Option<BookNode>>,
    side: Side,
    lv: Map<u64, PriceLevel>,
    qs: Map<u64, Seq<usize>>,
    changed: Set<usize>,
)
    requires
        side_ok(a1, side, lv, qs),
        a1.len() <= a2.len(),
        forall|y: usize|
            y < a1.len() && !changed.contains(y) ==> #[trigger] a2[y as int] == a1[y as int],
        forall|p: u64, x: usize| qs.contains_key(p) && changed.contains(x) ==> !qs[p].contains(x),
    ensures
        side_ok(a2, side, lv, qs),
        side_view(a2, qs) == side_view(a1, qs),
{
    assert forall|p: u64| #[trigger] qs.contains_key(p) implies queue_ok(a2, side, p, qs[p], lv[p])
        && queue_view(a2, qs[p]) == queue_view(a1, qs[p]) by {
        assert(queue_ok(a1, side, p, qs[p], lv[p]));
        assert forall|i: int| 0 <= i < qs[p].len() implies #[trigger] node_ok(a2, side, p, qs[p], i)
            && a2[qs[p][i] as int] == a1[qs[p][i] as int] by {
            assert(node_ok(a1, side, p, qs[p], i));
            assert(qs[p].contains(qs[p][i]));
        }
        assert forall|i: int| 0 <= i < qs[p].len() implies queue_view(a2, qs[p])[i] == queue_view(
            a1,
            qs[p],
        )[i] by {
            assert(node_ok(a1, side, p, qs[p], i));
            assert(qs[p].contains(qs[p][i]));
            assert(a2[qs[p][i] as int] == a1[qs[p][i] as int]);
        }
        assert(queue_view(a2, qs[p]) =~= queue_view(a1, qs[p]));
    }
    assert(side_view(a2, qs) =~= side_view(a1, qs));
}

/// Putting a well-linked queue at a price of an otherwise well-linked side.
pub(crate) proof fn lemma_side_insert(
    a: Seq<Option<BookNode>>,
    side: Side,
    lv: Map<u64, PriceLevel>,
    qs: Map<u64, Seq<usize>>,
    p: u64,
    lvl: PriceLevel,
    q: Seq<usize>,
)
    requires
        side_ok(a, side, lv.remove(p), qs.remove(p)),
        queue_ok(a, side, p, q, lvl),
    ensures
        side_ok(a, side, lv.insert(p, lvl), qs.insert(p, q)),
        side_view(a, qs.insert(p, q)) == side_view(a, qs.remove(p)).insert(p, queue_view(a, q)),
{
    let lv2 = lv.insert(p, lvl);
    let qs2 = qs.insert(p, q);
    assert(lv2.dom() =~= lv.remove(p).dom().insert(p));
    assert(qs2.dom() =~= qs.remove(p).dom().insert(p));
    assert forall|k: u64| #[trigger] qs2.contains_key(k) implies queue_ok(a, side, k, qs2[k], lv2[k]) by {
        if k != p {
            assert(qs.remove(p).contains_key(k));
        }
    }
    assert(side_view(a, qs2) =~= side_view(a, qs.remove(p)).insert(p, queue_view(a, q)));
}

/// Taking a price out of a well-linked side.
pub(crate) proof fn lemma_side_remove(
    a: Seq<Option<BookNode>>,
    side: Side,
    lv: Map<u64, PriceLevel>,
    qs: Map<u64, Seq<usize>>,
    p: u64,
)
    requires
        side_ok(a, side, lv, qs),
    ensures
        side_ok(a, side, lv.remove(p), qs.remove(p)),
        side_view(a, qs.remove(p)) == side_view(a, qs).remove(p),
{
    assert(lv.remove(p).dom() =~= qs.remove(p).dom());
    assert forall|k: u64| #[trigger] qs.remove(p).contains_key(k) implies queue_ok(
        a,
        side,
        k,
        qs.remove(p)[k],
        lv.remove(p)[k],
    ) by {
        assert(qs.contains_key(k));
    }
    assert(side_view(a, qs.remove(p)) =~= side_view(a, qs).remove(p));
}


/// Appending a fresh node behind the tail of a well-linked queue, with the
/// old tail pointing forward to it, gives a well-linked queue.
pub(crate) proof fn lemma_queue_push(
    a0: Seq<Option<BookNode>>,
    a3: Seq<Option<BookNode>>,
    side: Side,
    p: u64,
    q: Seq<usize>,
    lvl: PriceLevel,
    idx: usize,
)
    requires
        queue_ok(a0, side, p, q, lvl),
        !q.contains(idx),
        a0.len() <= a3.len(),
        idx < a3.len(),
        forall|y: usize|
            y < a0.len() && y != idx && y != q[q.len() - 1] ==> #[trigger] a3[y as int] == a0[y as int],
        a3[q[q.len() - 1] as int] == Some(
            BookNode { next: Some(idx), ..a0[q[q.len() - 1] as int].unwrap() },
        ),
        a3[idx as int] is Some,
        a3[idx as int].unwrap().side == side,
        a3[idx as int].unwrap().price.0 == p,
        a3[idx as int].unwrap().remaining.0 > 0,
        a3[idx as int].unwrap().prev == Some(q[q.len() - 1]),
        a3[idx as int].unwrap().next == None::<usize>,
    ensures
        queue_ok(a3, side, p, q.push(idx), PriceLevel { head: lvl.head, tail: Some(idx) }),
        queue_view(a3, q.push(idx)) == queue_view(a0, q).push(resting_at(a3, idx)),
{
    let q2 = q.push(idx);
    let n = q.len();
    assert(q2.no_duplicates()) by {
        assert forall|i: int, j: int| 0 <= i < q2.len() && 0 <= j < q2.len() && i != j implies q2[i]
            != q2[j] by {
            if i < n && j < n {
            } else if i == n {
                assert(q.contains(q[j]));
            } else {
                assert(q.contains(q[i]));
            }
        }
    }
    assert forall|i: int| 0 <= i < q2.len() implies #[trigger] node_ok(a3, side, p, q2, i) by {
        if i < n {
            assert(node_ok(a0, side, p, q, i));
            if i < n - 1 {
                assert(q[i] != q[n - 1]);
                assert(q.contains(q[i]));
                assert(a3[q[i] as int] == a0[q[i] as int]);
            }
        }
    }
    assert forall|i: int| 0 <= i < q2.len() implies queue_view(a3, q2)[i] == queue_view(a0, q).push(
        resting_at(a3, idx),
    )[i] by {
        if i < n {
            assert(node_ok(a0, side, p, q, i));
            if i < n - 1 {
                assert(q[i] != q[n - 1]);
                assert(q.contains(q[i]));
                assert(a3[q[i] as int] == a0[q[i] as int]);
            }
        }
    }
    assert(queue_view(a3, q2) =~= queue_view(a0, q).push(resting_at(a3, idx)));
}


/// Unlinking the `i`th node of a well-linked queue of two or more, with its
/// neighbours pointing past it and the level's ends moved off it, leaves a
/// well-linked queue without it.
pub(crate) proof fn lemma_queue_unlink(
    a0: Seq<Option<BookNode>>,
    a3: Seq<Option<BookNode>>,
    side: Side,
    p: u64,
    q: Seq<usize>,
    lvl: PriceLevel,
    i: int,
    lvl2: PriceLevel,
)
    requires
        queue_ok(a0, side, p, q, lvl),
        0 <= i < q.len(),
        q.len() > 1,
        a0.len() <= a3.len(),
        forall|y: usize|
            y < a0.len() && y != q[i] && (i == 0 || y != q[i - 1]) && (i == q.len() - 1 || y != q[i
                + 1]) ==> #[trigger] a3[y as int] == a0[y as int],
        i > 0 ==> a3[q[i - 1] as int] == Some(
            BookNode { next: a0[q[i] as int].unwrap().next, ..a0[q[i - 1] as int].unwrap() },
        ),
        i < q.len() - 1 ==> a3[q[i + 1] as int] == Some(
            BookNode { prev: a0[q[i] as int].unwrap().prev, ..a0[q[i + 1] as int].unwrap() },
        ),
        lvl2.head == (if i == 0 {
            Some(q[1])
        } else {
            lvl.head
        }),
        lvl2.tail == (if i == q.len() - 1 {
            Some(q[q.len() - 2])
        } else {
            lvl.tail
        }),
    ensures
        queue_ok(a3, side, p, q.remove(i), lvl2),
        queue_view(a3, q.remove(i)) == queue_view(a0, q).remove(i),
{
    let q2 = q.remove(i);
    let n = q.len();
    assert(node_ok(a0, side, p, q, i));
    assert(q2.no_duplicates()) by {
        assert forall|j: int, k: int| 0 <= j < q2.len() && 0 <= k < q2.len() && j != k implies q2[j]
            != q2[k] by {
            let jj = if j < i { j } else { j + 1 };
            let kk = if k < i { k } else { k + 1 };
            assert(q2[j] == q[jj]);
            assert(q2[k] == q[kk]);
        }
    }
    assert forall|j: int| 0 <= j < q2.len() implies #[trigger] node_ok(a3, side, p, q2, j)
        && resting_at(a3, q2[j]) == resting_at(a0, q[if j < i { j } else { j + 1 }]) by {
        let jj = if j < i { j } else { j + 1 };
        assert(q2[j] == q[jj]);
        assert(node_ok(a0, side, p, q, jj));
        assert(q[jj] != q[i]);
        if jj + 1 < n && jj + 1 != i {
            assert(q[jj] != q[jj + 1]);
        }
        if jj > 0 && jj - 1 != i {
            assert(q[jj] != q[jj - 1]);
        }
        if i > 0 && jj != i - 1 {
            assert(q[jj] != q[i - 1]);
        }
        if i < n - 1 && jj != i + 1 {
            assert(q[jj] != q[i + 1]);
        }
        if i > 0 && jj == i - 1 {
            assert(node_ok(a0, side, p, q, i - 1));
        }
        if i < n - 1 && jj == i + 1 {
            assert(node_ok(a0, side, p, q, i + 1));
        }
    }
    assert forall|j: int| 0 <= j < q2.len() implies queue_view(a3, q2)[j] == queue_view(a0, q).remove(
        i,
    )[j] by {
        assert(node_ok(a3, side, p, q2, j));
    }
    assert(queue_view(a3, q2) =~= queue_view(a0, q).remove(i));
}


/// After the `i`th slot of the queue at `price` on `side` is freed and
/// dropped from its queue, every occupied slot is still queued at its own
/// side and price.
pub(crate) proof fn lemma_placed_after_unlink(
    a0: Seq<Option<BookNode>>,
    a3: Seq<Option<BookNode>>,
    bq0: Map<u64, Seq<usize>>,
    aq0: Map<u64, Seq<usize>>,
    bq3: Map<u64, Seq<usize>>,
    aq3: Map<u64, Seq<usize>>,
    side: Side,
    price: u64,
    i: int,
)
    requires
        placed(a0, bq0, aq0),
        queues_of(side, bq0, aq0).contains_key(price),
        0 <= i < queues_of(side, bq0, aq0)[price].len(),
        a3.len() == a0.len(),
        a3[queues_of(side, bq0, aq0)[price][i] as int] is None,
        forall|x: usize|
            x < a3.len() && #[trigger] a3[x as int] is Some ==> a0[x as int] is Some && a0[x as int].unwrap().side
                == a3[x as int].unwrap().side && a0[x as int].unwrap().price == a3[x as int].unwrap().price,
        queues_of(side, bq0, aq0)[price].len() == 1 ==> queues_of(side, bq3, aq3) == queues_of(
            side,
            bq0,
            aq0,
        ).remove(price),
        queues_of(side, bq0, aq0)[price].len() > 1 ==> queues_of(side, bq3, aq3) == queues_of(
            side,
            bq0,
            aq0,
        ).insert(price, queues_of(side, bq0, aq0)[price].remove(i)),
        side == Side::Buy ==> aq3 == aq0,
        side == Side::Sell ==> bq3 == bq0,
    ensures
        placed(a3, bq3, aq3),
{
    let q = queues_of(side, bq0, aq0)[price];
    let slot = q[i];
    assert forall|x: usize| #![trigger a3[x as int]] x < a3.len() && a3[x as int] is Some implies {
        let m = a3[x as int].unwrap();
        &&& queues_of(m.side, bq3, aq3).contains_key(m.price.0)
        &&& queues_of(m.side, bq3, aq3)[m.price.0].contains(x)
    } by {
        let m = a3[x as int].unwrap();
        assert(a0[x as int] is Some);
        let oq = queues_of(m.side, bq0, aq0)[m.price.0];
        assert(oq.contains(x));
        if m.side == side && m.price.0 == price {
            let j = oq.index_of(x);
            assert(oq =~= q);
            assert(x != slot);
            assert(j != i);
            if j < i {
                assert(q.remove(i)[j] == x);
            } else {
                assert(q.remove(i)[j - 1] == x);
            }
        }
    }
}

} // verus!
