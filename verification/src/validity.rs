//! Every operation on a book keeps it valid.
use crate::filters::{lemma_filter_members, lemma_filter_partition};
use crate::fixed::DUST;
use crate::ladder::ahead;
use crate::matching::{all_live, lemma_crossing_prefix, lemma_fills_at, lemma_fills_bounds};
use crate::model::{
    crosses, crossing, enqueue, filled_ids, fills, in_price_order, is_filled, may_rest, reduced,
    sum, survivors, without, BookView,
};
use crate::order::{Order, Side};
use vstd::prelude::*;

verus! {

/// A part of a queue in price order is in price order.
pub proof fn lemma_filter_ordered(side: Side, q: Seq<Order>, keep: spec_fn(Order) -> bool)
    requires
        in_price_order(side, q),
    ensures
        in_price_order(side, q.filter(keep)),
    decreases q.len(),
{
    reveal(Seq::filter);
    if q.len() > 0 {
        let front = q.drop_last();
        assert forall|i: int, j: int| 0 <= i < j < front.len() implies !ahead(
            side,
            #[trigger] front[j].price,
            #[trigger] front[i].price,
        ) by {
            assert(front[i] == q[i]);
            assert(front[j] == q[j]);
        }
        lemma_filter_ordered(side, front, keep);
        let kept = front.filter(keep);
        lemma_filter_members(front, keep);
        if keep(q.last()) {
            let all = q.filter(keep);
            assert(all == kept.push(q.last()));
            assert forall|i: int, j: int| 0 <= i < j < all.len() implies !ahead(
                side,
                #[trigger] all[j].price,
                #[trigger] all[i].price,
            ) by {
                assert(all[i] == kept[i]);
                if j < kept.len() {
                    assert(all[j] == kept[j]);
                } else {
                    assert(front.contains(kept[i]));
                    let x = choose|x: int| 0 <= x < front.len() && front[x] == kept[i];
                    assert(q[x] == kept[i]);
                    assert(!ahead(side, q[q.len() - 1].price, q[x].price));
                }
            }
        }
    }
}

/// The queue with a new order in it is in price order, and holds the new order
/// and the old ones.
pub proof fn lemma_enqueue(side: Side, q: Seq<Order>, o: Order)
    requires
        in_price_order(side, q),
    ensures
        in_price_order(side, enqueue(side, q, o)),
        enqueue(side, q, o).len() == q.len() + 1,
        enqueue(side, q, o).contains(o),
        forall|i: int|
            0 <= i < enqueue(side, q, o).len() ==> #[trigger] enqueue(side, q, o)[i] == o
                || q.contains(enqueue(side, q, o)[i]),
        forall|i: int| 0 <= i < q.len() ==> enqueue(side, q, o).contains(#[trigger] q[i]),
{
    let early = |x: Order| !ahead(side, o.price, x.price);
    let late = |x: Order| ahead(side, o.price, x.price);
    let a = q.filter(early);
    let b = q.filter(late);
    let all = enqueue(side, q, o);
    assert(all == a + seq![o] + b);
    lemma_filter_members(q, early);
    lemma_filter_members(q, late);
    lemma_filter_ordered(side, q, early);
    lemma_filter_ordered(side, q, late);
    lemma_filter_partition(q, early, late);
    assert forall|i: int, j: int| 0 <= i < j < all.len() implies !ahead(
        side,
        #[trigger] all[j].price,
        #[trigger] all[i].price,
    ) by {
        if i < a.len() {
            assert(all[i] == a[i]);
        } else if i > a.len() {
            assert(all[i] == b[i - a.len() - 1]);
        }
        if j < a.len() {
            assert(all[j] == a[j]);
        } else if j > a.len() {
            assert(all[j] == b[j - a.len() - 1]);
        }
    }
    assert(all[a.len() as int] == o);
    assert forall|i: int| 0 <= i < all.len() implies #[trigger] all[i] == o || q.contains(
        all[i],
    ) by {
        if i < a.len() {
            assert(all[i] == a[i]);
        } else if i > a.len() {
            assert(all[i] == b[i - a.len() - 1]);
        }
    }
    assert forall|i: int| 0 <= i < q.len() implies all.contains(#[trigger] q[i]) by {
        if early(q[i]) {
            assert(a.contains(q[i]));
            let x = choose|x: int| 0 <= x < a.len() && a[x] == q[i];
            assert(all[x] == q[i]);
        } else {
            assert(late(q[i]));
            assert(b.contains(q[i]));
            let x = choose|x: int| 0 <= x < b.len() && b[x] == q[i];
            assert(all[a.len() + 1 + x] == q[i]);
        }
    }
}

/// Whether `a` and `b` carry the same id, are of the same kind and rest at the
/// same price on the same side.
pub open spec fn same_place(a: Order, b: Order) -> bool {
    &&& a.id == b.id
    &&& a.price == b.price
    &&& a.side == b.side
    &&& a.order_type == b.order_type
    &&& a.tif == b.tif
}

/// What a taker leaves of a queue: still in price order and live, only orders
/// that were there (one of them perhaps reduced), and all of those that are not
/// filled.
pub proof fn lemma_survivors(side: Side, q: Seq<Order>, taker: Order)
    requires
        in_price_order(side, q),
        all_live(q),
        taker.side == side.opposite(),
    ensures
        ({
            let amounts = fills(crossing(q, taker), taker.remaining_qty as int);
            let kept = survivors(q, amounts);
            &&& amounts.len() <= q.len()
            &&& in_price_order(side, kept)
            &&& all_live(kept)
            &&& kept.len() <= q.len()
            &&& forall|i: int|
                0 <= i < kept.len() ==> same_place(
                    #[trigger] kept[i],
                    q[i + q.len() - kept.len()],
                )
            &&& forall|j: int|
                0 <= j < q.len() - kept.len() ==> filled_ids(q, amounts).contains(
                    (#[trigger] q[j]).id,
                )
            &&& taker.remaining_qty - sum(amounts) > DUST ==> forall|i: int|
                0 <= i < kept.len() ==> !crosses(taker, (#[trigger] kept[i]).price)
            &&& kept.len() + amounts.len() <= q.len() + 1
            &&& kept.len() + amounts.len() == q.len() + 1 ==> taker.remaining_qty == sum(amounts)
        }),
{
    let want = taker.remaining_qty as int;
    let n = lemma_crossing_prefix(side, q, taker);
    let makers = crossing(q, taker);
    let amounts = fills(makers, want);
    let kept = survivors(q, amounts);
    assert forall|i: int| 0 <= i < makers.len() implies (#[trigger] makers[i]).remaining_qty
        > DUST && makers[i] == q[i] by {
        assert(makers[i] == q[i]);
    }
    lemma_fills_at(makers, want, 0);
    lemma_fills_at(makers, want, amounts.len() as int);
    lemma_fills_bounds(makers, want);
    let m = amounts.len() as int;
    let whole = m > 0 && !is_filled(q, amounts, m - 1);
    let from = if whole {
        m - 1
    } else {
        m
    };
    assert(kept.len() == q.len() - from);
    assert forall|i: int| 0 <= i < kept.len() implies same_place(#[trigger] kept[i], q[from + i])
        && kept[i].remaining_qty > DUST by {
        if whole && i == 0 {
            assert(kept[0] == reduced(q[m - 1], amounts[m - 1]));
            assert(0 < amounts[m - 1] <= makers[m - 1].remaining_qty);
        } else {
            assert(kept[i] == q[from + i]);
        }
    }
    assert(in_price_order(side, kept));
    assert forall|j: int| 0 <= j < from implies filled_ids(q, amounts).contains(
        (#[trigger] q[j]).id,
    ) by {
        if j < m - 1 {
            assert(amounts[j] == makers[j].remaining_qty);
        }
        assert(is_filled(q, amounts, j));
    }
    if whole {
        assert(is_filled(q, amounts, m - 1) == is_filled(makers, amounts, m - 1));
    }
    if want - sum(amounts) > DUST {
        assert(m == makers.len());
        assert(!whole);
        assert forall|i: int| 0 <= i < kept.len() implies !crosses(
            taker,
            (#[trigger] kept[i]).price,
        ) by {
            assert(!crosses(taker, q[from + i].price));
        }
    }
}

/// A valid book is valid after a taker has met the makers; and a taker that
/// still wants more than dust then crosses nothing on the other side.
pub proof fn lemma_matched_valid(v: BookView, taker: Order)
    requires
        v.valid(),
    ensures
        v.matched(taker).valid(),
        v.unfilled(taker) > DUST ==> forall|i: int|
            0 <= i < v.matched(taker).queue(taker.side.opposite()).len() ==> !crosses(
                taker,
                (#[trigger] v.matched(taker).queue(taker.side.opposite())[i]).price,
            ),
{
    let side = taker.side.opposite();
    let q = v.queue(side);
    let w = v.matched(taker);
    assert(in_price_order(side, q));
    assert(all_live(q)) by {
        assert forall|i: int| 0 <= i < q.len() implies (#[trigger] q[i]).remaining_qty > DUST by {
            assert(v.queue(side)[i].side == side);
        }
    }
    lemma_survivors(side, q, taker);
    let amounts = v.fills(taker);
    let kept = survivors(q, amounts);
    let gone = q.len() - kept.len();
    assert(w.queue(side) == kept);
    assert(w.queue(taker.side) == v.queue(taker.side));
    assert forall|s: Side| #[trigger] in_price_order(s, w.queue(s)) by {
        assert(in_price_order(s, v.queue(s)));
    }
    assert forall|s: Side, i: int| 0 <= i < w.queue(s).len() implies (#[trigger] w.queue(
        s,
    )[i]).side == s && w.queue(s)[i].remaining_qty > DUST && may_rest(w.queue(s)[i]) by {
        if s == side {
            assert(w.queue(s)[i] == kept[i]);
            assert(v.queue(side)[i + gone].side == side);
        } else {
            assert(w.queue(s)[i] == v.queue(s)[i]);
        }
    }
    assert forall|i: int, j: int| 0 <= i < w.bids.len() && 0 <= j < w.asks.len() implies (
    #[trigger] w.bids[i]).price < (#[trigger] w.asks[j]).price by {
        match side {
            Side::Buy => {
                assert(w.bids[i] == kept[i]);
                assert(v.bids[i + gone].price < v.asks[j].price);
            },
            Side::Sell => {
                assert(w.asks[j] == kept[j]);
                assert(v.bids[i].price < v.asks[j + gone].price);
            },
        }
    }
    assert forall|id: u64| #[trigger] w.index.contains_key(id) implies w.holds(
        id,
        w.index[id].0,
        w.index[id].1,
    ) by {
        let (s, p) = v.index[id];
        assert(v.index.contains_key(id));
        assert(v.holds(id, s, p));
        let j = choose|j: int|
            0 <= j < v.queue(s).len() && #[trigger] v.queue(s)[j].id == id && v.queue(s)[j].price
                == p;
        if s == side {
            assert(!filled_ids(q, amounts).contains(q[j].id));
            assert(same_place(kept[j - gone], q[j]));
            assert(w.queue(s)[j - gone].id == id);
        } else {
            assert(w.queue(s)[j].id == id);
        }
    }
}

/// A valid book is valid with one more good-till-cancelled limit order in it, if
/// the order has more than dust left and crosses nothing.
pub proof fn lemma_rested_valid(v: BookView, o: Order)
    requires
        v.valid(),
        o.remaining_qty > DUST,
        may_rest(o),
        forall|i: int|
            0 <= i < v.queue(o.side.opposite()).len() ==> !crosses(
                o,
                (#[trigger] v.queue(o.side.opposite())[i]).price,
            ),
    ensures
        v.rested(o).valid(),
{
    let w = v.rested(o);
    let q = v.queue(o.side);
    assert(in_price_order(o.side, q));
    lemma_enqueue(o.side, q, o);
    let all = enqueue(o.side, q, o);
    assert(w.queue(o.side) == all);
    assert(w.queue(o.side.opposite()) == v.queue(o.side.opposite()));
    assert forall|s: Side| #[trigger] in_price_order(s, w.queue(s)) by {
        assert(in_price_order(s, v.queue(s)));
    }
    assert forall|s: Side, i: int| 0 <= i < w.queue(s).len() implies (#[trigger] w.queue(
        s,
    )[i]).side == s && w.queue(s)[i].remaining_qty > DUST && may_rest(w.queue(s)[i]) by {
        if s == o.side {
            assert(w.queue(s)[i] == all[i]);
            if all[i] != o {
                let x = choose|x: int| 0 <= x < q.len() && q[x] == all[i];
                assert(v.queue(s)[x].side == s);
            }
        } else {
            assert(w.queue(s)[i] == v.queue(s)[i]);
        }
    }
    assert forall|i: int, j: int| 0 <= i < w.bids.len() && 0 <= j < w.asks.len() implies (
    #[trigger] w.bids[i]).price < (#[trigger] w.asks[j]).price by {
        match o.side {
            Side::Buy => {
                assert(w.bids[i] == all[i]);
                assert(w.asks[j] == v.asks[j]);
                assert(!crosses(o, v.queue(o.side.opposite())[j].price));
                if all[i] != o {
                    let x = choose|x: int| 0 <= x < q.len() && q[x] == all[i];
                    assert(v.bids[x].price < v.asks[j].price);
                }
            },
            Side::Sell => {
                assert(w.asks[j] == all[j]);
                assert(w.bids[i] == v.bids[i]);
                assert(!crosses(o, v.queue(o.side.opposite())[i].price));
                if all[j] != o {
                    let x = choose|x: int| 0 <= x < q.len() && q[x] == all[j];
                    assert(v.bids[i].price < v.asks[x].price);
                }
            },
        }
    }
    assert forall|id: u64| #[trigger] w.index.contains_key(id) implies w.holds(
        id,
        w.index[id].0,
        w.index[id].1,
    ) by {
        if id == o.id {
            let i = choose|i: int| 0 <= i < all.len() && all[i] == o;
            assert(w.queue(o.side)[i].id == id);
        } else {
            let (s, p) = v.index[id];
            assert(v.index.contains_key(id));
            assert(v.holds(id, s, p));
            let j = choose|j: int|
                0 <= j < v.queue(s).len() && #[trigger] v.queue(s)[j].id == id
                    && v.queue(s)[j].price == p;
            if s == o.side {
                assert(all.contains(q[j]));
                let i = choose|i: int| 0 <= i < all.len() && all[i] == q[j];
                assert(w.queue(s)[i].id == id);
            } else {
                assert(w.queue(s)[j].id == id);
            }
        }
    }
}

/// A valid book stays valid whatever is submitted: in particular its best bid
/// stays below its best ask.
pub proof fn lemma_submitted_valid(v: BookView, order: Order)
    requires
        v.valid(),
    ensures
        v.submitted(order).valid(),
{
    if !v.rejects(order) {
        lemma_matched_valid(v, order);
        if v.keeps(order) {
            let side = order.side.opposite();
            let q = v.queue(side);
            assert(all_live(q)) by {
                assert forall|i: int| 0 <= i < q.len() implies (#[trigger] q[i]).remaining_qty
                    > DUST by {
                    assert(v.queue(side)[i].side == side);
                }
            }
            assert(in_price_order(side, q));
            let n = lemma_crossing_prefix(side, q, order);
            let makers = v.makers(order);
            assert forall|i: int| 0 <= i < makers.len() implies (
            #[trigger] makers[i]).remaining_qty > DUST by {
                assert(makers[i] == q[i]);
            }
            lemma_fills_bounds(makers, order.remaining_qty as int);
            let o = Order { remaining_qty: v.unfilled(order) as i64, ..order };
            let w = v.matched(order);
            assert forall|i: int| 0 <= i < w.queue(o.side.opposite()).len() implies !crosses(
                o,
                (#[trigger] w.queue(o.side.opposite())[i]).price,
            ) by {
                assert(!crosses(order, w.queue(order.side.opposite())[i].price));
            }
            lemma_rested_valid(w, o);
        }
    }
}

/// A valid book stays valid whatever is cancelled.
pub proof fn lemma_cancelled_valid(v: BookView, id: u64)
    requires
        v.valid(),
    ensures
        v.cancelled(id).valid(),
{
    if v.index.contains_key(id) {
        let (side, price) = v.index[id];
        let keep = |x: Order| !(x.id == id && x.price == price);
        let q = v.queue(side);
        let kept = without(q, id, price);
        let w = v.cancelled(id);
        assert(w.queue(side) == kept);
        assert(w.queue(side.opposite()) == v.queue(side.opposite()));
        assert(in_price_order(side, q));
        lemma_filter_members(q, keep);
        lemma_filter_ordered(side, q, keep);
        assert forall|s: Side| #[trigger] in_price_order(s, w.queue(s)) by {
            assert(in_price_order(s, v.queue(s)));
        }
        assert forall|s: Side, i: int| 0 <= i < w.queue(s).len() implies (#[trigger] w.queue(
            s,
        )[i]).side == s && w.queue(s)[i].remaining_qty > DUST && may_rest(w.queue(s)[i]) by {
            if s == side {
                assert(q.contains(kept[i]));
                let x = choose|x: int| 0 <= x < q.len() && q[x] == kept[i];
                assert(v.queue(s)[x].side == s);
            } else {
                assert(w.queue(s)[i] == v.queue(s)[i]);
            }
        }
        assert forall|i: int, j: int| 0 <= i < w.bids.len() && 0 <= j < w.asks.len() implies (
        #[trigger] w.bids[i]).price < (#[trigger] w.asks[j]).price by {
            match side {
                Side::Buy => {
                    assert(q.contains(kept[i]));
                    let x = choose|x: int| 0 <= x < q.len() && q[x] == kept[i];
                    assert(v.bids[x].price < v.asks[j].price);
                },
                Side::Sell => {
                    assert(q.contains(kept[j]));
                    let x = choose|x: int| 0 <= x < q.len() && q[x] == kept[j];
                    assert(v.bids[i].price < v.asks[x].price);
                },
            }
        }
        assert forall|other: u64| #[trigger] w.index.contains_key(other) implies w.holds(
            other,
            w.index[other].0,
            w.index[other].1,
        ) by {
            let (s, p) = v.index[other];
            assert(v.index.contains_key(other));
            assert(v.holds(other, s, p));
            let j = choose|j: int|
                0 <= j < v.queue(s).len() && #[trigger] v.queue(s)[j].id == other
                    && v.queue(s)[j].price == p;
            if s == side {
                assert(keep(q[j]));
                assert(kept.contains(q[j]));
                let i = choose|i: int| 0 <= i < kept.len() && kept[i] == q[j];
                assert(w.queue(s)[i].id == other);
            } else {
                assert(w.queue(s)[j].id == other);
            }
        }
    }
}

} // verus!
