//! Finding a resting order by its id, and taking it back.
use crate::filters::{lemma_filter_all, lemma_filter_none, lemma_filter_push};
use crate::fixed::DUST;
use crate::history::{history, lemma_history};
use crate::ladder::ahead;
use crate::matching::{lemma_crossing_prefix, lemma_fills_at};
use crate::model::{
    enqueue, filled_ids, in_price_order, is_filled, sum, survivors, without, BookView,
};
use crate::order::{EngineEvent, Order, OrderType, Side, TimeInForce};
use crate::outcome::lemma_same_filter;
use crate::validity::lemma_matched_valid;
use vstd::prelude::*;

verus! {

/// Whether the index leads to every resting order.
pub open spec fn findable(v: BookView) -> bool {
    forall|side: Side, i: int|
        0 <= i < v.queue(side).len() ==> v.index.contains_key((#[trigger] v.queue(side)[i]).id)
            && v.index[v.queue(side)[i].id] == (side, v.queue(side)[i].price)
}

/// Whether no two resting orders carry the same id.
pub open spec fn distinct(v: BookView) -> bool {
    &&& forall|side: Side, i: int, j: int|
        0 <= i < j < v.queue(side).len() ==> (#[trigger] v.queue(side)[i]).id != (
        #[trigger] v.queue(side)[j]).id
    &&& forall|i: int, j: int|
        0 <= i < v.bids.len() && 0 <= j < v.asks.len() ==> (#[trigger] v.bids[i]).id != (
        #[trigger] v.asks[j]).id
}

/// Whether no resting order carries `id`.
pub open spec fn unused(v: BookView, id: u64) -> bool {
    forall|side: Side, i: int|
        0 <= i < v.queue(side).len() ==> (#[trigger] v.queue(side)[i]).id != id
}

/// Whether `ok` holds of the id of every resting order.
pub open spec fn ids_are(v: BookView, ok: spec_fn(u64) -> bool) -> bool {
    forall|side: Side, i: int|
        0 <= i < v.queue(side).len() ==> ok((#[trigger] v.queue(side)[i]).id)
}

/// After a cancellation the index still leads to every resting order.
pub proof fn lemma_cancelled_findable(v: BookView, id: u64, ok: spec_fn(u64) -> bool)
    requires
        findable(v),
        distinct(v),
        ids_are(v, ok),
    ensures
        findable(v.cancelled(id)),
        distinct(v.cancelled(id)),
        unused(v.cancelled(id), id),
        ids_are(v.cancelled(id), ok),
{
    if v.index.contains_key(id) {
        let (side, price) = v.index[id];
        let w = v.cancelled(id);
        let q = v.queue(side);
        let keep = |x: Order| !(x.id == id && x.price == price);
        let at = lemma_filter_places(q, keep);
        assert(w.queue(side) == q.filter(keep));
        assert(w.queue(side.opposite()) == v.queue(side.opposite()));
        assert forall|s: Side, i: int| 0 <= i < w.queue(s).len() implies exists|j: int|
            0 <= j < v.queue(s).len() && #[trigger] v.queue(s)[j] == (#[trigger] w.queue(s)[i])
                && w.queue(s)[i].id != id by {
            if s == side {
                assert(q[at[i]] == w.queue(s)[i]);
                assert(v.queue(s)[at[i]] == w.queue(s)[i]);
            } else {
                assert(v.queue(s)[i] == w.queue(s)[i]);
            }
        }
        assert forall|s: Side, i: int, j: int| 0 <= i < j < w.queue(s).len() implies (
        #[trigger] w.queue(s)[i]).id != (#[trigger] w.queue(s)[j]).id by {
            if s == side {
                assert(v.queue(s)[at[i]] == w.queue(s)[i]);
                assert(v.queue(s)[at[j]] == w.queue(s)[j]);
                assert(at[i] < at[j]);
            } else {
                assert(v.queue(s)[i] == w.queue(s)[i] && v.queue(s)[j] == w.queue(s)[j]);
            }
        }
        assert forall|i: int, j: int| 0 <= i < w.bids.len() && 0 <= j < w.asks.len() implies (
        #[trigger] w.bids[i]).id != (#[trigger] w.asks[j]).id by {
            assert(w.queue(Side::Buy)[i] == w.bids[i]);
            assert(w.queue(Side::Sell)[j] == w.asks[j]);
            let x = choose|x: int|
                0 <= x < v.queue(Side::Buy).len() && #[trigger] v.queue(Side::Buy)[x] == w.bids[i];
            let y = choose|y: int|
                0 <= y < v.queue(Side::Sell).len() && #[trigger] v.queue(Side::Sell)[y]
                    == w.asks[j];
            assert(v.bids[x].id != v.asks[y].id);
        }
    } else {
        assert(unused(v, id)) by {
            assert forall|side: Side, i: int| 0 <= i < v.queue(side).len() implies (
            #[trigger] v.queue(side)[i]).id != id by {
                assert(v.index.contains_key(v.queue(side)[i].id));
            }
        }
    }
}

/// Where the elements that a filter keeps were.
proof fn lemma_filter_places(q: Seq<Order>, keep: spec_fn(Order) -> bool) -> (at: Seq<int>)
    ensures
        at.len() == q.filter(keep).len(),
        forall|i: int|
            0 <= i < at.len() ==> 0 <= #[trigger] at[i] < q.len() && q[at[i]] == q.filter(keep)[i]
                && keep(q[at[i]]),
        forall|i: int, j: int| 0 <= i < j < at.len() ==> #[trigger] at[i] < #[trigger] at[j],
    decreases q.len(),
{
    reveal(Seq::filter);
    if q.len() == 0 {
        Seq::empty()
    } else {
        let front = q.drop_last();
        let at = lemma_filter_places(front, keep);
        assert forall|i: int| 0 <= i < at.len() implies 0 <= #[trigger] at[i] < q.len() && q[at[i]]
            == front.filter(keep)[i] && keep(q[at[i]]) by {
            assert(front[at[i]] == q[at[i]]);
        }
        if keep(q.last()) {
            at.push(q.len() - 1)
        } else {
            at
        }
    }
}

/// What a taker leaves of a queue is the end of it, and what is filled is in
/// front of that.
proof fn lemma_survivors_places(q: Seq<Order>, amounts: Seq<int>) -> (gone: int)
    requires
        amounts.len() <= q.len(),
    ensures
        0 <= gone,
        survivors(q, amounts).len() == q.len() - gone,
        forall|i: int|
            0 <= i < survivors(q, amounts).len() ==> (#[trigger] survivors(q, amounts)[i]).id
                == q[i + gone].id && survivors(q, amounts)[i].price == q[i + gone].price,
        forall|k: int| #[trigger] is_filled(q, amounts, k) ==> 0 <= k < gone,
{
    let n = amounts.len() as int;
    if n > 0 && !is_filled(q, amounts, n - 1) {
        n - 1
    } else {
        n
    }
}

/// The orders that a taker leaves, with the places where they were.
proof fn lemma_matched_places(v: BookView, taker: Order) -> (gone: int)
    requires
        v.valid(),
    ensures
        0 <= gone,
        v.matched(taker).queue(taker.side) == v.queue(taker.side),
        v.matched(taker).queue(taker.side.opposite()).len() == v.queue(taker.side.opposite()).len()
            - gone,
        forall|i: int|
            0 <= i < v.matched(taker).queue(taker.side.opposite()).len() ==> (
            #[trigger] v.matched(taker).queue(taker.side.opposite())[i]).id == v.queue(
                taker.side.opposite(),
            )[i + gone].id && v.matched(taker).queue(taker.side.opposite())[i].price == v.queue(
                taker.side.opposite(),
            )[i + gone].price,
        forall|k: int| #[trigger]
            is_filled(v.queue(taker.side.opposite()), v.fills(taker), k) ==> 0 <= k < gone,
{
    let side = taker.side.opposite();
    let q = v.queue(side);
    assert(in_price_order(side, q));
    let n = lemma_crossing_prefix(side, q, taker);
    lemma_fills_at(v.makers(taker), taker.remaining_qty as int, 0);
    lemma_survivors_places(q, v.fills(taker))
}

/// An id that is not among those of the first `gone` orders is not filled.
proof fn lemma_not_filled(q: Seq<Order>, amounts: Seq<int>, gone: int, id: u64)
    requires
        forall|k: int| #[trigger] is_filled(q, amounts, k) ==> 0 <= k < gone,
        forall|k: int| 0 <= k < gone ==> (#[trigger] q[k]).id != id,
    ensures
        !filled_ids(q, amounts).contains(id),
{
}

/// After a taker has met the makers the index still leads to every resting
/// order.
proof fn lemma_matched_findable(v: BookView, taker: Order, ok: spec_fn(u64) -> bool)
    requires
        v.valid(),
        findable(v),
        distinct(v),
        ids_are(v, ok),
    ensures
        findable(v.matched(taker)),
        distinct(v.matched(taker)),
        ids_are(v.matched(taker), ok),
{
    let side = taker.side.opposite();
    let q = v.queue(side);
    let w = v.matched(taker);
    let amounts = v.fills(taker);
    let gone = lemma_matched_places(v, taker);
    assert forall|s: Side, i: int| 0 <= i < w.queue(s).len() implies w.index.contains_key(
        (#[trigger] w.queue(s)[i]).id,
    ) && w.index[w.queue(s)[i].id] == (s, w.queue(s)[i].price) && ok(w.queue(s)[i].id) by {
        let id = w.queue(s)[i].id;
        let j = if s == side {
            i + gone
        } else {
            i
        };
        assert(v.queue(s)[j].id == id);
        assert forall|k: int| 0 <= k < gone implies (#[trigger] q[k]).id != id by {
            assert(v.queue(side)[k] == q[k]);
            if s != side {
                match side {
                    Side::Buy => assert(v.bids[k].id != v.asks[i].id),
                    Side::Sell => assert(v.bids[i].id != v.asks[k].id),
                }
            }
        }
        lemma_not_filled(q, amounts, gone, id);
    }
    assert forall|s: Side, i: int, j: int| 0 <= i < j < w.queue(s).len() implies (
    #[trigger] w.queue(s)[i]).id != (#[trigger] w.queue(s)[j]).id by {
        let d = if s == side {
            gone
        } else {
            0
        };
        assert(v.queue(s)[i + d].id != v.queue(s)[j + d].id);
    }
    assert forall|i: int, j: int| 0 <= i < w.bids.len() && 0 <= j < w.asks.len() implies (
    #[trigger] w.bids[i]).id != (#[trigger] w.asks[j]).id by {
        assert(w.queue(Side::Buy)[i] == w.bids[i]);
        assert(w.queue(Side::Sell)[j] == w.asks[j]);
        match side {
            Side::Buy => assert(v.bids[i + gone].id != v.asks[j].id),
            Side::Sell => assert(v.bids[i].id != v.asks[j + gone].id),
        }
    }
}

/// Where an order comes to rest.
pub proof fn lemma_enqueue_at(side: Side, q: Seq<Order>, o: Order) -> (k: int)
    requires
        in_price_order(side, q),
    ensures
        0 <= k <= q.len(),
        enqueue(side, q, o) == q.insert(k, o),
        forall|i: int| 0 <= i < k ==> !ahead(side, o.price, (#[trigger] q[i]).price),
        forall|i: int| k <= i < q.len() ==> ahead(side, o.price, (#[trigger] q[i]).price),
{
    let early = |x: Order| !ahead(side, o.price, x.price);
    let late = |x: Order| ahead(side, o.price, x.price);
    let k = lemma_price_index(side, q, o.price);
    let a = q.take(k);
    let b = q.skip(k);
    assert(q =~= a + b);
    assert forall|i: int| 0 <= i < b.len() implies late(#[trigger] b[i]) by {
        assert(b[i] == q[k + i]);
    }
    Seq::filter_distributes_over_add(a, b, early);
    Seq::filter_distributes_over_add(a, b, late);
    lemma_filter_all(a, early);
    lemma_filter_none(b, early);
    lemma_filter_none(a, late);
    lemma_filter_all(b, late);
    assert(enqueue(side, q, o) =~= q.insert(k, o));
    k
}

/// Where `price` splits a queue in price order.
proof fn lemma_price_index(side: Side, q: Seq<Order>, price: i64) -> (k: int)
    requires
        in_price_order(side, q),
    ensures
        0 <= k <= q.len(),
        forall|i: int| 0 <= i < k ==> !ahead(side, price, (#[trigger] q[i]).price),
        forall|i: int| k <= i < q.len() ==> ahead(side, price, (#[trigger] q[i]).price),
    decreases q.len(),
{
    if q.len() == 0 {
        0
    } else if !ahead(side, price, q.last().price) {
        assert forall|i: int| 0 <= i < q.len() implies !ahead(
            side,
            price,
            (#[trigger] q[i]).price,
        ) by {
            let last = q.len() - 1;
            if i < last {
                assert(!ahead(side, q[last].price, q[i].price));
            }
        }
        q.len() as int
    } else {
        let front = q.drop_last();
        assert forall|i: int, j: int| 0 <= i < j < front.len() implies !ahead(
            side,
            #[trigger] front[j].price,
            #[trigger] front[i].price,
        ) by {
            assert(!ahead(side, q[j].price, q[i].price));
        }
        let k = lemma_price_index(side, front, price);
        assert forall|i: int| 0 <= i < k implies !ahead(side, price, (#[trigger] q[i]).price) by {
            assert(front[i] == q[i]);
        }
        assert forall|i: int| k <= i < q.len() implies ahead(
            side,
            price,
            (#[trigger] q[i]).price,
        ) by {
            if i < front.len() {
                assert(front[i] == q[i]);
            }
        }
        k
    }
}

/// If `w` is `v` with order `o`, whose id is its own, at place `k` of its side
/// and in the index, the index of `w` leads to every resting order.
proof fn lemma_insertion_findable(
    v: BookView,
    w: BookView,
    o: Order,
    k: int,
    ok: spec_fn(u64) -> bool,
)
    requires
        findable(v),
        distinct(v),
        unused(v, o.id),
        ids_are(v, ok),
        ok(o.id),
        0 <= k <= v.queue(o.side).len(),
        w.queue(o.side) == v.queue(o.side).insert(k, o),
        w.queue(o.side.opposite()) == v.queue(o.side.opposite()),
        w.index == v.index.insert(o.id, (o.side, o.price)),
    ensures
        findable(w),
        distinct(w),
        ids_are(w, ok),
{
    let side = o.side;
    let q = v.queue(side);
    let r = w.queue(side);
    assert forall|s: Side, i: int| 0 <= i < w.queue(s).len() implies w.index.contains_key(
        (#[trigger] w.queue(s)[i]).id,
    ) && w.index[w.queue(s)[i].id] == (s, w.queue(s)[i].price) && ok(w.queue(s)[i].id) by {
        if s == side {
            if i < k {
                assert(r[i] == v.queue(s)[i]);
            } else if i > k {
                assert(r[i] == v.queue(s)[i - 1]);
            }
        } else {
            assert(w.queue(s)[i] == v.queue(s)[i]);
        }
    }
    assert forall|s: Side, i: int, j: int| 0 <= i < j < w.queue(s).len() implies (
    #[trigger] w.queue(s)[i]).id != (#[trigger] w.queue(s)[j]).id by {
        if s == side {
            let x = if i > k {
                i - 1
            } else {
                i
            };
            let y = if j > k {
                j - 1
            } else {
                j
            };
            if i == k {
                assert(r[j] == v.queue(s)[y]);
            } else if j == k {
                assert(r[i] == v.queue(s)[x]);
            } else {
                assert(r[i] == v.queue(s)[x] && r[j] == v.queue(s)[y]);
            }
        } else {
            assert(v.queue(s)[i].id != v.queue(s)[j].id);
        }
    }
    assert forall|i: int, j: int| 0 <= i < w.bids.len() && 0 <= j < w.asks.len() implies (
    #[trigger] w.bids[i]).id != (#[trigger] w.asks[j]).id by {
        match side {
            Side::Buy => {
                assert(w.bids[i] == r[i]);
                assert(v.queue(Side::Sell)[j] == w.asks[j]);
                if i < k {
                    assert(v.bids[i].id != v.asks[j].id);
                } else if i > k {
                    assert(v.bids[i - 1].id != v.asks[j].id);
                }
            },
            Side::Sell => {
                assert(w.asks[j] == r[j]);
                assert(v.queue(Side::Buy)[i] == w.bids[i]);
                if j < k {
                    assert(v.bids[i].id != v.asks[j].id);
                } else if j > k {
                    assert(v.bids[i].id != v.asks[j - 1].id);
                }
            },
        }
    }
}

/// After an order with an id of its own has come to rest, the index leads to
/// every resting order.
proof fn lemma_rested_findable(v: BookView, o: Order, ok: spec_fn(u64) -> bool)
    requires
        v.valid(),
        findable(v),
        distinct(v),
        unused(v, o.id),
        ids_are(v, ok),
        ok(o.id),
    ensures
        findable(v.rested(o)),
        distinct(v.rested(o)),
        ids_are(v.rested(o), ok),
{
    assert(in_price_order(o.side, v.queue(o.side)));
    let k = lemma_enqueue_at(o.side, v.queue(o.side), o);
    lemma_insertion_findable(v, v.rested(o), o, k, ok);
}

/// After the submission of an order with an id of its own the index leads to
/// every resting order.
pub proof fn lemma_submitted_findable(v: BookView, order: Order, ok: spec_fn(u64) -> bool)
    requires
        v.valid(),
        findable(v),
        distinct(v),
        unused(v, order.id),
        ids_are(v, ok),
        ok(order.id),
    ensures
        findable(v.submitted(order)),
        distinct(v.submitted(order)),
        ids_are(v.submitted(order), ok),
{
    if !v.rejects(order) {
        let w = v.matched(order);
        lemma_matched_valid(v, order);
        lemma_matched_findable(v, order, ok);
        if v.keeps(order) {
            lemma_matched_findable(v, order, |id: u64| id != order.id);
            let o = Order { remaining_qty: v.unfilled(order) as i64, ..order };
            lemma_rested_findable(w, o, ok);
        }
    }
}

/// Whether `event` submits an order that carries `id`.
pub open spec fn submits(event: EngineEvent, id: u64) -> bool {
    match event {
        EngineEvent::Submit { order } => order.id == id,
        EngineEvent::Cancel { .. } => false,
    }
}

/// Whether no two of `events` submit orders with the same id.
pub open spec fn fresh_ids(events: Seq<EngineEvent>) -> bool {
    forall|i: int, j: int, id: u64|
        0 <= i < j < events.len() && #[trigger] submits(events[i], id) ==> !(#[trigger] submits(
            events[j],
            id,
        ))
}

/// Whether one of `events` submits an order that carries `id`.
pub open spec fn was_submitted(events: Seq<EngineEvent>, id: u64) -> bool {
    exists|i: int| 0 <= i < events.len() && #[trigger] submits(events[i], id)
}

/// Whether the ids of the orders that `events` submit were given out one by one:
/// no two are the same, and none is beyond `last`.
pub open spec fn issued(events: Seq<EngineEvent>, last: u64) -> bool {
    &&& fresh_ids(events)
    &&& forall|i: int, id: u64|
        0 <= i < events.len() && #[trigger] submits(events[i], id) ==> id <= last
}

/// Ids stay given out one by one when the next one is submitted, and when an
/// order is cancelled.
pub proof fn lemma_issued_push(events: Seq<EngineEvent>, last: u64, event: EngineEvent)
    requires
        issued(events, last),
    ensures
        event is Cancel ==> issued(events.push(event), last),
        last < u64::MAX && submits(event, (last + 1) as u64) ==> issued(
            events.push(event),
            (last + 1) as u64,
        ),
{
    let all = events.push(event);
    assert forall|i: int, id: u64|
        0 <= i < all.len() && #[trigger] submits(all[i], id) implies (i < events.len() && submits(
        events[i],
        id,
    )) || all[i] == event by {
        if i < events.len() {
            assert(all[i] == events[i]);
        }
    }
    if event is Cancel || last < u64::MAX && submits(event, (last + 1) as u64) {
        assert forall|i: int, j: int, id: u64|
            0 <= i < j < all.len() && #[trigger] submits(all[i], id) implies !(#[trigger] submits(
            all[j],
            id,
        )) by {
            assert(all[i] == events[i]);
            assert(submits(events[i], id));
            if j < events.len() {
                assert(all[j] == events[j]);
            }
        }
    }
}

/// If every order has an id of its own, every resting order can be cancelled:
/// the index leads to each of them, whatever the events were.
pub proof fn lemma_every_resting_order_is_found(events: Seq<EngineEvent>)
    requires
        events.len() <= u64::MAX,
        fresh_ids(events),
    ensures
        findable(history(events).book),
        distinct(history(events).book),
        ids_are(history(events).book, |id: u64| was_submitted(events, id)),
    decreases events.len(),
{
    if events.len() > 0 {
        let front = events.drop_last();
        let last = events.last();
        let v = history(front).book;
        let before = |id: u64| was_submitted(front, id);
        let now = |id: u64| was_submitted(events, id);
        assert forall|i: int, j: int, id: u64|
            0 <= i < j < front.len() && #[trigger] submits(front[i], id) implies !(
        #[trigger] submits(front[j], id)) by {
            assert(front[i] == events[i] && front[j] == events[j]);
        }
        lemma_every_resting_order_is_found(front);
        lemma_history(front);
        assert forall|side: Side, i: int| 0 <= i < v.queue(side).len() implies now(
            (#[trigger] v.queue(side)[i]).id,
        ) by {
            let id = v.queue(side)[i].id;
            assert(before(id));
            let k = choose|k: int| 0 <= k < front.len() && #[trigger] submits(front[k], id);
            assert(submits(events[k], id));
        }
        match last {
            EngineEvent::Submit { order } => {
                assert(submits(events[events.len() - 1], order.id));
                assert forall|side: Side, i: int| 0 <= i < v.queue(side).len() implies (
                #[trigger] v.queue(side)[i]).id != order.id by {
                    let id = v.queue(side)[i].id;
                    assert(before(id));
                    let k = choose|k: int| 0 <= k < front.len() && #[trigger] submits(front[k], id);
                    assert(submits(events[k], id));
                }
                lemma_submitted_findable(v, order, now);
            },
            EngineEvent::Cancel { order_id, .. } => {
                lemma_cancelled_findable(v, order_id, now);
            },
        }
    }
}

/// Cancelling an order a second time finds nothing and changes nothing.
pub proof fn lemma_cancel_once(v: BookView, id: u64)
    ensures
        !v.cancelled(id).index.contains_key(id),
        v.cancelled(id).cancelled(id) == v.cancelled(id),
{
}

/// A taker that crosses nothing changes nothing.
proof fn lemma_nothing_matched(v: BookView, taker: Order)
    requires
        v.makers(taker).len() == 0,
    ensures
        v.matched(taker) == v,
        v.unfilled(taker) == taker.remaining_qty,
{
    let other = v.queue(taker.side.opposite());
    let none = Seq::<int>::empty();
    assert(v.fills(taker) =~= none);
    assert(sum(none) == 0);
    assert(filled_ids(other, none) =~= Set::<u64>::empty());
    assert(other.skip(0) =~= other);
    assert(v.index.remove_keys(Set::<u64>::empty()) =~= v.index);
    assert(v.matched(taker) =~= v);
}

/// Taking out an order with an id of its own undoes its insertion.
proof fn lemma_insertion_undone(q: Seq<Order>, k: int, o: Order)
    requires
        0 <= k <= q.len(),
        forall|i: int| 0 <= i < q.len() ==> (#[trigger] q[i]).id != o.id,
    ensures
        without(q.insert(k, o), o.id, o.price) == q,
{
    let keep = |x: Order| !(x.id == o.id && x.price == o.price);
    let a = q.take(k);
    let b = q.skip(k);
    assert forall|i: int| 0 <= i < b.len() implies keep(#[trigger] b[i]) by {
        assert(b[i] == q[k + i]);
    }
    assert(q.insert(k, o) =~= a.push(o) + b);
    assert(q =~= a + b);
    Seq::filter_distributes_over_add(a.push(o), b, keep);
    lemma_filter_push(a, o, keep);
    lemma_filter_all(a, keep);
    lemma_filter_all(b, keep);
}

/// If `w` is `v` with order `o` on its side and in the index, taking `o` out of
/// `w` leads back to `v`.
proof fn lemma_rest_undone(v: BookView, w: BookView, o: Order)
    requires
        !v.index.contains_key(o.id),
        without(w.queue(o.side), o.id, o.price) == v.queue(o.side),
        w.queue(o.side.opposite()) == v.queue(o.side.opposite()),
        w.index == v.index.insert(o.id, (o.side, o.price)),
        w.last_trade_id == v.last_trade_id,
    ensures
        w.cancelled(o.id) == v,
{
    assert(w.index.remove(o.id) =~= v.index);
    assert(w.index[o.id] == (o.side, o.price));
    let x = w.cancelled(o.id);
    assert(x.queue(o.side) == without(w.queue(o.side), o.id, o.price));
    assert(x.queue(o.side.opposite()) == v.queue(o.side.opposite()));
    match o.side {
        Side::Buy => assert(x.bids == v.bids && x.asks == v.asks),
        Side::Sell => assert(x.bids == v.bids && x.asks == v.asks),
    }
}

/// If `w` is `v` with order `o`, whose id is its own, at place `k` of its side
/// and in the index, cancelling `o` in `w` leads back to `v`.
proof fn lemma_insertion_cancelled(v: BookView, w: BookView, o: Order, k: int)
    requires
        !v.index.contains_key(o.id),
        unused(v, o.id),
        0 <= k <= v.queue(o.side).len(),
        w.queue(o.side) == v.queue(o.side).insert(k, o),
        w.queue(o.side.opposite()) == v.queue(o.side.opposite()),
        w.index == v.index.insert(o.id, (o.side, o.price)),
        w.last_trade_id == v.last_trade_id,
    ensures
        w.cancelled(o.id) == v,
{
    let q = v.queue(o.side);
    assert forall|i: int| 0 <= i < q.len() implies (#[trigger] q[i]).id != o.id by {
        assert(v.queue(o.side)[i].id != o.id);
    }
    lemma_insertion_undone(q, k, o);
    lemma_rest_undone(v, w, o);
}

/// Cancelling an order that came to rest without a trade takes its submission
/// back: the book is as it was before.
pub proof fn lemma_cancel_undoes_rest(v: BookView, order: Order)
    requires
        v.valid(),
        order.order_type == OrderType::Limit,
        order.tif == TimeInForce::GTC,
        order.remaining_qty > DUST,
        v.makers(order).len() == 0,
        !v.index.contains_key(order.id),
        unused(v, order.id),
    ensures
        v.submitted(order).index.contains_key(order.id),
        v.submitted(order).cancelled(order.id) == v,
{
    lemma_nothing_matched(v, order);
    let o = Order { remaining_qty: v.unfilled(order) as i64, ..order };
    assert(o == order);
    assert(v.submitted(order) == v.matched(order).rested(o));
    assert(in_price_order(order.side, v.queue(order.side)));
    let k = lemma_enqueue_at(order.side, v.queue(order.side), order);
    lemma_insertion_cancelled(v, v.rested(order), order, k);
}

/// What a cancellation does: if the order can be found at some price on some side,
/// the orders there that carry its id and price are gone, all others stay, in the
/// same order, and it cannot be found again. The other side, all other orders that
/// can be found, and the number of trades stay as they are. If it cannot be found,
/// nothing changes.
pub proof fn lemma_what_cancelling_does(v: BookView, id: u64)
    ensures
        ({
            let after = v.cancelled(id);
            &&& !v.index.contains_key(id) ==> after == v
            &&& v.index.contains_key(id) ==> {
                let price = v.index[id].1;
                &&& match v.index[id].0 {
                    Side::Buy => {
                        &&& after.bids == v.bids.filter(
                            |o: Order| o.id != id || o.price != price,
                        )
                        &&& after.asks == v.asks
                    },
                    Side::Sell => {
                        &&& after.asks == v.asks.filter(
                            |o: Order| o.id != id || o.price != price,
                        )
                        &&& after.bids == v.bids
                    },
                }
                &&& after.index == v.index.remove(id)
                &&& after.last_trade_id == v.last_trade_id
            }
        }),
{
    if v.index.contains_key(id) {
        let price = v.index[id].1;
        let a = |o: Order| !(o.id == id && o.price == price);
        let b = |o: Order| o.id != id || o.price != price;
        assert forall|o: Order| #[trigger] a(o) == b(o) by {}
        lemma_same_filter(v.bids, a, b);
        lemma_same_filter(v.asks, a, b);
    }
}

/// If every resting order has an id of its own and can be found, cancelling takes
/// out exactly the one order that carries the id: the one at place `k` of its side.
/// All others stay in their places.
pub proof fn lemma_cancelling_takes_one_out(v: BookView, side: Side, k: int)
    requires
        v.valid(),
        findable(v),
        distinct(v),
        0 <= k < v.queue(side).len(),
    ensures
        ({
            let id = v.queue(side)[k].id;
            let after = v.cancelled(id);
            &&& v.index.contains_key(id)
            &&& match side {
                Side::Buy => after.bids == v.bids.remove(k) && after.asks == v.asks,
                Side::Sell => after.asks == v.asks.remove(k) && after.bids == v.bids,
            }
        }),
{
    let q = v.queue(side);
    let id = q[k].id;
    let price = q[k].price;
    let keep = |o: Order| !(o.id == id && o.price == price);
    let a = q.take(k);
    let b = q.skip(k + 1);
    assert(v.index.contains_key(v.queue(side)[k].id));
    assert(q =~= a.push(q[k]) + b);
    assert forall|i: int| 0 <= i < a.len() implies keep(#[trigger] a[i]) by {
        assert(v.queue(side)[i].id != v.queue(side)[k].id);
    }
    assert forall|i: int| 0 <= i < b.len() implies keep(#[trigger] b[i]) by {
        assert(v.queue(side)[k].id != v.queue(side)[k + 1 + i].id);
    }
    Seq::filter_distributes_over_add(a.push(q[k]), b, keep);
    lemma_filter_push(a, q[k], keep);
    lemma_filter_all(a, keep);
    lemma_filter_all(b, keep);
    assert(q.remove(k) =~= a + b);
}

} // verus!
