//! What becomes of a submitted order, told by comparing prices and adding up
//! quantities.
use crate::fixed::DUST;
use crate::ladder::ahead;
use crate::laws::{lemma_other_side, lemma_used_up};
use crate::lookup::lemma_enqueue_at;
use crate::matching::{lemma_crossing_prefix, lemma_fills_at, lemma_fills_bounds};
use crate::model::{
    crosses, crossing, filled_ids, fills, in_price_order, is_filled, min, sum, survivors, total,
    BookView,
};
use crate::order::{Order, OrderType, Side, TimeInForce, Trade};
use crate::orderbook::SubmitResult;
use vstd::prelude::*;

verus! {

/// Adding up what is left of orders, one by one.
pub proof fn lemma_total_is_fold(orders: Seq<Order>, f: spec_fn(int, Order) -> int)
    requires
        forall|a: int, o: Order| #[trigger] f(a, o) == a + o.remaining_qty,
    ensures
        orders.fold_left(0, f) == total(orders),
    decreases orders.len(),
{
    if orders.len() > 0 {
        lemma_total_is_fold(orders.drop_last(), f);
    }
}

/// Adding up the quantities of trades, one by one.
proof fn lemma_sum_is_fold(trades: Seq<Trade>, amounts: Seq<int>, f: spec_fn(int, Trade) -> int)
    requires
        forall|a: int, t: Trade| #[trigger] f(a, t) == a + t.qty,
        trades.len() == amounts.len(),
        forall|i: int| 0 <= i < trades.len() ==> (#[trigger] trades[i]).qty == amounts[i],
    ensures
        trades.fold_left(0, f) == sum(amounts),
    decreases trades.len(),
{
    if trades.len() > 0 {
        let t = trades.drop_last();
        assert forall|i: int| 0 <= i < t.len() implies (#[trigger] t[i]).qty
            == amounts.drop_last()[i] by {
            assert(trades[i].qty == amounts[i]);
        }
        lemma_sum_is_fold(t, amounts.drop_last(), f);
        assert(trades.last() == trades[trades.len() - 1]);
    }
}

/// An order is rejected if and only if it is fill-or-kill and what is left of the
/// orders on the other side that are within its limit (all of them, for a market
/// order) adds up to less than its quantity. Then it is told why, nothing is
/// traded, nothing rests, and the book stays as it is. Every other order is
/// accepted.
pub proof fn lemma_rejected_for_too_little(v: BookView, order: Order, r: SubmitResult)
    requires
        v.valid(),
        r.tells(v, order),
    ensures
        ({
            let other = match order.side {
                Side::Buy => v.asks,
                Side::Sell => v.bids,
            };
            let offered = other.filter(
                |o: Order|
                    order.order_type == OrderType::Market || match order.side {
                        Side::Buy => o.price <= order.price,
                        Side::Sell => o.price >= order.price,
                    },
            ).fold_left(0int, |a: int, o: Order| a + o.remaining_qty);
            &&& r.accepted <==> order.tif != TimeInForce::FOK || offered >= order.qty
            &&& r.accepted ==> r.rejection_reason is None
            &&& !r.accepted ==> {
                &&& r.rejection_reason is Some
                &&& r.rejection_reason->0@
                    == "FOK order could not be fully filled at submission time"@
                &&& r.trades@.len() == 0
                &&& r.resting_qty == 0
                &&& v.submitted(order) == v
            }
        }),
{
    let side = order.side.opposite();
    let q = v.queue(side);
    let within = |o: Order|
        order.order_type == OrderType::Market || match order.side {
            Side::Buy => o.price <= order.price,
            Side::Sell => o.price >= order.price,
        };
    assert(in_price_order(side, q));
    let n = lemma_crossing_prefix(side, q, order);
    assert forall|o: Order| #[trigger] within(o) == crosses(order, o.price) by {}
    lemma_same_filter(q, within, |o: Order| crosses(order, o.price));
    lemma_total_is_fold(q.filter(within), |a: int, o: Order| a + o.remaining_qty);
}

/// Filters that agree keep the same.
pub proof fn lemma_same_filter(q: Seq<Order>, a: spec_fn(Order) -> bool, b: spec_fn(Order) -> bool)
    requires
        forall|o: Order| #[trigger] a(o) == b(o),
    ensures
        q.filter(a) == q.filter(b),
    decreases q.len(),
{
    reveal(Seq::filter);
    if q.len() > 0 {
        lemma_same_filter(q.drop_last(), a, b);
        assert(a(q.last()) == b(q.last()));
    }
}

/// Who trades: the trades of an accepted order are with the first orders of the
/// other side, one with each, in turn; all of them are within the limit of the
/// order. Each is at the price of the resting order and at the time of the
/// incoming one, and their ids go on from the last one without a gap.
pub proof fn lemma_who_trades(v: BookView, order: Order, r: SubmitResult)
    requires
        v.valid(),
        r.tells(v, order),
        v.last_trade_id + r.trades@.len() <= u64::MAX,
    ensures
        ({
            let other = match order.side {
                Side::Buy => v.asks,
                Side::Sell => v.bids,
            };
            &&& r.trades@.len() <= other.len()
            &&& forall|i: int|
                0 <= i < r.trades@.len() ==> {
                    let t = #[trigger] r.trades@[i];
                    &&& t.id == v.last_trade_id + 1 + i
                    &&& t.maker_order_id == other[i].id
                    &&& t.taker_order_id == order.id
                    &&& t.price == other[i].price
                    &&& t.timestamp_ms == order.timestamp_ms
                    &&& order.order_type == OrderType::Market || match order.side {
                        Side::Buy => other[i].price <= order.price,
                        Side::Sell => other[i].price >= order.price,
                    }
                }
            &&& v.submitted(order).last_trade_id == v.last_trade_id + r.trades@.len()
        }),
{
    let q = v.queue(order.side.opposite());
    let n = lemma_other_side(v, order);
    if !v.rejects(order) {
        assert forall|i: int| 0 <= i < v.fills(order).len() implies v.makers(order)[i]
            == #[trigger] q[i] && crosses(order, q[i].price) by {}
    }
}

/// How much is traded: before each of its trades an order still wants more than
/// dust, and it takes all that it wants, or all that is left of the resting order
/// if that is less. It stops only when it wants no more than dust, or when the
/// next order on the other side, if there is one, is beyond its limit.
pub proof fn lemma_how_much_trades(v: BookView, order: Order, r: SubmitResult)
    requires
        v.valid(),
        r.tells(v, order),
    ensures
        ({
            let other = match order.side {
                Side::Buy => v.asks,
                Side::Sell => v.bids,
            };
            let n = r.trades@.len() as int;
            let traded = r.trades@.fold_left(0int, |a: int, t: Trade| a + t.qty);
            &&& forall|i: int|
                0 <= i < n ==> {
                    let wanted = order.remaining_qty - other.take(i).fold_left(
                        0int,
                        |a: int, o: Order| a + o.remaining_qty,
                    );
                    &&& wanted > 1
                    &&& (#[trigger] r.trades@[i]).qty == if wanted <= other[i].remaining_qty {
                        wanted
                    } else {
                        other[i].remaining_qty as int
                    }
                }
            &&& order.remaining_qty >= 0 ==> 0 <= traded <= order.remaining_qty
            &&& r.accepted && order.remaining_qty - traded > 1 && n < other.len() ==> {
                &&& order.order_type == OrderType::Limit
                &&& match order.side {
                    Side::Buy => other[n].price > order.price,
                    Side::Sell => other[n].price < order.price,
                }
            }
        }),
{
    let side = order.side.opposite();
    let q = v.queue(side);
    let m = lemma_other_side(v, order);
    let makers = v.makers(order);
    let amounts = v.fills(order);
    let want = order.remaining_qty as int;
    let add = |a: int, o: Order| a + o.remaining_qty;
    let add_trade = |a: int, t: Trade| a + t.qty;
    lemma_fills_bounds(makers, want);
    lemma_fills_at(makers, want, amounts.len() as int);
    if !v.rejects(order) {
        assert(r.trades@ == v.trades(order));
        assert forall|i: int|
            #![trigger r.trades@[i]]
            #![trigger q.take(i)]
            0 <= i < amounts.len() implies ({
            let wanted = want - q.take(i).fold_left(0int, add);
            &&& wanted > 1
            &&& r.trades@[i].qty == amounts[i]
            &&& amounts[i] == if wanted <= q[i].remaining_qty {
                wanted
            } else {
                q[i].remaining_qty as int
            }
        }) by {
            lemma_fills_at(makers, want, i);
            assert(q.take(i) =~= makers.take(i));
            assert forall|k: int| 0 <= k < i implies #[trigger] amounts.take(i)[k]
                == makers.take(i)[k].remaining_qty by {
                assert(amounts[k] == makers[k].remaining_qty);
            }
            lemma_used_up(makers.take(i), amounts.take(i));
            lemma_total_is_fold(q.take(i), add);
            assert(makers[i] == q[i]);
        }
        lemma_sum_is_fold(r.trades@, amounts, add_trade);
        if want - sum(amounts) > 1 && amounts.len() < q.len() {
            assert(amounts.len() == makers.len());
            let n = lemma_crossing_prefix(side, q, order);
            assert(n == makers.len());
            assert(!crosses(order, q[n].price));
        }
    } else {
        assert(r.trades@.fold_left(0int, add_trade) == 0);
    }
}

/// What is left on the other side: the orders that an order traded with are gone,
/// but for the last of them if more than dust is left of it; it stays first, less
/// by what it gave and otherwise as it was. All orders behind them stay as they
/// are.
pub proof fn lemma_other_side_after(v: BookView, order: Order, r: SubmitResult)
    requires
        v.valid(),
        r.tells(v, order),
    ensures
        ({
            let other = match order.side {
                Side::Buy => v.asks,
                Side::Sell => v.bids,
            };
            let after = match order.side {
                Side::Buy => v.submitted(order).asks,
                Side::Sell => v.submitted(order).bids,
            };
            let n = r.trades@.len() as int;
            let left = other[n - 1].remaining_qty - r.trades@[n - 1].qty;
            if n > 0 && left > 1 {
                after == seq![Order { remaining_qty: left as i64, ..other[n - 1] }] + other.skip(n)
            } else {
                after == other.skip(n)
            }
        }),
{
    let q = v.queue(order.side.opposite());
    let m = lemma_other_side(v, order);
    let amounts = v.fills(order);
    lemma_fills_bounds(v.makers(order), order.remaining_qty as int);
    if v.rejects(order) {
        assert(q.skip(0) =~= q);
    } else {
        let n = amounts.len() as int;
        assert(v.submitted(order).queue(order.side.opposite()) == survivors(q, amounts));
        if n > 0 {
            assert(v.makers(order)[n - 1] == q[n - 1]);
            assert(r.trades@[n - 1].qty == amounts[n - 1]);
        }
    }
}

/// What is left of the order: if it is an accepted good-till-cancelled limit order
/// and what it wanted, less what it traded, is more than dust, then exactly that
/// much of it rests on its own side, behind all orders at its price or a better
/// one and before all at a worse one, and can be found under its id; the other
/// orders on that side stay as they are. In every other case nothing of it rests
/// and its own side stays as it is.
pub proof fn lemma_remainder_rests(v: BookView, order: Order, r: SubmitResult) -> (k: int)
    requires
        v.valid(),
        r.tells(v, order),
    ensures
        ({
            let own = match order.side {
                Side::Buy => v.bids,
                Side::Sell => v.asks,
            };
            let after = match order.side {
                Side::Buy => v.submitted(order).bids,
                Side::Sell => v.submitted(order).asks,
            };
            let traded = r.trades@.fold_left(0int, |a: int, t: Trade| a + t.qty);
            let left = order.remaining_qty - traded;
            if r.accepted && order.order_type == OrderType::Limit && order.tif == TimeInForce::GTC
                && left > 1 {
                &&& r.resting_qty == left
                &&& v.submitted(order).index.contains_key(order.id)
                &&& v.submitted(order).index[order.id] == (order.side, order.price)
                &&& 0 <= k <= own.len()
                &&& after == own.insert(k, (Order { remaining_qty: left as i64, ..order }))
                &&& forall|i: int|
                    0 <= i < k ==> match order.side {
                        Side::Buy => (#[trigger] own[i]).price >= order.price,
                        Side::Sell => own[i].price <= order.price,
                    }
                &&& forall|i: int|
                    k <= i < own.len() ==> match order.side {
                        Side::Buy => (#[trigger] own[i]).price < order.price,
                        Side::Sell => own[i].price > order.price,
                    }
            } else {
                r.resting_qty == 0 && after == own
            }
        }),
{
    let own = v.queue(order.side);
    let m = lemma_other_side(v, order);
    let amounts = v.fills(order);
    let add_trade = |a: int, t: Trade| a + t.qty;
    lemma_fills_bounds(v.makers(order), order.remaining_qty as int);
    let left = order.remaining_qty - r.trades@.fold_left(0int, add_trade);
    let o = Order { remaining_qty: left as i64, ..order };
    assert(in_price_order(order.side, own));
    let k = lemma_enqueue_at(order.side, own, o);
    assert forall|i: int| 0 <= i < k implies match order.side {
        Side::Buy => (#[trigger] own[i]).price >= order.price,
        Side::Sell => own[i].price <= order.price,
    } by {
        assert(!ahead(order.side, o.price, own[i].price));
    }
    assert forall|i: int| k <= i < own.len() implies match order.side {
        Side::Buy => (#[trigger] own[i]).price < order.price,
        Side::Sell => own[i].price > order.price,
    } by {
        assert(ahead(order.side, o.price, own[i].price));
    }
    if !v.rejects(order) {
        assert forall|i: int| 0 <= i < amounts.len() implies (#[trigger] r.trades@[i]).qty
            == amounts[i] by {
            assert(v.makers(order)[i].remaining_qty >= amounts[i]);
        }
        lemma_sum_is_fold(r.trades@, amounts, add_trade);
        assert(v.matched(order).queue(order.side) == own);
        if v.keeps(order) {
            assert(v.submitted(order).queue(order.side) == own.insert(k, o));
        }
    } else {
        assert(r.trades@.fold_left(0int, add_trade) == 0);
    }
    k
}

/// Which orders can be cancelled after a submission: those that could before, but
/// for those of which the trades left no more than dust, and the order itself if
/// something of it rests. Each is found where it was.
pub proof fn lemma_who_can_be_found(v: BookView, order: Order, r: SubmitResult, id: u64)
    requires
        v.valid(),
        r.tells(v, order),
    ensures
        ({
            let other = match order.side {
                Side::Buy => v.asks,
                Side::Sell => v.bids,
            };
            let rests = r.resting_qty > 0 && id == order.id;
            let used_up = exists|i: int|
                0 <= i < r.trades@.len() && (#[trigger] r.trades@[i]).maker_order_id == id
                    && other[i].remaining_qty - r.trades@[i].qty <= 1;
            &&& v.submitted(order).index.contains_key(id) <==> rests || v.index.contains_key(id)
                && !used_up
            &&& v.submitted(order).index.contains_key(id) && !rests
                ==> v.submitted(order).index[id] == v.index[id]
        }),
{
    let q = v.queue(order.side.opposite());
    let m = lemma_other_side(v, order);
    let amounts = v.fills(order);
    lemma_fills_bounds(v.makers(order), order.remaining_qty as int);
    if !v.rejects(order) {
        assert forall|i: int| 0 <= i < amounts.len() implies (#[trigger] r.trades@[i]).qty
            == amounts[i] && r.trades@[i].maker_order_id == q[i].id by {
            assert(v.makers(order)[i] == q[i]);
        }
        let used_up = exists|i: int|
            0 <= i < r.trades@.len() && (#[trigger] r.trades@[i]).maker_order_id == id
                && q[i].remaining_qty - r.trades@[i].qty <= 1;
        if used_up {
            let i = choose|i: int|
                0 <= i < r.trades@.len() && (#[trigger] r.trades@[i]).maker_order_id == id
                    && q[i].remaining_qty - r.trades@[i].qty <= 1;
            assert(is_filled(q, amounts, i) && q[i].id == id);
            assert(filled_ids(q, amounts).contains(id));
        }
        if filled_ids(q, amounts).contains(id) {
            let i = choose|i: int| is_filled(q, amounts, i) && #[trigger] q[i].id == id;
            assert(r.trades@[i].maker_order_id == id);
            assert(used_up);
        }
        assert(v.matched(order).index.contains_key(id) <==> v.index.contains_key(id) && !used_up);
    }
}

/// A market order takes any price: if more than dust of one that is not rejected
/// stays unfilled, nothing is left on the other side.
pub proof fn lemma_market_order_takes_all(v: BookView, order: Order, r: SubmitResult)
    requires
        v.valid(),
        r.tells(v, order),
        order.order_type == OrderType::Market,
        r.accepted,
        order.remaining_qty - r.trades@.fold_left(0int, |a: int, t: Trade| a + t.qty) > 1,
    ensures
        match order.side {
            Side::Buy => v.submitted(order).asks.len() == 0,
            Side::Sell => v.submitted(order).bids.len() == 0,
        },
{
    lemma_how_much_trades(v, order, r);
    lemma_other_side_after(v, order, r);
    let m = lemma_other_side(v, order);
    let n = r.trades@.len() as int;
    let amounts = v.fills(order);
    let q = v.queue(order.side.opposite());
    lemma_fills_bounds(v.makers(order), order.remaining_qty as int);
    assert forall|i: int| 0 <= i < amounts.len() implies (#[trigger] r.trades@[i]).qty
        == amounts[i] by {
        assert(v.makers(order)[i].remaining_qty >= amounts[i]);
    }
    lemma_sum_is_fold(r.trades@, amounts, |a: int, t: Trade| a + t.qty);
    if n > 0 {
        assert(v.makers(order)[n - 1] == q[n - 1]);
        assert(is_filled(v.makers(order), amounts, n - 1));
    }
}

/// The price that a market order carries does not matter: two that differ in
/// nothing else do the same to the book, and trade the same.
pub proof fn lemma_market_price_does_not_matter(
    v: BookView,
    a: Order,
    b: Order,
    x: SubmitResult,
    y: SubmitResult,
)
    requires
        v.valid(),
        a.order_type == OrderType::Market,
        b == (Order { price: b.price, ..a }),
        x.tells(v, a),
        y.tells(v, b),
    ensures
        v.submitted(a) == v.submitted(b),
        x.accepted == y.accepted,
        x.trades@ == y.trades@,
        x.resting_qty == 0 && y.resting_qty == 0,
{
    let q = v.queue(a.side.opposite());
    lemma_same_filter(q, |o: Order| crosses(a, o.price), |o: Order| crosses(b, o.price));
    assert(crossing(q, a) == crossing(q, b));
    assert(v.fills(a) == v.fills(b));
    assert(v.trades(a) =~= v.trades(b));
    assert(v.matched(a) == v.matched(b));
}

/// An order that asks for more of the same never gets less: with the same book,
/// the one that wants more has the trades of the other but perhaps the last, which
/// is no smaller.
pub proof fn lemma_wanting_more_gets_no_less(
    v: BookView,
    a: Order,
    b: Order,
    x: SubmitResult,
    y: SubmitResult,
)
    requires
        v.valid(),
        a.tif != TimeInForce::FOK,
        a.remaining_qty <= b.remaining_qty,
        b == (Order { remaining_qty: b.remaining_qty, qty: b.qty, ..a }),
        x.tells(v, a),
        y.tells(v, b),
    ensures
        x.trades@.len() <= y.trades@.len(),
        forall|i: int|
            0 <= i < x.trades@.len() ==> (#[trigger] x.trades@[i]).qty <= y.trades@[i].qty
                && x.trades@[i].maker_order_id == y.trades@[i].maker_order_id,
{
    let q = v.queue(a.side.opposite());
    let m = lemma_other_side(v, a);
    lemma_same_filter(q, |o: Order| crosses(a, o.price), |o: Order| crosses(b, o.price));
    let makers = v.makers(a);
    assert(makers == v.makers(b));
    lemma_more_fills(makers, a.remaining_qty as int, b.remaining_qty as int);
    lemma_fills_bounds(makers, a.remaining_qty as int);
    lemma_fills_bounds(makers, b.remaining_qty as int);
    assert forall|i: int| 0 <= i < x.trades@.len() implies (#[trigger] x.trades@[i]).qty
        <= y.trades@[i].qty && x.trades@[i].maker_order_id == y.trades@[i].maker_order_id by {
        assert(v.fills(a)[i] <= v.fills(b)[i]);
    }
}

/// Fills of a taker that wants more.
proof fn lemma_more_fills(makers: Seq<Order>, less: int, more: int)
    requires
        less <= more,
    ensures
        fills(makers, less).len() <= fills(makers, more).len(),
        forall|i: int|
            0 <= i < fills(makers, less).len() ==> #[trigger] fills(makers, less)[i] <= fills(
                makers,
                more,
            )[i],
    decreases makers.len(),
{
    if makers.len() > 0 && less > DUST {
        let a = min(less, makers[0].remaining_qty as int);
        let b = min(more, makers[0].remaining_qty as int);
        lemma_more_fills(makers.drop_first(), less - a, more - b);
        assert forall|i: int| 0 <= i < fills(makers, less).len() implies #[trigger] fills(
            makers,
            less,
        )[i] <= fills(makers, more)[i] by {
            if i > 0 {
                assert(fills(makers, less)[i] == fills(makers.drop_first(), less - a)[i - 1]);
                assert(fills(makers, more)[i] == fills(makers.drop_first(), more - b)[i - 1]);
            }
        }
    }
}

} // verus!
