//! What a book shows: best prices, summed-up levels, and the report of a replay.
use crate::engine::{replayed, EngineView, ReplayResult};
use crate::filters::{
    lemma_filter_all, lemma_filter_commute, lemma_filter_members, lemma_filter_none,
};
use crate::history::{history, lemma_history};
use crate::ladder::ahead;
use crate::levels::{
    lemma_flatten_concat, lemma_flatten_one, lemma_flatten_prices, level_shaped, levels_ordered,
    shaped,
};
use crate::model::{flatten, group, in_price_order, BookView, PriceLevel};
use crate::order::{EngineEvent, Order, Side};
use crate::orderbook::{is_row, sums_up, BookLevel, OrderBook, SubmitResult};
use crate::outcome::lemma_total_is_fold;
use crate::timeline::{lemma_by_time, lemma_by_time_stable, lemma_same_members, until};
use crate::walk::best;
use vstd::prelude::*;

verus! {

/// The levels of a queue in price order: none is empty, each has orders of one
/// price, they are in price order, and together they are the queue.
proof fn lemma_group_shape(side: Side, q: Seq<Order>)
    requires
        in_price_order(side, q),
    ensures
        shaped(group(q)),
        levels_ordered(side, group(q)),
        flatten(group(q)) == q,
    decreases q.len(),
{
    if q.len() > 0 {
        let front = q.drop_last();
        let o = q.last();
        assert forall|i: int, j: int| 0 <= i < j < front.len() implies !ahead(
            side,
            #[trigger] front[j].price,
            #[trigger] front[i].price,
        ) by {
            assert(!ahead(side, q[j].price, q[i].price));
        }
        lemma_group_shape(side, front);
        let before = group(front);
        assert(q =~= front.push(o));
        if before.len() > 0 {
            lemma_last_level(side, front, o);
        }
        if before.len() > 0 && before.last().price == o.price {
            let init = before.drop_last();
            let last = before.last();
            let more = PriceLevel { price: o.price, orders: last.orders.push(o) };
            assert(group(q) == init.push(more));
            assert(init.push(more) =~= init + seq![more]);
            assert(before =~= init + seq![last]);
            lemma_flatten_concat(init, seq![more]);
            lemma_flatten_concat(init, seq![last]);
            lemma_flatten_one(more);
            lemma_flatten_one(last);
            assert(flatten(group(q)) =~= q);
            assert(level_shaped(before[before.len() - 1]));
            assert forall|i: int| 0 <= i < group(q).len() implies level_shaped(
                #[trigger] group(q)[i],
            ) by {
                if i < init.len() {
                    assert(group(q)[i] == before[i]);
                }
            }
            assert forall|i: int, j: int| 0 <= i < j < group(q).len() implies ahead(
                side,
                (#[trigger] group(q)[i]).price,
                (#[trigger] group(q)[j]).price,
            ) by {
                assert(ahead(side, before[i].price, before[j].price));
            }
        } else {
            let new = PriceLevel { price: o.price, orders: seq![o] };
            assert(group(q) == before.push(new));
            assert(before.push(new) =~= before + seq![new]);
            lemma_flatten_concat(before, seq![new]);
            lemma_flatten_one(new);
            assert(flatten(group(q)) =~= q);
            assert forall|i: int| 0 <= i < group(q).len() implies level_shaped(
                #[trigger] group(q)[i],
            ) by {
                if i < before.len() {
                    assert(group(q)[i] == before[i]);
                }
            }
            assert forall|i: int, j: int| 0 <= i < j < group(q).len() implies ahead(
                side,
                (#[trigger] group(q)[i]).price,
                (#[trigger] group(q)[j]).price,
            ) by {
                assert(group(q)[i] == before[i]);
                if j < before.len() {
                    assert(ahead(side, before[i].price, before[j].price));
                } else if i < before.len() - 1 {
                    assert(ahead(side, before[i].price, before[before.len() - 1].price));
                }
            }
        }
    } else {
        assert(flatten(group(q)) =~= q);
    }
}

/// An order behind a queue is at no better price than its last level.
proof fn lemma_last_level(side: Side, front: Seq<Order>, o: Order)
    requires
        in_price_order(side, front.push(o)),
        shaped(group(front)),
        flatten(group(front)) == front,
        group(front).len() > 0,
    ensures
        !ahead(side, o.price, group(front).last().price),
{
    let levels = group(front);
    let last = levels.last();
    assert(levels =~= levels.drop_last() + seq![last]);
    lemma_flatten_concat(levels.drop_last(), seq![last]);
    lemma_flatten_one(last);
    assert(level_shaped(levels[levels.len() - 1]));
    let k = front.len() - 1;
    assert(front[k] == last.orders[last.orders.len() - 1]);
    let all = front.push(o);
    assert(all[k] == front[k] && all[k + 1] == o);
    assert(!ahead(side, all[k + 1].price, all[k].price));
}

/// The orders of a queue at the price of one of its levels are those of the level.
proof fn lemma_orders_at(side: Side, levels: Seq<PriceLevel>, k: int, at: spec_fn(Order) -> bool)
    requires
        shaped(levels),
        levels_ordered(side, levels),
        0 <= k < levels.len(),
        forall|o: Order| #[trigger] at(o) == (o.price == levels[k].price),
    ensures
        flatten(levels).filter(at) == levels[k].orders,
{
    let a = levels.take(k);
    let b = levels.skip(k + 1);
    let here = levels[k];
    assert(levels =~= a + seq![here] + b);
    lemma_flatten_concat(a + seq![here], b);
    lemma_flatten_concat(a, seq![here]);
    lemma_flatten_one(here);
    assert forall|i: int| 0 <= i < a.len() implies level_shaped(#[trigger] a[i]) && a[i].price
        != here.price by {
        assert(a[i] == levels[i]);
        assert(ahead(side, levels[i].price, levels[k].price));
    }
    assert forall|i: int| 0 <= i < b.len() implies level_shaped(#[trigger] b[i]) && b[i].price
        != here.price by {
        assert(b[i] == levels[k + 1 + i]);
        assert(ahead(side, levels[k].price, levels[k + 1 + i].price));
    }
    lemma_flatten_prices(a, |p: i64| p != here.price);
    lemma_flatten_prices(b, |p: i64| p != here.price);
    assert(level_shaped(levels[k]));
    Seq::filter_distributes_over_add(flatten(a) + here.orders, flatten(b), at);
    Seq::filter_distributes_over_add(flatten(a), here.orders, at);
    lemma_filter_none(flatten(a), at);
    lemma_filter_none(flatten(b), at);
    lemma_filter_all(here.orders, at);
    assert(Seq::<Order>::empty() + here.orders + Seq::<Order>::empty() =~= here.orders);
}

/// Every order of a queue is in one of its levels.
proof fn lemma_in_a_level(levels: Seq<PriceLevel>, j: int) -> (k: int)
    requires
        shaped(levels),
        0 <= j < flatten(levels).len(),
    ensures
        0 <= k < levels.len(),
        flatten(levels)[j].price == levels[k].price,
    decreases levels.len(),
{
    let rest = levels.drop_first();
    let first = levels[0].orders;
    assert(level_shaped(levels[0]));
    if j < first.len() {
        assert(flatten(levels)[j] == first[j]);
        0
    } else {
        assert forall|i: int| 0 <= i < rest.len() implies level_shaped(#[trigger] rest[i]) by {
            assert(rest[i] == levels[i + 1]);
        }
        let k = lemma_in_a_level(rest, j - first.len());
        assert(rest[k] == levels[k + 1]);
        k + 1
    }
}

/// What summed-up levels show of the orders of one side: the prices stand in order,
/// best first; each row has the number of orders at its price and what is left of
/// them, added up; and a price is left out only if there are `depth` better ones.
pub proof fn lemma_rows_show(v: BookView, side: Side, rows: Seq<BookLevel>, depth: nat)
    requires
        v.valid(),
        match side {
            Side::Buy => sums_up(rows, group(v.bids), depth),
            Side::Sell => sums_up(rows, group(v.asks), depth),
        },
    ensures
        ({
            let orders = match side {
                Side::Buy => v.bids,
                Side::Sell => v.asks,
            };
            &&& rows.len() <= depth
            &&& forall|i: int, j: int|
                0 <= i < j < rows.len() ==> match side {
                    Side::Buy => (#[trigger] rows[i]).price > (#[trigger] rows[j]).price,
                    Side::Sell => rows[i].price < rows[j].price,
                }
            &&& forall|i: int|
                0 <= i < rows.len() ==> {
                    let row = #[trigger] rows[i];
                    let there = orders.filter(|o: Order| o.price == row.price);
                    &&& row.order_count == there.len()
                    &&& there.len() > 0
                    &&& row.qty == there.fold_left(0int, |a: int, o: Order| a + o.remaining_qty)
                }
            &&& forall|j: int|
                0 <= j < orders.len() ==> {
                    let price = (#[trigger] orders[j]).price;
                    ||| exists|i: int| 0 <= i < rows.len() && (#[trigger] rows[i]).price == price
                    ||| rows.len() == depth && forall|i: int|
                        0 <= i < rows.len() ==> match side {
                            Side::Buy => (#[trigger] rows[i]).price > price,
                            Side::Sell => rows[i].price < price,
                        }
                }
        }),
{
    let q = v.queue(side);
    let levels = group(q);
    assert(in_price_order(side, q));
    lemma_group_shape(side, q);
    assert forall|i: int, j: int| 0 <= i < j < rows.len() implies match side {
        Side::Buy => (#[trigger] rows[i]).price > (#[trigger] rows[j]).price,
        Side::Sell => rows[i].price < rows[j].price,
    } by {
        assert(is_row(rows[i], levels[i]) && is_row(rows[j], levels[j]));
        assert(ahead(side, levels[i].price, levels[j].price));
    }
    assert forall|i: int| 0 <= i < rows.len() implies ({
        let row = #[trigger] rows[i];
        let there = q.filter(|o: Order| o.price == row.price);
        &&& row.order_count == there.len()
        &&& there.len() > 0
        &&& row.qty == there.fold_left(0int, |a: int, o: Order| a + o.remaining_qty)
    }) by {
        let row = rows[i];
        assert(is_row(row, levels[i]));
        assert(level_shaped(levels[i]));
        lemma_orders_at(side, levels, i, |o: Order| o.price == row.price);
        lemma_total_is_fold(levels[i].orders, |a: int, o: Order| a + o.remaining_qty);
    }
    assert forall|j: int| 0 <= j < q.len() implies ({
        let price = (#[trigger] q[j]).price;
        ||| exists|i: int| 0 <= i < rows.len() && (#[trigger] rows[i]).price == price
        ||| rows.len() == depth && forall|i: int|
            0 <= i < rows.len() ==> match side {
                Side::Buy => (#[trigger] rows[i]).price > price,
                Side::Sell => rows[i].price < price,
            }
    }) by {
        let price = q[j].price;
        let k = lemma_in_a_level(levels, j);
        if k < rows.len() {
            assert(is_row(rows[k], levels[k]));
            assert(rows[k].price == price);
        } else {
            assert forall|i: int| 0 <= i < rows.len() implies match side {
                Side::Buy => (#[trigger] rows[i]).price > price,
                Side::Sell => rows[i].price < price,
            } by {
                assert(is_row(rows[i], levels[i]));
                assert(ahead(side, levels[i].price, levels[k].price));
            }
        }
    }
}

/// The best price of one side: no order there has a better one, and some order has
/// it; there is none exactly if there is no order.
pub proof fn lemma_best_is_best(v: BookView, side: Side, price: Option<i64>)
    requires
        v.valid(),
        match side {
            Side::Buy => price == best(group(v.bids)),
            Side::Sell => price == best(group(v.asks)),
        },
    ensures
        ({
            let orders = match side {
                Side::Buy => v.bids,
                Side::Sell => v.asks,
            };
            match price {
                None => orders.len() == 0,
                Some(p) => {
                    &&& orders.len() > 0
                    &&& orders[0].price == p
                    &&& forall|i: int|
                        0 <= i < orders.len() ==> match side {
                            Side::Buy => (#[trigger] orders[i]).price <= p,
                            Side::Sell => orders[i].price >= p,
                        }
                },
            }
        }),
{
    lemma_first_is_best(v, side);
    let q = v.queue(side);
    match price {
        None => assert(q.len() == 0),
        Some(p) => {
            assert(q.len() > 0 && q[0].price == p);
            assert forall|i: int| 0 <= i < q.len() implies match side {
                Side::Buy => (#[trigger] q[i]).price <= p,
                Side::Sell => q[i].price >= p,
            } by {}
        },
    }
}

/// What `OrderBook::best_bid` and `OrderBook::best_ask` give of a well-formed book
/// is the best price of the orders that rest there.
pub proof fn lemma_best_of_book(book: OrderBook, side: Side)
    requires
        book.wf(),
    ensures
        match side {
            Side::Buy => best(book.levels(side)) == best(group(book@.bids)),
            Side::Sell => best(book.levels(side)) == best(group(book@.asks)),
        },
{
    book.lemma_levels(side);
}

/// Which events a replay runs: those whose time is not later than its target, with
/// earlier times first, and in the order in which they stand in the journal where
/// times are the same; and each as often as it stands there.
pub proof fn lemma_which_events_run(journal: Seq<EngineEvent>, target: i64, t: i64)
    ensures
        forall|i: int, j: int|
            0 <= i < j < replayed(journal, target).len() ==> {
                let a = match #[trigger] replayed(journal, target)[i] {
                    EngineEvent::Submit { order } => order.timestamp_ms,
                    EngineEvent::Cancel { timestamp_ms, .. } => timestamp_ms,
                };
                let b = match #[trigger] replayed(journal, target)[j] {
                    EngineEvent::Submit { order } => order.timestamp_ms,
                    EngineEvent::Cancel { timestamp_ms, .. } => timestamp_ms,
                };
                a <= b <= target
            },
        replayed(journal, target).filter(
            |e: EngineEvent|
                match e {
                    EngineEvent::Submit { order } => order.timestamp_ms == t,
                    EngineEvent::Cancel { timestamp_ms, .. } => timestamp_ms == t,
                },
        ) == if t <= target {
            journal.filter(
                |e: EngineEvent|
                    match e {
                        EngineEvent::Submit { order } => order.timestamp_ms == t,
                        EngineEvent::Cancel { timestamp_ms, .. } => timestamp_ms == t,
                    },
            )
        } else {
            Seq::empty()
        },
        replayed(journal, target).len() == journal.filter(
            |e: EngineEvent|
                match e {
                    EngineEvent::Submit { order } => order.timestamp_ms <= target,
                    EngineEvent::Cancel { timestamp_ms, .. } => timestamp_ms <= target,
                },
        ).len(),
{
    let keep = |e: EngineEvent| e.time() <= target;
    let same = |e: EngineEvent| e.time() == t;
    let at = |e: EngineEvent|
        match e {
            EngineEvent::Submit { order } => order.timestamp_ms == t,
            EngineEvent::Cancel { timestamp_ms, .. } => timestamp_ms == t,
        };
    let early = |e: EngineEvent|
        match e {
            EngineEvent::Submit { order } => order.timestamp_ms <= target,
            EngineEvent::Cancel { timestamp_ms, .. } => timestamp_ms <= target,
        };
    let past = until(journal, target);
    let r = replayed(journal, target);
    lemma_by_time(past);
    lemma_by_time_stable(past, t);
    assert forall|e: EngineEvent| #[trigger] at(e) == same(e) by {}
    assert forall|e: EngineEvent| #[trigger] early(e) == keep(e) by {}
    lemma_same_events(r, at, same);
    lemma_same_events(journal, at, same);
    lemma_same_events(journal, early, keep);
    lemma_filter_commute(journal, keep, same);
    lemma_filter_members(journal, same);
    let there = journal.filter(same);
    if t <= target {
        assert forall|i: int| 0 <= i < there.len() implies keep(#[trigger] there[i]) by {
            assert(same(there[i]));
        }
        lemma_filter_all(there, keep);
    } else {
        assert forall|i: int| 0 <= i < there.len() implies !keep(#[trigger] there[i]) by {
            assert(same(there[i]));
        }
        lemma_filter_none(there, keep);
    }
    lemma_filter_members(journal, keep);
    assert forall|i: int| 0 <= i < r.len() implies (#[trigger] r[i]).time() <= target by {
        lemma_same_members(r, past, i);
        let x = choose|x: int| 0 <= x < past.len() && past[x] == r[i];
        assert(keep(past[x]));
    }
}

/// Filters that agree keep the same events.
proof fn lemma_same_events(
    q: Seq<EngineEvent>,
    a: spec_fn(EngineEvent) -> bool,
    b: spec_fn(EngineEvent) -> bool,
)
    requires
        forall|e: EngineEvent| #[trigger] a(e) == b(e),
    ensures
        q.filter(a) == q.filter(b),
    decreases q.len(),
{
    reveal(Seq::filter);
    if q.len() > 0 {
        lemma_same_events(q.drop_last(), a, b);
        assert(a(q.last()) == b(q.last()));
    }
}

/// What running one more event does: an order is submitted to the book as it is
/// then, and its trades are added to the others; or an order is cancelled in it.
/// Before all events the book is empty.
pub proof fn lemma_one_more_event(events: Seq<EngineEvent>, event: EngineEvent, r: SubmitResult)
    requires
        event matches EngineEvent::Submit { order } ==> r.tells(history(events).book, order),
    ensures
        ({
            let before = history(events);
            let after = history(events.push(event));
            match event {
                EngineEvent::Submit { order } => {
                    &&& after.book == before.book.submitted(order)
                    &&& after.trades == before.trades + r.trades@
                },
                EngineEvent::Cancel { order_id, .. } => {
                    &&& after.book == before.book.cancelled(order_id)
                    &&& after.trades == before.trades
                },
            }
        }),
        ({
            let none = history(Seq::empty());
            &&& none.trades.len() == 0
            &&& none.book.bids.len() == 0
            &&& none.book.asks.len() == 0
            &&& none.book.last_trade_id == 0
            &&& forall|id: u64| !(#[trigger] none.book.index.contains_key(id))
        }),
{
    assert(events.push(event).drop_last() =~= events);
    if let EngineEvent::Submit { order } = event {
        assert(history(events).book.executed(order) =~= r.trades@);
    }
}

/// What an engine does with an order: it journals it and submits it to its book,
/// and puts the trades that it tells of at the end of its log.
pub proof fn lemma_engine_submits(engine: EngineView, order: Order, r: SubmitResult)
    requires
        r.tells(engine.book, order),
    ensures
        ({
            let after = engine.submitted(order);
            &&& after.journal == engine.journal.push(EngineEvent::Submit { order })
            &&& after.book == engine.book.submitted(order)
            &&& after.trade_log == engine.trade_log + r.trades@
            &&& after.last_order_id == engine.last_order_id
        }),
{
    assert(engine.book.executed(order) =~= r.trades@);
}

/// What an engine does with a cancellation: it journals it, whether the order is
/// there or not, and cancels it in its book.
pub proof fn lemma_engine_cancels(engine: EngineView, order_id: u64, timestamp_ms: i64)
    ensures
        ({
            let after = engine.cancelled(order_id, timestamp_ms);
            &&& after.journal == engine.journal.push(
                EngineEvent::Cancel { order_id, timestamp_ms },
            )
            &&& after.book == engine.book.cancelled(order_id)
            &&& after.trade_log == engine.trade_log
            &&& after.last_order_id == engine.last_order_id
        }),
{
}

/// What the report of a replay says: how many events are not later than its target
/// and how many are; how many trades they led to; the best prices of the book that
/// they lead to, and what is left of the orders on each side of it, added up. It
/// shows no more than twenty-five levels of a side, and nothing is wrong.
pub proof fn lemma_replay_reports(x: ReplayResult, journal: Seq<EngineEvent>, target: i64)
    requires
        x.shows(journal, target),
        journal.len() <= u64::MAX,
    ensures
        ({
            let h = history(replayed(journal, target));
            let report = x.validation;
            let add = |a: int, o: Order| a + o.remaining_qty;
            &&& x.target_time_ms == target
            &&& x.trades@ == h.trades
            &&& report.trades_produced == x.trades@.len()
            &&& report.events_replayed == journal.filter(
                |e: EngineEvent|
                    match e {
                        EngineEvent::Submit { order } => order.timestamp_ms <= target,
                        EngineEvent::Cancel { timestamp_ms, .. } => timestamp_ms <= target,
                    },
            ).len()
            &&& report.events_skipped == journal.len() - report.events_replayed
            &&& report.total_bid_qty == h.book.bids.fold_left(0int, add)
            &&& report.total_ask_qty == h.book.asks.fold_left(0int, add)
            &&& report.valid
            &&& report.errors@.len() == 0
            &&& report.best_bid == if h.book.bids.len() == 0 {
                None::<i64>
            } else {
                Some(h.book.bids[0].price)
            }
            &&& report.best_ask == if h.book.asks.len() == 0 {
                None::<i64>
            } else {
                Some(h.book.asks[0].price)
            }
            &&& forall|i: int|
                0 <= i < h.book.bids.len() ==> (#[trigger] h.book.bids[i]).price
                    <= h.book.bids[0].price
            &&& forall|i: int|
                0 <= i < h.book.asks.len() ==> (#[trigger] h.book.asks[i]).price
                    >= h.book.asks[0].price
            &&& x.book.bids@.len() <= 25
            &&& x.book.asks@.len() <= 25
            &&& sums_up(x.book.bids@, group(h.book.bids), 25)
            &&& sums_up(x.book.asks@, group(h.book.asks), 25)
            &&& h.book.valid()
        }),
{
    let events = replayed(journal, target);
    let h = history(events);
    lemma_which_events_run(journal, target, 0);
    lemma_filter_members(
        journal,
        |e: EngineEvent|
            match e {
                EngineEvent::Submit { order } => order.timestamp_ms <= target,
                EngineEvent::Cancel { timestamp_ms, .. } => timestamp_ms <= target,
            },
    );
    lemma_history(events);
    lemma_total_is_fold(h.book.bids, |a: int, o: Order| a + o.remaining_qty);
    lemma_total_is_fold(h.book.asks, |a: int, o: Order| a + o.remaining_qty);
    lemma_first_is_best(h.book, Side::Buy);
    lemma_first_is_best(h.book, Side::Sell);
}

/// The first order of a side has the best price.
proof fn lemma_first_is_best(v: BookView, side: Side)
    requires
        v.valid(),
    ensures
        ({
            let q = v.queue(side);
            &&& q.len() == 0 ==> best(group(q)) == None::<i64>
            &&& q.len() > 0 ==> best(group(q)) == Some(q[0].price)
            &&& forall|i: int|
                0 <= i < q.len() ==> match side {
                    Side::Buy => (#[trigger] q[i]).price <= q[0].price,
                    Side::Sell => q[i].price >= q[0].price,
                }
        }),
{
    let q = v.queue(side);
    let levels = group(q);
    assert(in_price_order(side, q));
    lemma_group_shape(side, q);
    if levels.len() > 0 {
        assert(level_shaped(levels[0]));
        assert(q[0] == levels[0].orders[0]);
    } else {
        assert(flatten(levels).len() == 0);
    }
    assert forall|i: int| 0 <= i < q.len() implies match side {
        Side::Buy => (#[trigger] q[i]).price <= q[0].price,
        Side::Sell => q[i].price >= q[0].price,
    } by {
        if i > 0 {
            assert(!ahead(side, q[i].price, q[0].price));
        }
    }
}

} // verus!
