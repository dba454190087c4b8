//! What holds of every book, whatever is asked of it.
use crate::audit::{crossed_faults, lemma_level_in_queue, lemma_no_faults, texts};
use crate::engine::{replayed, EngineView, ReplayResult, SNAPSHOT_DEPTH};
use crate::filters::{lemma_filter_all, lemma_filter_members, lemma_filter_none};
use crate::fixed::DUST;
use crate::history::{history, lemma_trades_grow, History};
use crate::levels::level_shaped;
use crate::matching::{
    all_live, lemma_crossing_prefix, lemma_fills_at, lemma_fills_bounds, lemma_total_concat,
};
use crate::model::{
    crosses, group, in_price_order, is_filled, may_rest, reduced, sum, survivors, total, BookView,
    PriceLevel,
};
use crate::order::{EngineEvent, Order, OrderType, Side, TimeInForce, Trade};
use crate::orderbook::{is_row, sums_up, BookLevel, OrderBook};
use crate::timeline::{
    distinct_times, in_time_order, lemma_by_time, lemma_by_time_filter, lemma_by_time_is_one_order,
    lemma_until_grows, until,
};
use crate::validity::lemma_matched_valid;
use crate::walk::best;
use vstd::prelude::*;

verus! {

/// The quantities of `trades`.
pub open spec fn quantities(trades: Seq<Trade>) -> Seq<int> {
    trades.map_values(|t: Trade| t.qty as int)
}

/// What a valid book says of the side that `taker` trades with.
pub proof fn lemma_other_side(v: BookView, taker: Order) -> (n: int)
    requires
        v.valid(),
    ensures
        in_price_order(taker.side.opposite(), v.queue(taker.side.opposite())),
        all_live(v.queue(taker.side.opposite())),
        0 <= n <= v.queue(taker.side.opposite()).len(),
        v.makers(taker) == v.queue(taker.side.opposite()).take(n),
        all_live(v.makers(taker)),
        forall|i: int|
            0 <= i < n ==> crosses(taker, (#[trigger] v.queue(taker.side.opposite())[i]).price),
        v.fills(taker).len() <= n,
{
    let side = taker.side.opposite();
    let q = v.queue(side);
    assert(in_price_order(side, q));
    assert forall|i: int| 0 <= i < q.len() implies (#[trigger] q[i]).remaining_qty > DUST by {
        assert(v.queue(side)[i].side == side);
    }
    let n = lemma_crossing_prefix(side, q, taker);
    lemma_fills_at(v.makers(taker), taker.remaining_qty as int, 0);
    n
}

/// A book is never crossed: its best bid is below its best ask.
pub proof fn lemma_book_is_uncrossed(book: OrderBook, bid: i64, ask: i64)
    requires
        book.wf(),
        best(book.levels(Side::Buy)) == Some(bid),
        best(book.levels(Side::Sell)) == Some(ask),
    ensures
        bid < ask,
{
    lemma_no_faults(book);
    assert(crossed_faults(Some(bid), Some(ask)).len() == 0);
}

/// What rests in a book: no level is empty, and every order of a level is a
/// good-till-cancelled limit order of that side with more than dust left, at the
/// price of the level.
pub proof fn lemma_what_rests(book: OrderBook, side: Side, k: int)
    requires
        book.wf(),
        0 <= k < book.levels(side).len(),
    ensures
        book.levels(side)[k].orders.len() > 0,
        forall|j: int|
            0 <= j < book.levels(side)[k].orders.len() ==> {
                let o = #[trigger] book.levels(side)[k].orders[j];
                &&& o.order_type == OrderType::Limit
                &&& o.tif == TimeInForce::GTC
                &&& o.side == side
                &&& o.remaining_qty > DUST
                &&& o.price == book.levels(side)[k].price
            },
{
    let levels = book.levels(side);
    assert(level_shaped(levels[k]));
    let at = lemma_level_in_queue(levels, k);
    let here = levels[k].orders;
    assert forall|j: int| 0 <= j < here.len() implies may_rest(#[trigger] here[j]) && here[j].side
        == side && here[j].remaining_qty > DUST by {
        assert(book@.queue(side)[at + j] == here[j]);
        assert(book@.queue(side)[at + j].side == side);
    }
}

/// A fill-or-kill order that cannot be filled in full changes nothing and
/// trades nothing.
pub proof fn lemma_rejection_changes_nothing(v: BookView, order: Order)
    requires
        order.tif == TimeInForce::FOK,
        v.liquidity(order) < order.qty,
    ensures
        v.submitted(order) == v,
        v.executed(order) == Seq::<Trade>::empty(),
{
}

/// A fill-or-kill order that is not turned away is filled: no more than dust of
/// it is left.
pub proof fn lemma_fok_is_filled(v: BookView, order: Order)
    requires
        v.valid(),
        order.tif == TimeInForce::FOK,
        order.remaining_qty <= order.qty,
        !v.rejects(order),
    ensures
        v.unfilled(order) <= DUST,
{
    let n = lemma_other_side(v, order);
    lemma_fills_bounds(v.makers(order), order.remaining_qty as int);
}

/// Only what is left of a good-till-cancelled limit order comes to rest: after
/// any other order its own side of the book is as before.
pub proof fn lemma_only_gtc_limit_rests(v: BookView, order: Order)
    requires
        order.order_type == OrderType::Market || order.tif != TimeInForce::GTC,
    ensures
        v.submitted(order).queue(order.side) == v.queue(order.side),
{
}

/// Price-time priority: a taker trades with the first orders of the other side
/// in turn, at their prices, and uses up each of them but the last.
pub proof fn lemma_price_time_priority(v: BookView, order: Order)
    requires
        v.valid(),
    ensures
        v.executed(order).len() <= v.queue(order.side.opposite()).len(),
        forall|i: int|
            0 <= i < v.executed(order).len() ==> {
                let t = #[trigger] v.executed(order)[i];
                let maker = v.queue(order.side.opposite())[i];
                &&& t.maker_order_id == maker.id
                &&& t.taker_order_id == order.id
                &&& t.price == maker.price
                &&& 0 < t.qty <= maker.remaining_qty
                &&& i < v.executed(order).len() - 1 ==> t.qty == maker.remaining_qty
                &&& t.timestamp_ms == order.timestamp_ms
            },
{
    let n = lemma_other_side(v, order);
    lemma_fills_bounds(v.makers(order), order.remaining_qty as int);
    let q = v.queue(order.side.opposite());
    assert forall|i: int| 0 <= i < v.fills(order).len() implies v.makers(order)[i]
        == #[trigger] q[i] by {}
}

/// No order trades at a price worse than its limit.
pub proof fn lemma_limit_is_kept(v: BookView, order: Order)
    requires
        v.valid(),
        order.order_type == OrderType::Limit,
    ensures
        forall|i: int|
            0 <= i < v.executed(order).len() ==> match order.side {
                Side::Buy => (#[trigger] v.executed(order)[i]).price <= order.price,
                Side::Sell => v.executed(order)[i].price >= order.price,
            },
{
    let n = lemma_other_side(v, order);
    let q = v.queue(order.side.opposite());
    assert forall|i: int| 0 <= i < v.executed(order).len() implies match order.side {
        Side::Buy => (#[trigger] v.executed(order)[i]).price <= order.price,
        Side::Sell => v.executed(order)[i].price >= order.price,
    } by {
        assert(crosses(order, q[i].price));
        assert(v.makers(order)[i] == q[i]);
    }
}

/// An order that trades less than it wants by more than dust has met all that
/// it may trade with: nothing that it crosses is left on the other side.
pub proof fn lemma_stops_only_when_nothing_crosses(v: BookView, order: Order)
    requires
        v.valid(),
        !v.rejects(order),
        v.unfilled(order) > DUST,
    ensures
        forall|i: int|
            0 <= i < v.submitted(order).queue(order.side.opposite()).len() ==> !crosses(
                order,
                (#[trigger] v.submitted(order).queue(order.side.opposite())[i]).price,
            ),
{
    lemma_matched_valid(v, order);
}

/// Amounts that are what is left of `orders` add up to it.
pub proof fn lemma_used_up(orders: Seq<Order>, amounts: Seq<int>)
    requires
        amounts.len() == orders.len(),
        forall|i: int|
            0 <= i < orders.len() ==> #[trigger] amounts[i] == orders[i].remaining_qty,
    ensures
        sum(amounts) == total(orders),
    decreases orders.len(),
{
    if orders.len() > 0 {
        let n = orders.len() - 1;
        assert(amounts[n] == orders[n].remaining_qty);
        assert forall|i: int| 0 <= i < n implies #[trigger] amounts.drop_last()[i]
            == orders.drop_last()[i].remaining_qty by {
            assert(amounts[i] == orders[i].remaining_qty);
        }
        lemma_used_up(orders.drop_last(), amounts.drop_last());
    }
}

/// What is left of a queue whose first orders gave `amounts`.
proof fn lemma_survivors_total(q: Seq<Order>, amounts: Seq<int>)
    requires
        amounts.len() <= q.len(),
        forall|i: int| 0 <= i < amounts.len() ==> 0 < #[trigger] amounts[i] <= q[i].remaining_qty,
        forall|i: int|
            0 <= i < amounts.len() - 1 ==> #[trigger] amounts[i] == q[i].remaining_qty,
    ensures
        sum(amounts) + total(survivors(q, amounts)) <= total(q) <= sum(amounts) + total(
            survivors(q, amounts),
        ) + DUST,
{
    reveal_with_fuel(total, 2);
    reveal_with_fuel(sum, 2);
    let n = amounts.len() as int;
    if n == 0 {
        assert(q.skip(0) =~= q);
    } else {
        let a = q.take(n - 1);
        let last = q[n - 1];
        let rest = q.skip(n);
        assert(q =~= a + seq![last] + rest);
        lemma_total_concat(a + seq![last], rest);
        lemma_total_concat(a, seq![last]);
        lemma_used_up(a, amounts.drop_last());
        assert(total(seq![last]) == last.remaining_qty);
        assert(amounts[n - 1] <= last.remaining_qty);
        if !is_filled(q, amounts, n - 1) {
            let left = reduced(last, amounts[n - 1]);
            lemma_total_concat(seq![left], rest);
            assert(total(seq![left]) == left.remaining_qty);
        }
    }
}

/// Nothing is made or lost in a trade but dust: what an order gets, with what
/// is left of it, is what it wanted; and what it gets, with what is left on the
/// other side, is what was there, up to the dust of one filled order.
pub proof fn lemma_quantity_is_conserved(v: BookView, order: Order)
    requires
        v.valid(),
    ensures
        ({
            let traded = sum(quantities(v.executed(order)));
            let before = total(v.queue(order.side.opposite()));
            let after = total(v.submitted(order).queue(order.side.opposite()));
            &&& !v.rejects(order) ==> order.remaining_qty == traded + v.unfilled(order)
            &&& traded + after <= before <= traded + after + DUST
        }),
{
    let n = lemma_other_side(v, order);
    let q = v.queue(order.side.opposite());
    let amounts = v.fills(order);
    lemma_fills_bounds(v.makers(order), order.remaining_qty as int);
    assert forall|i: int| 0 <= i < amounts.len() implies 0 < #[trigger] amounts[i]
        <= q[i].remaining_qty && (i < amounts.len() - 1 ==> amounts[i] == q[i].remaining_qty) by {
        assert(v.makers(order)[i] == q[i]);
    }
    lemma_survivors_total(q, amounts);
    if v.rejects(order) {
        assert(quantities(v.executed(order)).len() == 0);
    } else {
        assert(quantities(v.executed(order)) =~= amounts);
    }
}

/// The replay of a journal that stands in time order, up to a time that no
/// event is later than, ends where the engine is: with its book and its trades.
pub proof fn lemma_replay_ends_at_the_present(engine: EngineView, target: i64)
    requires
        engine.consistent(),
        in_time_order(engine.journal),
        forall|i: int|
            0 <= i < engine.journal.len() ==> (#[trigger] engine.journal[i]).time() <= target,
    ensures
        history(replayed(engine.journal, target)) == (History {
            book: engine.book,
            trades: engine.trade_log,
        }),
{
    lemma_filter_all(engine.journal, |e: EngineEvent| e.time() <= target);
    lemma_by_time(engine.journal);
}

/// The replay up to any time of a journal that stands in time order ends where
/// the engine was before the first later event.
pub proof fn lemma_replay_is_the_past(journal: Seq<EngineEvent>, n: int, target: i64)
    requires
        in_time_order(journal),
        0 <= n <= journal.len(),
        forall|i: int| 0 <= i < n ==> (#[trigger] journal[i]).time() <= target,
        forall|i: int| n <= i < journal.len() ==> (#[trigger] journal[i]).time() > target,
    ensures
        history(replayed(journal, target)) == history(journal.take(n)),
{
    let past = journal.take(n);
    let future = journal.skip(n);
    assert(journal =~= past + future);
    assert forall|i: int| 0 <= i < future.len() implies (#[trigger] future[i]).time() > target by {
        assert(future[i] == journal[n + i]);
    }
    lemma_replay_ignores_the_future(past, future, target);
    lemma_filter_all(past, |e: EngineEvent| e.time() <= target);
    lemma_by_time(past);
}

/// A replay does not depend on events that are later than its target.
pub proof fn lemma_replay_ignores_the_future(
    journal: Seq<EngineEvent>,
    future: Seq<EngineEvent>,
    target: i64,
)
    requires
        forall|i: int| 0 <= i < future.len() ==> (#[trigger] future[i]).time() > target,
    ensures
        replayed(journal + future, target) == replayed(journal, target),
{
    let keep = |e: EngineEvent| e.time() <= target;
    Seq::filter_distributes_over_add(journal, future, keep);
    lemma_filter_none(future, keep);
    assert(journal.filter(keep) + Seq::<EngineEvent>::empty() =~= journal.filter(keep));
}

/// Events that are later than its target can be left out before a replay.
pub proof fn lemma_replay_needs_only_the_past(journal: Seq<EngineEvent>, target: i64)
    ensures
        replayed(until(journal, target), target) == replayed(journal, target),
{
    let keep = |e: EngineEvent| e.time() <= target;
    lemma_filter_members(journal, keep);
    lemma_filter_all(until(journal, target), keep);
}

/// A replay up to an earlier time is the beginning of one up to a later time: of
/// its events and of its trades. No replay runs more events than there are.
pub proof fn lemma_replay_grows(journal: Seq<EngineEvent>, t1: i64, t2: i64)
    requires
        t1 <= t2,
    ensures
        replayed(journal, t1).is_prefix_of(replayed(journal, t2)),
        replayed(journal, t1).len() <= replayed(journal, t2).len() <= journal.len(),
        history(replayed(journal, t1)).trades.is_prefix_of(history(replayed(journal, t2)).trades),
{
    let a = replayed(journal, t1);
    let b = replayed(journal, t2);
    lemma_until_grows(journal, t1, t2);
    assert(a =~= b.take(a.len() as int));
    lemma_trades_grow(b, a.len() as int);
    lemma_filter_members(journal, |e: EngineEvent| e.time() <= t2);
    lemma_by_time(until(journal, t2));
}

/// A replay goes by time, not by the order of the journal: two journals that hold
/// the same events, no two of them at the same time, replay alike.
pub proof fn lemma_replay_goes_by_time(a: Seq<EngineEvent>, b: Seq<EngineEvent>, target: i64)
    requires
        distinct_times(a),
        a.to_multiset() == b.to_multiset(),
    ensures
        replayed(a, target) == replayed(b, target),
        history(replayed(a, target)) == history(replayed(b, target)),
        a.len() == b.len(),
{
    let keep = |e: EngineEvent| e.time() <= target;
    lemma_by_time_is_one_order(a, b);
    lemma_by_time_filter(a, keep);
    lemma_by_time_filter(b, keep);
    vstd::seq_lib::to_multiset_len(a);
    vstd::seq_lib::to_multiset_len(b);
}

/// Two replays up to the same time find the same, in every field, if their
/// journals hold the same events, no two at the same time, in whatever order; or
/// if it is the same journal.
pub proof fn lemma_replays_find_the_same(
    x: ReplayResult,
    y: ReplayResult,
    a: Seq<EngineEvent>,
    b: Seq<EngineEvent>,
    target: i64,
)
    requires
        x.shows(a, target),
        y.shows(b, target),
        a == b || distinct_times(a) && a.to_multiset() == b.to_multiset(),
    ensures
        x.same_findings(y),
{
    if a != b {
        lemma_replay_goes_by_time(a, b, target);
    }
    let h = history(replayed(a, target));
    lemma_rows_are_one(x.book.bids@, y.book.bids@, group(h.book.bids), SNAPSHOT_DEPTH as nat);
    lemma_rows_are_one(x.book.asks@, y.book.asks@, group(h.book.asks), SNAPSHOT_DEPTH as nat);
    assert(texts(x.validation.errors@) =~= texts(y.validation.errors@));
}

/// There is one way to sum up levels.
proof fn lemma_rows_are_one(
    x: Seq<BookLevel>,
    y: Seq<BookLevel>,
    levels: Seq<PriceLevel>,
    depth: nat,
)
    requires
        sums_up(x, levels, depth),
        sums_up(y, levels, depth),
    ensures
        x == y,
{
    assert forall|i: int| 0 <= i < x.len() implies x[i] == y[i] by {
        assert(is_row(x[i], levels[i]) && is_row(y[i], levels[i]));
    }
    assert(x =~= y);
}

/// Of two replays of one journal, the one up to the earlier time finds the first
/// of the trades of the other and runs no more events; both run or skip every
/// event.
pub proof fn lemma_replays_grow(
    x: ReplayResult,
    y: ReplayResult,
    journal: Seq<EngineEvent>,
    t1: i64,
    t2: i64,
)
    requires
        t1 <= t2,
        x.shows(journal, t1),
        y.shows(journal, t2),
    ensures
        x.trades@.is_prefix_of(y.trades@),
        x.validation.events_replayed <= y.validation.events_replayed,
        x.validation.events_replayed + x.validation.events_skipped == journal.len(),
        y.validation.events_replayed + y.validation.events_skipped == journal.len(),
{
    lemma_replay_grows(journal, t1, t2);
}

} // verus!
