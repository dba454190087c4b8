//! What each message of a client does to the server, and what is answered, field by
//! field.
use crate::demo::seeded;
use crate::engine::{is_earliest, is_latest};
use crate::generator::Market;
use crate::history::lemma_history;
use crate::model::group;
use crate::order::{EngineEvent, Order, OrderType, Side, TimeInForce};
use crate::orderbook::{sums_up, SubmitResult};
use crate::ws::{asked_order, delay_for, submission, AppState, ClientMsg, ServerMsg};
use vstd::prelude::*;

verus! {

/// A submission: one order is journaled and submitted to the book, with the next
/// id, the time, and side, type, time in force, price and quantity as asked, all of
/// it still open. The answer tells what became of that order, and shows the book
/// after it. The stream stays as it is.
pub proof fn lemma_asked_to_submit(
    before: AppState,
    after: AppState,
    side: Side,
    order_type: OrderType,
    tif: TimeInForce,
    price: i64,
    qty: i64,
    now: i64,
    later: i64,
    r: Seq<ServerMsg>,
)
    requires
        before.becomes(after, (ClientMsg::SubmitOrder { side, order_type, tif, price, qty }), now),
        before.answers(
            after,
            (ClientMsg::SubmitOrder { side, order_type, tif, price, qty }),
            now,
            later,
            r,
        ),
        before.engine@.last_order_id < u64::MAX,
    ensures
        ({
            let order = Order {
                id: (before.engine@.last_order_id + 1) as u64,
                side,
                order_type,
                tif,
                price,
                qty,
                remaining_qty: qty,
                timestamp_ms: now,
            };
            &&& after.engine@.journal == before.engine@.journal.push(EngineEvent::Submit { order })
            &&& after.engine@.book == before.engine@.book.submitted(order)
            &&& after.engine@.last_order_id == before.engine@.last_order_id + 1
            &&& after.streaming == before.streaming
            &&& after.stream_interval_ms == before.stream_interval_ms
            &&& r.len() == 2
            &&& match r[0] {
                ServerMsg::OrderAck {
                    order_id,
                    accepted,
                    rejection_reason,
                    trades,
                    resting_qty,
                } => {
                    &&& order_id == order.id
                    &&& (SubmitResult { trades, accepted, rejection_reason, resting_qty }).tells(
                        before.engine@.book,
                        order,
                    )
                    &&& after.engine@.trade_log == before.engine@.trade_log + trades@
                },
                _ => false,
            }
            &&& match r[1] {
                ServerMsg::BookSnapshot { book } => {
                    &&& sums_up(book.bids@, group(after.engine@.book.bids), 25)
                    &&& sums_up(book.asks@, group(after.engine@.book.asks), 25)
                },
                _ => false,
            }
        }),
{
    let msg = ClientMsg::SubmitOrder { side, order_type, tif, price, qty };
    if let ServerMsg::OrderAck { trades, .. } = r[0] {
        let order = asked_order(msg, before.engine@.last_order_id, now);
        assert(before.engine@.book.executed(order) =~= trades@);
    }
}

/// A cancellation: it is journaled with its time and done in the book, and nothing
/// else changes. The answer names the order, says whether one with that id was
/// resting, and shows the book after it.
pub proof fn lemma_asked_to_cancel(
    before: AppState,
    after: AppState,
    order_id: u64,
    now: i64,
    later: i64,
    r: Seq<ServerMsg>,
)
    requires
        before.wf(),
        before.becomes(after, (ClientMsg::CancelOrder { order_id }), now),
        before.answers(after, (ClientMsg::CancelOrder { order_id }), now, later, r),
    ensures
        after.engine@.journal == before.engine@.journal.push(
            EngineEvent::Cancel { order_id, timestamp_ms: now },
        ),
        after.engine@.book == before.engine@.book.cancelled(order_id),
        after.engine@.trade_log == before.engine@.trade_log,
        after.engine@.last_order_id == before.engine@.last_order_id,
        after.streaming == before.streaming,
        after.stream_interval_ms == before.stream_interval_ms,
        r.len() == 2,
        match r[0] {
            ServerMsg::CancelAck { order_id: id, found } => {
                let bids = before.engine@.book.bids;
                let asks = before.engine@.book.asks;
                &&& id == order_id
                &&& found <==> (exists|i: int|
                    0 <= i < bids.len() && (#[trigger] bids[i]).id == order_id) || (exists|i: int|
                    0 <= i < asks.len() && (#[trigger] asks[i]).id == order_id)
            },
            _ => false,
        },
        match r[1] {
            ServerMsg::BookSnapshot { book } => {
                &&& sums_up(book.bids@, group(after.engine@.book.bids), 25)
                &&& sums_up(book.asks@, group(after.engine@.book.asks), 25)
            },
            _ => false,
        },
{
    before.lemma_every_order_is_found();
    before.engine.lemma_journal_len();
    lemma_history(before.engine@.journal);
    let v = before.engine@.book;
    assert(v.valid());
    if v.index.contains_key(order_id) {
        let (side, price) = v.index[order_id];
        assert(v.holds(order_id, side, price));
        let i = choose|i: int|
            0 <= i < v.queue(side).len() && #[trigger] v.queue(side)[i].id == order_id
                && v.queue(side)[i].price == price;
        match side {
            Side::Buy => assert(v.bids[i].id == order_id),
            Side::Sell => assert(v.asks[i].id == order_id),
        }
    } else {
        assert forall|i: int| 0 <= i < v.bids.len() implies (#[trigger] v.bids[i]).id
            != order_id by {
            assert(v.index.contains_key(v.queue(Side::Buy)[i].id));
        }
        assert forall|i: int| 0 <= i < v.asks.len() implies (#[trigger] v.asks[i]).id
            != order_id by {
            assert(v.index.contains_key(v.queue(Side::Sell)[i].id));
        }
    }
}

/// What only asks changes nothing: the book, the journal, the trades, the ids and
/// the stream stay as they are when the state or a replay is asked for, and the
/// replay is one of the journal up to the time that was asked for.
pub proof fn lemma_asked_to_look(
    before: AppState,
    after: AppState,
    msg: ClientMsg,
    now: i64,
    later: i64,
    r: Seq<ServerMsg>,
)
    requires
        msg is GetState || msg is Replay,
        before.becomes(after, msg, now),
        before.answers(after, msg, now, later, r),
    ensures
        after.engine@ == before.engine@,
        after.streaming == before.streaming,
        after.stream_interval_ms == before.stream_interval_ms,
        msg matches ClientMsg::Replay { target_time_ms } ==> r.len() == 1 && match r[0] {
            ServerMsg::ReplayResult { result } => result.shows(
                before.engine@.journal,
                target_time_ms,
            ),
            _ => false,
        },
        msg is GetState ==> {
            &&& r.len() == 3
            &&& match r[0] {
                ServerMsg::BookSnapshot { book } => {
                    &&& sums_up(book.bids@, group(before.engine@.book.bids), 25)
                    &&& sums_up(book.asks@, group(before.engine@.book.asks), 25)
                },
                _ => false,
            }
            &&& match r[1] {
                ServerMsg::JournalInfo { count, earliest_ms, latest_ms, server_now_ms } => {
                    &&& count == before.engine@.journal.len()
                    &&& is_earliest(earliest_ms, before.engine@.journal)
                    &&& is_latest(latest_ms, before.engine@.journal)
                    &&& server_now_ms == later
                },
                _ => false,
            }
            &&& r[2] == (ServerMsg::StreamStatus {
                streaming: before.streaming,
                interval_ms: before.stream_interval_ms,
            })
        },
{
}

/// The extent of a journal: no event is earlier than the earliest time or later
/// than the latest, and some event has each; there are such times exactly if there
/// is an event.
pub proof fn lemma_extent(
    journal: Seq<EngineEvent>,
    earliest: Option<i64>,
    latest: Option<i64>,
    i: int,
)
    requires
        is_earliest(earliest, journal),
        is_latest(latest, journal),
    ensures
        earliest is Some <==> journal.len() > 0,
        latest is Some <==> journal.len() > 0,
        0 <= i < journal.len() ==> {
            let t = match journal[i] {
                EngineEvent::Submit { order } => order.timestamp_ms,
                EngineEvent::Cancel { timestamp_ms, .. } => timestamp_ms,
            };
            earliest->0 <= t <= latest->0
        },
        journal.len() > 0 ==> exists|k: int|
            0 <= k < journal.len() && earliest->0 == match #[trigger] journal[k] {
                EngineEvent::Submit { order } => order.timestamp_ms,
                EngineEvent::Cancel { timestamp_ms, .. } => timestamp_ms,
            },
        journal.len() > 0 ==> exists|k: int|
            0 <= k < journal.len() && latest->0 == match #[trigger] journal[k] {
                EngineEvent::Submit { order } => order.timestamp_ms,
                EngineEvent::Cancel { timestamp_ms, .. } => timestamp_ms,
            },
{
    if journal.len() > 0 {
        let a = choose|k: int|
            0 <= k < journal.len() && (#[trigger] journal[k]).time() == earliest->0;
        let b = choose|k: int|
            0 <= k < journal.len() && (#[trigger] journal[k]).time() == latest->0;
        assert(journal[a].time() == earliest->0);
        assert(journal[b].time() == latest->0);
    }
    if 0 <= i < journal.len() {
        assert(earliest->0 <= journal[i].time() <= latest->0);
    }
}

/// A reset leaves nothing: no orders, no trades, no journal, and ids start anew. A
/// stream that is on stays on.
pub proof fn lemma_asked_to_reset(
    before: AppState,
    after: AppState,
    now: i64,
    later: i64,
    r: Seq<ServerMsg>,
)
    requires
        before.becomes(after, ClientMsg::Reset, now),
        before.answers(after, ClientMsg::Reset, now, later, r),
    ensures
        after.engine@.journal.len() == 0,
        after.engine@.trade_log.len() == 0,
        after.engine@.last_order_id == 0,
        after.engine@.book.bids.len() == 0,
        after.engine@.book.asks.len() == 0,
        after.engine@.book.last_trade_id == 0,
        forall|id: u64| !(#[trigger] after.engine@.book.index.contains_key(id)),
        after.streaming == before.streaming,
        after.stream_interval_ms == before.stream_interval_ms,
        r.len() == 1,
        match r[0] {
            ServerMsg::BookSnapshot { book } => book.bids@.len() == 0 && book.asks@.len() == 0,
            _ => false,
        },
{
}

/// Starting the stream sets its interval to what is asked for, or to fifty
/// milliseconds if that is more; stopping it leaves the interval as it is. Neither
/// touches the engine, and both are answered with the stream as it then is.
pub proof fn lemma_asked_to_stream(
    before: AppState,
    after: AppState,
    msg: ClientMsg,
    now: i64,
    later: i64,
    r: Seq<ServerMsg>,
)
    requires
        msg is StartStream || msg is StopStream,
        before.becomes(after, msg, now),
        before.answers(after, msg, now, later, r),
    ensures
        after.engine@ == before.engine@,
        after.streaming <==> msg is StartStream,
        msg matches ClientMsg::StartStream { interval_ms } ==> {
            &&& after.stream_interval_ms >= 50
            &&& after.stream_interval_ms >= interval_ms
            &&& after.stream_interval_ms == 50 || after.stream_interval_ms == interval_ms
        },
        msg is StopStream ==> after.stream_interval_ms == before.stream_interval_ms,
        r.len() == 1,
        r[0] == (ServerMsg::StreamStatus {
            streaming: after.streaming,
            interval_ms: after.stream_interval_ms,
        }),
{
}

/// Playing the demo keeps the stream and shows the book and the journal after it.
pub proof fn lemma_asked_to_seed(
    before: AppState,
    after: AppState,
    now: i64,
    later: i64,
    r: Seq<ServerMsg>,
)
    requires
        before.becomes(after, ClientMsg::SeedDemo, now),
        before.answers(after, ClientMsg::SeedDemo, now, later, r),
    ensures
        after.engine@ == seeded(before.engine@, now, 24),
        after.streaming == before.streaming,
        after.stream_interval_ms == before.stream_interval_ms,
        r.len() == 2,
        match r[0] {
            ServerMsg::BookSnapshot { book } => {
                &&& sums_up(book.bids@, group(after.engine@.book.bids), 25)
                &&& sums_up(book.asks@, group(after.engine@.book.asks), 25)
            },
            _ => false,
        },
        match r[1] {
            ServerMsg::JournalInfo { count, earliest_ms, latest_ms, server_now_ms } => {
                &&& count == after.engine@.journal.len()
                &&& is_earliest(earliest_ms, after.engine@.journal)
                &&& is_latest(latest_ms, after.engine@.journal)
                &&& server_now_ms == later
            },
            _ => false,
        },
{
}

/// The delay of the stream: what is asked for, or twenty milliseconds if that is
/// more.
pub proof fn lemma_stream_delay(interval_ms: u64)
    ensures
        delay_for(interval_ms) >= 20,
        delay_for(interval_ms) >= interval_ms,
        delay_for(interval_ms) == 20 || delay_for(interval_ms) == interval_ms,
{
}

/// A round of the stream that finds it on submits exactly the order that the market
/// made up, field by field, under the next id: its price is from 48 to 502, its
/// quantity from 0.01 to 9.01, and it is immediate or cancel if it is a market
/// order.
pub proof fn lemma_streamed_order(before: AppState, after: AppState, market: Market, now: i64)
    requires
        market.wf(),
        before.becomes(after, submission(market.quoted().0), now),
        before.engine@.last_order_id < u64::MAX,
    ensures
        ({
            let quote = market.quoted().0;
            let order = Order {
                id: (before.engine@.last_order_id + 1) as u64,
                side: quote.side,
                order_type: quote.order_type,
                tif: quote.tif,
                price: quote.price,
                qty: quote.qty,
                remaining_qty: quote.qty,
                timestamp_ms: now,
            };
            &&& after.engine@.journal == before.engine@.journal.push(EngineEvent::Submit { order })
            &&& after.engine@.book == before.engine@.book.submitted(order)
            &&& after.engine@.last_order_id == order.id
            &&& after.streaming == before.streaming
            &&& after.stream_interval_ms == before.stream_interval_ms
            &&& 48_000_000_000 <= order.price <= 502_000_000_000
            &&& 10_000_000 <= order.qty <= 9_010_000_000
            &&& order.price as int % 10_000_000 == 0
            &&& order.qty as int % 10_000_000 == 0
            &&& order.order_type == OrderType::Market ==> order.tif == TimeInForce::IOC
        }),
{
    market.lemma_quoted();
}

/// How many ids a message takes: one for an order, twenty-four for the script, and
/// none otherwise.
pub proof fn lemma_ids_left(state: AppState, msg: ClientMsg)
    ensures
        state.has_ids(msg) <==> match msg {
            ClientMsg::SubmitOrder { .. } => state.engine@.last_order_id + 1 <= u64::MAX,
            ClientMsg::SeedDemo => state.engine@.last_order_id + 24 <= u64::MAX,
            _ => true,
        },
{
}

} // verus!
