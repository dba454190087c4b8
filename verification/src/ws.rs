//! What clients may ask over the socket, and what they are answered.
use crate::clock::now_ms;
use crate::demo::{lemma_seeded_issued, seed_at, seeded, SCRIPT_LEN, SPAN_MS};
use crate::engine::{
    is_earliest, is_latest, Engine, EngineView, ReplayResult, SNAPSHOT_DEPTH,
};
use crate::generator::{is_usual, Market, Quote};
use crate::lookup::{
    distinct, findable, fresh_ids, issued, lemma_every_resting_order_is_found, lemma_issued_push,
};
use crate::model::{group, BookView};
use crate::order::{EngineEvent, Order, OrderType, Side, TimeInForce, Trade};
use crate::orderbook::{sums_up, SubmitResult};
use vstd::prelude::*;

verus! {

/// The shortest delay between streamed orders that a client can ask for, in
/// milliseconds.
pub const MIN_INTERVAL_MS: u64 = 50;

/// The shortest delay that the stream itself keeps, in milliseconds.
pub const MIN_TICK_MS: u64 = 20;

/// The delay between streamed orders if none is asked for, in milliseconds.
pub fn default_interval() -> (r: u64)
    ensures
        r == 500,
{
    500
}

/// A message from a client. Prices and quantities are in billionths.
#[derive(Debug, Clone, Copy, PartialEq, Eq, Structural)]
pub enum ClientMsg {
    SubmitOrder { side: Side, order_type: OrderType, tif: TimeInForce, price: i64, qty: i64 },
    CancelOrder { order_id: u64 },
    Replay { target_time_ms: i64 },
    GetState,
    SeedDemo,
    Reset,
    StartStream { interval_ms: u64 },
    StopStream,
}

/// A message to the clients. Quantities are in billionths.
#[derive(Debug, Clone)]
pub enum ServerMsg {
    BookSnapshot { book: crate::orderbook::BookSnapshot },
    OrderAck {
        order_id: u64,
        accepted: bool,
        rejection_reason: Option<String>,
        trades: Vec<Trade>,
        resting_qty: i64,
    },
    CancelAck { order_id: u64, found: bool },
    ReplayResult { result: ReplayResult },
    JournalInfo {
        count: usize,
        earliest_ms: Option<i64>,
        latest_ms: Option<i64>,
        server_now_ms: i64,
    },
    Error { message: String },
    StreamStatus { streaming: bool, interval_ms: u64 },
}

impl ServerMsg {
    /// Whether this shows the best levels of `shown`.
    pub open spec fn is_snapshot(self, shown: BookView) -> bool {
        match self {
            ServerMsg::BookSnapshot { book } => {
                &&& sums_up(book.bids@, group(shown.bids), SNAPSHOT_DEPTH as nat)
                &&& sums_up(book.asks@, group(shown.asks), SNAPSHOT_DEPTH as nat)
            },
            _ => false,
        }
    }

    /// Whether this tells what became of `order`, submitted to `book`.
    pub open spec fn is_order_ack(self, book: BookView, order: Order) -> bool {
        match self {
            ServerMsg::OrderAck { order_id, accepted, rejection_reason, trades, resting_qty } => {
                &&& order_id == order.id
                &&& (SubmitResult { trades, accepted, rejection_reason, resting_qty }).tells(
                    book,
                    order,
                )
            },
            _ => false,
        }
    }

    /// Whether this shows a replay of `journal` up to `target`.
    pub open spec fn is_replay(self, journal: Seq<EngineEvent>, target: i64) -> bool {
        match self {
            ServerMsg::ReplayResult { result } => result.shows(journal, target),
            _ => false,
        }
    }

    /// Whether this tells the extent of `journal`, as of `now`.
    pub open spec fn is_journal_info(self, journal: Seq<EngineEvent>, now: i64) -> bool {
        match self {
            ServerMsg::JournalInfo { count, earliest_ms, latest_ms, server_now_ms } => {
                &&& count == journal.len()
                &&& is_earliest(earliest_ms, journal)
                &&& is_latest(latest_ms, journal)
                &&& server_now_ms == now
            },
            _ => false,
        }
    }

    /// Whether this reports an error in the words of `text`.
    pub open spec fn is_error(self, text: Seq<char>) -> bool {
        match self {
            ServerMsg::Error { message } => message@ == text,
            _ => false,
        }
    }
}

/// An order for `qty` at `now`.
pub open spec fn order_at(
    id: u64,
    side: Side,
    order_type: OrderType,
    tif: TimeInForce,
    price: i64,
    qty: i64,
    now: i64,
) -> Order {
    Order { id, side, order_type, tif, price, qty, remaining_qty: qty, timestamp_ms: now }
}

/// The order that `msg` asks to submit, with the next id after `last_id`.
pub open spec fn asked_order(msg: ClientMsg, last_id: u64, now: i64) -> Order
    recommends
        msg is SubmitOrder,
{
    match msg {
        ClientMsg::SubmitOrder { side, order_type, tif, price, qty } => order_at(
            (last_id + 1) as u64,
            side,
            order_type,
            tif,
            price,
            qty,
            now,
        ),
        _ => arbitrary(),
    }
}

/// `engine` after `order` is submitted under the next id, which it carries.
pub open spec fn with_order(engine: EngineView, order: Order) -> EngineView {
    (EngineView { last_order_id: order.id, ..engine }).submitted(order)
}

/// `engine` after `msg`, which arrived at `now`.
pub open spec fn engine_after(engine: EngineView, msg: ClientMsg, now: i64) -> EngineView {
    match msg {
        ClientMsg::SubmitOrder { .. } => with_order(
            engine,
            asked_order(msg, engine.last_order_id, now),
        ),
        ClientMsg::CancelOrder { order_id } => engine.cancelled(order_id, now),
        ClientMsg::SeedDemo => seeded(engine, now, SCRIPT_LEN as nat),
        ClientMsg::Reset => EngineView::empty(),
        _ => engine,
    }
}

/// Whether orders are streamed after `msg`, if they were `before`.
pub open spec fn streaming_after(before: bool, msg: ClientMsg) -> bool {
    match msg {
        ClientMsg::StartStream { .. } => true,
        ClientMsg::StopStream => false,
        _ => before,
    }
}

/// The delay between streamed orders after `msg`, if it was `before`.
pub open spec fn interval_after(before: u64, msg: ClientMsg) -> u64 {
    match msg {
        ClientMsg::StartStream { interval_ms } => if interval_ms < MIN_INTERVAL_MS {
            MIN_INTERVAL_MS
        } else {
            interval_ms
        },
        _ => before,
    }
}

/// How long the stream waits, in milliseconds, if `interval_ms` is asked for.
pub open spec fn delay_for(interval_ms: u64) -> u64 {
    if interval_ms < MIN_TICK_MS {
        MIN_TICK_MS
    } else {
        interval_ms
    }
}

/// The engine, and whether and how fast orders are streamed to it.
pub struct AppState {
    pub engine: Engine,
    pub streaming: bool,
    pub stream_interval_ms: u64,
}

impl AppState {
    /// What every state keeps: the engine is well formed, and the ids of the
    /// orders in its journal were given out one by one.
    pub open spec fn wf(self) -> bool {
        &&& self.engine.wf()
        &&& issued(self.engine@.journal, self.engine@.last_order_id)
    }

    /// Every order that rests in the book of a server can be cancelled: the index
    /// leads to it, and no other order carries its id.
    pub proof fn lemma_every_order_is_found(self)
        requires
            self.wf(),
        ensures
            findable(self.engine@.book),
            distinct(self.engine@.book),
            fresh_ids(self.engine@.journal),
    {
        self.engine.lemma_journal_len();
        lemma_every_resting_order_is_found(self.engine@.journal);
    }

    /// Whether there are order ids left for what `msg` asks.
    pub open spec fn has_ids(self, msg: ClientMsg) -> bool {
        match msg {
            ClientMsg::SubmitOrder { .. } => self.engine@.last_order_id < u64::MAX,
            ClientMsg::SeedDemo => self.engine@.last_order_id + SCRIPT_LEN <= u64::MAX,
            _ => true,
        }
    }

    /// Whether `after` is this state after `msg`, which arrived at `now`.
    pub open spec fn becomes(self, after: AppState, msg: ClientMsg, now: i64) -> bool {
        &&& after.wf()
        &&& after.engine@ == engine_after(self.engine@, msg, now)
        &&& after.streaming == streaming_after(self.streaming, msg)
        &&& after.stream_interval_ms == interval_after(self.stream_interval_ms, msg)
    }

    /// Whether `r` is what clients are told of `msg`, which arrived at `now` and
    /// took this state to `after`; `later` is the time of the answer.
    pub open spec fn answers(
        self,
        after: AppState,
        msg: ClientMsg,
        now: i64,
        later: i64,
        r: Seq<ServerMsg>,
    ) -> bool {
        match msg {
            ClientMsg::SubmitOrder { .. } => {
                &&& r.len() == 2
                &&& r[0].is_order_ack(
                    self.engine@.book,
                    asked_order(msg, self.engine@.last_order_id, now),
                )
                &&& r[1].is_snapshot(after.engine@.book)
            },
            ClientMsg::CancelOrder { order_id } => {
                &&& r.len() == 2
                &&& r[0] == (ServerMsg::CancelAck {
                    order_id,
                    found: self.engine@.book.index.contains_key(order_id),
                })
                &&& r[1].is_snapshot(after.engine@.book)
            },
            ClientMsg::Replay { target_time_ms } => {
                &&& r.len() == 1
                &&& r[0].is_replay(self.engine@.journal, target_time_ms)
            },
            ClientMsg::GetState => {
                &&& r.len() == 3
                &&& r[0].is_snapshot(after.engine@.book)
                &&& r[1].is_journal_info(after.engine@.journal, later)
                &&& r[2] == (ServerMsg::StreamStatus {
                    streaming: after.streaming,
                    interval_ms: after.stream_interval_ms,
                })
            },
            ClientMsg::SeedDemo => {
                &&& r.len() == 2
                &&& r[0].is_snapshot(after.engine@.book)
                &&& r[1].is_journal_info(after.engine@.journal, later)
            },
            ClientMsg::Reset => {
                &&& r.len() == 1
                &&& r[0].is_snapshot(after.engine@.book)
            },
            ClientMsg::StartStream { .. } | ClientMsg::StopStream => {
                &&& r.len() == 1
                &&& r[0] == (ServerMsg::StreamStatus {
                    streaming: after.streaming,
                    interval_ms: after.stream_interval_ms,
                })
            },
        }
    }

    /// A state with a new engine and no stream.
    pub fn new() -> (r: Self)
        ensures
            r.wf(),
            r.engine@ == EngineView::empty(),
            !r.streaming,
            r.stream_interval_ms == 500,
    {
        AppState { engine: Engine::new(), streaming: false, stream_interval_ms: 500 }
    }

    /// Whether there are order ids left for what `msg` asks.
    pub fn can_take(&self, msg: &ClientMsg) -> (r: bool)
        ensures
            r == self.has_ids(*msg),
    {
        match msg {
            ClientMsg::SubmitOrder { .. } => self.engine.last_id() < u64::MAX,
            ClientMsg::SeedDemo => self.engine.last_id() <= u64::MAX - SCRIPT_LEN as u64,
            _ => true,
        }
    }

    /// The book, for clients.
    pub fn book_msg(&self) -> (r: ServerMsg)
        requires
            self.wf(),
        ensures
            r.is_snapshot(self.engine@.book),
    {
        ServerMsg::BookSnapshot { book: self.engine.snapshot() }
    }

    /// The extent of the journal, for clients.
    fn journal_msg(&self, now: i64) -> (r: ServerMsg)
        ensures
            r.is_journal_info(self.engine@.journal, now),
    {
        let (count, earliest_ms, latest_ms) = self.engine.span();
        ServerMsg::JournalInfo { count, earliest_ms, latest_ms, server_now_ms: now }
    }

    /// The stream, for clients.
    fn stream_msg(&self) -> (r: ServerMsg)
        ensures
            r == (ServerMsg::StreamStatus {
                streaming: self.streaming,
                interval_ms: self.stream_interval_ms,
            }),
    {
        ServerMsg::StreamStatus { streaming: self.streaming, interval_ms: self.stream_interval_ms }
    }

    /// How long the stream waits before its next order, in milliseconds.
    pub fn tick_delay(&self) -> (r: u64)
        ensures
            r == delay_for(self.stream_interval_ms),
    {
        if self.stream_interval_ms < MIN_TICK_MS {
            MIN_TICK_MS
        } else {
            self.stream_interval_ms
        }
    }

    /// Submits an order under the next id at time `now`. Gives back that id and
    /// what to tell the clients.
    pub fn submit_at(
        &mut self,
        side: Side,
        order_type: OrderType,
        tif: TimeInForce,
        price: i64,
        qty: i64,
        now: i64,
    ) -> (r: (u64, Vec<ServerMsg>))
        requires
            old(self).wf(),
            old(self).engine@.last_order_id < u64::MAX,
        ensures
            r.0 == old(self).engine@.last_order_id + 1,
            ({
                let msg = ClientMsg::SubmitOrder { side, order_type, tif, price, qty };
                &&& old(self).becomes(*final(self), msg, now)
                &&& forall|later: i64| #[trigger]
                    old(self).answers(*final(self), msg, now, later, r.1@)
            }),
    {
        let id = self.engine.next_id();
        let order = Order {
            id,
            side,
            order_type,
            tif,
            price,
            qty,
            remaining_qty: qty,
            timestamp_ms: now,
        };
        proof {
            lemma_issued_push(
                old(self).engine@.journal,
                old(self).engine@.last_order_id,
                EngineEvent::Submit { order },
            );
        }
        let result = self.engine.submit(order);
        let ack = ServerMsg::OrderAck {
            order_id: id,
            accepted: result.accepted,
            rejection_reason: result.rejection_reason,
            trades: result.trades,
            resting_qty: result.resting_qty,
        };
        let shown = self.book_msg();
        (id, vec![ack, shown])
    }

    /// Does what `msg`, which arrived at `now`, asks for, and gives back what to
    /// tell the clients at `later`.
    pub fn answer(&mut self, msg: ClientMsg, now: i64, later: i64) -> (r: Vec<ServerMsg>)
        requires
            old(self).wf(),
            old(self).has_ids(msg),
            msg is SeedDemo ==> i64::MIN + SPAN_MS <= now,
        ensures
            old(self).becomes(*final(self), msg, now),
            old(self).answers(*final(self), msg, now, later, r@),
    {
        match msg {
            ClientMsg::SubmitOrder { side, order_type, tif, price, qty } => {
                let (_id, msgs) = self.submit_at(side, order_type, tif, price, qty, now);
                msgs
            },
            ClientMsg::CancelOrder { order_id } => {
                proof {
                    lemma_issued_push(
                        self.engine@.journal,
                        self.engine@.last_order_id,
                        EngineEvent::Cancel { order_id, timestamp_ms: now },
                    );
                }
                let found = self.engine.cancel(order_id, now);
                vec![ServerMsg::CancelAck { order_id, found }, self.book_msg()]
            },
            ClientMsg::Replay { target_time_ms } => {
                vec![ServerMsg::ReplayResult { result: self.engine.replay(target_time_ms) }]
            },
            ClientMsg::GetState => {
                vec![self.book_msg(), self.journal_msg(later), self.stream_msg()]
            },
            ClientMsg::SeedDemo => {
                proof {
                    lemma_seeded_issued(self.engine@, now, SCRIPT_LEN as nat);
                }
                seed_at(&mut self.engine, now);
                vec![self.book_msg(), self.journal_msg(later)]
            },
            ClientMsg::Reset => {
                self.engine = Engine::new();
                vec![self.book_msg()]
            },
            ClientMsg::StartStream { interval_ms } => {
                self.stream_interval_ms = if interval_ms < MIN_INTERVAL_MS {
                    MIN_INTERVAL_MS
                } else {
                    interval_ms
                };
                self.streaming = true;
                vec![self.stream_msg()]
            },
            ClientMsg::StopStream => {
                self.streaming = false;
                vec![self.stream_msg()]
            },
        }
    }

    /// Does what `msg` asks for, now, and gives back what to tell the clients.
    pub fn handle_message(&mut self, msg: ClientMsg) -> (r: Vec<ServerMsg>)
        requires
            old(self).wf(),
            old(self).has_ids(msg),
        ensures
            exists|now: i64, later: i64|
                0 <= now && 0 <= later && #[trigger] old(self).answers(
                    *final(self),
                    msg,
                    now,
                    later,
                    r@,
                ) && old(self).becomes(*final(self), msg, now),
    {
        let now = now_ms();
        let later = now_ms();
        self.answer(msg, now, later)
    }
}

/// Lets the stream, if it is on, submit the next order that `market` makes up, at
/// time `now`. Gives back what to tell the clients.
pub fn stream_at(state: &mut AppState, market: &mut Market, now: i64) -> (r: Vec<ServerMsg>)
    requires
        old(state).wf(),
        old(market).wf(),
        old(state).streaming ==> old(state).engine@.last_order_id < u64::MAX,
    ensures
        final(market).wf(),
        if old(state).streaming {
            &&& is_usual(old(market).quoted().0)
            &&& *final(market) == old(market).quoted().1
            &&& old(state).becomes(*final(state), submission(old(market).quoted().0), now)
            &&& old(state).answers(
                *final(state),
                submission(old(market).quoted().0),
                now,
                now,
                r@,
            )
        } else {
            &&& *final(market) == *old(market)
            &&& *final(state) == *old(state)
            &&& r@.len() == 0
        },
{
    if !state.streaming {
        return Vec::new();
    }
    let q = market.random_order();
    let (_id, msgs) = state.submit_at(q.side, q.order_type, q.tif, q.price, q.qty, now);
    assert(old(state).answers(*state, submission(q), now, now, msgs@));
    msgs
}

/// Lets the stream, if it is on, submit the next order that `market` makes up,
/// now. Gives back what to tell the clients.
pub fn stream(state: &mut AppState, market: &mut Market) -> (r: Vec<ServerMsg>)
    requires
        old(state).wf(),
        old(market).wf(),
        old(state).streaming ==> old(state).engine@.last_order_id < u64::MAX,
    ensures
        final(market).wf(),
        if old(state).streaming {
            &&& is_usual(old(market).quoted().0)
            &&& *final(market) == old(market).quoted().1
            &&& exists|now: i64|
                0 <= now && #[trigger] old(state).becomes(
                    *final(state),
                    submission(old(market).quoted().0),
                    now,
                ) && old(state).answers(
                    *final(state),
                    submission(old(market).quoted().0),
                    now,
                    now,
                    r@,
                )
        } else {
            &&& *final(market) == *old(market)
            &&& *final(state) == *old(state)
            &&& r@.len() == 0
        },
{
    let now = now_ms();
    stream_at(state, market, now)
}

/// The message that asks to submit `quote`.
pub open spec fn submission(quote: Quote) -> ClientMsg {
    ClientMsg::SubmitOrder {
        side: quote.side,
        order_type: quote.order_type,
        tif: quote.tif,
        price: quote.price,
        qty: quote.qty,
    }
}

/// Submits an order under the next id, now. Gives back that id and what to tell
/// the clients.
pub fn submit_and_broadcast(
    state: &mut AppState,
    side: Side,
    order_type: OrderType,
    tif: TimeInForce,
    price: i64,
    qty: i64,
) -> (r: (u64, Vec<ServerMsg>))
    requires
        old(state).wf(),
        old(state).engine@.last_order_id < u64::MAX,
    ensures
        r.0 == old(state).engine@.last_order_id + 1,
        exists|now: i64|
            0 <= now && #[trigger] old(state).becomes(
                *final(state),
                (ClientMsg::SubmitOrder { side, order_type, tif, price, qty }),
                now,
            ) && old(state).answers(
                *final(state),
                (ClientMsg::SubmitOrder { side, order_type, tif, price, qty }),
                now,
                now,
                r.1@,
            ),
{
    let now = now_ms();
    let r = state.submit_at(side, order_type, tif, price, qty, now);
    assert(old(state).answers(
        *state,
        ClientMsg::SubmitOrder { side, order_type, tif, price, qty },
        now,
        now,
        r.1@,
    ));
    r
}

/// The answer to a message that cannot be read, for the reason `why`.
pub fn bad_message(why: &str) -> (r: ServerMsg)
    ensures
        r.is_error("bad message: "@ + why@),
        r matches ServerMsg::Error { message } && message@ == "bad message: "@ + why@,
{
    let mut message = "bad message: ".to_string();
    message.append(why);
    ServerMsg::Error { message }
}

} // verus!
