//! Handing orders over to the matching service: what clients may ask, what is
//! published, and what they are told.
use crate::clock::now_ms;
use crate::fixed::UNIT;
use crate::generator::{Market, Quote};
use crate::order::{Order, OrderType, Side, TimeInForce};
use crate::publisher::{count_sent, count_true};
use vstd::prelude::*;

verus! {

pub const AERON_CHANNEL: &'static str = "aeron:udp?endpoint=localhost:40123";

pub const AERON_STREAM_ID: i32 = 1001;

pub const DEFAULT_ACCOUNT_ID: u64 = 1;

pub const DEFAULT_INSTRUMENT_ID: u64 = 1;

/// The shortest delay between streamed orders, in milliseconds.
pub const MIN_INTERVAL_MS: u64 = 20;

/// The seed of the market whose orders are streamed to the matching service.
pub const STREAM_SEED: u64 = 0xD1B5_4A32_D192_ED03;

/// The mid price of a prefilled book, in billionths: one hundred.
pub const PREFILL_MID: i64 = 100_000_000_000;

/// The delay between streamed orders if none is asked for, in milliseconds.
pub fn default_interval() -> (r: u64)
    ensures
        r == 500,
{
    500
}

/// Which book to prefill.
#[derive(Debug, Clone, Copy, PartialEq, Eq, Structural)]
pub enum PrefillKind {
    Dense,
    Sparse,
    HighSpread,
    LowSpread,
}

/// What the publisher is asked to do.
#[derive(Debug, Clone, Copy, PartialEq, Eq, Structural)]
pub enum PublishCmd {
    Submit(Order),
    Prefill(PrefillKind),
}

/// A message from a client. Prices and quantities are in billionths.
#[derive(Debug, Clone, Copy, PartialEq, Eq, Structural)]
pub enum ClientMsg {
    SubmitOrder { side: Side, order_type: OrderType, tif: TimeInForce, price: i64, qty: i64 },
    RunPrefill { kind: PrefillKind },
    StartStream { interval_ms: u64 },
    StopStream,
    GetState,
}

/// A message to the clients. Prices and quantities are in billionths.
#[derive(Debug, Clone)]
pub enum ServerMsg {
    PublishAck {
        order_id: u64,
        side: Side,
        order_type: OrderType,
        tif: TimeInForce,
        price: i64,
        qty: i64,
        ok: bool,
        error: Option<String>,
        total_sent: u64,
        total_errors: u64,
    },
    PrefillResult { kind: PrefillKind, sent: usize, total: usize },
    StreamStatus { streaming: bool, interval_ms: u64 },
    Stats { total_sent: u64, total_errors: u64, streaming: bool, interval_ms: u64 },
    Error { message: String },
}

/// What follows from a message: something to publish, or something to tell the
/// clients.
#[derive(Debug, Clone)]
pub enum Reaction {
    Publish(PublishCmd),
    Tell(ServerMsg),
}

/// How many price levels a prefill puts on each side.
pub open spec fn level_count(kind: PrefillKind) -> nat {
    match kind {
        PrefillKind::Dense => 200,
        PrefillKind::Sparse => 50,
        PrefillKind::HighSpread => 100,
        PrefillKind::LowSpread => 200,
    }
}

/// How far level `i`, counted from one, is from the mid price, in billionths.
pub open spec fn level_gap(kind: PrefillKind, i: int) -> int {
    match kind {
        PrefillKind::Dense => i * 100_000_000,
        PrefillKind::Sparse => i * 2_000_000_000,
        PrefillKind::HighSpread => 5_000_000_000 + (i - 1) * 1_000_000_000,
        PrefillKind::LowSpread => i * 10_000_000,
    }
}

/// The quantity of each order of level `i`, counted from one, in whole units.
pub open spec fn level_qty(kind: PrefillKind, i: int) -> int {
    match kind {
        PrefillKind::Dense => 10 + (200 - i + 1) % 20,
        PrefillKind::Sparse => i % 3 + 1,
        PrefillKind::HighSpread => i % 4 + 2,
        PrefillKind::LowSpread => 15 + (200 - i + 1) % 15,
    }
}

/// The `j`th order of a prefill: on each level, from the mid price outwards, a
/// bid and then an ask.
pub open spec fn prefill_quote(kind: PrefillKind, j: int) -> Quote {
    let i = j / 2 + 1;
    Quote {
        side: if j % 2 == 0 {
            Side::Buy
        } else {
            Side::Sell
        },
        order_type: OrderType::Limit,
        tif: TimeInForce::GTC,
        price: if j % 2 == 0 {
            (PREFILL_MID - level_gap(kind, i)) as i64
        } else {
            (PREFILL_MID + level_gap(kind, i)) as i64
        },
        qty: (level_qty(kind, i) * UNIT) as i64,
    }
}

/// A prefilled book is not crossed: every bid of a prefill is below every ask.
pub proof fn lemma_prefill_is_uncrossed(kind: PrefillKind, bid: int, ask: int)
    requires
        0 <= bid < 2 * level_count(kind),
        0 <= ask < 2 * level_count(kind),
        prefill_quote(kind, bid).side == Side::Buy,
        prefill_quote(kind, ask).side == Side::Sell,
    ensures
        prefill_quote(kind, bid).price < PREFILL_MID < prefill_quote(kind, ask).price,
{
}

/// `quote` as an order with `id` at `now`.
pub open spec fn order_of(quote: Quote, id: u64, now: i64) -> Order {
    Order {
        id,
        side: quote.side,
        order_type: quote.order_type,
        tif: quote.tif,
        price: quote.price,
        qty: quote.qty,
        remaining_qty: quote.qty,
        timestamp_ms: now,
    }
}

/// A count with one more; after the largest comes zero.
pub open spec fn one_more(n: u64) -> u64 {
    if n == u64::MAX {
        0
    } else {
        (n + 1) as u64
    }
}

/// How far level `i` is from the mid price, in billionths.
fn gap_of(kind: PrefillKind, i: i64) -> (r: i64)
    requires
        1 <= i <= 200,
    ensures
        r == level_gap(kind, i as int),
        0 <= r <= 400 * UNIT,
{
    match kind {
        PrefillKind::Dense => i * 100_000_000,
        PrefillKind::Sparse => i * 2_000_000_000,
        PrefillKind::HighSpread => 5_000_000_000 + (i - 1) * 1_000_000_000,
        PrefillKind::LowSpread => i * 10_000_000,
    }
}

/// The quantity of each order of level `i`, in whole units.
fn qty_of(kind: PrefillKind, i: i64) -> (r: i64)
    requires
        1 <= i <= 200,
    ensures
        r == level_qty(kind, i as int),
        1 <= r <= 30,
{
    match kind {
        PrefillKind::Dense => 10 + (200 - i + 1) % 20,
        PrefillKind::Sparse => i % 3 + 1,
        PrefillKind::HighSpread => i % 4 + 2,
        PrefillKind::LowSpread => 15 + (200 - i + 1) % 15,
    }
}

/// How many price levels a prefill puts on each side.
fn levels_in(kind: PrefillKind) -> (r: i64)
    ensures
        r == level_count(kind),
        1 <= r <= 200,
{
    match kind {
        PrefillKind::Dense => 200,
        PrefillKind::Sparse => 50,
        PrefillKind::HighSpread => 100,
        PrefillKind::LowSpread => 200,
    }
}

/// All orders of a prefill, without ids and times.
pub fn prefill_levels(kind: PrefillKind) -> (r: Vec<Quote>)
    ensures
        r@ == Seq::new(2 * level_count(kind), |j: int| prefill_quote(kind, j)),
{
    let levels = levels_in(kind);
    let mut out: Vec<Quote> = Vec::new();
    let mut i: i64 = 1;
    while i <= levels
        invariant
            levels == level_count(kind),
            1 <= i <= levels + 1 <= 201,
            out@.len() == 2 * (i - 1),
            forall|j: int| 0 <= j < out@.len() ==> #[trigger] out@[j] == prefill_quote(kind, j),
        decreases levels + 1 - i,
    {
        let qty = qty_of(kind, i) * UNIT;
        let gap = gap_of(kind, i);
        let order_type = OrderType::Limit;
        let tif = TimeInForce::GTC;
        out.push(Quote { side: Side::Buy, order_type, tif, price: PREFILL_MID - gap, qty });
        out.push(Quote { side: Side::Sell, order_type, tif, price: PREFILL_MID + gap, qty });
        i = i + 1;
    }
    assert(out@ =~= Seq::new(2 * level_count(kind), |j: int| prefill_quote(kind, j)));
    out
}

/// Whether orders are streamed and how fast, how many were published and how
/// many could not be, and the last order id.
#[derive(Debug, Clone, Copy, PartialEq, Eq, Structural)]
pub struct AeronState {
    pub streaming: bool,
    pub stream_interval_ms: u64,
    pub total_sent: u64,
    pub total_errors: u64,
    pub next_order_id: u64,
}

impl AeronState {
    /// The state at the start.
    pub fn new() -> (r: Self)
        ensures
            r == (AeronState {
                streaming: false,
                stream_interval_ms: 500,
                total_sent: 0,
                total_errors: 0,
                next_order_id: 0,
            }),
    {
        AeronState {
            streaming: false,
            stream_interval_ms: 500,
            total_sent: 0,
            total_errors: 0,
            next_order_id: 0,
        }
    }

    /// An order id that was not given out before: one more than the last.
    fn next_id(&mut self) -> (r: u64)
        requires
            old(self).next_order_id < u64::MAX,
        ensures
            r == old(self).next_order_id + 1,
            *final(self) == (AeronState { next_order_id: r, ..*old(self) }),
    {
        self.next_order_id = self.next_order_id + 1;
        self.next_order_id
    }

    /// `quote` as an order under the next id, at `now`.
    pub fn build_order_at(&mut self, quote: Quote, now: i64) -> (r: Order)
        requires
            old(self).next_order_id < u64::MAX,
        ensures
            r == order_of(quote, (old(self).next_order_id + 1) as u64, now),
            *final(self) == (AeronState { next_order_id: r.id, ..*old(self) }),
    {
        Order {
            id: self.next_id(),
            side: quote.side,
            order_type: quote.order_type,
            tif: quote.tif,
            price: quote.price,
            qty: quote.qty,
            remaining_qty: quote.qty,
            timestamp_ms: now,
        }
    }

    /// `quote` as an order under the next id, now.
    pub fn build_order(&mut self, quote: Quote) -> (r: Order)
        requires
            old(self).next_order_id < u64::MAX,
        ensures
            r == order_of(quote, (old(self).next_order_id + 1) as u64, r.timestamp_ms),
            0 <= r.timestamp_ms,
            *final(self) == (AeronState { next_order_id: r.id, ..*old(self) }),
    {
        let now = now_ms();
        self.build_order_at(quote, now)
    }

    /// An order that `market` makes up, under the next id, now.
    pub fn random_order(&mut self, market: &mut Market) -> (r: Order)
        requires
            old(self).next_order_id < u64::MAX,
            old(market).wf(),
        ensures
            final(market).wf(),
            *final(market) == old(market).quoted().1,
            r == order_of(
                old(market).quoted().0,
                (old(self).next_order_id + 1) as u64,
                r.timestamp_ms,
            ),
            0 <= r.timestamp_ms,
            *final(self) == (AeronState { next_order_id: r.id, ..*old(self) }),
    {
        let quote = market.random_order();
        self.build_order(quote)
    }

    /// Whether `r` are the orders of a prefill, under the next ids, and building
    /// them takes this state to `after`.
    pub open spec fn prefills(self, after: AeronState, kind: PrefillKind, r: Seq<Order>) -> bool {
        &&& r.len() == 2 * level_count(kind)
        &&& forall|j: int|
            0 <= j < r.len() ==> {
                &&& 0 <= (#[trigger] r[j]).timestamp_ms
                &&& r[j] == order_of(
                    prefill_quote(kind, j),
                    (self.next_order_id + 1 + j) as u64,
                    r[j].timestamp_ms,
                )
            }
        &&& after == (AeronState {
            next_order_id: (self.next_order_id + 2 * level_count(kind)) as u64,
            ..self
        })
    }

    /// The orders of a prefill, under the next ids, now.
    pub fn prefill_orders(&mut self, kind: PrefillKind) -> (r: Vec<Order>)
        requires
            old(self).next_order_id + 2 * level_count(kind) <= u64::MAX,
        ensures
            old(self).prefills(*final(self), kind, r@),
    {
        let ghost before = *self;
        let quotes = prefill_levels(kind);
        let mut out: Vec<Order> = Vec::new();
        let mut i: usize = 0;
        while i < quotes.len()
            invariant
                quotes@ == Seq::new(2 * level_count(kind), |j: int| prefill_quote(kind, j)),
                before.next_order_id + 2 * level_count(kind) <= u64::MAX,
                i <= quotes@.len(),
                out@.len() == i,
                *self == (AeronState {
                    next_order_id: (before.next_order_id + i) as u64,
                    ..before
                }),
                forall|j: int|
                    0 <= j < i ==> {
                        &&& 0 <= (#[trigger] out@[j]).timestamp_ms
                        &&& out@[j] == order_of(
                            prefill_quote(kind, j),
                            (before.next_order_id + 1 + j) as u64,
                            out@[j].timestamp_ms,
                        )
                    },
            decreases quotes@.len() - i,
        {
            let order = self.build_order(quotes[i]);
            out.push(order);
            i = i + 1;
        }
        out
    }

    /// Whether there are order ids left for what `cmd` asks.
    pub open spec fn has_ids(self, cmd: PublishCmd) -> bool {
        match cmd {
            PublishCmd::Submit(_) => true,
            PublishCmd::Prefill(kind) => self.next_order_id + 2 * level_count(kind) <= u64::MAX,
        }
    }

    /// Whether `r` are the orders to publish for `cmd`, in turn, and building them
    /// takes this state to `after`.
    pub open spec fn publishes(self, after: AeronState, cmd: PublishCmd, r: Seq<Order>) -> bool {
        match cmd {
            PublishCmd::Submit(order) => r == seq![order] && after == self,
            PublishCmd::Prefill(kind) => self.prefills(after, kind, r),
        }
    }

    /// The orders to publish for `cmd`, in turn.
    pub fn orders_for(&mut self, cmd: PublishCmd) -> (r: Vec<Order>)
        requires
            old(self).has_ids(cmd),
        ensures
            old(self).publishes(*final(self), cmd, r@),
    {
        match cmd {
            PublishCmd::Submit(order) => {
                let r: Vec<Order> = vec![order];
                assert(r@ =~= seq![order]);
                r
            },
            PublishCmd::Prefill(kind) => self.prefill_orders(kind),
        }
    }

    /// Whether there are order ids left for what `cmd` asks.
    pub fn can_publish(&self, cmd: &PublishCmd) -> (r: bool)
        ensures
            r == self.has_ids(*cmd),
    {
        match cmd {
            PublishCmd::Submit(_) => true,
            PublishCmd::Prefill(kind) => self.next_order_id <= u64::MAX - 2 * levels_in(
                *kind,
            ) as u64,
        }
    }

    /// Counts the attempt to publish `order` that ended in `result`, and gives
    /// back what to tell the clients of it.
    pub fn record(&mut self, order: &Order, result: Result<(), String>) -> (r: ServerMsg)
        ensures
            *final(self) == (AeronState {
                total_sent: if result is Ok {
                    one_more(old(self).total_sent)
                } else {
                    old(self).total_sent
                },
                total_errors: if result is Ok {
                    old(self).total_errors
                } else {
                    one_more(old(self).total_errors)
                },
                ..*old(self)
            }),
            r == (ServerMsg::PublishAck {
                order_id: order.id,
                side: order.side,
                order_type: order.order_type,
                tif: order.tif,
                price: order.price,
                qty: order.qty,
                ok: result is Ok,
                error: match result {
                    Ok(()) => None,
                    Err(e) => Some(e),
                },
                total_sent: final(self).total_sent,
                total_errors: final(self).total_errors,
            }),
    {
        let (ok, error) = match result {
            Ok(()) => {
                self.total_sent = self.total_sent.wrapping_add(1);
                (true, None)
            },
            Err(e) => {
                self.total_errors = self.total_errors.wrapping_add(1);
                (false, Some(e))
            },
        };
        ServerMsg::PublishAck {
            order_id: order.id,
            side: order.side,
            order_type: order.order_type,
            tif: order.tif,
            price: order.price,
            qty: order.qty,
            ok,
            error,
            total_sent: self.total_sent,
            total_errors: self.total_errors,
        }
    }

    /// Whether the stream owes an order, `elapsed_ms` after its last one.
    pub fn tick_due(&self, elapsed_ms: u64) -> (r: bool)
        ensures
            r == (self.streaming && self.stream_interval_ms <= elapsed_ms && 20 <= elapsed_ms),
    {
        let interval = if self.stream_interval_ms < MIN_INTERVAL_MS {
            MIN_INTERVAL_MS
        } else {
            self.stream_interval_ms
        };
        self.streaming && elapsed_ms >= interval
    }

    /// The counts and the stream, for clients.
    pub fn stats(&self) -> (r: ServerMsg)
        ensures
            r == (ServerMsg::Stats {
                total_sent: self.total_sent,
                total_errors: self.total_errors,
                streaming: self.streaming,
                interval_ms: self.stream_interval_ms,
            }),
    {
        ServerMsg::Stats {
            total_sent: self.total_sent,
            total_errors: self.total_errors,
            streaming: self.streaming,
            interval_ms: self.stream_interval_ms,
        }
    }

    /// Whether `r` follows from `msg`, which arrived at `now` and took this
    /// state to `after`.
    pub open spec fn reacts(
        self,
        after: AeronState,
        msg: ClientMsg,
        now: i64,
        r: Reaction,
    ) -> bool {
        match msg {
            ClientMsg::SubmitOrder { side, order_type, tif, price, qty } => {
                let id = (self.next_order_id + 1) as u64;
                let quote = Quote { side, order_type, tif, price, qty };
                &&& r == Reaction::Publish(PublishCmd::Submit(order_of(quote, id, now)))
                &&& after == (AeronState { next_order_id: id, ..self })
            },
            ClientMsg::RunPrefill { kind } => {
                &&& r == Reaction::Publish(PublishCmd::Prefill(kind))
                &&& after == self
            },
            ClientMsg::StartStream { interval_ms } => {
                let interval_ms = if interval_ms < MIN_INTERVAL_MS {
                    MIN_INTERVAL_MS
                } else {
                    interval_ms
                };
                &&& r == Reaction::Tell(
                    ServerMsg::StreamStatus { streaming: true, interval_ms },
                )
                &&& after == (AeronState {
                    streaming: true,
                    stream_interval_ms: interval_ms,
                    ..self
                })
            },
            ClientMsg::StopStream => {
                &&& r == Reaction::Tell(
                    ServerMsg::StreamStatus {
                        streaming: false,
                        interval_ms: self.stream_interval_ms,
                    },
                )
                &&& after == (AeronState { streaming: false, ..self })
            },
            ClientMsg::GetState => {
                &&& r == Reaction::Tell(
                    ServerMsg::Stats {
                        total_sent: self.total_sent,
                        total_errors: self.total_errors,
                        streaming: self.streaming,
                        interval_ms: self.stream_interval_ms,
                    },
                )
                &&& after == self
            },
        }
    }

    /// Does what `msg`, which arrived at `now`, asks for, and gives back what
    /// follows from it.
    pub fn react(&mut self, msg: ClientMsg, now: i64) -> (r: Reaction)
        requires
            msg is SubmitOrder ==> old(self).next_order_id < u64::MAX,
        ensures
            old(self).reacts(*final(self), msg, now, r),
    {
        match msg {
            ClientMsg::SubmitOrder { side, order_type, tif, price, qty } => {
                let order = self.build_order_at(Quote { side, order_type, tif, price, qty }, now);
                Reaction::Publish(PublishCmd::Submit(order))
            },
            ClientMsg::RunPrefill { kind } => Reaction::Publish(PublishCmd::Prefill(kind)),
            ClientMsg::StartStream { interval_ms } => {
                let interval_ms = if interval_ms < MIN_INTERVAL_MS {
                    MIN_INTERVAL_MS
                } else {
                    interval_ms
                };
                self.stream_interval_ms = interval_ms;
                self.streaming = true;
                Reaction::Tell(ServerMsg::StreamStatus { streaming: true, interval_ms })
            },
            ClientMsg::StopStream => {
                self.streaming = false;
                Reaction::Tell(
                    ServerMsg::StreamStatus {
                        streaming: false,
                        interval_ms: self.stream_interval_ms,
                    },
                )
            },
            ClientMsg::GetState => Reaction::Tell(self.stats()),
        }
    }

    /// Does what `msg` asks for, now, and gives back what follows from it.
    pub fn handle_message(&mut self, msg: ClientMsg) -> (r: Reaction)
        requires
            msg is SubmitOrder ==> old(self).next_order_id < u64::MAX,
        ensures
            exists|now: i64| 0 <= now && #[trigger] old(self).reacts(*final(self), msg, now, r),
    {
        let now = now_ms();
        self.react(msg, now)
    }
}

/// What to tell the clients of a prefill, given which of its orders were
/// published.
pub fn prefill_result(kind: PrefillKind, outcomes: &Vec<bool>) -> (r: ServerMsg)
    ensures
        r == (ServerMsg::PrefillResult {
            kind,
            sent: count_true(outcomes@) as usize,
            total: outcomes@.len() as usize,
        }),
{
    ServerMsg::PrefillResult { kind, sent: count_sent(outcomes), total: outcomes.len() }
}

/// The answer to a message that cannot be read, for the reason `why`.
pub fn bad_message(why: &str) -> (r: ServerMsg)
    ensures
        r matches ServerMsg::Error { message } && message@ == "bad message: "@ + why@,
{
    let mut message = "bad message: ".to_string();
    message.append(why);
    ServerMsg::Error { message }
}

/// The answer to a message that asks to publish something when there is no
/// publisher.
pub fn no_publisher() -> (r: ServerMsg)
    ensures
        r matches ServerMsg::Error { message } && message@ == "publisher thread is not running"@,
{
    ServerMsg::Error { message: "publisher thread is not running".to_string() }
}

/// The order that is built of a quote: side, type, time in force, price and
/// quantity are those of the quote, all of it is open, and id and time are as given.
pub proof fn lemma_built_order(quote: Quote, id: u64, now: i64)
    ensures
        ({
            let o = order_of(quote, id, now);
            &&& o.id == id
            &&& o.side == quote.side
            &&& o.order_type == quote.order_type
            &&& o.tif == quote.tif
            &&& o.price == quote.price
            &&& o.qty == quote.qty
            &&& o.remaining_qty == quote.qty
            &&& o.timestamp_ms == now
        }),
{
}

/// The levels of a prefill, counted from zero: on each a bid and an ask of the same
/// quantity and as far from one hundred, both good-till-cancelled limit orders. The
/// next level is one tick further out. Ticks and first distances are 0.10 for a
/// dense book, 2 for a sparse one and 0.01 for a low spread; with a high spread the
/// first distance is 5 and a tick is 1.
pub proof fn lemma_prefill_prices(kind: PrefillKind, k: int)
    requires
        0 <= k < level_count(kind),
    ensures
        level_count(kind) == match kind {
            PrefillKind::Dense => 200nat,
            PrefillKind::Sparse => 50,
            PrefillKind::HighSpread => 100,
            PrefillKind::LowSpread => 200,
        },
        ({
            let bid = prefill_quote(kind, 2 * k);
            let ask = prefill_quote(kind, 2 * k + 1);
            let next = prefill_quote(kind, 2 * k + 2);
            &&& bid.side == Side::Buy
            &&& ask.side == Side::Sell
            &&& bid.order_type == OrderType::Limit && ask.order_type == OrderType::Limit
            &&& bid.tif == TimeInForce::GTC && ask.tif == TimeInForce::GTC
            &&& bid.price + ask.price == 200_000_000_000
            &&& bid.qty == ask.qty
            &&& bid.price - next.price == match kind {
                PrefillKind::Dense => 100_000_000int,
                PrefillKind::Sparse => 2_000_000_000,
                PrefillKind::HighSpread => 1_000_000_000,
                PrefillKind::LowSpread => 10_000_000,
            }
            &&& k == 0 ==> ask.price - bid.price == 2 * match kind {
                PrefillKind::Dense => 100_000_000int,
                PrefillKind::Sparse => 2_000_000_000,
                PrefillKind::HighSpread => 5_000_000_000,
                PrefillKind::LowSpread => 10_000_000,
            }
        }),
{
    assert((2 * k) / 2 == k && (2 * k + 1) / 2 == k && (2 * k + 2) / 2 == k + 1);
    assert((2 * k) % 2 == 0 && (2 * k + 1) % 2 == 1 && (2 * k + 2) % 2 == 0);
}

/// The quantities of a prefill from level to level, in billionths. In a dense book
/// and one of low spread they fall by one, from the smallest back to twenty-nine;
/// in the others they rise by one, from the largest back to the smallest.
pub proof fn lemma_prefill_quantities(kind: PrefillKind, k: int)
    requires
        0 <= k < level_count(kind),
    ensures
        ({
            let one = 1_000_000_000int;
            let here = prefill_quote(kind, 2 * k).qty;
            let next = prefill_quote(kind, 2 * k + 2).qty;
            match kind {
                PrefillKind::Dense => {
                    &&& k == 0 ==> here == 10 * one
                    &&& next == if here == 10 * one {
                        29 * one
                    } else {
                        here - one
                    }
                },
                PrefillKind::Sparse => {
                    &&& k == 0 ==> here == 2 * one
                    &&& next == if here == 3 * one {
                        one
                    } else {
                        here + one
                    }
                },
                PrefillKind::HighSpread => {
                    &&& k == 0 ==> here == 3 * one
                    &&& next == if here == 5 * one {
                        2 * one
                    } else {
                        here + one
                    }
                },
                PrefillKind::LowSpread => {
                    &&& k == 0 ==> here == 20 * one
                    &&& next == if here == 15 * one {
                        29 * one
                    } else {
                        here - one
                    }
                },
            }
        }),
{
    assert((2 * k) / 2 == k && (2 * k + 2) / 2 == k + 1);
}

/// What a client's message does to the bridge. A submission is published as it was
/// asked, under the next id; a prefill is handed on; starting the stream sets the
/// interval to what is asked for, or to twenty milliseconds if that is more; asking
/// for the state changes nothing. The counts of what was published never change.
pub proof fn lemma_reactions(
    before: AeronState,
    after: AeronState,
    msg: ClientMsg,
    now: i64,
    r: Reaction,
)
    requires
        before.reacts(after, msg, now, r),
        msg is SubmitOrder ==> before.next_order_id < u64::MAX,
    ensures
        after.total_sent == before.total_sent,
        after.total_errors == before.total_errors,
        match msg {
            ClientMsg::SubmitOrder { side, order_type, tif, price, qty } => {
                &&& after.next_order_id == before.next_order_id + 1
                &&& after.streaming == before.streaming
                &&& after.stream_interval_ms == before.stream_interval_ms
                &&& r == Reaction::Publish(
                    PublishCmd::Submit(
                        Order {
                            id: after.next_order_id,
                            side,
                            order_type,
                            tif,
                            price,
                            qty,
                            remaining_qty: qty,
                            timestamp_ms: now,
                        },
                    ),
                )
            },
            ClientMsg::RunPrefill { kind } => {
                &&& after == before
                &&& r == Reaction::Publish(PublishCmd::Prefill(kind))
            },
            ClientMsg::StartStream { interval_ms } => {
                &&& after.next_order_id == before.next_order_id
                &&& after.streaming
                &&& after.stream_interval_ms >= 20
                &&& after.stream_interval_ms >= interval_ms
                &&& after.stream_interval_ms == 20 || after.stream_interval_ms == interval_ms
                &&& r == Reaction::Tell(
                    ServerMsg::StreamStatus {
                        streaming: true,
                        interval_ms: after.stream_interval_ms,
                    },
                )
            },
            ClientMsg::StopStream => {
                &&& after.next_order_id == before.next_order_id
                &&& !after.streaming
                &&& after.stream_interval_ms == before.stream_interval_ms
                &&& r == Reaction::Tell(
                    ServerMsg::StreamStatus {
                        streaming: false,
                        interval_ms: before.stream_interval_ms,
                    },
                )
            },
            ClientMsg::GetState => {
                &&& after == before
                &&& r == Reaction::Tell(
                    ServerMsg::Stats {
                        total_sent: before.total_sent,
                        total_errors: before.total_errors,
                        streaming: before.streaming,
                        interval_ms: before.stream_interval_ms,
                    },
                )
            },
        },
{
}

/// What is published for a command: the order that it carries and nothing else; or
/// the orders of the prefill in turn, each under the next id, none left out. Counts
/// and stream stay as they are.
pub proof fn lemma_published(before: AeronState, after: AeronState, cmd: PublishCmd, r: Seq<Order>)
    requires
        before.publishes(after, cmd, r),
        before.has_ids(cmd),
    ensures
        after.streaming == before.streaming,
        after.stream_interval_ms == before.stream_interval_ms,
        after.total_sent == before.total_sent,
        after.total_errors == before.total_errors,
        match cmd {
            PublishCmd::Submit(order) => {
                &&& r.len() == 1
                &&& r[0] == order
                &&& after.next_order_id == before.next_order_id
            },
            PublishCmd::Prefill(kind) => {
                &&& r.len() == match kind {
                    PrefillKind::Dense => 400nat,
                    PrefillKind::Sparse => 100,
                    PrefillKind::HighSpread => 200,
                    PrefillKind::LowSpread => 400,
                }
                &&& after.next_order_id == before.next_order_id + r.len()
                &&& forall|j: int|
                    0 <= j < r.len() ==> {
                        let o = #[trigger] r[j];
                        let quote = prefill_quote(kind, j);
                        &&& o.id == before.next_order_id + 1 + j
                        &&& o.side == quote.side
                        &&& o.order_type == quote.order_type
                        &&& o.tif == quote.tif
                        &&& o.price == quote.price
                        &&& o.qty == quote.qty
                        &&& o.remaining_qty == quote.qty
                    }
            },
        },
{
}

/// Counts go up by one, and after the largest number start from zero.
pub proof fn lemma_one_more(n: u64)
    ensures
        n < u64::MAX ==> one_more(n) == n + 1,
        n == u64::MAX ==> one_more(n) == 0,
{
}

/// How many ids a command takes: none if it carries its order, and otherwise one for
/// each order of the prefill.
pub proof fn lemma_ids_left(state: AeronState, cmd: PublishCmd)
    ensures
        state.has_ids(cmd) <==> match cmd {
            PublishCmd::Submit(_) => true,
            PublishCmd::Prefill(PrefillKind::Dense) => state.next_order_id + 400 <= u64::MAX,
            PublishCmd::Prefill(PrefillKind::Sparse) => state.next_order_id + 100 <= u64::MAX,
            PublishCmd::Prefill(PrefillKind::HighSpread) => state.next_order_id + 200 <= u64::MAX,
            PublishCmd::Prefill(PrefillKind::LowSpread) => state.next_order_id + 400 <= u64::MAX,
        },
{
}

} // verus!
