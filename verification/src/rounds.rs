//! The server over time: what clients ask, and the rounds of the stream between
//! them.
//!
//! A round of the stream reads the delay, waits that long, and then lets the
//! stream submit an order if it is on.
use crate::engine::EngineView;
use crate::generator::{is_usual, Market, Quote, START_MID, STREAM_SEED};
use crate::order::{EngineEvent, Order};
use crate::ws::{
    delay_for, engine_after, interval_after, streaming_after, submission, AppState, ClientMsg,
    MIN_TICK_MS,
};
use vstd::prelude::*;

verus! {

/// What a server holds: its engine, its stream, and the market that makes up the
/// streamed orders.
#[verifier::ext_equal]
pub struct ServerView {
    pub engine: EngineView,
    pub streaming: bool,
    pub interval_ms: u64,
    pub market: Market,
}

/// Something that happens to a server at time `now`: a client asks something, or
/// the stream ends its wait.
pub enum Happening {
    Asked { msg: ClientMsg, now: i64 },
    Woken { now: i64 },
}

impl ServerView {
    /// A server to which nothing has happened.
    pub open spec fn start() -> ServerView {
        ServerView {
            engine: EngineView::empty(),
            streaming: false,
            interval_ms: 500,
            market: Market { mid_price: START_MID, rng_state: STREAM_SEED },
        }
    }

    /// How long a round of the stream that begins now waits, in milliseconds.
    pub open spec fn delay(self) -> u64 {
        delay_for(self.interval_ms)
    }

    /// What is there after a client has asked `msg`.
    pub open spec fn asked(self, msg: ClientMsg, now: i64) -> ServerView {
        ServerView {
            engine: engine_after(self.engine, msg, now),
            streaming: streaming_after(self.streaming, msg),
            interval_ms: interval_after(self.interval_ms, msg),
            market: self.market,
        }
    }

    /// What is there after a round of the stream.
    pub open spec fn woken(self, now: i64) -> ServerView {
        if self.streaming {
            let (quote, market) = self.market.quoted();
            ServerView { market, ..self.asked(submission(quote), now) }
        } else {
            self
        }
    }

    /// What is there after `h`.
    pub open spec fn after(self, h: Happening) -> ServerView {
        match h {
            Happening::Asked { msg, now } => self.asked(msg, now),
            Happening::Woken { now } => self.woken(now),
        }
    }
}

/// A server after all of `happenings`.
pub open spec fn server(happenings: Seq<Happening>) -> ServerView
    decreases happenings.len(),
{
    if happenings.len() == 0 {
        ServerView::start()
    } else {
        server(happenings.drop_last()).after(happenings.last())
    }
}

/// Whether the last of `happenings` is a round that finds the stream on.
pub open spec fn streams(happenings: Seq<Happening>) -> bool {
    &&& happenings.len() > 0
    &&& happenings.last() is Woken
    &&& server(happenings.drop_last()).streaming
}

/// The orders that the stream submits, in turn.
pub open spec fn streamed(happenings: Seq<Happening>) -> Seq<Quote>
    decreases happenings.len(),
{
    if happenings.len() == 0 {
        Seq::empty()
    } else {
        let before = streamed(happenings.drop_last());
        if streams(happenings) {
            before.push(server(happenings.drop_last()).market.quoted().0)
        } else {
            before
        }
    }
}

/// How many rounds find the stream on.
pub open spec fn rounds_on(happenings: Seq<Happening>) -> nat
    decreases happenings.len(),
{
    if happenings.len() == 0 {
        0
    } else {
        rounds_on(happenings.drop_last()) + if streams(happenings) {
            1nat
        } else {
            0nat
        }
    }
}

/// Where a server starts: with nothing in its engine, its stream off and set to half
/// a second, and a market at one hundred with its seed.
pub proof fn lemma_start()
    ensures
        ({
            let s = server(Seq::empty());
            &&& s.engine.book.bids.len() == 0
            &&& s.engine.book.asks.len() == 0
            &&& s.engine.book.last_trade_id == 0
            &&& s.engine.book.index.dom() == Set::<u64>::empty()
            &&& s.engine.journal.len() == 0
            &&& s.engine.trade_log.len() == 0
            &&& s.engine.last_order_id == 0
            &&& !s.streaming
            &&& s.interval_ms == 500
            &&& s.market.mid_price == 100 * 162_259_276_829_213_363_391_578_010_288_128
            &&& s.market.rng_state == 0x9E37_79B9_7F4A_7C15
        }),
{
}

impl AppState {
    /// What the server holds, together with the market of its stream.
    pub open spec fn seen(self, market: Market) -> ServerView {
        ServerView {
            engine: self.engine@,
            streaming: self.streaming,
            interval_ms: self.stream_interval_ms,
            market,
        }
    }

    /// A state that becomes another by a message does to the server what the
    /// message asks.
    pub proof fn lemma_asked(self, after: AppState, msg: ClientMsg, now: i64, market: Market)
        requires
            self.becomes(after, msg, now),
        ensures
            after.seen(market) == self.seen(market).asked(msg, now),
    {
    }

    /// A state that the stream leaves does to the server what a round of the
    /// stream does.
    pub proof fn lemma_woken(self, after: AppState, now: i64, market: Market)
        requires
            self.streaming ==> self.becomes(after, submission(market.quoted().0), now),
            !self.streaming ==> after == self,
        ensures
            after.seen(
                if self.streaming {
                    market.quoted().1
                } else {
                    market
                },
            ) == self.seen(market).woken(now),
    {
    }
}

/// Whatever clients ask in between, and however long the server runs: every round
/// that finds the stream on submits exactly one order, every other round none,
/// and each of these orders is usual. The market stays within its limits.
pub proof fn lemma_all_rounds(happenings: Seq<Happening>)
    ensures
        server(happenings).market.wf(),
        streamed(happenings).len() == rounds_on(happenings),
        forall|i: int|
            0 <= i < streamed(happenings).len() ==> is_usual(#[trigger] streamed(happenings)[i]),
    decreases happenings.len(),
{
    if happenings.len() > 0 {
        lemma_all_rounds(happenings.drop_last());
        server(happenings.drop_last()).market.lemma_quoted();
    }
}

/// One round after any happenings: it waits as long as the interval then asked
/// for, but no less than twenty milliseconds. If the stream is on at its end, it
/// journals the submission of the usual order that the market made up, field by
/// field, under the next id; if not, it changes nothing.
pub proof fn lemma_one_round(happenings: Seq<Happening>, now: i64)
    ensures
        ({
            let v = server(happenings);
            let w = server(happenings.push(Happening::Woken { now }));
            let quote = v.market.quoted().0;
            let order = Order {
                id: (v.engine.last_order_id + 1) as u64,
                side: quote.side,
                order_type: quote.order_type,
                tif: quote.tif,
                price: quote.price,
                qty: quote.qty,
                remaining_qty: quote.qty,
                timestamp_ms: now,
            };
            &&& v.delay() >= MIN_TICK_MS
            &&& v.interval_ms >= MIN_TICK_MS ==> v.delay() == v.interval_ms
            &&& is_usual(quote)
            &&& v.streaming ==> {
                &&& w.engine.journal == v.engine.journal.push(EngineEvent::Submit { order })
                &&& streamed(happenings.push(Happening::Woken { now })) == streamed(
                    happenings,
                ).push(quote)
                &&& w.streaming && w.interval_ms == v.interval_ms
            }
            &&& !v.streaming ==> {
                &&& w == v
                &&& streamed(happenings.push(Happening::Woken { now })) == streamed(happenings)
            }
        }),
{
    let all = happenings.push(Happening::Woken { now });
    assert(all.drop_last() =~= happenings);
    lemma_all_rounds(happenings);
    server(happenings).market.lemma_quoted();
}

/// The delay between streamed orders is what clients last asked for, but no less
/// than fifty milliseconds: every round waits at least that long.
pub proof fn lemma_delay(happenings: Seq<Happening>)
    ensures
        server(happenings).delay() == server(happenings).interval_ms,
        server(happenings).interval_ms >= 50,
    decreases happenings.len(),
{
    if happenings.len() > 0 {
        lemma_delay(happenings.drop_last());
    }
}

} // verus!
