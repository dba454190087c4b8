//! Scripted orders, spread over the last five minutes, to have something to
//! look at.
use crate::clock::now_ms;
use crate::engine::{Engine, EngineView};
use crate::fixed::HUNDREDTH;
use crate::lookup::{issued, lemma_issued_push};
use crate::order::{EngineEvent, Order, OrderType, Side, TimeInForce};
use vstd::prelude::*;

verus! {

/// How long ago the first order of the script is, in milliseconds.
pub const SPAN_MS: i64 = 300_000;

/// The time between two orders of the script, in milliseconds.
pub const STEP_MS: i64 = 12_500;

/// How many orders the script has.
pub const SCRIPT_LEN: usize = 24;

/// An order of the script, with price and quantity in hundredths.
#[derive(Debug, Clone, Copy, PartialEq, Eq, Structural)]
pub struct Line {
    pub side: Side,
    pub order_type: OrderType,
    pub tif: TimeInForce,
    pub price: i64,
    pub qty: i64,
}

/// A good-till-cancelled limit order.
pub open spec fn limit(side: Side, price: i64, qty: i64) -> Line {
    Line { side, order_type: OrderType::Limit, tif: TimeInForce::GTC, price, qty }
}

/// A market order.
pub open spec fn market(side: Side, qty: i64) -> Line {
    Line { side, order_type: OrderType::Market, tif: TimeInForce::IOC, price: 0, qty }
}

/// The script.
pub open spec fn script() -> Seq<Line> {
    seq![
        limit(Side::Sell, 10_100, 500),
        limit(Side::Sell, 10_150, 800),
        limit(Side::Sell, 10_200, 300),
        limit(Side::Buy, 9_900, 400),
        limit(Side::Buy, 9_850, 600),
        limit(Side::Buy, 9_800, 1_000),
        limit(Side::Sell, 10_050, 200),
        limit(Side::Buy, 9_950, 300),
        Line { tif: TimeInForce::IOC, ..limit(Side::Buy, 10_060, 150) },
        limit(Side::Sell, 10_300, 700),
        limit(Side::Buy, 9_750, 500),
        limit(Side::Sell, 10_120, 400),
        market(Side::Buy, 600),
        limit(Side::Sell, 10_080, 350),
        limit(Side::Buy, 9_920, 250),
        limit(Side::Sell, 10_180, 600),
        limit(Side::Buy, 9_880, 450),
        market(Side::Sell, 500),
        limit(Side::Buy, 9_970, 300),
        limit(Side::Sell, 10_250, 200),
        Line { tif: TimeInForce::FOK, ..limit(Side::Buy, 10_100, 800) },
        limit(Side::Sell, 10_020, 400),
        limit(Side::Buy, 9_700, 900),
        limit(Side::Sell, 10_350, 300),
    ]
}

/// The `i`th order of the script when it is played at `now` with `id`.
pub open spec fn script_order(i: int, id: u64, now: i64) -> Order {
    let line = script()[i];
    let qty = (line.qty * HUNDREDTH) as i64;
    Order {
        id,
        side: line.side,
        order_type: line.order_type,
        tif: line.tif,
        price: (line.price * HUNDREDTH) as i64,
        qty,
        remaining_qty: qty,
        timestamp_ms: (now - SPAN_MS + STEP_MS * i) as i64,
    }
}

/// `engine` after the first `n` orders of the script, played at `now`, each with
/// the next order id.
pub open spec fn seeded(engine: EngineView, now: i64, n: nat) -> EngineView
    decreases n,
{
    if n == 0 {
        engine
    } else {
        let before = seeded(engine, now, (n - 1) as nat);
        let id = (before.last_order_id + 1) as u64;
        (EngineView { last_order_id: id, ..before }).submitted(script_order(n - 1, id, now))
    }
}

/// A good-till-cancelled limit order.
fn limit_line(side: Side, price: i64, qty: i64) -> (r: Line)
    ensures
        r == limit(side, price, qty),
{
    Line { side, order_type: OrderType::Limit, tif: TimeInForce::GTC, price, qty }
}

/// A market order.
fn market_line(side: Side, qty: i64) -> (r: Line)
    ensures
        r == market(side, qty),
{
    Line { side, order_type: OrderType::Market, tif: TimeInForce::IOC, price: 0, qty }
}

/// The script.
fn script_lines() -> (r: Vec<Line>)
    ensures
        r@ == script(),
{
    let r: Vec<Line> = vec![
        limit_line(Side::Sell, 10_100, 500),
        limit_line(Side::Sell, 10_150, 800),
        limit_line(Side::Sell, 10_200, 300),
        limit_line(Side::Buy, 9_900, 400),
        limit_line(Side::Buy, 9_850, 600),
        limit_line(Side::Buy, 9_800, 1_000),
        limit_line(Side::Sell, 10_050, 200),
        limit_line(Side::Buy, 9_950, 300),
        Line { tif: TimeInForce::IOC, ..limit_line(Side::Buy, 10_060, 150) },
        limit_line(Side::Sell, 10_300, 700),
        limit_line(Side::Buy, 9_750, 500),
        limit_line(Side::Sell, 10_120, 400),
        market_line(Side::Buy, 600),
        limit_line(Side::Sell, 10_080, 350),
        limit_line(Side::Buy, 9_920, 250),
        limit_line(Side::Sell, 10_180, 600),
        limit_line(Side::Buy, 9_880, 450),
        market_line(Side::Sell, 500),
        limit_line(Side::Buy, 9_970, 300),
        limit_line(Side::Sell, 10_250, 200),
        Line { tif: TimeInForce::FOK, ..limit_line(Side::Buy, 10_100, 800) },
        limit_line(Side::Sell, 10_020, 400),
        limit_line(Side::Buy, 9_700, 900),
        limit_line(Side::Sell, 10_350, 300),
    ];
    assert(r@ =~= script());
    r
}

/// The script gives its orders the next ids, one by one.
pub proof fn lemma_seeded_issued(engine: EngineView, now: i64, n: nat)
    requires
        issued(engine.journal, engine.last_order_id),
        engine.last_order_id + n <= u64::MAX,
    ensures
        seeded(engine, now, n).last_order_id == engine.last_order_id + n,
        issued(seeded(engine, now, n).journal, seeded(engine, now, n).last_order_id),
    decreases n,
{
    if n > 0 {
        lemma_seeded_issued(engine, now, (n - 1) as nat);
        let before = seeded(engine, now, (n - 1) as nat);
        let id = (before.last_order_id + 1) as u64;
        let order = script_order(n - 1, id, now);
        lemma_issued_push(before.journal, before.last_order_id, EngineEvent::Submit { order });
    }
}

/// What the script puts into the journal, whatever the engine held before and
/// whenever it is played: the journal goes on with these twenty-four submissions,
/// under the next ids. The first is five minutes ago, and each is 12.5 seconds
/// after the one before it. Prices and quantities are in billionths.
pub proof fn lemma_script_in_full(engine: EngineView, now: i64)
    requires
        engine.last_order_id + 24 <= u64::MAX,
        i64::MIN + 300_000 <= now,
    ensures
        ({
            let j = seeded(engine, now, 24).journal;
            let n = engine.journal.len() as int;
            let line = |
                i: int,
                side: Side,
                order_type: OrderType,
                tif: TimeInForce,
                price: i64,
                qty: i64,
            |
                EngineEvent::Submit {
                    order: Order {
                        id: (engine.last_order_id + 1 + i) as u64,
                        side,
                        order_type,
                        tif,
                        price,
                        qty,
                        remaining_qty: qty,
                        timestamp_ms: (now - 300_000 + 12_500 * i) as i64,
                    },
                };
            &&& j.len() == n + 24
            &&& j.take(n) == engine.journal
            &&& seeded(engine, now, 24).last_order_id == engine.last_order_id + 24
            &&& j[n + 0] == line(
                0,
                Side::Sell,
                OrderType::Limit,
                TimeInForce::GTC,
                101_000_000_000,
                5_000_000_000,
            )
            &&& j[n + 1] == line(
                1,
                Side::Sell,
                OrderType::Limit,
                TimeInForce::GTC,
                101_500_000_000,
                8_000_000_000,
            )
            &&& j[n + 2] == line(
                2,
                Side::Sell,
                OrderType::Limit,
                TimeInForce::GTC,
                102_000_000_000,
                3_000_000_000,
            )
            &&& j[n + 3] == line(
                3,
                Side::Buy,
                OrderType::Limit,
                TimeInForce::GTC,
                99_000_000_000,
                4_000_000_000,
            )
            &&& j[n + 4] == line(
                4,
                Side::Buy,
                OrderType::Limit,
                TimeInForce::GTC,
                98_500_000_000,
                6_000_000_000,
            )
            &&& j[n + 5] == line(
                5,
                Side::Buy,
                OrderType::Limit,
                TimeInForce::GTC,
                98_000_000_000,
                10_000_000_000,
            )
            &&& j[n + 6] == line(
                6,
                Side::Sell,
                OrderType::Limit,
                TimeInForce::GTC,
                100_500_000_000,
                2_000_000_000,
            )
            &&& j[n + 7] == line(
                7,
                Side::Buy,
                OrderType::Limit,
                TimeInForce::GTC,
                99_500_000_000,
                3_000_000_000,
            )
            &&& j[n + 8] == line(
                8,
                Side::Buy,
                OrderType::Limit,
                TimeInForce::IOC,
                100_600_000_000,
                1_500_000_000,
            )
            &&& j[n + 9] == line(
                9,
                Side::Sell,
                OrderType::Limit,
                TimeInForce::GTC,
                103_000_000_000,
                7_000_000_000,
            )
            &&& j[n + 10] == line(
                10,
                Side::Buy,
                OrderType::Limit,
                TimeInForce::GTC,
                97_500_000_000,
                5_000_000_000,
            )
            &&& j[n + 11] == line(
                11,
                Side::Sell,
                OrderType::Limit,
                TimeInForce::GTC,
                101_200_000_000,
                4_000_000_000,
            )
            &&& j[n + 12] == line(
                12,
                Side::Buy,
                OrderType::Market,
                TimeInForce::IOC,
                0,
                6_000_000_000,
            )
            &&& j[n + 13] == line(
                13,
                Side::Sell,
                OrderType::Limit,
                TimeInForce::GTC,
                100_800_000_000,
                3_500_000_000,
            )
            &&& j[n + 14] == line(
                14,
                Side::Buy,
                OrderType::Limit,
                TimeInForce::GTC,
                99_200_000_000,
                2_500_000_000,
            )
            &&& j[n + 15] == line(
                15,
                Side::Sell,
                OrderType::Limit,
                TimeInForce::GTC,
                101_800_000_000,
                6_000_000_000,
            )
            &&& j[n + 16] == line(
                16,
                Side::Buy,
                OrderType::Limit,
                TimeInForce::GTC,
                98_800_000_000,
                4_500_000_000,
            )
            &&& j[n + 17] == line(
                17,
                Side::Sell,
                OrderType::Market,
                TimeInForce::IOC,
                0,
                5_000_000_000,
            )
            &&& j[n + 18] == line(
                18,
                Side::Buy,
                OrderType::Limit,
                TimeInForce::GTC,
                99_700_000_000,
                3_000_000_000,
            )
            &&& j[n + 19] == line(
                19,
                Side::Sell,
                OrderType::Limit,
                TimeInForce::GTC,
                102_500_000_000,
                2_000_000_000,
            )
            &&& j[n + 20] == line(
                20,
                Side::Buy,
                OrderType::Limit,
                TimeInForce::FOK,
                101_000_000_000,
                8_000_000_000,
            )
            &&& j[n + 21] == line(
                21,
                Side::Sell,
                OrderType::Limit,
                TimeInForce::GTC,
                100_200_000_000,
                4_000_000_000,
            )
            &&& j[n + 22] == line(
                22,
                Side::Buy,
                OrderType::Limit,
                TimeInForce::GTC,
                97_000_000_000,
                9_000_000_000,
            )
            &&& j[n + 23] == line(
                23,
                Side::Sell,
                OrderType::Limit,
                TimeInForce::GTC,
                103_500_000_000,
                3_000_000_000,
            )
        }),
{
    lemma_seeded_journal(engine, now, 24);
    let j = seeded(engine, now, 24).journal;
    let n = engine.journal.len() as int;
    assert(j.take(n) =~= engine.journal);
    assert forall|i: int| 0 <= i < 24 implies #[trigger] j[n + i] == (EngineEvent::Submit {
        order: script_order(i, (engine.last_order_id + 1 + i) as u64, now),
    }) by {}
}

/// The journal after the first `n` orders of the script.
proof fn lemma_seeded_journal(engine: EngineView, now: i64, n: nat)
    requires
        engine.last_order_id + n <= u64::MAX,
    ensures
        seeded(engine, now, n).last_order_id == engine.last_order_id + n,
        seeded(engine, now, n).journal == engine.journal + Seq::new(
            n,
            |i: int|
                EngineEvent::Submit {
                    order: script_order(i, (engine.last_order_id + 1 + i) as u64, now),
                },
        ),
    decreases n,
{
    if n == 0 {
        assert(seeded(engine, now, n).journal =~= engine.journal + Seq::new(
            n,
            |i: int|
                EngineEvent::Submit {
                    order: script_order(i, (engine.last_order_id + 1 + i) as u64, now),
                },
        ));
    } else {
        lemma_seeded_journal(engine, now, (n - 1) as nat);
        assert(seeded(engine, now, n).journal =~= engine.journal + Seq::new(
            n,
            |i: int|
                EngineEvent::Submit {
                    order: script_order(i, (engine.last_order_id + 1 + i) as u64, now),
                },
        ));
    }
}

/// Playing the script does to the engine what submitting its orders one by one
/// does: trades, book and journal are those of an engine to which each of them was
/// submitted under the next id.
pub proof fn lemma_script_is_submitted(engine: EngineView, now: i64, n: nat)
    requires
        n < 24,
        engine.last_order_id + 24 <= u64::MAX,
    ensures
        ({
            let before = seeded(engine, now, n);
            let after = seeded(engine, now, n + 1);
            &&& after.journal.len() == before.journal.len() + 1
            &&& after.journal.last() matches EngineEvent::Submit { order } && {
                &&& order.id == before.last_order_id + 1
                &&& after.book == before.book.submitted(order)
                &&& after.trade_log == before.trade_log + before.book.executed(order)
                &&& after.last_order_id == order.id
            }
        }),
        seeded(engine, now, 0) == engine,
{
    lemma_seeded_journal(engine, now, n);
}

/// Prices and quantities of the script are small.
proof fn lemma_script_bounds(i: int)
    requires
        0 <= i < SCRIPT_LEN,
    ensures
        script().len() == SCRIPT_LEN,
        0 <= script()[i].price <= 20_000,
        0 <= script()[i].qty <= 1_000,
{
}

/// Plays the script on `engine` as of `now`.
pub fn seed_at(engine: &mut Engine, now: i64)
    requires
        old(engine).wf(),
        old(engine)@.last_order_id + SCRIPT_LEN <= u64::MAX,
        i64::MIN + SPAN_MS <= now,
    ensures
        final(engine).wf(),
        final(engine)@ == seeded(old(engine)@, now, SCRIPT_LEN as nat),
        final(engine)@.last_order_id == old(engine)@.last_order_id + SCRIPT_LEN,
{
    let ghost before = engine@;
    let lines = script_lines();
    let start = now - SPAN_MS;
    let step = SPAN_MS / SCRIPT_LEN as i64;
    let mut i: usize = 0;
    while i < lines.len()
        invariant
            lines@ == script(),
            lines@.len() == SCRIPT_LEN,
            i <= lines@.len(),
            engine.wf(),
            engine@ == seeded(before, now, i as nat),
            engine@.last_order_id == before.last_order_id + i,
            before.last_order_id + SCRIPT_LEN <= u64::MAX,
            i64::MIN + SPAN_MS <= now,
            start == now - SPAN_MS,
            step == STEP_MS,
        decreases lines@.len() - i,
    {
        proof {
            lemma_script_bounds(i as int);
        }
        let line = lines[i];
        let id = engine.next_id();
        let qty = line.qty * HUNDREDTH;
        let order = Order {
            id,
            side: line.side,
            order_type: line.order_type,
            tif: line.tif,
            price: line.price * HUNDREDTH,
            qty,
            remaining_qty: qty,
            timestamp_ms: start + step * (i as i64),
        };
        engine.submit(order);
        i = i + 1;
    }
}

/// Plays the script on `engine` as of now.
pub fn seed(engine: &mut Engine)
    requires
        old(engine).wf(),
        old(engine)@.last_order_id + SCRIPT_LEN <= u64::MAX,
    ensures
        final(engine).wf(),
        exists|now: i64|
            0 <= now && final(engine)@ == #[trigger] seeded(
                old(engine)@,
                now,
                SCRIPT_LEN as nat,
            ),
{
    let now = now_ms();
    seed_at(engine, now);
}

} // verus!
