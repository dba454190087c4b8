use std::collections::VecDeque;

use matching_engine::engine::{replay_to, validate, Engine};
use matching_engine::fixed::UNIT;
use matching_engine::order::{EngineEvent, Order, OrderType, Side, TimeInForce, Trade};
use matching_engine::orderbook::OrderBook;

fn limit(id: u64, side: Side, price: i64, qty: i64, at: i64) -> Order {
    Order {
        id,
        side,
        order_type: OrderType::Limit,
        tif: TimeInForce::GTC,
        price: price * UNIT,
        qty: qty * UNIT,
        remaining_qty: qty * UNIT,
        timestamp_ms: at,
    }
}

#[test]
fn ids_count_from_one() {
    let mut engine = Engine::new();
    assert_eq!(engine.last_id(), 0);
    assert_eq!(engine.next_id(), 1);
    assert_eq!(engine.next_id(), 2);
    assert_eq!(engine.last_id(), 2);
}

#[test]
fn event_knows_its_time() {
    let order = limit(1, Side::Buy, 1, 1, 77);
    assert_eq!(EngineEvent::Submit { order }.timestamp_ms(), 77);
    assert_eq!(EngineEvent::Cancel { order_id: 1, timestamp_ms: 78 }.timestamp_ms(), 78);
}

#[test]
fn engine_journals_everything() {
    let mut engine = Engine::new();
    let a = limit(1, Side::Sell, 100, 2, 10);
    let b = limit(2, Side::Buy, 100, 1, 11);
    engine.submit(a);
    let r = engine.submit(b);
    assert!(engine.cancel(1, 12));
    assert!(!engine.cancel(1, 13));
    assert_eq!(
        engine.journal,
        vec![
            EngineEvent::Submit { order: a },
            EngineEvent::Submit { order: b },
            EngineEvent::Cancel { order_id: 1, timestamp_ms: 12 },
            EngineEvent::Cancel { order_id: 1, timestamp_ms: 13 },
        ]
    );
    assert_eq!(engine.trade_log, r.trades);
    assert_eq!(engine.trade_log.len(), 1);
    assert!(engine.snapshot().asks.is_empty());
}

#[test]
fn rejected_order_is_journaled_too() {
    let mut engine = Engine::new();
    let mut o = limit(1, Side::Buy, 100, 1, 5);
    o.tif = TimeInForce::FOK;
    assert!(!engine.submit(o).accepted);
    assert_eq!(engine.journal.len(), 1);
    assert!(engine.trade_log.is_empty());
}

#[test]
fn span_of_a_journal() {
    let mut engine = Engine::new();
    assert_eq!(engine.span(), (0, None, None));
    engine.submit(limit(1, Side::Buy, 1, 1, 50));
    engine.submit(limit(2, Side::Buy, 1, 1, 20));
    engine.cancel(1, 30);
    assert_eq!(engine.span(), (3, Some(20), Some(50)));
}

#[test]
fn snapshot_has_twenty_five_levels() {
    let mut engine = Engine::new();
    for i in 1..=40 {
        engine.submit(limit(i, Side::Buy, i as i64, 1, 0));
    }
    let snap = engine.snapshot();
    assert_eq!(snap.bids.len(), 25);
    assert_eq!(snap.bids[0].price, 40 * UNIT);
    assert_eq!(snap.bids[24].price, 16 * UNIT);
}

#[test]
fn replay_ends_at_the_present() {
    let mut engine = Engine::new();
    for i in 0..20u64 {
        let side = if i % 3 == 0 { Side::Sell } else { Side::Buy };
        engine.submit(limit(i + 1, side, 95 + (i as i64 * 7) % 11, 1 + i as i64 % 4, i as i64));
    }
    engine.cancel(2, 20);
    let r = engine.replay(20);
    assert_eq!(r.target_time_ms, 20);
    assert_eq!(r.trades, engine.trade_log);
    assert!(!r.trades.is_empty());
    assert_eq!(r.book.bids, engine.snapshot().bids);
    assert_eq!(r.book.asks, engine.snapshot().asks);
    assert!(r.validation.valid);
    assert!(r.validation.errors.is_empty());
    assert_eq!(r.validation.events_replayed, 21);
    assert_eq!(r.validation.events_skipped, 0);
    assert_eq!(r.validation.trades_produced, engine.trade_log.len());
}

#[test]
fn replay_stops_at_its_target() {
    let journal = vec![
        EngineEvent::Submit { order: limit(1, Side::Sell, 100, 5, 10) },
        EngineEvent::Submit { order: limit(2, Side::Buy, 100, 2, 20) },
        EngineEvent::Cancel { order_id: 1, timestamp_ms: 30 },
    ];
    let r = replay_to(&journal, 9);
    assert_eq!((r.validation.events_replayed, r.validation.events_skipped), (0, 3));
    assert!(r.book.asks.is_empty());
    let r = replay_to(&journal, 10);
    assert_eq!(r.validation.best_ask, Some(100 * UNIT));
    assert_eq!(r.validation.best_bid, None);
    assert_eq!(r.validation.total_ask_qty, 5 * UNIT as i128);
    let r = replay_to(&journal, 29);
    assert_eq!(r.trades.len(), 1);
    assert_eq!(r.validation.total_ask_qty, 3 * UNIT as i128);
    assert_eq!(r.validation.total_bid_qty, 0);
    let r = replay_to(&journal, i64::MAX);
    assert_eq!(r.validation.total_ask_qty, 0);
    assert_eq!(r.validation.trades_produced, 1);
}

#[test]
fn replay_ignores_the_future() {
    let mut journal = vec![EngineEvent::Submit { order: limit(1, Side::Sell, 100, 5, 10) }];
    let before = replay_to(&journal, 15);
    journal.push(EngineEvent::Submit { order: limit(2, Side::Buy, 100, 5, 16) });
    let after = replay_to(&journal, 15);
    assert_eq!(before.book.asks, after.book.asks);
    assert_eq!(after.validation.events_skipped, 1);
}

#[test]
fn replay_goes_by_time_and_keeps_order_within_one() {
    // Entered late, but earlier in time.
    let journal = vec![
        EngineEvent::Submit { order: limit(1, Side::Buy, 100, 1, 50) },
        EngineEvent::Submit { order: limit(2, Side::Sell, 100, 1, 40) },
        EngineEvent::Submit { order: limit(3, Side::Sell, 100, 1, 40) },
    ];
    let r = replay_to(&journal, 100);
    assert_eq!(r.trades.len(), 1);
    assert_eq!(r.trades[0].taker_order_id, 1);
    assert_eq!(r.trades[0].maker_order_id, 2);
    assert_eq!(r.validation.total_ask_qty, UNIT as i128);
}

#[test]
fn replay_does_not_depend_on_the_order_of_the_journal() {
    let mut journal: Vec<EngineEvent> = (0..12)
        .map(|i| {
            let side = if i % 2 == 0 { Side::Sell } else { Side::Buy };
            EngineEvent::Submit { order: limit(i, side, 98 + (i as i64 * 5) % 4, 2, 10 + i as i64) }
        })
        .collect();
    journal.push(EngineEvent::Cancel { order_id: 0, timestamp_ms: 15 });
    journal.retain(|e| e.timestamp_ms() != 15 || matches!(e, EngineEvent::Cancel { .. }));
    let mut other = journal.clone();
    other.reverse();
    other.swap(2, 7);
    for target in 9..25 {
        let a = replay_to(&journal, target);
        let b = replay_to(&other, target);
        assert_eq!(format!("{:?}", a), format!("{:?}", b));
    }
}

#[test]
fn earlier_replay_is_the_beginning_of_a_later_one() {
    let journal: Vec<EngineEvent> = (0..30)
        .map(|i| {
            let side = if i % 3 == 0 { Side::Sell } else { Side::Buy };
            let at = (i as i64 * 7) % 20;
            EngineEvent::Submit { order: limit(i, side, 98 + (i as i64 * 5) % 4, 2, at) }
        })
        .collect();
    let mut last: Vec<Trade> = Vec::new();
    let mut events = 0;
    for target in -1..21 {
        let r = replay_to(&journal, target);
        assert!(r.trades.starts_with(&last));
        assert!(r.validation.events_replayed >= events);
        assert_eq!(r.validation.events_replayed + r.validation.events_skipped, 30);
        let past: Vec<EngineEvent> =
            journal.iter().copied().filter(|e| e.timestamp_ms() <= target).collect();
        assert_eq!(replay_to(&past, target).trades, r.trades);
        last = r.trades;
        events = r.validation.events_replayed;
    }
    assert!(last.len() > 3);
}

#[test]
fn replay_of_an_empty_journal() {
    let r = replay_to(&[], 0);
    assert!(r.validation.valid);
    assert_eq!(r.validation.best_bid, None);
    assert_eq!(r.validation.total_bid_qty, 0);
}

#[test]
fn validation_finds_a_crossed_book() {
    let mut book = OrderBook::new();
    book.submit(limit(1, Side::Buy, 100, 1, 0));
    let mut ask = limit(2, Side::Sell, 0, 1, 0);
    ask.price = 99 * UNIT + UNIT / 2;
    book.asks.insert(ask.price, VecDeque::from(vec![ask]));
    let r = validate(&book, &[], 3, 4);
    assert!(!r.valid);
    assert_eq!(r.errors, vec!["crossed book: best_bid 100 >= best_ask 99.5".to_string()]);
    assert_eq!((r.events_replayed, r.events_skipped, r.trades_produced), (3, 4, 0));
    assert_eq!(r.best_ask, Some(99 * UNIT + UNIT / 2));
}

#[test]
fn validation_finds_empty_levels_and_missing_quantity() {
    let mut book = OrderBook::new();
    book.bids.insert(7 * UNIT + 50_000_000, VecDeque::new());
    let mut o = limit(1, Side::Sell, 9, 1, 0);
    o.remaining_qty = -25 * UNIT / 100;
    book.asks.insert(o.price, VecDeque::from(vec![o]));
    let r = validate(&book, &[], 0, 0);
    assert!(!r.valid);
    assert_eq!(
        r.errors,
        vec![
            "non-positive quantity 0 at price 7.05".to_string(),
            "empty price level present at 7.05".to_string(),
            "non-positive quantity -0.25 at price 9".to_string(),
        ]
    );
    assert_eq!(r.total_ask_qty, -250_000_000);
}
