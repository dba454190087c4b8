use matching_engine::engine::Engine;
use matching_engine::fixed::UNIT;
use matching_engine::generator::{Market, STREAM_SEED};
use matching_engine::order::{Order, OrderType, Side, TimeInForce};
use matching_engine::orderbook::{BookLevel, OrderBook};

fn limit(id: u64, side: Side, price: i64, qty: i64) -> Order {
    Order {
        id,
        side,
        order_type: OrderType::Limit,
        tif: TimeInForce::GTC,
        price: price * UNIT,
        qty: qty * UNIT,
        remaining_qty: qty * UNIT,
        timestamp_ms: id as i64,
    }
}

fn total(levels: &[BookLevel]) -> i128 {
    levels.iter().map(|l| l.qty).sum()
}

/// An engine after many made-up orders, with all the times in order.
fn busy_engine(n: u64) -> Engine {
    let mut engine = Engine::new();
    let mut market = Market::new(STREAM_SEED);
    for i in 0..n {
        let q = market.random_order();
        let id = engine.next_id();
        engine.submit(Order {
            id,
            side: q.side,
            order_type: q.order_type,
            tif: q.tif,
            price: q.price,
            qty: q.qty,
            remaining_qty: q.qty,
            timestamp_ms: i as i64,
        });
    }
    engine
}

#[test]
fn busy_book_is_never_crossed() {
    let mut engine = Engine::new();
    let mut market = Market::new(7);
    for _ in 0..3_000 {
        let q = market.random_order();
        let id = engine.next_id();
        engine.submit(Order {
            id,
            side: q.side,
            order_type: q.order_type,
            tif: q.tif,
            price: q.price,
            qty: q.qty,
            remaining_qty: q.qty,
            timestamp_ms: 0,
        });
        if let (Some(b), Some(a)) = (engine.book.best_bid(), engine.book.best_ask()) {
            assert!(b < a);
        }
    }
    assert!(engine.trade_log.len() > 100);
}

#[test]
fn trades_are_numbered_without_a_gap() {
    let engine = busy_engine(2_000);
    for (i, t) in engine.trade_log.iter().enumerate() {
        assert_eq!(t.id, i as u64 + 1);
    }
    let snap = engine.book.snapshot(usize::MAX);
    let resting: usize = snap.bids.iter().chain(&snap.asks).map(|l| l.order_count).sum();
    assert!(resting + engine.trade_log.len() <= engine.journal.len());
}

#[test]
fn busy_replay_is_the_past() {
    let engine = busy_engine(600);
    let half = busy_engine(301);
    let r = engine.replay(300);
    assert_eq!(r.trades, half.trade_log);
    assert_eq!(r.book.bids, half.snapshot().bids);
    assert_eq!(r.book.asks, half.snapshot().asks);
    assert!(r.validation.valid);
    let r = engine.replay(i64::MAX);
    assert_eq!(r.trades, engine.trade_log);
}

#[test]
fn quantity_is_conserved() {
    let mut book = OrderBook::new();
    for i in 1..=6 {
        book.submit(limit(i, Side::Sell, 100 + i as i64 % 3, i as i64));
    }
    let before = total(&book.snapshot(9).asks);
    let r = book.submit(limit(9, Side::Buy, 101, 40));
    let traded: i64 = r.trades.iter().map(|t| t.qty).sum();
    assert_eq!(traded + r.resting_qty, 40 * UNIT);
    assert_eq!(before, traded as i128 + total(&book.snapshot(9).asks));
}

#[test]
fn every_resting_order_can_be_cancelled() {
    let mut engine = busy_engine(1_500);
    let mut resting: Vec<u64> = Vec::new();
    for level in engine.book.bids.values().chain(engine.book.asks.values()) {
        resting.extend(level.iter().map(|o| o.id));
    }
    assert!(resting.len() > 50);
    for id in resting {
        assert!(engine.cancel(id, 2_000));
        assert!(!engine.cancel(id, 2_000));
    }
    assert!(engine.snapshot().bids.is_empty() && engine.snapshot().asks.is_empty());
}

#[test]
fn only_good_till_cancelled_limit_orders_rest() {
    let engine = busy_engine(1_500);
    for (side, levels) in [(Side::Buy, &engine.book.bids), (Side::Sell, &engine.book.asks)] {
        assert!(!levels.is_empty());
        for (price, orders) in levels {
            assert!(!orders.is_empty());
            for o in orders {
                assert_eq!((o.order_type, o.tif), (OrderType::Limit, TimeInForce::GTC));
                assert_eq!((o.side, o.price), (side, *price));
                assert!(o.remaining_qty > 1);
            }
        }
    }
}

#[test]
fn filled_or_killed_in_full() {
    let mut book = OrderBook::new();
    book.submit(limit(1, Side::Sell, 100, 3));
    let mut o = limit(2, Side::Buy, 100, 3);
    o.tif = TimeInForce::FOK;
    let r = book.submit(o);
    assert_eq!(r.trades.iter().map(|t| t.qty).sum::<i64>(), 3 * UNIT);
    let r = book.submit(o);
    assert!(!r.accepted && r.trades.is_empty());
}
