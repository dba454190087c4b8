use matching_engine::fixed::{DUST, UNIT};
use matching_engine::order::{Order, OrderType, Side, TimeInForce, Trade};
use matching_engine::orderbook::{BookLevel, OrderBook};

fn order(
    id: u64,
    side: Side,
    order_type: OrderType,
    tif: TimeInForce,
    price: i64,
    qty: i64,
) -> Order {
    Order { id, side, order_type, tif, price, qty, remaining_qty: qty, timestamp_ms: id as i64 }
}

fn limit(id: u64, side: Side, price: i64, qty: i64) -> Order {
    order(id, side, OrderType::Limit, TimeInForce::GTC, price * UNIT, qty * UNIT)
}

fn level(price: i64, qty: i64, order_count: usize) -> BookLevel {
    BookLevel { price: price * UNIT, qty: qty as i128 * UNIT as i128, order_count }
}

#[test]
fn new_book_is_empty() {
    for book in [OrderBook::new(), OrderBook::default()] {
        assert_eq!(book.best_bid(), None);
        assert_eq!(book.best_ask(), None);
        let snap = book.snapshot(10);
        assert!(snap.bids.is_empty() && snap.asks.is_empty());
    }
}

#[test]
fn limit_order_comes_to_rest() {
    let mut book = OrderBook::new();
    let r = book.submit(limit(1, Side::Buy, 100, 10));
    assert!(r.accepted);
    assert_eq!(r.rejection_reason, None);
    assert!(r.trades.is_empty());
    assert_eq!(r.resting_qty, 10 * UNIT);
    assert_eq!(book.best_bid(), Some(100 * UNIT));
    assert_eq!(book.best_ask(), None);
}

#[test]
fn trade_is_at_the_resting_price() {
    let mut book = OrderBook::new();
    book.submit(limit(1, Side::Sell, 100, 5));
    let r = book.submit(limit(2, Side::Buy, 103, 2));
    assert_eq!(
        r.trades,
        vec![Trade {
            id: 1,
            maker_order_id: 1,
            taker_order_id: 2,
            price: 100 * UNIT,
            qty: 2 * UNIT,
            timestamp_ms: 2,
        }]
    );
    assert_eq!(r.resting_qty, 0);
    assert_eq!(book.snapshot(5).asks, vec![level(100, 3, 1)]);
    assert_eq!(book.best_bid(), None);
}

#[test]
fn best_price_then_oldest_trades_first() {
    let mut book = OrderBook::new();
    book.submit(limit(1, Side::Sell, 102, 1));
    book.submit(limit(2, Side::Sell, 101, 2));
    book.submit(limit(3, Side::Sell, 101, 4));
    let r = book.submit(limit(4, Side::Buy, 102, 7));
    let who: Vec<(u64, u64, i64, i64)> = r
        .trades
        .iter()
        .map(|t| (t.id, t.maker_order_id, t.price / UNIT, t.qty / UNIT))
        .collect();
    assert_eq!(who, vec![(1, 2, 101, 2), (2, 3, 101, 4), (3, 1, 102, 1)]);
    assert_eq!(book.best_ask(), None);
}

#[test]
fn sell_meets_highest_bid_first() {
    let mut book = OrderBook::new();
    book.submit(limit(1, Side::Buy, 98, 1));
    book.submit(limit(2, Side::Buy, 99, 1));
    let r = book.submit(limit(3, Side::Sell, 98, 3));
    let who: Vec<u64> = r.trades.iter().map(|t| t.maker_order_id).collect();
    assert_eq!(who, vec![2, 1]);
    assert_eq!(r.resting_qty, UNIT);
    assert_eq!(book.best_ask(), Some(98 * UNIT));
}

#[test]
fn limit_does_not_trade_beyond_its_price() {
    let mut book = OrderBook::new();
    book.submit(limit(1, Side::Sell, 100, 1));
    book.submit(limit(2, Side::Sell, 105, 1));
    let r = book.submit(limit(3, Side::Buy, 104, 5));
    assert_eq!(r.trades.len(), 1);
    assert_eq!(r.resting_qty, 4 * UNIT);
    assert_eq!(book.best_bid(), Some(104 * UNIT));
    assert_eq!(book.best_ask(), Some(105 * UNIT));
}

#[test]
fn market_order_trades_at_any_price_and_never_rests() {
    let mut book = OrderBook::new();
    book.submit(limit(1, Side::Sell, 100, 1));
    book.submit(limit(2, Side::Sell, 500, 1));
    let r = book.submit(order(3, Side::Buy, OrderType::Market, TimeInForce::GTC, 0, 5 * UNIT));
    assert!(r.accepted);
    assert_eq!(r.trades.len(), 2);
    assert_eq!(r.resting_qty, 0);
    assert_eq!(book.best_bid(), None);
    assert_eq!(book.best_ask(), None);
}

#[test]
fn immediate_or_cancel_never_rests() {
    let mut book = OrderBook::new();
    book.submit(limit(1, Side::Buy, 100, 1));
    let r = book.submit(order(2, Side::Sell, OrderType::Limit, TimeInForce::IOC, 100 * UNIT, 3 * UNIT));
    assert!(r.accepted);
    assert_eq!(r.trades.len(), 1);
    assert_eq!(r.resting_qty, 0);
    assert_eq!(book.best_ask(), None);
}

#[test]
fn fill_or_kill_without_enough_leaves_the_book_alone() {
    let mut book = OrderBook::new();
    book.submit(limit(1, Side::Sell, 100, 3));
    book.submit(limit(2, Side::Sell, 101, 3));
    let before = book.snapshot(10);
    let r = book.submit(order(3, Side::Buy, OrderType::Limit, TimeInForce::FOK, 100 * UNIT, 4 * UNIT));
    assert!(!r.accepted);
    assert_eq!(
        r.rejection_reason.as_deref(),
        Some("FOK order could not be fully filled at submission time")
    );
    assert!(r.trades.is_empty());
    assert_eq!(r.resting_qty, 0);
    let after = book.snapshot(10);
    assert_eq!(before.asks, after.asks);
    // The next trade is still the first.
    let r = book.submit(limit(4, Side::Buy, 100, 1));
    assert_eq!(r.trades[0].id, 1);
}

#[test]
fn fill_or_kill_with_just_enough_is_filled() {
    let mut book = OrderBook::new();
    book.submit(limit(1, Side::Sell, 100, 3));
    book.submit(limit(2, Side::Sell, 101, 3));
    let r = book.submit(order(3, Side::Buy, OrderType::Limit, TimeInForce::FOK, 101 * UNIT, 6 * UNIT));
    assert!(r.accepted);
    assert_eq!(r.trades.iter().map(|t| t.qty).sum::<i64>(), 6 * UNIT);
    let r = book.submit(order(4, Side::Sell, OrderType::Market, TimeInForce::FOK, 0, UNIT));
    assert!(!r.accepted);
}

#[test]
fn fill_or_kill_is_filled_by_decimals_that_add_up() {
    let tenth = UNIT / 10;
    let mut book = OrderBook::new();
    for (id, qty) in [(1, 7 * tenth), (2, tenth)] {
        book.submit(order(id, Side::Sell, OrderType::Limit, TimeInForce::GTC, UNIT, qty));
    }
    let r = book.submit(order(3, Side::Buy, OrderType::Limit, TimeInForce::FOK, UNIT, 8 * tenth));
    assert!(r.accepted);
    assert_eq!(r.trades.len(), 2);
    assert_eq!(book.best_ask(), None);
}

#[test]
fn fill_or_kill_for_nothing_is_accepted() {
    let mut book = OrderBook::new();
    let r = book.submit(order(1, Side::Buy, OrderType::Limit, TimeInForce::FOK, UNIT, 0));
    assert!(r.accepted);
    let r = book.submit(order(2, Side::Buy, OrderType::Limit, TimeInForce::FOK, UNIT, -5));
    assert!(r.accepted);
    assert!(r.trades.is_empty());
}

#[test]
fn fill_or_kill_counts_more_than_an_order_can_hold() {
    let mut book = OrderBook::new();
    for id in 1..=3 {
        book.submit(order(id, Side::Sell, OrderType::Limit, TimeInForce::GTC, UNIT, i64::MAX));
    }
    let r = book.submit(order(9, Side::Buy, OrderType::Limit, TimeInForce::FOK, UNIT, i64::MAX));
    assert!(r.accepted);
    assert_eq!(r.trades.len(), 1);
    let snap = book.snapshot(1);
    assert_eq!(snap.asks[0].qty, 2 * i64::MAX as i128);
    assert_eq!(snap.asks[0].order_count, 2);
}

#[test]
fn dust_does_not_rest_or_trade() {
    let mut book = OrderBook::new();
    let r = book.submit(order(1, Side::Buy, OrderType::Limit, TimeInForce::GTC, UNIT, DUST));
    assert!(r.accepted);
    assert_eq!(r.resting_qty, 0);
    assert_eq!(book.best_bid(), None);
    // A maker that is left with dust is gone.
    book.submit(order(2, Side::Sell, OrderType::Limit, TimeInForce::GTC, UNIT, 10 + DUST));
    let r = book.submit(order(3, Side::Buy, OrderType::Limit, TimeInForce::GTC, UNIT, 10));
    assert_eq!(r.trades.len(), 1);
    assert_eq!(book.best_ask(), None);
    assert!(!book.cancel(2));
}

#[test]
fn negative_quantity_does_nothing() {
    let mut book = OrderBook::new();
    book.submit(limit(1, Side::Sell, 100, 1));
    let r = book.submit(limit(2, Side::Buy, 100, -1));
    assert!(r.accepted);
    assert!(r.trades.is_empty());
    assert_eq!(r.resting_qty, 0);
    assert_eq!(book.best_bid(), None);
}

#[test]
fn cancel_finds_an_order_once() {
    let mut book = OrderBook::new();
    book.submit(limit(1, Side::Buy, 100, 1));
    book.submit(limit(2, Side::Buy, 100, 2));
    assert!(book.cancel(1));
    assert!(!book.cancel(1));
    assert!(!book.cancel(7));
    assert_eq!(book.snapshot(5).bids, vec![level(100, 2, 1)]);
    assert!(book.cancel(2));
    assert_eq!(book.best_bid(), None);
}

#[test]
fn cancel_undoes_a_resting_submission() {
    let mut book = OrderBook::new();
    book.submit(limit(1, Side::Sell, 101, 1));
    book.submit(limit(2, Side::Sell, 103, 1));
    let before = book.snapshot(9);
    book.submit(limit(3, Side::Sell, 102, 4));
    assert_eq!(book.snapshot(9).asks.len(), 3);
    assert!(book.cancel(3));
    assert_eq!(book.snapshot(9).asks, before.asks);
}

#[test]
fn filled_order_cannot_be_cancelled() {
    let mut book = OrderBook::new();
    book.submit(limit(1, Side::Buy, 100, 1));
    book.submit(limit(2, Side::Sell, 100, 1));
    assert!(!book.cancel(1));
    assert!(!book.cancel(2));
}

#[test]
fn partly_filled_order_keeps_its_place() {
    let mut book = OrderBook::new();
    book.submit(limit(1, Side::Sell, 100, 5));
    book.submit(limit(2, Side::Sell, 100, 5));
    book.submit(limit(3, Side::Buy, 100, 2));
    let r = book.submit(limit(4, Side::Buy, 100, 4));
    let who: Vec<(u64, i64)> = r.trades.iter().map(|t| (t.maker_order_id, t.qty / UNIT)).collect();
    assert_eq!(who, vec![(1, 3), (2, 1)]);
}

#[test]
fn snapshot_is_cut_at_its_depth() {
    let mut book = OrderBook::new();
    for i in 0..5 {
        book.submit(limit(i as u64, Side::Buy, 90 + i, 1 + i));
        book.submit(limit(10 + i as u64, Side::Sell, 110 + i, 1));
    }
    book.submit(limit(20, Side::Buy, 94, 2));
    let snap = book.snapshot(2);
    assert_eq!(snap.bids, vec![level(94, 7, 2), level(93, 4, 1)]);
    assert_eq!(snap.asks, vec![level(110, 1, 1), level(111, 1, 1)]);
    assert_eq!(book.snapshot(usize::MAX).bids.len(), 5);
    assert!(book.snapshot(0).bids.is_empty());
}

#[test]
fn negative_prices_are_prices() {
    let mut book = OrderBook::new();
    book.submit(limit(1, Side::Buy, -4, 1));
    book.submit(limit(2, Side::Buy, -7, 1));
    assert_eq!(book.best_bid(), Some(-4 * UNIT));
    let r = book.submit(limit(3, Side::Sell, -5, 2));
    assert_eq!(r.trades.len(), 1);
    assert_eq!(r.trades[0].price, -4 * UNIT);
}
