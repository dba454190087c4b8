use matching_engine::demo::{seed, seed_at};
use matching_engine::engine::Engine;
use matching_engine::fixed::UNIT;
use matching_engine::orderbook::BookLevel;

fn rows(levels: &[BookLevel]) -> Vec<(i64, i64, usize)> {
    let cent = UNIT as i128 / 100;
    levels
        .iter()
        .map(|l| (l.price / (UNIT / 100), (l.qty / cent) as i64, l.order_count))
        .collect()
}

#[test]
fn script_leads_to_this_book() {
    let mut engine = Engine::new();
    seed_at(&mut engine, 1_000_000);
    let snap = engine.snapshot();
    assert_eq!(
        rows(&snap.bids),
        vec![
            (9970, 300, 1),
            (9920, 50, 1),
            (9900, 400, 1),
            (9880, 450, 1),
            (9850, 600, 1),
            (9800, 1000, 1),
            (9750, 500, 1),
            (9700, 900, 1),
        ]
    );
    assert_eq!(
        rows(&snap.asks),
        vec![
            (10020, 400, 1),
            (10080, 350, 1),
            (10120, 350, 1),
            (10150, 800, 1),
            (10180, 600, 1),
            (10200, 300, 1),
            (10250, 200, 1),
            (10300, 700, 1),
            (10350, 300, 1),
        ]
    );
    let trades: Vec<(u64, u64, u64, i64, i64, i64)> = engine
        .trade_log
        .iter()
        .map(|t| {
            let cent = UNIT / 100;
            (t.id, t.maker_order_id, t.taker_order_id, t.price / cent, t.qty / cent, t.timestamp_ms)
        })
        .collect();
    assert_eq!(
        trades,
        vec![
            (1, 7, 9, 10050, 150, 800_000),
            (2, 7, 13, 10050, 50, 850_000),
            (3, 1, 13, 10100, 500, 850_000),
            (4, 12, 13, 10120, 50, 850_000),
            (5, 8, 18, 9950, 300, 912_500),
            (6, 15, 18, 9920, 200, 912_500),
        ]
    );
}

#[test]
fn script_spans_the_last_five_minutes() {
    let mut engine = Engine::new();
    seed_at(&mut engine, 1_000_000);
    assert_eq!(engine.span(), (24, Some(700_000), Some(987_500)));
    assert_eq!(engine.last_id(), 24);
}

#[test]
fn script_can_be_played_twice() {
    let mut engine = Engine::new();
    seed_at(&mut engine, 0);
    seed_at(&mut engine, 500_000);
    assert_eq!(engine.journal.len(), 48);
    assert_eq!(engine.last_id(), 48);
}

#[test]
fn script_is_played_as_of_now() {
    let mut engine = Engine::new();
    let before = std::time::SystemTime::now()
        .duration_since(std::time::UNIX_EPOCH)
        .unwrap()
        .as_millis() as i64;
    seed(&mut engine);
    let after = std::time::SystemTime::now()
        .duration_since(std::time::UNIX_EPOCH)
        .unwrap()
        .as_millis() as i64;
    let (count, first, last) = engine.span();
    assert_eq!(count, 24);
    let start = first.unwrap() + 300_000;
    assert!(before <= start && start <= after);
    assert_eq!(last.unwrap(), first.unwrap() + 23 * 12_500);
}

#[test]
fn script_can_be_scrubbed_through() {
    let mut engine = Engine::new();
    seed_at(&mut engine, 1_000_000);
    let r = engine.replay(800_000);
    assert_eq!(r.validation.events_replayed, 9);
    assert_eq!(r.validation.events_skipped, 15);
    assert_eq!(r.trades.len(), 1);
    let r = engine.replay(1_000_000);
    assert_eq!(r.trades, engine.trade_log);
}
