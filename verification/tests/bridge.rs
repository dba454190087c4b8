use matching_engine::bridge::{
    bad_message, default_interval, no_publisher, prefill_levels, prefill_result, AeronState,
    ClientMsg, PrefillKind, PublishCmd, Reaction, ServerMsg, AERON_CHANNEL, AERON_STREAM_ID,
    DEFAULT_ACCOUNT_ID, DEFAULT_INSTRUMENT_ID, STREAM_SEED,
};
use matching_engine::fixed::{HUNDREDTH, UNIT};
use matching_engine::generator::{Market, Quote};
use matching_engine::order::{OrderType, Side, TimeInForce};

#[test]
fn constants_of_the_bridge() {
    assert_eq!(AERON_CHANNEL, "aeron:udp?endpoint=localhost:40123");
    assert_eq!((AERON_STREAM_ID, DEFAULT_ACCOUNT_ID, DEFAULT_INSTRUMENT_ID), (1001, 1, 1));
    assert_eq!(default_interval(), 500);
}

#[test]
fn dense_prefill() {
    let quotes = prefill_levels(PrefillKind::Dense);
    assert_eq!(quotes.len(), 400);
    assert_eq!((quotes[0].side, quotes[1].side), (Side::Buy, Side::Sell));
    assert_eq!((quotes[0].price, quotes[1].price), (9990 * HUNDREDTH, 10010 * HUNDREDTH));
    assert_eq!(quotes[0].qty, 10 * UNIT);
    assert_eq!(quotes[2].qty, 29 * UNIT);
    assert_eq!(quotes[398].price, 80 * UNIT);
    assert_eq!(quotes[399].qty, 11 * UNIT);
    assert!(quotes.iter().all(|q| q.order_type == OrderType::Limit && q.tif == TimeInForce::GTC));
}

#[test]
fn sparse_prefill() {
    let quotes = prefill_levels(PrefillKind::Sparse);
    assert_eq!(quotes.len(), 100);
    assert_eq!((quotes[0].price, quotes[0].qty), (98 * UNIT, 2 * UNIT));
    assert_eq!((quotes[98].price, quotes[99].price), (0, 200 * UNIT));
    assert_eq!(quotes[4].qty, UNIT);
}

#[test]
fn high_spread_prefill() {
    let quotes = prefill_levels(PrefillKind::HighSpread);
    assert_eq!(quotes.len(), 200);
    assert_eq!((quotes[0].price, quotes[1].price), (95 * UNIT, 105 * UNIT));
    assert_eq!((quotes[2].price, quotes[2].qty), (94 * UNIT, 4 * UNIT));
    assert_eq!(quotes[198].price, -4 * UNIT);
}

#[test]
fn low_spread_prefill() {
    let quotes = prefill_levels(PrefillKind::LowSpread);
    assert_eq!(quotes.len(), 400);
    assert_eq!((quotes[0].price, quotes[1].price), (9999 * HUNDREDTH, 10001 * HUNDREDTH));
    assert_eq!(quotes[0].qty, 20 * UNIT);
    let bids = quotes.iter().filter(|q| q.side == Side::Buy).map(|q| q.price).max().unwrap();
    let asks = quotes.iter().filter(|q| q.side == Side::Sell).map(|q| q.price).min().unwrap();
    assert!(bids < 100 * UNIT && 100 * UNIT < asks);
}

#[test]
fn prefill_orders_have_ids_and_times() {
    let mut state = AeronState::new();
    state.next_order_id = 7;
    let orders = state.prefill_orders(PrefillKind::Sparse);
    assert_eq!(orders.len(), 100);
    assert_eq!((orders[0].id, orders[99].id), (8, 107));
    assert_eq!(state.next_order_id, 107);
    assert!(orders.iter().all(|o| o.timestamp_ms > 1_600_000_000_000 && o.remaining_qty == o.qty));
}

#[test]
fn built_order_is_the_quote() {
    let mut state = AeronState::new();
    let quote = Quote {
        side: Side::Sell,
        order_type: OrderType::Limit,
        tif: TimeInForce::FOK,
        price: 5,
        qty: 6,
    };
    let o = state.build_order_at(quote, 77);
    assert_eq!((o.id, o.side, o.order_type, o.tif), (1, quote.side, quote.order_type, quote.tif));
    assert_eq!((o.price, o.qty, o.remaining_qty, o.timestamp_ms), (5, 6, 6, 77));
    assert_eq!(state.build_order(quote).id, 2);
}

#[test]
fn made_up_orders_are_published_under_new_ids() {
    let mut state = AeronState::new();
    let mut market = Market::new(STREAM_SEED);
    let o = state.random_order(&mut market);
    assert_eq!((o.id, o.side), (1, Side::Buy));
    assert_eq!((o.price, o.qty), (10075 * HUNDREDTH, 97 * HUNDREDTH));
    assert_eq!(state.random_order(&mut market).id, 2);
}

#[test]
fn outcomes_are_counted_and_told() {
    let mut state = AeronState::new();
    let mut market = Market::new(STREAM_SEED);
    let o = state.random_order(&mut market);
    match state.record(&o, Ok(())) {
        ServerMsg::PublishAck { order_id, ok, error, total_sent, total_errors, price, .. } => {
            assert_eq!((order_id, ok, error), (1, true, None));
            assert_eq!((total_sent, total_errors, price), (1, 0, o.price));
        }
        other => panic!("{:?}", other),
    }
    match state.record(&o, Err("no".to_string())) {
        ServerMsg::PublishAck { ok, error, total_sent, total_errors, .. } => {
            assert_eq!((ok, error.as_deref()), (false, Some("no")));
            assert_eq!((total_sent, total_errors), (1, 1));
        }
        other => panic!("{:?}", other),
    }
    match prefill_result(PrefillKind::Dense, &vec![true, true, false]) {
        ServerMsg::PrefillResult { kind, sent, total } => {
            assert_eq!((kind, sent, total), (PrefillKind::Dense, 2, 3));
        }
        other => panic!("{:?}", other),
    }
}

#[test]
fn stream_owes_an_order_when_its_delay_is_over() {
    let mut state = AeronState::new();
    assert!(!state.tick_due(10_000));
    state.streaming = true;
    assert!(!state.tick_due(499));
    assert!(state.tick_due(500));
    state.stream_interval_ms = 5;
    assert!(!state.tick_due(19));
    assert!(state.tick_due(20));
}

#[test]
fn reactions_to_messages() {
    let mut state = AeronState::new();
    let msg = ClientMsg::SubmitOrder {
        side: Side::Buy,
        order_type: OrderType::Market,
        tif: TimeInForce::IOC,
        price: 0,
        qty: UNIT,
    };
    match state.react(msg, 5) {
        Reaction::Publish(PublishCmd::Submit(o)) => {
            assert_eq!((o.id, o.qty, o.timestamp_ms), (1, UNIT, 5));
        }
        other => panic!("{:?}", other),
    }
    assert!(matches!(
        state.react(ClientMsg::RunPrefill { kind: PrefillKind::LowSpread }, 5),
        Reaction::Publish(PublishCmd::Prefill(PrefillKind::LowSpread))
    ));
    assert!(matches!(
        state.react(ClientMsg::StartStream { interval_ms: 3 }, 5),
        Reaction::Tell(ServerMsg::StreamStatus { streaming: true, interval_ms: 20 })
    ));
    assert!(matches!(
        state.react(ClientMsg::StartStream { interval_ms: 30 }, 5),
        Reaction::Tell(ServerMsg::StreamStatus { streaming: true, interval_ms: 30 })
    ));
    assert!(matches!(
        state.react(ClientMsg::GetState, 5),
        Reaction::Tell(ServerMsg::Stats {
            total_sent: 0,
            total_errors: 0,
            streaming: true,
            interval_ms: 30,
        })
    ));
    assert!(matches!(
        state.handle_message(ClientMsg::StopStream),
        Reaction::Tell(ServerMsg::StreamStatus { streaming: false, interval_ms: 30 })
    ));
    match state.handle_message(msg) {
        Reaction::Publish(PublishCmd::Submit(o)) => {
            assert!(o.timestamp_ms > 1_600_000_000_000);
            assert_eq!(o.id, 2);
        }
        other => panic!("{:?}", other),
    }
    assert!(matches!(state.stats(), ServerMsg::Stats { streaming: false, .. }));
}

#[test]
fn errors_of_the_bridge() {
    assert!(matches!(bad_message("eof"), ServerMsg::Error { message } if message == "bad message: eof"));
    assert!(matches!(
        no_publisher(),
        ServerMsg::Error { message } if message == "publisher thread is not running"
    ));
}
