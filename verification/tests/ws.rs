use matching_engine::fixed::{HUNDREDTH, UNIT};
use matching_engine::generator::{Market, STREAM_SEED};
use matching_engine::order::{EngineEvent, OrderType, Side, TimeInForce};
use matching_engine::ws::{
    bad_message, default_interval, stream, stream_at, submit_and_broadcast, AppState, ClientMsg,
    ServerMsg,
};

fn submit(side: Side, price: i64, qty: i64) -> ClientMsg {
    ClientMsg::SubmitOrder {
        side,
        order_type: OrderType::Limit,
        tif: TimeInForce::GTC,
        price: price * UNIT,
        qty: qty * UNIT,
    }
}

#[test]
fn state_at_the_start() {
    let state = AppState::new();
    assert!(!state.streaming);
    assert_eq!(state.stream_interval_ms, 500);
    assert_eq!(default_interval(), 500);
    match state.book_msg() {
        ServerMsg::BookSnapshot { book } => assert!(book.bids.is_empty() && book.asks.is_empty()),
        other => panic!("{:?}", other),
    }
}

#[test]
fn submission_is_acknowledged() {
    let mut state = AppState::new();
    state.answer(submit(Side::Sell, 100, 5), 10, 10);
    let r = state.answer(submit(Side::Buy, 101, 2), 11, 12);
    assert_eq!(r.len(), 2);
    match &r[0] {
        ServerMsg::OrderAck { order_id, accepted, rejection_reason, trades, resting_qty } => {
            assert_eq!((*order_id, *accepted, *resting_qty), (2, true, 0));
            assert_eq!(*rejection_reason, None);
            assert_eq!(trades.len(), 1);
            assert_eq!(trades[0].timestamp_ms, 11);
        }
        other => panic!("{:?}", other),
    }
    match &r[1] {
        ServerMsg::BookSnapshot { book } => assert_eq!(book.asks[0].qty, 3 * UNIT as i128),
        other => panic!("{:?}", other),
    }
}

#[test]
fn rejection_is_acknowledged() {
    let mut state = AppState::new();
    let r = state.answer(
        ClientMsg::SubmitOrder {
            side: Side::Buy,
            order_type: OrderType::Limit,
            tif: TimeInForce::FOK,
            price: UNIT,
            qty: UNIT,
        },
        1,
        1,
    );
    match &r[0] {
        ServerMsg::OrderAck { accepted, rejection_reason, .. } => {
            assert!(!accepted);
            assert_eq!(
                rejection_reason.as_deref(),
                Some("FOK order could not be fully filled at submission time")
            );
        }
        other => panic!("{:?}", other),
    }
}

#[test]
fn cancellation_is_acknowledged() {
    let mut state = AppState::new();
    state.answer(submit(Side::Sell, 100, 5), 10, 10);
    for found in [true, false] {
        let r = state.answer(ClientMsg::CancelOrder { order_id: 1 }, 20, 20);
        assert_eq!(r.len(), 2);
        match &r[0] {
            ServerMsg::CancelAck { order_id, found: f } => assert_eq!((*order_id, *f), (1, found)),
            other => panic!("{:?}", other),
        }
        assert!(matches!(&r[1], ServerMsg::BookSnapshot { book } if book.asks.is_empty()));
    }
    assert_eq!(state.engine.journal.len(), 3);
}

#[test]
fn replay_is_answered() {
    let mut state = AppState::new();
    state.answer(submit(Side::Sell, 100, 5), 10, 10);
    state.answer(submit(Side::Sell, 101, 5), 20, 20);
    let r = state.answer(ClientMsg::Replay { target_time_ms: 15 }, 30, 30);
    assert_eq!(r.len(), 1);
    match &r[0] {
        ServerMsg::ReplayResult { result } => {
            assert_eq!(result.book.asks.len(), 1);
            assert!(result.validation.valid);
        }
        other => panic!("{:?}", other),
    }
}

#[test]
fn state_is_answered() {
    let mut state = AppState::new();
    state.answer(submit(Side::Sell, 100, 5), 10, 10);
    let r = state.answer(ClientMsg::GetState, 30, 31);
    assert_eq!(r.len(), 3);
    assert!(matches!(&r[0], ServerMsg::BookSnapshot { .. }));
    match &r[1] {
        ServerMsg::JournalInfo { count, earliest_ms, latest_ms, server_now_ms } => {
            assert_eq!((*count, *earliest_ms, *latest_ms), (1, Some(10), Some(10)));
            assert_eq!(*server_now_ms, 31);
        }
        other => panic!("{:?}", other),
    }
    assert!(matches!(
        &r[2],
        ServerMsg::StreamStatus { streaming: false, interval_ms: 500 }
    ));
}

#[test]
fn demo_and_reset_are_answered() {
    let mut state = AppState::new();
    let r = state.answer(ClientMsg::SeedDemo, 1_000_000, 1_000_001);
    assert_eq!(r.len(), 2);
    assert!(matches!(&r[0], ServerMsg::BookSnapshot { book } if book.bids.len() == 8));
    assert!(matches!(
        &r[1],
        ServerMsg::JournalInfo { count: 24, earliest_ms: Some(700_000), .. }
    ));
    let r = state.answer(ClientMsg::Reset, 2_000_000, 2_000_000);
    assert_eq!(r.len(), 1);
    assert!(matches!(&r[0], ServerMsg::BookSnapshot { book } if book.bids.is_empty()));
    assert_eq!(state.engine.last_id(), 0);
    assert!(state.engine.journal.is_empty() && state.engine.trade_log.is_empty());
}

#[test]
fn stream_is_started_and_stopped() {
    let mut state = AppState::new();
    let r = state.answer(ClientMsg::StartStream { interval_ms: 10 }, 0, 0);
    assert!(matches!(&r[0], ServerMsg::StreamStatus { streaming: true, interval_ms: 50 }));
    assert_eq!(state.tick_delay(), 50);
    let r = state.answer(ClientMsg::StartStream { interval_ms: 70 }, 0, 0);
    assert!(matches!(&r[0], ServerMsg::StreamStatus { streaming: true, interval_ms: 70 }));
    let r = state.answer(ClientMsg::StopStream, 0, 0);
    assert!(matches!(&r[0], ServerMsg::StreamStatus { streaming: false, interval_ms: 70 }));
    state.stream_interval_ms = 3;
    assert_eq!(state.tick_delay(), 20);
}

#[test]
fn stream_submits_only_while_it_is_on() {
    let mut state = AppState::new();
    let mut market = Market::new(STREAM_SEED);
    assert!(stream(&mut state, &mut market).is_empty());
    assert_eq!(market, Market::new(STREAM_SEED));
    state.streaming = true;
    let r = stream_at(&mut state, &mut market, 9);
    assert!(matches!(&r[0], ServerMsg::OrderAck { order_id: 1, accepted: true, .. }));
    assert_eq!(state.engine.book.best_bid(), Some(10062 * HUNDREDTH));
    assert_eq!(stream(&mut state, &mut market).len(), 2);
    assert_eq!(state.engine.journal.len(), 2);
}

#[test]
fn messages_are_handled_now() {
    let mut state = AppState::new();
    assert!(state.can_take(&ClientMsg::SeedDemo));
    let r = state.handle_message(submit(Side::Buy, 1, 1));
    assert!(matches!(&r[0], ServerMsg::OrderAck { order_id: 1, .. }));
    let (id, msgs) = submit_and_broadcast(
        &mut state,
        Side::Sell,
        OrderType::Limit,
        TimeInForce::GTC,
        UNIT,
        UNIT,
    );
    assert_eq!(id, 2);
    assert!(matches!(&msgs[0], ServerMsg::OrderAck { trades, .. } if trades.len() == 1));
    assert!(state.engine.span().1.unwrap() > 1_600_000_000_000);
}

#[test]
fn server_gives_every_order_an_id_of_its_own() {
    let mut state = AppState::new();
    let mut market = Market::new(STREAM_SEED);
    state.answer(ClientMsg::SeedDemo, 1_000_000, 1_000_000);
    state.streaming = true;
    for i in 0..200 {
        stream_at(&mut state, &mut market, 1_000_000 + i);
        state.answer(ClientMsg::CancelOrder { order_id: i as u64 }, 1_000_000 + i, 0);
    }
    state.answer(ClientMsg::SeedDemo, 2_000_000, 2_000_000);
    let mut ids: Vec<u64> = Vec::new();
    for event in &state.engine.journal {
        if let EngineEvent::Submit { order } = event {
            ids.push(order.id);
        }
    }
    assert_eq!(ids, (1..=248).collect::<Vec<u64>>());
    assert_eq!(state.engine.last_id(), 248);
}

#[test]
fn unreadable_message_is_answered() {
    assert!(matches!(bad_message("x"), ServerMsg::Error { message } if message == "bad message: x"));
}
