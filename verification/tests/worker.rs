use matching_engine::bridge::{AeronState, PrefillKind, PublishCmd};
use matching_engine::fixed::HUNDREDTH;
use matching_engine::generator::Quote;
use matching_engine::order::{Order, OrderType, Side, TimeInForce};
use matching_engine::worker::{Received, Worker};

const MS: u128 = 1_000_000;

fn some_order(state: &mut AeronState) -> Order {
    let quote = Quote {
        side: Side::Buy,
        order_type: OrderType::Limit,
        tif: TimeInForce::GTC,
        price: 5,
        qty: 6,
    };
    state.build_order_at(quote, 7)
}

#[test]
fn command_is_published_once() {
    let mut state = AeronState::new();
    let order = some_order(&mut state);
    let before = state;
    let r = Worker::receive(&mut state, Received::Cmd(PublishCmd::Submit(order)));
    assert_eq!(r, Some(vec![order]));
    assert_eq!(state, before);
}

#[test]
fn prefill_is_published_in_turn() {
    let mut state = AeronState::new();
    let cmd = PublishCmd::Prefill(PrefillKind::HighSpread);
    assert!(state.can_publish(&cmd));
    let orders = Worker::receive(&mut state, Received::Cmd(cmd)).unwrap();
    assert_eq!(orders.len(), 200);
    assert_eq!((orders[0].id, orders[199].id, state.next_order_id), (1, 200, 200));
    assert_eq!(orders[1].price, 10_500 * HUNDREDTH);
}

#[test]
fn ids_may_not_suffice_for_a_prefill() {
    let mut state = AeronState::new();
    state.next_order_id = u64::MAX - 100;
    assert!(state.can_publish(&PublishCmd::Prefill(PrefillKind::Sparse)));
    assert!(!state.can_publish(&PublishCmd::Prefill(PrefillKind::Dense)));
}

#[test]
fn timeout_publishes_nothing_and_the_end_ends() {
    let mut state = AeronState::new();
    assert_eq!(Worker::receive(&mut state, Received::Timeout), Some(vec![]));
    assert_eq!(Worker::receive(&mut state, Received::Disconnected), None);
    assert_eq!(state, AeronState::new());
}

#[test]
fn stream_keeps_its_pause() {
    let mut state = AeronState::new();
    let mut worker = Worker::new(3);
    assert_eq!(worker.tick(&mut state, 900 * MS), None);
    state.streaming = true;
    assert_eq!(worker.tick(&mut state, 500 * MS + 2), None);
    let o = worker.tick(&mut state, 500 * MS + 3).unwrap();
    assert_eq!((o.id, o.price, o.qty), (1, 10_075 * HUNDREDTH, 97 * HUNDREDTH));
    assert_eq!(worker.last_tick_ns, 500 * MS + 3);
    assert_eq!(worker.tick(&mut state, 1_000 * MS + 2), None);
    assert_eq!(worker.tick(&mut state, 1_000 * MS + 3).unwrap().id, 2);
    state.stream_interval_ms = 1;
    assert_eq!(worker.tick(&mut state, 1_020 * MS + 2), None);
    assert!(worker.tick(&mut state, 1_020 * MS + 3).is_some());
    state.stream_interval_ms = u64::MAX;
    assert_eq!(worker.tick(&mut state, 2_000_000 * MS), None);
}

#[test]
fn streamed_orders_keep_their_distance() {
    let mut state = AeronState::new();
    let mut worker = Worker::new(0);
    let mut last: Option<u128> = None;
    let mut made = 0;
    for i in 0..5_000u128 {
        state.streaming = i % 700 < 500;
        state.stream_interval_ms = if i % 900 < 400 { 5 } else { 90 };
        let now = i * 7 * MS + i * i % 1_000;
        if worker.tick(&mut state, now).is_some() {
            assert!(state.streaming);
            let pause = u128::from(state.stream_interval_ms.max(20)) * MS;
            assert!(last.map_or(true, |l| now - l >= pause));
            last = Some(now);
            made += 1;
        }
    }
    assert!(made > 100);
    assert_eq!(state.next_order_id, made);
}
