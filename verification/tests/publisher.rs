use matching_engine::fixed::UNIT;
use matching_engine::order::{Order, OrderType, Side, TimeInForce};
use matching_engine::publisher::{
    after_attempt, count_sent, serialize_error, to_ingress_model, IngressModel, OrderIngressModel,
    OrderKind, OrderSide, OrderTif, Sequence, Step,
};

fn order(side: Side, order_type: OrderType, tif: TimeInForce, price: i64, qty: i64) -> Order {
    Order { id: 42, side, order_type, tif, price, qty, remaining_qty: qty, timestamp_ms: 0 }
}

fn model(sequence: &mut Sequence, order: &Order) -> OrderIngressModel {
    let IngressModel::Order(m) = to_ingress_model(sequence, order, 3, 4, 99);
    m
}

#[test]
fn order_as_the_service_takes_it() {
    let mut sequence = Sequence::new();
    let o = order(Side::Buy, OrderType::Limit, TimeInForce::GTC, 100 * UNIT + UNIT / 2, 3 * UNIT);
    assert_eq!(
        model(&mut sequence, &o),
        OrderIngressModel {
            order_id: 42,
            account_id: 3,
            price: 10_050,
            qty: 300,
            seq: 500_000,
            order_type: OrderKind::Limit,
            flags: 0,
            side: OrderSide::Bid,
            tif: OrderTif::Gtc,
            instrument_id: 4,
            expiry: 99,
        }
    );
    let o = order(Side::Sell, OrderType::Market, TimeInForce::IOC, 0, UNIT);
    let m = model(&mut sequence, &o);
    assert_eq!((m.side, m.order_type, m.tif), (OrderSide::Ask, OrderKind::Market, OrderTif::Ioc));
    assert_eq!(m.seq, 500_001);
    let o = order(Side::Sell, OrderType::Limit, TimeInForce::FOK, 0, UNIT);
    assert_eq!(model(&mut sequence, &o).tif, OrderTif::Fok);
}

#[test]
fn ticks_are_rounded() {
    let mut sequence = Sequence::new();
    let mut price = |p: i64| {
        let o = order(Side::Buy, OrderType::Limit, TimeInForce::GTC, p, 0);
        model(&mut sequence, &o).price
    };
    assert_eq!(price(4_999_999), 0);
    assert_eq!(price(5_000_000), 1);
    assert_eq!(price(14_999_999), 1);
    assert_eq!(price(15_000_000), 2);
    assert_eq!(price(-5 * UNIT), 0);
    assert_eq!(price(i64::MAX), 922_337_203_685);
    // One hundred times the floating-point number next to this is below a half.
    assert_eq!(price(1_005_000_000), 100);
    assert_eq!(price(1_015_000_000), 101);
}

#[test]
fn ticks_agree_with_floating_point() {
    let mut sequence = Sequence::new();
    let mut value: i64 = 1;
    let mut step: u64 = 0x9E37_79B9_7F4A_7C15;
    for i in 0..200_000u64 {
        step ^= step << 13;
        step ^= step >> 7;
        step ^= step << 17;
        let any = (step >> (1 + i % 50)) as i64;
        // Half of them lie at the middle between two ticks.
        value = if i % 2 == 0 { any } else { any / 10_000_000 * 10_000_000 + 5_000_000 };
        if value >= 1 << 53 {
            continue;
        }
        let exact = value as f64 / 1e9;
        let o = order(Side::Buy, OrderType::Limit, TimeInForce::GTC, value, value);
        let m = model(&mut sequence, &o);
        assert_eq!(m.price, (exact * 100.0).round().max(0.0) as u64);
        assert_eq!(m.qty, m.price);
    }
    assert!(value != 1);
}

#[test]
fn sequence_numbers_wrap() {
    let mut sequence = Sequence { next: u64::MAX };
    assert_eq!(sequence.next_seq(), u64::MAX);
    assert_eq!(sequence.next_seq(), 0);
}

#[test]
fn success_ends_the_attempts() {
    assert!(matches!(after_attempt(1, 0, Ok(())), Step::Sent));
    assert!(matches!(after_attempt(1, 1000, Ok(())), Step::Sent));
}

#[test]
fn other_failures_end_the_attempts() {
    match after_attempt(7, 3, Err("socket on fire".to_string())) {
        Step::Failed { error } => {
            assert_eq!(error, "publish error for order #7: socket on fire");
        }
        other => panic!("{:?}", other),
    }
}

#[test]
fn passing_failures_are_tried_again() {
    for (retries, msg, wait) in [
        (0, "BackPressured", 10),
        (9, "x NotConnected y", 10),
        (10, "AdminAction!", 50),
        (49, "is Closed", 50),
        (50, "Closed", 200),
    ] {
        match after_attempt(7, retries, Err(msg.to_string())) {
            Step::Retry { retries: n, wait_us, warning } => {
                assert_eq!((n, wait_us), (retries + 1, wait));
                assert_eq!(warning, None);
            }
            other => panic!("{:?}", other),
        }
    }
    assert!(matches!(after_attempt(7, 0, Err("Close".to_string())), Step::Failed { .. }));
    assert!(matches!(after_attempt(7, 0, Err(String::new())), Step::Failed { .. }));
}

#[test]
fn every_hundredth_retry_warns() {
    match after_attempt(7, 199, Err("BackPressured".to_string())) {
        Step::Retry { retries, wait_us, warning } => {
            assert_eq!((retries, wait_us), (200, 200));
            assert_eq!(
                warning.as_deref(),
                Some("[publisher] order #7 back-pressure retries=200 err=BackPressured")
            );
        }
        other => panic!("{:?}", other),
    }
}

#[test]
fn an_order_is_given_up_after_a_thousand_retries() {
    let mut retries = 0;
    let mut attempts = 0;
    let error = loop {
        attempts += 1;
        match after_attempt(12, retries, Err("Closed".to_string())) {
            Step::Retry { retries: n, .. } => retries = n,
            Step::GiveUp { wait_us, error } => {
                assert_eq!(wait_us, 200);
                break error;
            }
            other => panic!("{:?}", other),
        }
    };
    assert_eq!(attempts, 1001);
    assert_eq!(error, "gave up publishing order #12 after 1000 retries, last error: Closed");
}

#[test]
fn sent_orders_are_counted() {
    assert_eq!(count_sent(&vec![]), 0);
    assert_eq!(count_sent(&vec![true, false, true]), 2);
}

#[test]
fn serialize_error_says_why() {
    assert_eq!(serialize_error("too long"), "serialize failed: too long");
}
