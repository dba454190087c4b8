use matching_engine::bridge;
use matching_engine::fixed::HUNDREDTH;
use matching_engine::generator::{Market, PARTS, STREAM_SEED};
use matching_engine::order::{OrderType, Side, TimeInForce};

/// The same market in floating point.
struct Float {
    mid: f64,
    state: u64,
}

impl Float {
    fn next(&mut self) -> f64 {
        self.state ^= self.state << 13;
        self.state ^= self.state >> 7;
        self.state ^= self.state << 17;
        (self.state >> 11) as f64 / (1u64 << 53) as f64
    }

    fn order(&mut self) -> (Side, OrderType, TimeInForce, i64, i64) {
        self.mid += (self.next() - 0.5) * 0.4;
        self.mid = self.mid.clamp(50.0, 500.0);
        let side = if self.next() < 0.5 { Side::Buy } else { Side::Sell };
        let is_market = self.next() < 0.15;
        let tif = if is_market {
            TimeInForce::IOC
        } else {
            match (self.next() * 10.0) as u32 {
                0..=6 => TimeInForce::GTC,
                7..=8 => TimeInForce::IOC,
                _ => TimeInForce::FOK,
            }
        };
        let offset = self.next() * 3.0 - 1.0;
        let price = match side {
            Side::Buy => self.mid - offset,
            Side::Sell => self.mid + offset,
        };
        let cents = (price * 100.0).round() as i64;
        let qty = (1.0 + self.next() * 9.0 * 100.0).round() as i64;
        let kind = if is_market { OrderType::Market } else { OrderType::Limit };
        (side, kind, tif, cents, qty)
    }
}

#[test]
fn first_orders_of_the_stream() {
    let mut market = Market::new(STREAM_SEED);
    let q = market.random_order();
    assert_eq!((q.side, q.order_type, q.tif), (Side::Buy, OrderType::Limit, TimeInForce::GTC));
    assert_eq!((q.price, q.qty), (10062 * HUNDREDTH, 532 * HUNDREDTH));
    assert_eq!(market.mid_price, 16_249_279_656_459_455_218_064_103_919_583_232);
    let q = market.random_order();
    assert_eq!((q.side, q.price, q.qty), (Side::Sell, 9929 * HUNDREDTH, 165 * HUNDREDTH));
}

#[test]
fn agrees_with_floating_point() {
    for seed in [STREAM_SEED, bridge::STREAM_SEED] {
        let mut market = Market::new(seed);
        let mut float = Float { mid: 100.0, state: seed };
        for _ in 0..100_000 {
            let q = market.random_order();
            let f = float.order();
            assert_eq!(
                (q.side, q.order_type, q.tif, q.price / HUNDREDTH, q.qty / HUNDREDTH),
                f
            );
            assert_eq!(market.rng_state, float.state);
            assert_eq!(market.mid_price as f64, float.mid * PARTS as f64);
        }
    }
}

#[test]
fn mid_price_stays_within_its_limits() {
    let mut market = Market::new(1);
    for _ in 0..10_000 {
        market.random_order();
        assert!(50 * PARTS <= market.mid_price && market.mid_price <= 500 * PARTS);
        assert_ne!(market.rng_state, 0);
    }
}

#[test]
fn made_up_orders_are_usual() {
    for (seed, mid) in [(STREAM_SEED, 50), (bridge::STREAM_SEED, 500), (1, 100)] {
        let mut market = Market { mid_price: mid * PARTS, rng_state: seed };
        for _ in 0..20_000 {
            let q = market.random_order();
            assert!(4_800 * HUNDREDTH <= q.price && q.price <= 50_200 * HUNDREDTH);
            assert!(HUNDREDTH <= q.qty && q.qty <= 901 * HUNDREDTH);
            assert_eq!((q.price % HUNDREDTH, q.qty % HUNDREDTH), (0, 0));
            assert!(q.order_type != OrderType::Market || q.tif == TimeInForce::IOC);
        }
    }
}

#[test]
fn mid_price_is_clamped() {
    let mut market = Market { mid_price: 50 * PARTS, rng_state: STREAM_SEED };
    let mut seen = false;
    for _ in 0..50 {
        market.random_order();
        seen = seen || market.mid_price == 50 * PARTS;
        market.mid_price = 50 * PARTS;
    }
    assert!(seen);
}
