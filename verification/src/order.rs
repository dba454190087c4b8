//! Orders, trades and the events of the journal.
use vstd::prelude::*;

verus! {

/// Which side of the book an order is on.
#[derive(Debug, Clone, Copy, PartialEq, Eq, Structural)]
pub enum Side {
    Buy,
    Sell,
}

impl Side {
    /// The other side.
    pub open spec fn opposite(self) -> Side {
        match self {
            Side::Buy => Side::Sell,
            Side::Sell => Side::Buy,
        }
    }
}

#[derive(Debug, Clone, Copy, PartialEq, Eq, Structural)]
pub enum OrderType {
    Limit,
    Market,
}

/// How long an order stays open: good till cancelled, immediate or cancel, or
/// fill or kill.
#[derive(Debug, Clone, Copy, PartialEq, Eq, Structural)]
pub enum TimeInForce {
    GTC,
    IOC,
    FOK,
}

/// An order. `price`, `qty` and `remaining_qty` are in billionths.
#[derive(Debug, Clone, Copy, PartialEq, Eq, Structural)]
pub struct Order {
    pub id: u64,
    pub side: Side,
    pub order_type: OrderType,
    pub tif: TimeInForce,
    pub price: i64,
    pub qty: i64,
    pub remaining_qty: i64,
    pub timestamp_ms: i64,
}

/// One fill of a taker against a resting order. `price` and `qty` are in
/// billionths.
#[derive(Debug, Clone, Copy, PartialEq, Eq, Structural)]
pub struct Trade {
    pub id: u64,
    pub maker_order_id: u64,
    pub taker_order_id: u64,
    pub price: i64,
    pub qty: i64,
    pub timestamp_ms: i64,
}

/// A journal entry.
#[derive(Debug, Clone, Copy, PartialEq, Eq, Structural)]
pub enum EngineEvent {
    Submit { order: Order },
    Cancel { order_id: u64, timestamp_ms: i64 },
}

impl EngineEvent {
    /// When the event happened, in milliseconds since the epoch.
    pub open spec fn time(self) -> i64 {
        match self {
            EngineEvent::Submit { order } => order.timestamp_ms,
            EngineEvent::Cancel { timestamp_ms, .. } => timestamp_ms,
        }
    }

    /// When the event happened, in milliseconds since the epoch.
    pub fn timestamp_ms(&self) -> (r: i64)
        ensures
            r == self.time(),
    {
        match self {
            EngineEvent::Submit { order } => order.timestamp_ms,
            EngineEvent::Cancel { timestamp_ms, .. } => *timestamp_ms,
        }
    }
}

} // verus!
