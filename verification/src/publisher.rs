//! Orders as the matching service takes them, and when to try again to hand one
//! over.
use crate::double::{
    lemma_ratio_close, lemma_rounded_close, round, round_parts, rounded, rounded_ratio,
};
use crate::fixed::UNIT;
use crate::order::{Order, OrderType, Side, TimeInForce};
use crate::text::{contains, digits, has_part, lemma_has_part, push_number};
use vstd::prelude::*;

verus! {

/// How many price ticks make one.
pub const PRICE_SCALE: i64 = 100;

/// How many quantity ticks make one.
pub const QTY_SCALE: i64 = 100;

/// How many parts one is counted in where floating-point numbers are: 2^82. The
/// smallest amount, a billionth, takes 53 bits then.
pub const PARTS: u128 = 4_835_703_278_458_516_698_824_704;

/// The sequence number of the first order.
pub const FIRST_SEQ: u64 = 500_000;

/// How often an order is tried again before it is given up.
pub const MAX_RETRIES: u64 = 1_000;

/// Numbers the orders that are handed over.
#[derive(Debug, Clone, Copy, PartialEq, Eq, Structural)]
pub struct Sequence {
    pub next: u64,
}

impl Sequence {
    /// The sequence before its first number.
    pub fn new() -> (r: Self)
        ensures
            r.next == 500_000,
    {
        Sequence { next: FIRST_SEQ }
    }

    /// The next number. After the largest comes zero.
    pub fn next_seq(&mut self) -> (r: u64)
        ensures
            r == old(self).next,
            final(self).next == if r == u64::MAX {
                0
            } else {
                r + 1
            },
    {
        let seq = self.next;
        self.next = seq.wrapping_add(1);
        seq
    }
}

#[derive(Debug, Clone, Copy, PartialEq, Eq, Structural)]
pub enum OrderSide {
    Bid,
    Ask,
}

#[derive(Debug, Clone, Copy, PartialEq, Eq, Structural)]
pub enum OrderKind {
    Limit,
    Market,
}

#[derive(Debug, Clone, Copy, PartialEq, Eq, Structural)]
pub enum OrderTif {
    Gtc,
    Ioc,
    Fok,
}

/// An order as the matching service takes it. `price` and `qty` are in ticks.
#[derive(Debug, Clone, Copy, PartialEq, Eq, Structural)]
pub struct OrderIngressModel {
    pub order_id: u64,
    pub account_id: u64,
    pub price: u64,
    pub qty: u64,
    pub seq: u64,
    pub order_type: OrderKind,
    pub flags: u64,
    pub side: OrderSide,
    pub tif: OrderTif,
    pub instrument_id: u64,
    pub expiry: u64,
}

/// What the matching service takes.
#[derive(Debug, Clone, Copy, PartialEq, Eq, Structural)]
pub enum IngressModel {
    Order(OrderIngressModel),
}

/// `value`, in billionths, as a floating-point number: a count of 2^-82, to 53
/// significant bits.
pub open spec fn as_double(value: nat) -> int {
    rounded_ratio(value * (PARTS as nat), UNIT as nat)
}

/// `value`, in billionths, in ticks of which `scale` make one: the floating-point
/// product of the two, to the nearest integer, the larger if two are as near, and
/// none for a negative value.
pub open spec fn ticks(value: int, scale: int) -> int {
    if value <= 0 {
        0
    } else {
        (2 * rounded(as_double(value as nat) * scale) + PARTS) / (2 * PARTS)
    }
}

/// `value`, in billionths, in ticks of which `scale` make one.
fn to_ticks(value: i64, scale: i64) -> (r: u64)
    requires
        0 < scale <= 100,
    ensures
        r == ticks(value as int, scale as int),
{
    if value <= 0 {
        return 0;
    }
    let units: u128 = value as u128 / UNIT as u128;
    let part: u128 = (value as u128 % UNIT as u128) * PARTS;
    let q: u128 = units * PARTS + part / UNIT as u128;
    let x: u128 = round_parts(q, part % UNIT as u128, UNIT as u128);
    assert(0 <= x * scale <= x * 100) by (nonlinear_arith)
        requires
            0 < scale <= 100,
            0 <= x,
    ;
    let y: i128 = round(x as i128 * scale as i128);
    proof {
        lemma_rounded_close(x * scale);
    }
    ((2 * y as u128 + PARTS) / (2 * PARTS)) as u64
}

/// A side in the words of the service.
pub open spec fn ingress_side(side: Side) -> OrderSide {
    match side {
        Side::Buy => OrderSide::Bid,
        Side::Sell => OrderSide::Ask,
    }
}

fn to_side(side: Side) -> (r: OrderSide)
    ensures
        r == ingress_side(side),
{
    match side {
        Side::Buy => OrderSide::Bid,
        Side::Sell => OrderSide::Ask,
    }
}

/// An order type in the words of the service.
pub open spec fn ingress_kind(order_type: OrderType) -> OrderKind {
    match order_type {
        OrderType::Limit => OrderKind::Limit,
        OrderType::Market => OrderKind::Market,
    }
}

fn to_kind(order_type: OrderType) -> (r: OrderKind)
    ensures
        r == ingress_kind(order_type),
{
    match order_type {
        OrderType::Limit => OrderKind::Limit,
        OrderType::Market => OrderKind::Market,
    }
}

/// A time in force in the words of the service.
pub open spec fn ingress_tif(tif: TimeInForce) -> OrderTif {
    match tif {
        TimeInForce::GTC => OrderTif::Gtc,
        TimeInForce::IOC => OrderTif::Ioc,
        TimeInForce::FOK => OrderTif::Fok,
    }
}

fn to_tif(tif: TimeInForce) -> (r: OrderTif)
    ensures
        r == ingress_tif(tif),
{
    match tif {
        TimeInForce::GTC => OrderTif::Gtc,
        TimeInForce::IOC => OrderTif::Ioc,
        TimeInForce::FOK => OrderTif::Fok,
    }
}

/// `order` as the matching service takes it, under the next number of
/// `sequence`, to expire at `expiry`.
pub fn to_ingress_model(
    sequence: &mut Sequence,
    order: &Order,
    account_id: u64,
    instrument_id: u64,
    expiry: u64,
) -> (r: IngressModel)
    ensures
        final(sequence).next == if old(sequence).next == u64::MAX {
            0
        } else {
            old(sequence).next + 1
        },
        r matches IngressModel::Order(m) && {
            &&& m.order_id == order.id
            &&& m.account_id == account_id
            &&& m.price == ticks(order.price as int, PRICE_SCALE as int)
            &&& m.qty == ticks(order.qty as int, QTY_SCALE as int)
            &&& m.seq == old(sequence).next
            &&& m.order_type == ingress_kind(order.order_type)
            &&& m.flags == 0
            &&& m.side == ingress_side(order.side)
            &&& m.tif == ingress_tif(order.tif)
            &&& m.instrument_id == instrument_id
            &&& m.expiry == expiry
        },
{
    let seq = sequence.next_seq();
    IngressModel::Order(
        OrderIngressModel {
            order_id: order.id,
            account_id,
            price: to_ticks(order.price, PRICE_SCALE),
            qty: to_ticks(order.qty, QTY_SCALE),
            seq,
            order_type: to_kind(order.order_type),
            flags: 0,
            side: to_side(order.side),
            tif: to_tif(order.tif),
            instrument_id,
            expiry,
        },
    )
}

/// What to do after an attempt to hand an order over.
#[derive(Debug, Clone)]
pub enum Step {
    /// It has been handed over.
    Sent,
    /// It cannot be handed over.
    Failed { error: String },
    /// Wait, print the warning if there is one, and try again.
    Retry { retries: u64, wait_us: u64, warning: Option<String> },
    /// Wait, then give up.
    GiveUp { wait_us: u64, error: String },
}

/// Whether a failure in the words of `msg` may pass.
pub open spec fn may_pass(msg: Seq<char>) -> bool {
    ||| has_part(msg, "BackPressured"@)
    ||| has_part(msg, "NotConnected"@)
    ||| has_part(msg, "AdminAction"@)
    ||| has_part(msg, "Closed"@)
}

/// How long to wait before the `retries`th attempt to try again, in
/// microseconds.
pub open spec fn wait_before(retries: int) -> int {
    if retries <= 10 {
        10
    } else if retries <= 50 {
        50
    } else {
        200
    }
}

/// The warning about many retries.
pub open spec fn warning_text(order_id: u64, retries: u64, msg: Seq<char>) -> Seq<char> {
    "[publisher] order #"@ + digits(order_id as nat) + " back-pressure retries="@ + digits(
        retries as nat,
    ) + " err="@ + msg
}

/// The error of an order that was given up.
pub open spec fn gave_up_text(order_id: u64, msg: Seq<char>) -> Seq<char> {
    "gave up publishing order #"@ + digits(order_id as nat) + " after 1000 retries, last error: "@
        + msg
}

/// The error of an order that cannot be handed over.
pub open spec fn failed_text(order_id: u64, msg: Seq<char>) -> Seq<char> {
    "publish error for order #"@ + digits(order_id as nat) + ": "@ + msg
}

impl Step {
    /// Whether this is what follows when an attempt to hand over order
    /// `order_id`, after `retries` retries, ended in `outcome`.
    pub open spec fn follows(
        self,
        order_id: u64,
        retries: u64,
        outcome: Result<(), String>,
    ) -> bool {
        match outcome {
            Ok(()) => self is Sent,
            Err(msg) => if !may_pass(msg@) {
                self matches Step::Failed { error } && error@ == failed_text(order_id, msg@)
            } else if retries < MAX_RETRIES {
                let n = (retries + 1) as u64;
                &&& self is Retry
                &&& self->retries == n
                &&& self->Retry_wait_us == wait_before(n as int)
                &&& match self->warning {
                    Some(text) => n % 100 == 0 && text@ == warning_text(order_id, n, msg@),
                    None => n % 100 != 0,
                }
            } else {
                &&& self is GiveUp
                &&& self->GiveUp_wait_us == wait_before(retries + 1)
                &&& self->GiveUp_error@ == gave_up_text(order_id, msg@)
            },
        }
    }
}

/// Whether a failure in the words of `msg` may pass.
fn is_passing(msg: &str) -> (r: bool)
    ensures
        r == may_pass(msg@),
{
    contains(msg, "BackPressured") || contains(msg, "NotConnected") || contains(msg, "AdminAction")
        || contains(msg, "Closed")
}

/// What to do after an attempt to hand over order `order_id` has ended in
/// `outcome`, after `retries` retries.
pub fn after_attempt(order_id: u64, retries: u64, outcome: Result<(), String>) -> (r: Step)
    requires
        retries <= MAX_RETRIES,
    ensures
        r.follows(order_id, retries, outcome),
{
    match outcome {
        Ok(()) => Step::Sent,
        Err(msg) => {
            if !is_passing(msg.as_str()) {
                let mut error = "publish error for order #".to_string();
                push_number(&mut error, order_id);
                error.append(": ");
                error.append(msg.as_str());
                return Step::Failed { error };
            }
            let retries = retries + 1;
            let wait_us: u64 = if retries <= 10 {
                10
            } else if retries <= 50 {
                50
            } else {
                200
            };
            if retries > MAX_RETRIES {
                let mut error = "gave up publishing order #".to_string();
                push_number(&mut error, order_id);
                error.append(" after 1000 retries, last error: ");
                error.append(msg.as_str());
                return Step::GiveUp { wait_us, error };
            }
            let warning = if retries % 100 == 0 {
                let mut text = "[publisher] order #".to_string();
                push_number(&mut text, order_id);
                text.append(" back-pressure retries=");
                push_number(&mut text, retries);
                text.append(" err=");
                text.append(msg.as_str());
                Some(text)
            } else {
                None
            };
            Step::Retry { retries, wait_us, warning }
        },
    }
}

/// The error of an order that could not be turned into bytes, for the reason
/// `why`.
pub fn serialize_error(why: &str) -> (r: String)
    ensures
        r@ == "serialize failed: "@ + why@,
{
    let mut text = "serialize failed: ".to_string();
    text.append(why);
    text
}

/// How many of `outcomes` are true.
pub open spec fn count_true(outcomes: Seq<bool>) -> nat
    decreases outcomes.len(),
{
    if outcomes.len() == 0 {
        0
    } else {
        count_true(outcomes.drop_last()) + if outcomes.last() {
            1nat
        } else {
            0nat
        }
    }
}

/// How many orders of a batch were handed over, given which of them were.
pub fn count_sent(outcomes: &Vec<bool>) -> (r: usize)
    ensures
        r == count_true(outcomes@),
        r <= outcomes@.len(),
{
    let mut sent: usize = 0;
    let mut i: usize = 0;
    while i < outcomes.len()
        invariant
            i <= outcomes@.len(),
            sent == count_true(outcomes@.take(i as int)),
            sent <= i,
        decreases outcomes@.len() - i,
    {
        assert(outcomes@.take(i + 1).drop_last() =~= outcomes@.take(i as int));
        if outcomes[i] {
            sent = sent + 1;
        }
        i = i + 1;
    }
    assert(outcomes@.take(i as int) =~= outcomes@);
    sent
}

/// What follows on failures that may pass: with each of them one more retry is
/// counted, until after one thousand the order is given up. So no order is
/// tried more than one thousand and one times.
pub proof fn lemma_attempts_end(order_id: u64, retries: u64, msg: String, step: Step)
    requires
        retries <= MAX_RETRIES,
        step.follows(order_id, retries, Err(msg)),
        may_pass(msg@),
    ensures
        retries < MAX_RETRIES ==> step is Retry && step->retries == retries + 1,
        retries == MAX_RETRIES ==> step is GiveUp,
{
}

/// Rounding twice, each time by less than one part in nine quadrillion, and then to
/// a whole number moves a value of `v` billionths by hardly more than half a tick.
proof fn lemma_near(v: int, x: int, y: int, t: int)
    requires
        1 <= v <= 9_223_372_036_854_775_807,
        ({
            let n = v * 4_835_703_278_458_516_698_824_704;
            -n <= 9_007_199_254_740_992 * (x * 1_000_000_000 - n) <= n
        }),
        -100 * x <= 9_007_199_254_740_992 * (y - 100 * x) <= 100 * x,
        2 * y - 4_835_703_278_458_516_698_824_704 < 9_671_406_556_917_033_397_649_408 * t,
        9_671_406_556_917_033_397_649_408 * t <= 2 * y + 4_835_703_278_458_516_698_824_704,
    ensures
        -501 * 1_000_000_000 <= 1_000 * (t * 1_000_000_000 - 100 * v) <= 501 * 1_000_000_000,
{
}

/// What ticks are: the value times the scale, to the nearest whole number. The
/// rounding of floating-point numbers can tip that only where two are almost as
/// near; so an amount of whole ticks is exactly so many. There are none for nothing
/// or less.
pub proof fn lemma_ticks_are_nearest(value: i64)
    ensures
        PRICE_SCALE == 100 && QTY_SCALE == 100,
        value <= 0 ==> ticks(value as int, 100) == 0,
        value > 0 ==> -501 * 1_000_000_000 <= 1_000 * (ticks(value as int, 100) * 1_000_000_000
            - 100 * value) <= 501 * 1_000_000_000,
        value > 0 && value as int % 10_000_000 == 0 ==> ticks(value as int, 100) * 10_000_000
            == value,
        value > 0 ==> {
            let one = 4_835_703_278_458_516_698_824_704int;
            let double = rounded_ratio((value * one) as nat, 1_000_000_000);
            let product = rounded(100 * double);
            &&& 2 * product - one < 2 * one * ticks(value as int, 100)
            &&& 2 * one * ticks(value as int, 100) <= 2 * product + one
        },
{
    if value > 0 {
        let n = value as nat * (PARTS as nat);
        let x = as_double(value as nat);
        assert(1 * PARTS <= value * PARTS) by (nonlinear_arith)
            requires
                value >= 1,
        ;
        lemma_ratio_close(n, UNIT as nat);
        lemma_rounded_close(x * 100);
        let y = rounded(x * 100);
        let t = ticks(value as int, 100);
        assert(2 * PARTS * t <= 2 * y + PARTS < 2 * PARTS * (t + 1));
        lemma_near(value as int, x as int, y, t);
    }
}

/// Sides, kinds and times in force in the words of the service.
pub proof fn lemma_ingress_words(side: Side, order_type: OrderType, tif: TimeInForce)
    ensures
        side == Side::Buy <==> ingress_side(side) == OrderSide::Bid,
        side == Side::Sell <==> ingress_side(side) == OrderSide::Ask,
        order_type == OrderType::Limit <==> ingress_kind(order_type) == OrderKind::Limit,
        order_type == OrderType::Market <==> ingress_kind(order_type) == OrderKind::Market,
        tif == TimeInForce::GTC <==> ingress_tif(tif) == OrderTif::Gtc,
        tif == TimeInForce::IOC <==> ingress_tif(tif) == OrderTif::Ioc,
        tif == TimeInForce::FOK <==> ingress_tif(tif) == OrderTif::Fok,
{
}

/// What follows on an attempt. It is over if the order was handed over. A failure
/// in which none of the four words for a passing trouble stands ends it with an
/// error. Any other failure is followed by another attempt, after ten microseconds
/// up to the tenth, fifty up to the fiftieth and two hundred from then on, with a
/// warning at every hundredth; after the thousandth the order is given up.
pub proof fn lemma_what_follows(
    order_id: u64,
    retries: u64,
    outcome: Result<(), String>,
    step: Step,
)
    requires
        retries <= 1_000,
        step.follows(order_id, retries, outcome),
    ensures
        outcome is Ok <==> step is Sent,
        outcome matches Err(msg) ==> {
            let passing = ({
                ||| exists|a: Seq<char>, b: Seq<char>| msg@ == #[trigger] (a + "BackPressured"@ + b)
                ||| exists|a: Seq<char>, b: Seq<char>| msg@ == #[trigger] (a + "NotConnected"@ + b)
                ||| exists|a: Seq<char>, b: Seq<char>| msg@ == #[trigger] (a + "AdminAction"@ + b)
                ||| exists|a: Seq<char>, b: Seq<char>| msg@ == #[trigger] (a + "Closed"@ + b)
            });
            let wait: int = if retries < 10 {
                10
            } else if retries < 50 {
                50
            } else {
                200
            };
            let id = digits(order_id as nat);
            &&& !passing ==> {
                &&& step is Failed
                &&& step->Failed_error@ == "publish error for order #"@ + id + ": "@ + msg@
            }
            &&& passing && retries == 1_000 ==> {
                &&& step is GiveUp
                &&& step->GiveUp_wait_us == 200
                &&& step->GiveUp_error@ == "gave up publishing order #"@ + id
                    + " after 1000 retries, last error: "@ + msg@
            }
            &&& passing && retries < 1_000 ==> {
                &&& step is Retry
                &&& step->retries == retries + 1
                &&& step->Retry_wait_us == wait
                &&& (retries + 1) % 100 != 0 ==> step->warning is None
                &&& (retries + 1) % 100 == 0 ==> step->warning is Some && step->warning->0@
                    == "[publisher] order #"@ + id + " back-pressure retries="@ + digits(
                    (retries + 1) as nat,
                ) + " err="@ + msg@
            }
        },
{
    if let Err(msg) = outcome {
        lemma_has_part(msg@, "BackPressured"@);
        lemma_has_part(msg@, "NotConnected"@);
        lemma_has_part(msg@, "AdminAction"@);
        lemma_has_part(msg@, "Closed"@);
    }
}

/// How many of a batch were handed over: the number of those that were.
pub proof fn lemma_count_true(outcomes: Seq<bool>)
    ensures
        count_true(outcomes) == outcomes.filter(|sent: bool| sent).len(),
    decreases outcomes.len(),
{
    reveal(Seq::filter);
    if outcomes.len() > 0 {
        lemma_count_true(outcomes.drop_last());
    }
}

} // verus!
