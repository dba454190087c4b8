//! Made-up orders around a wandering mid price.
//!
//! Random numbers come from a 64-bit xorshift generator. A draw is the upper 53
//! bits of its state, a count of 2^-53 in the range from zero to one.
use crate::double::{half_even, lemma_rounded_between, lemma_rounded_close, round, rounded};
use crate::fixed::{HUNDREDTH, UNIT};
use crate::order::{OrderType, Side, TimeInForce};
use vstd::arithmetic::div_mod::lemma_fundamental_div_mod;
use vstd::prelude::*;

verus! {

/// The seed of the market whose orders are streamed to the engine.
pub const STREAM_SEED: u64 = 0x9E37_79B9_7F4A_7C15;

/// How many steps a draw divides the range from zero to one into: 2^53.
pub const DRAWS: u64 = 9_007_199_254_740_992;

/// Draws below this make a buy order: one half.
pub const BUY_BELOW: u64 = 4_503_599_627_370_496;

/// Draws below this make a market order: fifteen hundredths, as the nearest
/// number with 53 significant bits.
pub const MARKET_BELOW: u64 = 1_351_079_888_211_149;

/// Draws below this make a good-till-cancelled order: those of which ten times
/// the value, rounded to 53 significant bits, is below seven.
pub const GTC_BELOW: u64 = 6_305_039_478_318_694;

/// Draws below this, if not below `GTC_BELOW`, make an immediate-or-cancel
/// order: those of which ten times the value, rounded to 53 significant bits,
/// is below nine.
pub const IOC_BELOW: u64 = 8_106_479_329_266_892;

/// How many parts one is counted in where floating-point numbers are: 2^107.
/// Every mid price, price and quantity that a draw leads to is a whole number of
/// them.
pub const PARTS: i128 = 162_259_276_829_213_363_391_578_010_288_128;

/// How many parts a draw counts: 2^54.
pub const DRAW_PARTS: i128 = 18_014_398_509_481_984;

/// Four tenths as a floating-point number, in parts for each draw.
pub const FOUR_TENTHS: i128 = 7_205_759_403_792_794;

/// The mid price at the start, in parts: one hundred.
pub const START_MID: i128 = 16_225_927_682_921_336_339_157_801_028_812_800;

/// The mid price never falls below this, in parts: fifty.
pub const LOWEST_MID: i128 = 8_112_963_841_460_668_169_578_900_514_406_400;

/// The mid price never rises above this, in parts: five hundred.
pub const HIGHEST_MID: i128 = 81_129_638_414_606_681_695_789_005_144_064_000;

/// What an order asks for, without id and time. `price` and `qty` are in
/// billionths.
#[derive(Debug, Clone, Copy, PartialEq, Eq, Structural)]
pub struct Quote {
    pub side: Side,
    pub order_type: OrderType,
    pub tif: TimeInForce,
    pub price: i64,
    pub qty: i64,
}

/// The state of the random generator after one more draw.
pub open spec fn next_state(s: u64) -> u64 {
    let a = s ^ (s << 13u64);
    let b = a ^ (a >> 7u64);
    b ^ (b << 17u64)
}

/// The draw that a state gives.
pub open spec fn draw(s: u64) -> u64 {
    s >> 11u64
}

/// Every draw is below 2^53.
pub proof fn lemma_draw_range(s: u64)
    ensures
        draw(s) < DRAWS,
{
    assert(s >> 11u64 < 9_007_199_254_740_992u64) by (bit_vector);
}

/// The random generator does not get stuck: a state other than zero is followed
/// by another such.
pub proof fn lemma_state_stays_nonzero(s: u64)
    requires
        s != 0,
    ensures
        next_state(s) != 0,
{
    let a = s ^ (s << 13u64);
    assert(a != 0) by (bit_vector)
        requires
            s != 0,
            a == s ^ (s << 13u64),
    ;
    let b = a ^ (a >> 7u64);
    assert(b != 0) by (bit_vector)
        requires
            a != 0,
            b == a ^ (a >> 7u64),
    ;
    assert(b ^ (b << 17u64) != 0) by (bit_vector)
        requires
            b != 0,
    ;
}

/// `lo` or `hi` if `x` is beyond it, and `x` otherwise.
pub open spec fn clamped(x: int, lo: int, hi: int) -> int {
    if x < lo {
        lo
    } else if x > hi {
        hi
    } else {
        x
    }
}

/// The mid price, in parts, after a draw moved it: by four tenths of what the draw
/// is above one half.
pub open spec fn moved_mid(mid: i128, d: u64) -> i128 {
    clamped(
        rounded(mid + rounded((d - DRAWS / 2) * FOUR_TENTHS)),
        LOWEST_MID as int,
        HIGHEST_MID as int,
    ) as i128
}

/// The side that a draw gives.
pub open spec fn drawn_side(d: u64) -> Side {
    if d < BUY_BELOW {
        Side::Buy
    } else {
        Side::Sell
    }
}

/// The time in force that a draw gives.
pub open spec fn drawn_tif(d: u64) -> TimeInForce {
    if d < GTC_BELOW {
        TimeInForce::GTC
    } else if d < IOC_BELOW {
        TimeInForce::IOC
    } else {
        TimeInForce::FOK
    }
}

/// `parts`, to the nearest integer; the larger if two are as near.
pub open spec fn nearest(parts: int) -> int {
    (2 * parts + PARTS) / (2 * PARTS)
}

/// A price of `parts` to the nearest hundredth, but no less than one hundredth; in
/// billionths.
pub open spec fn to_hundredths(parts: int) -> int {
    let hundredths = nearest(rounded(100 * parts));
    if hundredths < 1 {
        HUNDREDTH as int
    } else {
        hundredths * HUNDREDTH
    }
}

/// How far from the mid price draw `d` puts a price, in parts: three times the
/// draw, less one.
pub open spec fn drawn_offset(d: u64) -> int {
    rounded(rounded(3 * (d * DRAW_PARTS)) - PARTS)
}

/// A price on `side`, in billionths: from one better to two worse than `mid`,
/// which is in parts, to the hundredth.
pub open spec fn drawn_price(side: Side, mid: i128, d: u64) -> i64 {
    match side {
        Side::Buy => to_hundredths(rounded(mid - drawn_offset(d))) as i64,
        Side::Sell => to_hundredths(rounded(mid + drawn_offset(d))) as i64,
    }
}

/// A quantity from one hundredth to nine and one hundredth, to the hundredth: in
/// hundredths, one more than nine times one hundred times the draw.
pub open spec fn drawn_qty(d: u64) -> i64 {
    (nearest(rounded(PARTS + rounded(100 * rounded(9 * (d * DRAW_PARTS))))) * HUNDREDTH) as i64
}

/// What holds of every order that a market makes up: its price is from 48 to 502
/// and its quantity from one hundredth to nine and one hundredth, both in whole
/// hundredths; and a market order is immediate or cancel.
pub open spec fn is_usual(q: Quote) -> bool {
    &&& 48 * UNIT <= q.price <= 502 * UNIT
    &&& q.price as int % (HUNDREDTH as int) == 0
    &&& HUNDREDTH <= q.qty <= 901 * HUNDREDTH
    &&& q.qty as int % (HUNDREDTH as int) == 0
    &&& q.order_type == OrderType::Market ==> q.tif == TimeInForce::IOC
}

/// How far from the mid price a draw can put a price: one better or two worse, up
/// to rounding.
proof fn lemma_offset_bounds(d: u64)
    requires
        d < DRAWS,
    ensures
        -PARTS - 2 * DRAW_PARTS <= drawn_offset(d) <= 2 * PARTS + 4 * DRAW_PARTS,
{
    lemma_rounded_close(3 * (d * DRAW_PARTS));
    lemma_rounded_close(rounded(3 * (d * DRAW_PARTS)) - PARTS);
}

/// The price that a draw gives is from 48 to 502, in whole hundredths.
proof fn lemma_price_bounds(side: Side, mid: i128, d: u64)
    requires
        LOWEST_MID <= mid <= HIGHEST_MID,
        d < DRAWS,
    ensures
        48 * UNIT <= drawn_price(side, mid, d) <= 502 * UNIT,
        drawn_price(side, mid, d) as int % (HUNDREDTH as int) == 0,
{
    lemma_offset_bounds(d);
    let exact = match side {
        Side::Buy => mid - drawn_offset(d),
        Side::Sell => mid + drawn_offset(d),
    };
    let price = rounded(exact);
    lemma_rounded_close(exact);
    lemma_rounded_close(100 * price);
    let hundredths = nearest(rounded(100 * price));
    assert(4_800 <= hundredths <= 50_200);
    assert(drawn_price(side, mid, d) == hundredths * HUNDREDTH);
}

/// The quantity that a draw gives is from one hundredth to nine and one
/// hundredth, in whole hundredths.
proof fn lemma_qty_bounds(d: u64)
    requires
        d < DRAWS,
    ensures
        HUNDREDTH <= drawn_qty(d) <= 901 * HUNDREDTH,
        drawn_qty(d) as int % (HUNDREDTH as int) == 0,
{
    let nine = 9 * (d * DRAW_PARTS);
    let part = rounded(100 * rounded(nine));
    let all = rounded(PARTS + part);
    lemma_rounded_close(nine);
    lemma_rounded_close(100 * rounded(nine));
    lemma_rounded_close(PARTS + part);
    assert(0 <= part <= 900 * PARTS + PARTS / 4);
    assert(PARTS - PARTS / 4 <= all <= 901 * PARTS + PARTS / 4 + PARTS / 8);
    let hundredths = nearest(all);
    let top = 2 * all + PARTS;
    let bottom = 2 * PARTS;
    assert(1 <= hundredths <= 901) by (nonlinear_arith)
        requires
            hundredths == top / bottom,
            bottom <= top < 902 * bottom,
            bottom > 0,
    ;
    assert(drawn_qty(d) == hundredths * HUNDREDTH);
}

/// A market that makes up orders: its mid price, in parts, and the state of its
/// random generator.
#[derive(Debug, Clone, Copy, PartialEq, Eq, Structural)]
pub struct Market {
    pub mid_price: i128,
    pub rng_state: u64,
}

impl Market {
    /// Whether the mid price is within its limits.
    pub open spec fn wf(self) -> bool {
        LOWEST_MID <= self.mid_price <= HIGHEST_MID
    }

    /// The next order that the market makes up, and the market afterwards. The
    /// draws are, in turn: the move of the mid price, the side, whether it is a
    /// market order, the time in force if it is not, the price, the quantity.
    pub open spec fn quoted(self) -> (Quote, Market) {
        let s1 = next_state(self.rng_state);
        let s2 = next_state(s1);
        let s3 = next_state(s2);
        let is_market = draw(s3) < MARKET_BELOW;
        let s4 = if is_market {
            s3
        } else {
            next_state(s3)
        };
        let s5 = next_state(s4);
        let s6 = next_state(s5);
        let mid = moved_mid(self.mid_price, draw(s1));
        let side = drawn_side(draw(s2));
        let quote = Quote {
            side,
            order_type: if is_market {
                OrderType::Market
            } else {
                OrderType::Limit
            },
            tif: if is_market {
                TimeInForce::IOC
            } else {
                drawn_tif(draw(s4))
            },
            price: drawn_price(side, mid, draw(s5)),
            qty: drawn_qty(draw(s6)),
        };
        (quote, Market { mid_price: mid, rng_state: s6 })
    }

    /// Every order that a market makes up is usual, and its mid price stays
    /// within its limits.
    pub proof fn lemma_quoted(self)
        requires
            self.wf(),
        ensures
            is_usual(self.quoted().0),
            self.quoted().1.wf(),
    {
        let s1 = next_state(self.rng_state);
        let s2 = next_state(s1);
        let s3 = next_state(s2);
        let s4 = if draw(s3) < MARKET_BELOW {
            s3
        } else {
            next_state(s3)
        };
        let s5 = next_state(s4);
        let s6 = next_state(s5);
        lemma_draw_range(s5);
        lemma_draw_range(s6);
        let mid = moved_mid(self.mid_price, draw(s1));
        lemma_price_bounds(drawn_side(draw(s2)), mid, draw(s5));
        lemma_qty_bounds(draw(s6));
    }

    /// A market at one hundred whose random generator starts with `seed`.
    pub fn new(seed: u64) -> (r: Self)
        ensures
            r.wf(),
            r == (Market { mid_price: START_MID, rng_state: seed }),
            r.mid_price == 16_225_927_682_921_336_339_157_801_028_812_800,
    {
        Market { mid_price: START_MID, rng_state: seed }
    }

    /// One more draw.
    fn next_draw(&mut self) -> (r: u64)
        ensures
            *final(self) == (Market { rng_state: next_state(old(self).rng_state), ..*old(self) }),
            r == draw(final(self).rng_state),
            r < DRAWS,
    {
        let mut s: u64 = self.rng_state;
        s = s ^ (s << 13u64);
        s = s ^ (s >> 7u64);
        s = s ^ (s << 17u64);
        self.rng_state = s;
        proof {
            lemma_draw_range(s);
        }
        s >> 11u64
    }

    /// Makes up an order.
    pub fn random_order(&mut self) -> (r: Quote)
        requires
            old(self).wf(),
        ensures
            final(self).wf(),
            (r, *final(self)) == old(self).quoted(),
            is_usual(r),
    {
        proof {
            self.lemma_quoted();
        }
        let d = self.next_draw();
        self.mid_price = move_mid(self.mid_price, d);
        let side = if self.next_draw() < BUY_BELOW {
            Side::Buy
        } else {
            Side::Sell
        };
        let is_market = self.next_draw() < MARKET_BELOW;
        let order_type = if is_market {
            OrderType::Market
        } else {
            OrderType::Limit
        };
        let tif = if is_market {
            TimeInForce::IOC
        } else {
            let t = self.next_draw();
            if t < GTC_BELOW {
                TimeInForce::GTC
            } else if t < IOC_BELOW {
                TimeInForce::IOC
            } else {
                TimeInForce::FOK
            }
        };
        let price = price_near(side, self.mid_price, self.next_draw());
        let qty = some_qty(self.next_draw());
        Quote { side, order_type, tif, price, qty }
    }
}

/// The mid price after draw `d` moved it.
fn move_mid(mid: i128, d: u64) -> (r: i128)
    requires
        LOWEST_MID <= mid <= HIGHEST_MID,
        d < DRAWS,
    ensures
        r == moved_mid(mid, d),
        LOWEST_MID <= r <= HIGHEST_MID,
{
    let above: i128 = d as i128 - (DRAWS / 2) as i128;
    proof {
        lemma_rounded_close(above * FOUR_TENTHS);
    }
    let moved = round(mid + round(above * FOUR_TENTHS));
    if moved < LOWEST_MID {
        LOWEST_MID
    } else if moved > HIGHEST_MID {
        HIGHEST_MID
    } else {
        moved
    }
}

/// How far from the mid price draw `d` puts a price.
fn offset_of(d: u64) -> (r: i128)
    requires
        d < DRAWS,
    ensures
        r == drawn_offset(d),
        -PARTS - 2 * DRAW_PARTS <= r <= 2 * PARTS + 4 * DRAW_PARTS,
{
    let thrice: i128 = 3 * (d as i128 * DRAW_PARTS);
    proof {
        lemma_rounded_close(thrice as int);
        lemma_offset_bounds(d);
    }
    round(round(thrice) - PARTS)
}

/// The price that draw `d` gives.
fn price_near(side: Side, mid: i128, d: u64) -> (r: i64)
    requires
        LOWEST_MID <= mid <= HIGHEST_MID,
        d < DRAWS,
    ensures
        r == drawn_price(side, mid, d),
{
    let offset = offset_of(d);
    let exact: i128 = match side {
        Side::Buy => mid - offset,
        Side::Sell => mid + offset,
    };
    let price = round(exact);
    proof {
        lemma_rounded_close(exact as int);
        lemma_rounded_close(100 * price);
    }
    let hundredths: i128 = (2 * round(100 * price) + PARTS) / (2 * PARTS);
    assert(0 <= hundredths <= 50_200);
    if hundredths < 1 {
        HUNDREDTH
    } else {
        hundredths as i64 * HUNDREDTH
    }
}

/// The quantity that draw `d` gives.
fn some_qty(d: u64) -> (r: i64)
    requires
        d < DRAWS,
    ensures
        r == drawn_qty(d),
{
    let nine: i128 = 9 * (d as i128 * DRAW_PARTS);
    proof {
        lemma_rounded_close(nine as int);
        lemma_rounded_close(100 * rounded(nine as int));
        lemma_rounded_close(PARTS + rounded(100 * rounded(nine as int)));
    }
    let sum: i128 = round(PARTS + round(100 * round(nine)));
    let hundredths: i128 = (2 * sum + PARTS) / (2 * PARTS);
    assert(1 <= hundredths <= 901);
    hundredths as i64 * HUNDREDTH
}

/// The random generator is linear over bits: the state after the difference of two
/// states is the difference of the states after them. As no state other than zero
/// leads to zero, no two states lead to the same one.
pub proof fn lemma_states_are_linear(a: u64, b: u64)
    ensures
        next_state(a ^ b) == next_state(a) ^ next_state(b),
        next_state(a) == next_state(b) ==> a == b,
{
    assert(({
        let x = (a ^ b) ^ ((a ^ b) << 13u64);
        let y = x ^ (x >> 7u64);
        y ^ (y << 17u64)
    }) == (({
        let x = a ^ (a << 13u64);
        let y = x ^ (x >> 7u64);
        y ^ (y << 17u64)
    }) ^ ({
        let x = b ^ (b << 13u64);
        let y = x ^ (x >> 7u64);
        y ^ (y << 17u64)
    }))) by (bit_vector);
    if next_state(a) == next_state(b) {
        let n = next_state(a);
        assert(n ^ n == 0) by (bit_vector);
        if a ^ b != 0 {
            lemma_state_stays_nonzero(a ^ b);
        }
        assert(a == b) by (bit_vector)
            requires
                a ^ b == 0,
        ;
    }
}

/// The state before a draw can be told from the state after it.
pub proof fn lemma_state_before(s: u64)
    ensures
        ({
            let n = next_state(s);
            let b = n ^ (n << 17u64) ^ (n << 34u64) ^ (n << 51u64);
            let c = b ^ (b >> 7u64);
            let d = c ^ (c >> 14u64);
            let e = d ^ (d >> 28u64);
            let a = e ^ (e >> 56u64);
            s == a ^ (a << 13u64) ^ (a << 26u64) ^ (a << 39u64) ^ (a << 52u64)
        }),
{
    let x = s ^ (s << 13u64);
    let y = x ^ (x >> 7u64);
    let n = y ^ (y << 17u64);
    assert(n ^ (n << 17u64) ^ (n << 34u64) ^ (n << 51u64) == y) by (bit_vector)
        requires
            n == y ^ (y << 17u64),
    ;
    let c = y ^ (y >> 7u64);
    let d = c ^ (c >> 14u64);
    let e = d ^ (d >> 28u64);
    assert(e ^ (e >> 56u64) == x) by (bit_vector)
        requires
            y == x ^ (x >> 7u64),
            c == y ^ (y >> 7u64),
            d == c ^ (c >> 14u64),
            e == d ^ (d >> 28u64),
    ;
    assert(x ^ (x << 13u64) ^ (x << 26u64) ^ (x << 39u64) ^ (x << 52u64) == s) by (bit_vector)
        requires
            x == s ^ (s << 13u64),
    ;
}

/// A draw is its state without the lowest eleven bits.
pub proof fn lemma_draw_is_upper_bits(s: u64)
    ensures
        draw(s) * 2_048 <= s < (draw(s) + 1) * 2_048,
{
    assert(s >> 11u64 == s / 2_048) by (bit_vector);
}

/// Which draws make which time in force: with ten times the draw as a
/// floating-point product, those below seven are good till cancelled, those from
/// seven on and below nine immediate or cancel, and the others fill or kill.
proof fn lemma_drawn_tif(d: u64)
    requires
        d < DRAWS,
    ensures
        drawn_tif(d) == TimeInForce::GTC <==> rounded(10 * d) < 7 * 9_007_199_254_740_992,
        drawn_tif(d) == TimeInForce::FOK <==> rounded(10 * d) >= 9 * 9_007_199_254_740_992,
{
    let n = 10 * d;
    lemma_rounded_close(n);
    if n >= 36_028_797_018_963_968 {
        lemma_rounded_between(n);
        assert(half_even(n, 8) == n / 8 || half_even(n, 8) == n / 8 + 1);
        assert(half_even(n, 16) == n / 16 || half_even(n, 16) == n / 16 + 1);
    }
}

/// What the draws of a market decide, in turn: the first moves the mid price by
/// four tenths of what it is above one half, within its limits of 50 and 500; the
/// second makes a buy order in one half of all cases; the third a market order in
/// fifteen of a hundred; then, for limit orders alone, one decides the time in
/// force: seven, two and one of ten; the next puts the price within one better and
/// two worse than the mid price; the last makes a quantity of one hundredth and up
/// to nine more. Prices and quantities are the nearest hundredth, moves are exact
/// to a billionth.
pub proof fn lemma_draws_in_turn(m: Market)
    requires
        m.wf(),
    ensures
        ({
            let s1 = next_state(m.rng_state);
            let s2 = next_state(s1);
            let s3 = next_state(s2);
            let (q, after) = m.quoted();
            let s4 = if q.order_type == OrderType::Market {
                s3
            } else {
                next_state(s3)
            };
            let s5 = next_state(s4);
            let s6 = next_state(s5);
            let one = 162_259_276_829_213_363_391_578_010_288_128int;
            let moved = 10 * m.mid_price + 72_057_594_037_927_936 * (draw(s1)
                - 4_503_599_627_370_496);
            let offset = 54_043_195_528_445_952 * draw(s5) - one;
            let price = match q.side {
                Side::Buy => after.mid_price - offset,
                Side::Sell => after.mid_price + offset,
            };
            let step = rounded(7_205_759_403_792_794 * (draw(s1) - 4_503_599_627_370_496));
            let away = rounded(rounded(54_043_195_528_445_952 * draw(s5)) - one);
            let near = match q.side {
                Side::Buy => rounded(100 * rounded(after.mid_price - away)),
                Side::Sell => rounded(100 * rounded(after.mid_price + away)),
            };
            let much = rounded(
                one + rounded(100 * rounded(162_129_586_585_337_856 * draw(s6))),
            );
            &&& after.rng_state == s6
            &&& 50 * one < after.mid_price < 500 * one ==> after.mid_price == rounded(
                m.mid_price + step,
            )
            &&& -one < 2 * (one * (q.price / 10_000_000)) - 2 * near <= one
            &&& -one < 2 * (one * (q.qty / 10_000_000)) - 2 * much <= one
            &&& 50 * one <= after.mid_price <= 500 * one
            &&& 50 * one < after.mid_price < 500 * one ==> -10 * one < 1_000_000_000 * (10
                * after.mid_price - moved) < 10 * one
            &&& after.mid_price == 50 * one ==> 1_000_000_000 * (moved - 500 * one) < 10 * one
            &&& after.mid_price == 500 * one ==> 1_000_000_000 * (5_000 * one - moved) < 10 * one
            &&& q.side == Side::Buy <==> 2 * draw(s2) < 9_007_199_254_740_992
            &&& q.order_type == OrderType::Market <==> 4 * draw(s3) < 5_404_319_552_844_596
            &&& q.order_type == OrderType::Market ==> q.tif == TimeInForce::IOC
            &&& q.order_type == OrderType::Limit ==> {
                let ten = rounded(10 * draw(s4));
                &&& q.tif == TimeInForce::GTC <==> ten < 7 * 9_007_199_254_740_992
                &&& q.tif == TimeInForce::FOK <==> ten >= 9 * 9_007_199_254_740_992
            }
            &&& -501 * one <= 1_000 * (q.price / 10_000_000 * one - 100 * price) <= 501 * one
            &&& q.price as int % 10_000_000 == 0
            &&& -501 * one <= 1_000 * (q.qty / 10_000_000 * one - one - 16_212_958_658_533_785_600
                * draw(s6)) <= 501 * one
            &&& q.qty as int % 10_000_000 == 0
        }),
{
    let s1 = next_state(m.rng_state);
    let s2 = next_state(s1);
    let s3 = next_state(s2);
    let s4 = if draw(s3) < MARKET_BELOW {
        s3
    } else {
        next_state(s3)
    };
    let s5 = next_state(s4);
    let s6 = next_state(s5);
    lemma_draw_range(s1);
    lemma_draw_range(s4);
    lemma_draw_range(s5);
    lemma_draw_range(s6);
    m.lemma_quoted();
    let mid = moved_mid(m.mid_price, draw(s1));
    lemma_moved_mid_close(m.mid_price, draw(s1));
    lemma_drawn_tif(draw(s4));
    lemma_price_close(drawn_side(draw(s2)), mid, draw(s5));
    lemma_qty_close(draw(s6));
}

/// How close the mid price is to the exact move.
proof fn lemma_moved_mid_close(mid: i128, d: u64)
    requires
        LOWEST_MID <= mid <= HIGHEST_MID,
        d < DRAWS,
    ensures
        ({
            let new = moved_mid(mid, d);
            let moved = 10 * mid + 72_057_594_037_927_936 * (d - 4_503_599_627_370_496);
            &&& LOWEST_MID < new < HIGHEST_MID ==> -10 * PARTS < 1_000_000_000 * (10 * new - moved)
                < 10 * PARTS
            &&& new == LOWEST_MID ==> 1_000_000_000 * (moved - 10 * LOWEST_MID) < 10 * PARTS
            &&& new == HIGHEST_MID ==> 1_000_000_000 * (10 * HIGHEST_MID - moved) < 10 * PARTS
            &&& LOWEST_MID < new < HIGHEST_MID ==> new == rounded(
                mid + rounded(7_205_759_403_792_794 * (d - 4_503_599_627_370_496)),
            )
        }),
{
    let above = d - DRAWS / 2;
    let step = rounded(above * FOUR_TENTHS);
    let new = rounded(mid + step);
    lemma_rounded_close(above * FOUR_TENTHS);
    lemma_rounded_close(mid + step);
    assert(above * FOUR_TENTHS == 7_205_759_403_792_794 * (d - 4_503_599_627_370_496));
}

/// The nearest integer is no more than one half away.
proof fn lemma_nearest(y: int)
    ensures
        -PARTS < 2 * (PARTS * nearest(y)) - 2 * y <= PARTS,
{
    let two = 2 * PARTS;
    lemma_fundamental_div_mod(2 * y + PARTS, two);
    assert(0 <= (2 * y + PARTS) % two < two) by (nonlinear_arith)
        requires
            two > 0,
    ;
    assert(two * nearest(y) == 2 * (PARTS * nearest(y))) by (nonlinear_arith)
        requires
            two == 2 * PARTS,
    ;
}

/// How close a price is to the exact one.
proof fn lemma_price_close(side: Side, mid: i128, d: u64)
    requires
        LOWEST_MID <= mid <= HIGHEST_MID,
        d < DRAWS,
    ensures
        ({
            let offset = 54_043_195_528_445_952 * d - PARTS;
            let price = match side {
                Side::Buy => mid - offset,
                Side::Sell => mid + offset,
            };
            let away = rounded(rounded(54_043_195_528_445_952 * d) - PARTS);
            let near = match side {
                Side::Buy => rounded(100 * rounded(mid - away)),
                Side::Sell => rounded(100 * rounded(mid + away)),
            };
            &&& -501 * PARTS <= 1_000 * (drawn_price(side, mid, d) / 10_000_000 * PARTS - 100
                * price) <= 501 * PARTS
            &&& -PARTS < 2 * (PARTS * (drawn_price(side, mid, d) / 10_000_000)) - 2 * near <= PARTS
        }),
{
    let thrice = 3 * (d * DRAW_PARTS);
    lemma_rounded_close(thrice);
    lemma_rounded_close(rounded(thrice) - PARTS);
    lemma_offset_bounds(d);
    lemma_price_bounds(side, mid, d);
    let exact = match side {
        Side::Buy => mid - drawn_offset(d),
        Side::Sell => mid + drawn_offset(d),
    };
    let price = rounded(exact);
    lemma_rounded_close(exact);
    lemma_rounded_close(100 * price);
    let y = rounded(100 * price);
    let h = nearest(y);
    lemma_nearest(y);
    assert(drawn_price(side, mid, d) / 10_000_000 == h);
    assert(thrice == 54_043_195_528_445_952 * d);
}

/// How close a quantity is to the exact one.
proof fn lemma_qty_close(d: u64)
    requires
        d < DRAWS,
    ensures
        -501 * PARTS <= 1_000 * (drawn_qty(d) / 10_000_000 * PARTS - PARTS
            - 16_212_958_658_533_785_600 * d) <= 501 * PARTS,
        ({
            let much = rounded(PARTS + rounded(100 * rounded(162_129_586_585_337_856 * d)));
            -PARTS < 2 * (PARTS * (drawn_qty(d) / 10_000_000)) - 2 * much <= PARTS
        }),
{
    let nine = 9 * (d * DRAW_PARTS);
    let part = rounded(100 * rounded(nine));
    let all = rounded(PARTS + part);
    lemma_rounded_close(nine);
    lemma_rounded_close(100 * rounded(nine));
    lemma_rounded_close(PARTS + part);
    lemma_qty_bounds(d);
    let h = nearest(all);
    lemma_nearest(all);
    assert(drawn_qty(d) / 10_000_000 == h);
    assert(nine == 162_129_586_585_337_856 * d);
}

} // verus!
