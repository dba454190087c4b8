//! What the book is and what each operation does to it, as mathematics.
use crate::fixed::DUST;
use crate::ladder::ahead;
use crate::order::{Order, OrderType, Side, TimeInForce, Trade};
use vstd::prelude::*;

verus! {

/// One price with the orders that rest at it, oldest first.
pub struct PriceLevel {
    pub price: i64,
    pub orders: Seq<Order>,
}

/// The orders of all levels, level by level.
pub open spec fn flatten(levels: Seq<PriceLevel>) -> Seq<Order>
    decreases levels.len(),
{
    if levels.len() == 0 {
        Seq::empty()
    } else {
        levels[0].orders + flatten(levels.drop_first())
    }
}

/// The levels of a queue in price order: an order joins the level before it if
/// it is at the same price, and starts a new level otherwise.
pub open spec fn group(queue: Seq<Order>) -> Seq<PriceLevel>
    decreases queue.len(),
{
    if queue.len() == 0 {
        Seq::empty()
    } else {
        let o = queue.last();
        let before = group(queue.drop_last());
        if before.len() > 0 && before.last().price == o.price {
            before.drop_last().push(
                PriceLevel { price: o.price, orders: before.last().orders.push(o) },
            )
        } else {
            before.push(PriceLevel { price: o.price, orders: seq![o] })
        }
    }
}

/// What is left of `orders`, added up.
pub open spec fn total(orders: Seq<Order>) -> int
    decreases orders.len(),
{
    if orders.len() == 0 {
        0
    } else {
        total(orders.drop_last()) + orders.last().remaining_qty
    }
}

/// The sum of `amounts`.
pub open spec fn sum(amounts: Seq<int>) -> int
    decreases amounts.len(),
{
    if amounts.len() == 0 {
        0
    } else {
        sum(amounts.drop_last()) + amounts.last()
    }
}

/// The smaller of `a` and `b`.
pub open spec fn min(a: int, b: int) -> int {
    if a <= b {
        a
    } else {
        b
    }
}

/// Whether `taker` may trade with an order that rests at `price`.
pub open spec fn crosses(taker: Order, price: i64) -> bool {
    ||| taker.order_type == OrderType::Market
    ||| match taker.side {
        Side::Buy => price <= taker.price,
        Side::Sell => price >= taker.price,
    }
}

/// The orders of `queue` that `taker` may trade with, in the order in
/// which it meets them.
pub open spec fn crossing(queue: Seq<Order>, taker: Order) -> Seq<Order> {
    queue.filter(|o: Order| crosses(taker, o.price))
}

/// How much each of `makers` gives when they are met in turn by a taker that
/// wants `want`: the first makers are used up, until no more than dust is
/// wanted or none are left.
pub open spec fn fills(makers: Seq<Order>, want: int) -> Seq<int>
    decreases makers.len(),
{
    if makers.len() == 0 || want <= DUST {
        Seq::empty()
    } else {
        let fill = min(want, makers[0].remaining_qty as int);
        seq![fill] + fills(makers.drop_first(), want - fill)
    }
}

/// Order `o` with `amount` taken from what is left of it.
pub open spec fn reduced(o: Order, amount: int) -> Order {
    Order { remaining_qty: (o.remaining_qty - amount) as i64, ..o }
}

/// Whether the `i`th of `makers` is filled by `amounts`.
pub open spec fn is_filled(makers: Seq<Order>, amounts: Seq<int>, i: int) -> bool {
    &&& 0 <= i < amounts.len()
    &&& makers[i].remaining_qty - amounts[i] <= DUST
}

/// What stays of `queue` when its first orders gave `amounts`: the filled ones
/// are gone, and the last one that gave stays, reduced, if it is not filled.
pub open spec fn survivors(queue: Seq<Order>, amounts: Seq<int>) -> Seq<Order> {
    let n = amounts.len() as int;
    if n > 0 && !is_filled(queue, amounts, n - 1) {
        seq![reduced(queue[n - 1], amounts[n - 1])] + queue.skip(n)
    } else {
        queue.skip(n)
    }
}

/// The ids of the orders of `queue` that are filled by `amounts`.
pub open spec fn filled_ids(queue: Seq<Order>, amounts: Seq<int>) -> Set<u64> {
    Set::new(|id: u64| exists|i: int| is_filled(queue, amounts, i) && #[trigger] queue[i].id == id)
}

/// The ids of the orders of `queue` that are filled by `amounts`, in the order in
/// which they stand in it.
pub open spec fn filled_list(queue: Seq<Order>, amounts: Seq<int>) -> Seq<u64>
    decreases amounts.len(),
{
    let n = amounts.len() as int;
    if n == 0 {
        Seq::empty()
    } else if is_filled(queue, amounts, n - 1) {
        filled_list(queue, amounts.drop_last()).push(queue[n - 1].id)
    } else {
        filled_list(queue, amounts.drop_last())
    }
}

/// The trades in which the first of `makers` give `amounts` to `taker`. Each is
/// at its maker's price and at the taker's time; the ids go on from `last_id`.
pub open spec fn trade_list(
    makers: Seq<Order>,
    amounts: Seq<int>,
    taker: Order,
    last_id: int,
) -> Seq<Trade> {
    Seq::new(
        amounts.len(),
        |i: int|
            Trade {
                id: (last_id + 1 + i) as u64,
                maker_order_id: makers[i].id,
                taker_order_id: taker.id,
                price: makers[i].price,
                qty: amounts[i] as i64,
                timestamp_ms: taker.timestamp_ms,
            },
    )
}

/// Whether `queue` is in price order for `side`.
pub open spec fn in_price_order(side: Side, queue: Seq<Order>) -> bool {
    forall|i: int, j: int|
        0 <= i < j < queue.len() ==> !ahead(
            side,
            #[trigger] queue[j].price,
            #[trigger] queue[i].price,
        )
}

/// `queue` with `o` behind all orders at its price or a better one and before
/// all others.
pub open spec fn enqueue(side: Side, queue: Seq<Order>, o: Order) -> Seq<Order> {
    queue.filter(|x: Order| !ahead(side, o.price, x.price)) + seq![o] + queue.filter(
        |x: Order| ahead(side, o.price, x.price),
    )
}

/// `queue` without the orders at `price` that carry `id`.
pub open spec fn without(queue: Seq<Order>, id: u64, price: i64) -> Seq<Order> {
    queue.filter(|x: Order| !(x.id == id && x.price == price))
}

/// Whether `o` is of the kind that comes to rest: a good-till-cancelled limit
/// order.
pub open spec fn may_rest(o: Order) -> bool {
    o.order_type == OrderType::Limit && o.tif == TimeInForce::GTC
}

/// A book: on each side the resting orders in the order in which they trade
/// (best price first, oldest first at a price), where each order that can be
/// cancelled is found, and the id of the last trade.
#[verifier::ext_equal]
pub struct BookView {
    pub bids: Seq<Order>,
    pub asks: Seq<Order>,
    pub index: Map<u64, (Side, i64)>,
    pub last_trade_id: u64,
}

impl BookView {
    /// The book that nothing has happened to.
    pub open spec fn empty() -> BookView {
        BookView { bids: Seq::empty(), asks: Seq::empty(), index: Map::empty(), last_trade_id: 0 }
    }

    /// The orders that rest on `side`.
    pub open spec fn queue(self, side: Side) -> Seq<Order> {
        match side {
            Side::Buy => self.bids,
            Side::Sell => self.asks,
        }
    }

    /// The book with `queue` on `side`.
    pub open spec fn with_queue(self, side: Side, queue: Seq<Order>) -> BookView {
        match side {
            Side::Buy => BookView { bids: queue, ..self },
            Side::Sell => BookView { asks: queue, ..self },
        }
    }

    /// The resting orders that `taker` may trade with, in the order in which it
    /// meets them.
    pub open spec fn makers(self, taker: Order) -> Seq<Order> {
        crossing(self.queue(taker.side.opposite()), taker)
    }

    /// What `taker` could get.
    pub open spec fn liquidity(self, taker: Order) -> int {
        total(self.makers(taker))
    }

    /// What each maker gives to `taker`.
    pub open spec fn fills(self, taker: Order) -> Seq<int> {
        fills(self.makers(taker), taker.remaining_qty as int)
    }

    /// What `taker` still wants after it has met the makers.
    pub open spec fn unfilled(self, taker: Order) -> int {
        taker.remaining_qty - sum(self.fills(taker))
    }

    /// The trades that `taker` causes.
    pub open spec fn trades(self, taker: Order) -> Seq<Trade> {
        trade_list(self.makers(taker), self.fills(taker), taker, self.last_trade_id as int)
    }

    /// The book after `taker` has met the makers, before it may come to rest.
    pub open spec fn matched(self, taker: Order) -> BookView {
        let side = taker.side.opposite();
        let amounts = self.fills(taker);
        BookView {
            index: self.index.remove_keys(filled_ids(self.queue(side), amounts)),
            last_trade_id: (self.last_trade_id + amounts.len()) as u64,
            ..self.with_queue(side, survivors(self.queue(side), amounts))
        }
    }

    /// The book with `o` at rest in it.
    pub open spec fn rested(self, o: Order) -> BookView {
        BookView {
            index: self.index.insert(o.id, (o.side, o.price)),
            ..self.with_queue(o.side, enqueue(o.side, self.queue(o.side), o))
        }
    }

    /// Whether `order` is turned away: it must be filled at once and in full,
    /// and there is not enough to fill it.
    pub open spec fn rejects(self, order: Order) -> bool {
        order.tif == TimeInForce::FOK && self.liquidity(order) < order.qty
    }

    /// Whether what `order` does not get at once stays in the book.
    pub open spec fn keeps(self, order: Order) -> bool {
        &&& may_rest(order)
        &&& self.unfilled(order) > DUST
    }

    /// The trades that the submission of `order` causes.
    pub open spec fn executed(self, order: Order) -> Seq<Trade> {
        if self.rejects(order) {
            Seq::empty()
        } else {
            self.trades(order)
        }
    }

    /// The book after `order` is submitted.
    pub open spec fn submitted(self, order: Order) -> BookView {
        if self.rejects(order) {
            self
        } else if self.keeps(order) {
            self.matched(order).rested(
                Order { remaining_qty: self.unfilled(order) as i64, ..order },
            )
        } else {
            self.matched(order)
        }
    }

    /// The book after order `id` is cancelled.
    pub open spec fn cancelled(self, id: u64) -> BookView {
        if self.index.contains_key(id) {
            let (side, price) = self.index[id];
            BookView {
                index: self.index.remove(id),
                ..self.with_queue(side, without(self.queue(side), id, price))
            }
        } else {
            self
        }
    }

    /// Whether an order with this id rests on `side` at `price`.
    pub open spec fn holds(self, id: u64, side: Side, price: i64) -> bool {
        exists|i: int|
            0 <= i < self.queue(side).len() && #[trigger] self.queue(side)[i].id == id
                && self.queue(side)[i].price == price
    }

    /// What every book keeps: each side is in price order and holds only
    /// good-till-cancelled limit orders of that side with more than dust left,
    /// every bid is below every ask, and each order that the index names is
    /// where it says.
    pub open spec fn valid(self) -> bool {
        &&& forall|side: Side| #[trigger] in_price_order(side, self.queue(side))
        &&& forall|side: Side, i: int|
            0 <= i < self.queue(side).len() ==> (#[trigger] self.queue(side)[i]).side == side
                && self.queue(side)[i].remaining_qty > DUST && may_rest(self.queue(side)[i])
        &&& forall|i: int, j: int|
            0 <= i < self.bids.len() && 0 <= j < self.asks.len() ==> (#[trigger] self.bids[i]).price
                < (#[trigger] self.asks[j]).price
        &&& forall|id: u64| #[trigger]
            self.index.contains_key(id) ==> self.holds(id, self.index[id].0, self.index[id].1)
    }

    /// How many orders rest in the book.
    pub open spec fn resting(self) -> nat {
        self.bids.len() + self.asks.len()
    }
}

} // verus!
