//! The order book: price levels in price order, each a queue in time order.
use crate::depth::{available, level_rows};
use crate::filters::lemma_filter_members;
use crate::fixed::DUST;
use crate::levels::{
    lemma_flatten_prices, lemma_group_flatten, lemma_levels_ordered, levels_of,
    levels_ordered, shaped,
};
use crate::matching::{all_live, lemma_total_bounds};
use crate::model::{crosses, flatten, group, min, total, BookView, PriceLevel};
use crate::order::{Order, OrderType, Side, TimeInForce, Trade};
use crate::rest::{drop_order, push_order};
use crate::taker::sweep;
use crate::validity::{lemma_cancelled_valid, lemma_matched_valid, lemma_submitted_valid};
use crate::walk::{best, highest, lowest};
use std::collections::{BTreeMap, HashMap, VecDeque};
use vstd::prelude::*;

verus! {

/// A limit order book.
pub struct OrderBook {
    pub bids: BTreeMap<i64, VecDeque<Order>>,
    pub asks: BTreeMap<i64, VecDeque<Order>>,
    index: HashMap<u64, (Side, i64)>,
    next_trade_id: u64,
}

/// What became of a submitted order. `resting_qty` is in billionths.
#[derive(Debug, Clone)]
pub struct SubmitResult {
    pub trades: Vec<Trade>,
    pub accepted: bool,
    pub rejection_reason: Option<String>,
    pub resting_qty: i64,
}

/// Why an order that must be filled at once and in full is turned away.
pub open spec fn fok_rejection() -> Seq<char> {
    "FOK order could not be fully filled at submission time"@
}

impl SubmitResult {
    /// Whether this is what a submitter of `order` to `book` is told.
    pub open spec fn tells(self, book: BookView, order: Order) -> bool {
        if book.rejects(order) {
            &&& !self.accepted
            &&& self.trades@ == Seq::<Trade>::empty()
            &&& self.rejection_reason is Some
            &&& self.rejection_reason->0@ == fok_rejection()
            &&& self.resting_qty == 0
        } else {
            &&& self.accepted
            &&& self.trades@ == book.trades(order)
            &&& self.rejection_reason is None
            &&& self.resting_qty == if book.keeps(order) {
                book.unfilled(order)
            } else {
                0
            }
        }
    }
}

/// One price level, summed up. `price` and `qty` are in billionths.
#[derive(Debug, Clone, Copy, PartialEq, Eq, Structural)]
pub struct BookLevel {
    pub price: i64,
    pub qty: i128,
    pub order_count: usize,
}

/// The levels of both sides, best first.
#[derive(Debug, Clone)]
pub struct BookSnapshot {
    pub bids: Vec<BookLevel>,
    pub asks: Vec<BookLevel>,
}

/// Whether `row` sums up `level`.
pub open spec fn is_row(row: BookLevel, level: PriceLevel) -> bool {
    &&& row.price == level.price
    &&& row.qty == total(level.orders)
    &&& row.order_count == level.orders.len()
}

/// Whether `rows` are the first `depth` of `levels`, summed up.
pub open spec fn sums_up(rows: Seq<BookLevel>, levels: Seq<PriceLevel>, depth: nat) -> bool {
    &&& rows.len() == if depth <= levels.len() {
        depth
    } else {
        levels.len()
    }
    &&& forall|i: int| 0 <= i < rows.len() ==> is_row(#[trigger] rows[i], levels[i])
}

impl View for OrderBook {
    type V = BookView;

    open spec fn view(&self) -> BookView {
        BookView {
            bids: flatten(self.levels(Side::Buy)),
            asks: flatten(self.levels(Side::Sell)),
            index: self.found_at(),
            last_trade_id: self.last_trade_id(),
        }
    }
}

impl OrderBook {
    /// The price levels of `side`, best first.
    pub closed spec fn levels(self, side: Side) -> Seq<PriceLevel> {
        match side {
            Side::Buy => levels_of(side, self.bids@),
            Side::Sell => levels_of(side, self.asks@),
        }
    }

    /// Where each order that can be cancelled rests.
    pub closed spec fn found_at(self) -> Map<u64, (Side, i64)> {
        self.index@
    }

    /// The id of the last trade.
    pub closed spec fn last_trade_id(self) -> u64 {
        self.next_trade_id
    }

    /// What every book keeps: no level is empty, every order is at its own
    /// price, and the book is valid.
    pub open spec fn wf(self) -> bool {
        &&& shaped(self.levels(Side::Buy))
        &&& shaped(self.levels(Side::Sell))
        &&& self@.valid()
    }

    /// A book that nothing has happened to.
    pub fn new() -> (r: Self)
        ensures
            r.wf(),
            r@ == BookView::empty(),
            r@.bids.len() == 0,
            r@.asks.len() == 0,
            r@.index.dom() == Set::<u64>::empty(),
            r@.last_trade_id == 0,
    {
        let r = OrderBook {
            bids: BTreeMap::new(),
            asks: BTreeMap::new(),
            index: HashMap::new(),
            next_trade_id: 0,
        };
        proof {
            lemma_levels_ordered(Side::Buy, r.bids@);
            lemma_levels_ordered(Side::Sell, r.asks@);
            assert(r@ =~= BookView::empty());
        }
        r
    }

    /// The highest price that is bid.
    pub fn best_bid(&self) -> (r: Option<i64>)
        ensures
            r == best(self.levels(Side::Buy)),
    {
        highest(&self.bids)
    }

    /// The lowest price that is asked.
    pub fn best_ask(&self) -> (r: Option<i64>)
        ensures
            r == best(self.levels(Side::Sell)),
    {
        lowest(&self.asks)
    }

    /// Submits `order`: it trades with what it crosses on the other side, best
    /// price first and oldest first at a price, and what is left of it comes to
    /// rest if it is a good-till-cancelled limit order. A fill-or-kill order
    /// that could not be filled in full leaves the book as it is.
    pub fn submit(&mut self, order: Order) -> (r: SubmitResult)
        requires
            old(self).wf(),
            old(self)@.rejects(order) || old(self)@.last_trade_id + old(self)@.fills(order).len()
                <= u64::MAX,
        ensures
            final(self).wf(),
            final(self)@ == old(self)@.submitted(order),
            r.tells(old(self)@, order),
    {
        let ghost before = self@;
        let mut trades: Vec<Trade> = Vec::new();
        if order.tif == TimeInForce::FOK {
            let available = self.available_liquidity(&order);
            if order.qty > 0 && available < order.qty as u128 {
                return SubmitResult {
                    trades,
                    accepted: false,
                    rejection_reason: Some(
                        "FOK order could not be fully filled at submission time".to_string(),
                    ),
                    resting_qty: 0,
                };
            }
        }
        assert(!before.rejects(order)) by {
            lemma_total_bounds(before.makers(order));
            self.lemma_makers_live(order);
        }
        let mut taker = order;
        self.match_order(&mut taker, &mut trades);
        let resting_qty = taker.remaining_qty;
        let should_rest = taker.order_type == OrderType::Limit && taker.tif == TimeInForce::GTC
            && resting_qty > DUST;
        proof {
            lemma_submitted_valid(before, order);
            assert(Seq::<Trade>::empty() + before.trades(order) =~= before.trades(order));
        }
        if should_rest {
            self.insert_resting(taker);
        }
        SubmitResult {
            trades,
            accepted: true,
            rejection_reason: None,
            resting_qty: if should_rest {
                resting_qty
            } else {
                0
            },
        }
    }

    /// The orders that `taker` may trade with have more than dust left.
    proof fn lemma_makers_live(self, taker: Order)
        requires
            self@.valid(),
        ensures
            all_live(self@.makers(taker)),
            forall|side: Side| all_live(#[trigger] self@.queue(side)),
    {
        let side = taker.side.opposite();
        assert forall|s: Side| all_live(#[trigger] self@.queue(s)) by {
            assert forall|i: int| 0 <= i < self@.queue(s).len() implies (
            #[trigger] self@.queue(s)[i]).remaining_qty > DUST by {
                assert(self@.queue(s)[i].side == s);
            }
        }
        let q = self@.queue(side);
        assert(all_live(q));
        lemma_filter_members(q, |o: Order| crosses(taker, o.price));
    }

    /// What `taker` could get, or `u128::MAX` if that is less.
    fn available_liquidity(&self, taker: &Order) -> (r: u128)
        requires
            self.wf(),
        ensures
            r == min(self@.liquidity(*taker), u128::MAX as int),
    {
        proof {
            self.lemma_makers_live(*taker);
            assert(all_live(self@.queue(Side::Buy)));
            assert(all_live(self@.queue(Side::Sell)));
        }
        match taker.side {
            Side::Buy => available(Side::Sell, &self.asks, taker),
            Side::Sell => available(Side::Buy, &self.bids, taker),
        }
    }

    /// Lets `taker` trade with the other side, as far as it crosses.
    fn match_order(&mut self, taker: &mut Order, trades: &mut Vec<Trade>)
        requires
            old(self).wf(),
            old(self)@.last_trade_id + old(self)@.fills(*old(taker)).len() <= u64::MAX,
        ensures
            final(self).wf(),
            final(self)@ == old(self)@.matched(*old(taker)),
            final(taker).remaining_qty == old(self)@.unfilled(*old(taker)),
            *final(taker) == (Order { remaining_qty: final(taker).remaining_qty, ..*old(taker) }),
            final(trades)@ == old(trades)@ + old(self)@.trades(*old(taker)),
    {
        match taker.side {
            Side::Buy => self.match_against_asks(taker, trades),
            Side::Sell => self.match_against_bids(taker, trades),
        }
    }

    /// Lets the buyer `taker` trade with the asks, lowest price first.
    fn match_against_asks(&mut self, taker: &mut Order, trades: &mut Vec<Trade>)
        requires
            old(self).wf(),
            old(taker).side == Side::Buy,
            old(self)@.last_trade_id + old(self)@.fills(*old(taker)).len() <= u64::MAX,
        ensures
            final(self).wf(),
            final(self)@ == old(self)@.matched(*old(taker)),
            final(taker).remaining_qty == old(self)@.unfilled(*old(taker)),
            *final(taker) == (Order { remaining_qty: final(taker).remaining_qty, ..*old(taker) }),
            final(trades)@ == old(trades)@ + old(self)@.trades(*old(taker)),
    {
        proof {
            self.lemma_makers_live(*taker);
            assert(all_live(self@.queue(Side::Sell)));
            lemma_matched_valid(self@, *taker);
        }
        sweep(
            Side::Sell,
            &mut self.asks,
            &mut self.index,
            taker,
            trades,
            &mut self.next_trade_id,
        );
    }

    /// Lets the seller `taker` trade with the bids, highest price first.
    fn match_against_bids(&mut self, taker: &mut Order, trades: &mut Vec<Trade>)
        requires
            old(self).wf(),
            old(taker).side == Side::Sell,
            old(self)@.last_trade_id + old(self)@.fills(*old(taker)).len() <= u64::MAX,
        ensures
            final(self).wf(),
            final(self)@ == old(self)@.matched(*old(taker)),
            final(taker).remaining_qty == old(self)@.unfilled(*old(taker)),
            *final(taker) == (Order { remaining_qty: final(taker).remaining_qty, ..*old(taker) }),
            final(trades)@ == old(trades)@ + old(self)@.trades(*old(taker)),
    {
        proof {
            self.lemma_makers_live(*taker);
            assert(all_live(self@.queue(Side::Buy)));
            lemma_matched_valid(self@, *taker);
        }
        sweep(
            Side::Buy,
            &mut self.bids,
            &mut self.index,
            taker,
            trades,
            &mut self.next_trade_id,
        );
    }

    /// Puts `order` behind the orders that rest at its price.
    fn insert_resting(&mut self, order: Order)
        requires
            old(self).wf(),
            old(self)@.rested(order).valid(),
        ensures
            final(self).wf(),
            final(self)@ == old(self)@.rested(order),
    {
        let ghost before = self@;
        self.index.insert(order.id, (order.side, order.price));
        match order.side {
            Side::Buy => push_order(Side::Buy, &mut self.bids, order),
            Side::Sell => push_order(Side::Sell, &mut self.asks, order),
        }
        assert(self@ =~= before.rested(order));
    }

    /// Takes order `order_id` out of the book, and says whether it was there to
    /// cancel.
    pub fn cancel(&mut self, order_id: u64) -> (r: bool)
        requires
            old(self).wf(),
        ensures
            final(self).wf(),
            final(self)@ == old(self)@.cancelled(order_id),
            r == old(self)@.index.contains_key(order_id),
    {
        let ghost before = *self;
        proof {
            lemma_cancelled_valid(self@, order_id);
        }
        match self.index.remove(&order_id) {
            None => {
                assert(self.index@ =~= before.index@);
                false
            },
            Some((side, px)) => {
                proof {
                    before.lemma_indexed_level(order_id);
                }
                let found = match side {
                    Side::Buy => drop_order(Side::Buy, &mut self.bids, order_id, px),
                    Side::Sell => drop_order(Side::Sell, &mut self.asks, order_id, px),
                };
                assert(self@ =~= before@.cancelled(order_id));
                found
            },
        }
    }

    /// There is a level where the index says that an order rests.
    proof fn lemma_indexed_level(self, id: u64)
        requires
            self.wf(),
            self@.index.contains_key(id),
        ensures
            match self@.index[id].0 {
                Side::Buy => self.bids@.contains_key(self@.index[id].1),
                Side::Sell => self.asks@.contains_key(self@.index[id].1),
            },
    {
        let (side, px) = self@.index[id];
        assert(self@.holds(id, side, px));
        let q = self@.queue(side);
        let i = choose|i: int|
            0 <= i < q.len() && #[trigger] q[i].id == id && q[i].price == px;
        match side {
            Side::Buy => {
                lemma_levels_ordered(side, self.bids@);
                lemma_flatten_prices(self.levels(side), |p: i64| self.bids@.contains_key(p));
            },
            Side::Sell => {
                lemma_levels_ordered(side, self.asks@);
                lemma_flatten_prices(self.levels(side), |p: i64| self.asks@.contains_key(p));
            },
        }
    }

    /// The best `depth` levels of each side, summed up.
    pub fn snapshot(&self, depth: usize) -> (r: BookSnapshot)
        ensures
            sums_up(r.bids@, self.levels(Side::Buy), depth as nat),
            sums_up(r.asks@, self.levels(Side::Sell), depth as nat),
            self.levels(Side::Buy).len() <= usize::MAX,
            self.levels(Side::Sell).len() <= usize::MAX,
    {
        BookSnapshot {
            bids: level_rows(Side::Buy, &self.bids, depth),
            asks: level_rows(Side::Sell, &self.asks, depth),
        }
    }

    /// The levels of any book stand strictly in price order, best price first:
    /// no two of them are at the same price.
    pub proof fn lemma_levels_in_order(self, side: Side)
        ensures
            levels_ordered(side, self.levels(side)),
    {
        match side {
            Side::Buy => lemma_levels_ordered(side, self.bids@),
            Side::Sell => lemma_levels_ordered(side, self.asks@),
        }
    }

    /// The levels of a book are the runs of equal price in its queues, best
    /// price first.
    pub proof fn lemma_levels(self, side: Side)
        requires
            self.wf(),
        ensures
            self.levels(side) == group(self@.queue(side)),
            levels_ordered(side, self.levels(side)),
    {
        self.lemma_levels_in_order(side);
        lemma_group_flatten(side, self.levels(side));
    }
}

impl Default for OrderBook {
    fn default() -> (r: Self)
        ensures
            r.wf(),
            r@ == BookView::empty(),
    {
        OrderBook::new()
    }
}

} // verus!
