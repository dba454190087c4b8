//! What a run of events adds up to.
use crate::filters::lemma_filter_members;
use crate::fixed::DUST;
use crate::matching::all_live;
use crate::model::{in_price_order, survivors, BookView};
use crate::order::{EngineEvent, Order, Trade};
use crate::validity::{
    lemma_cancelled_valid, lemma_enqueue, lemma_submitted_valid, lemma_survivors,
};
use vstd::prelude::*;

verus! {

/// A book, and the trades that led to it.
#[verifier::ext_equal]
pub struct History {
    pub book: BookView,
    pub trades: Seq<Trade>,
}

impl History {
    /// Nothing has happened.
    pub open spec fn empty() -> History {
        History { book: BookView::empty(), trades: Seq::empty() }
    }

    /// What is there after `event` too.
    pub open spec fn after(self, event: EngineEvent) -> History {
        match event {
            EngineEvent::Submit { order } => History {
                book: self.book.submitted(order),
                trades: self.trades + self.book.executed(order),
            },
            EngineEvent::Cancel { order_id, .. } => History {
                book: self.book.cancelled(order_id),
                trades: self.trades,
            },
        }
    }
}

/// What `events`, in the order in which they stand, add up to.
pub open spec fn history(events: Seq<EngineEvent>) -> History
    decreases events.len(),
{
    if events.len() == 0 {
        History::empty()
    } else {
        history(events.drop_last()).after(events.last())
    }
}

/// A submission adds no more than one to the number of resting orders and
/// trades together: each trade but the last takes a resting order away, and an
/// order whose last trade does not is filled and does not come to rest.
pub proof fn lemma_submission_growth(v: BookView, order: Order)
    requires
        v.valid(),
        v.last_trade_id + v.resting() < u64::MAX,
    ensures
        v.last_trade_id + v.fills(order).len() <= u64::MAX,
        v.submitted(order).last_trade_id == v.last_trade_id + v.executed(order).len(),
        v.submitted(order).last_trade_id + v.submitted(order).resting() <= v.last_trade_id
            + v.resting() + 1,
{
    let side = order.side.opposite();
    let q = v.queue(side);
    assert(in_price_order(side, q));
    assert(all_live(q)) by {
        assert forall|i: int| 0 <= i < q.len() implies (#[trigger] q[i]).remaining_qty
            > DUST by {
            assert(v.queue(side)[i].side == side);
        }
    }
    lemma_survivors(side, q, order);
    let amounts = v.fills(order);
    let kept = survivors(q, amounts);
    let met = v.matched(order);
    assert(met.queue(side) == kept);
    assert(met.queue(order.side) == v.queue(order.side));
    assert(met.resting() == v.resting() - q.len() + kept.len());
    if !v.rejects(order) && v.keeps(order) {
        let o = Order { remaining_qty: v.unfilled(order) as i64, ..order };
        assert(in_price_order(o.side, v.queue(o.side)));
        lemma_enqueue(o.side, met.queue(o.side), o);
        assert(met.rested(o).resting() == met.resting() + 1);
    }
}

/// A cancellation adds nothing to the number of resting orders.
pub proof fn lemma_cancellation_growth(v: BookView, id: u64)
    ensures
        v.cancelled(id).last_trade_id == v.last_trade_id,
        v.cancelled(id).resting() <= v.resting(),
{
    if v.index.contains_key(id) {
        let (side, price) = v.index[id];
        lemma_filter_members(v.queue(side), |x: Order| !(x.id == id && x.price == price));
    }
}

/// The trades of the first `n` events are the first of all trades.
pub proof fn lemma_trades_grow(events: Seq<EngineEvent>, n: int)
    requires
        0 <= n <= events.len(),
    ensures
        history(events.take(n)).trades.is_prefix_of(history(events).trades),
    decreases events.len(),
{
    if n == events.len() {
        assert(events.take(n) =~= events);
    } else {
        let front = events.drop_last();
        lemma_trades_grow(front, n);
        assert(front.take(n) =~= events.take(n));
        assert(history(front).trades.is_prefix_of(history(events).trades));
    }
}

/// Every run of events leaves a valid book, whose best bid is below its best
/// ask. The trades are numbered from one on without a gap, and there are never
/// more resting orders and trades together than there were events.
pub proof fn lemma_history(events: Seq<EngineEvent>)
    requires
        events.len() <= u64::MAX,
    ensures
        history(events).book.valid(),
        history(events).book.last_trade_id == history(events).trades.len(),
        history(events).book.last_trade_id + history(events).book.resting() <= events.len(),
        forall|i: int|
            0 <= i < history(events).trades.len() ==> (#[trigger] history(events).trades[i]).id == i
                + 1,
    decreases events.len(),
{
    if events.len() > 0 {
        let before = history(events.drop_last());
        lemma_history(events.drop_last());
        match events.last() {
            EngineEvent::Submit { order } => {
                lemma_submission_growth(before.book, order);
                lemma_submitted_valid(before.book, order);
            },
            EngineEvent::Cancel { order_id, .. } => {
                lemma_cancellation_growth(before.book, order_id);
                lemma_cancelled_valid(before.book, order_id);
            },
        }
    }
}

} // verus!
