//! Adding up the levels of one side of the book.
use crate::filters::{lemma_filter_all, lemma_filter_none};
use crate::fixed::DUST;
use crate::ladder::{ahead, ladder};
use crate::levels::{
    lemma_flatten_concat, lemma_flatten_one, lemma_flatten_prices, lemma_levels_ordered,
    level_shaped, levels_of, levels_ordered, shaped,
};
use crate::matching::{all_live, lemma_total_bounds, lemma_total_concat};
use crate::model::{crosses, crossing, flatten, min, total, PriceLevel};
use crate::order::{Order, Side};
use crate::orderbook::{sums_up, BookLevel};
use crate::taker::can_trade;
use crate::walk::prices;
use std::collections::{BTreeMap, VecDeque};
use vstd::prelude::*;

verus! {

/// What is left of the orders of one level.
pub(crate) fn level_total(level: &VecDeque<Order>) -> (r: i128)
    ensures
        r == total(level@),
{
    let mut acc: i128 = 0;
    let mut i: usize = 0;
    while i < level.len()
        invariant
            i <= level@.len(),
            acc == total(level@.take(i as int)),
        decreases level@.len() - i,
    {
        proof {
            lemma_total_bounds(level@.take(i as int));
            assert(level@.take(i + 1).drop_last() =~= level@.take(i as int));
        }
        acc = acc + level[i].remaining_qty as i128;
        i = i + 1;
    }
    assert(level@.take(i as int) =~= level@);
    acc
}

/// The first `depth` levels of `m`, summed up.
pub(crate) fn level_rows(
    side: Side,
    m: &BTreeMap<i64, VecDeque<Order>>,
    depth: usize,
) -> (r: Vec<BookLevel>)
    ensures
        sums_up(r@, levels_of(side, m@), depth as nat),
        levels_of(side, m@).len() <= usize::MAX,
{
    let keys = prices(side, m);
    let mut out: Vec<BookLevel> = Vec::new();
    let mut i: usize = 0;
    proof {
        lemma_levels_ordered(side, m@);
    }
    while i < keys.len() && i < depth
        invariant
            keys@ == ladder(side, m@.dom()),
            i <= keys@.len(),
            i <= depth,
            levels_of(side, m@).len() == keys@.len(),
            forall|j: int|
                0 <= j < keys@.len() ==> (#[trigger] levels_of(side, m@)[j]) == (PriceLevel {
                    price: keys@[j],
                    orders: m@[keys@[j]]@,
                }) && m@.contains_key(keys@[j]),
            sums_up(out@, levels_of(side, m@), i as nat),
        decreases keys@.len() - i,
    {
        let price = keys[i];
        assert(levels_of(side, m@)[i as int].price == price);
        if let Some(level) = m.get(&price) {
            out.push(BookLevel { price, qty: level_total(level), order_count: level.len() });
        }
        i = i + 1;
    }
    out
}

/// What `taker` could get from `side`, or `u128::MAX` if that is less.
pub(crate) fn available(
    side: Side,
    levels: &BTreeMap<i64, VecDeque<Order>>,
    taker: &Order,
) -> (r: u128)
    requires
        shaped(levels_of(side, levels@)),
        all_live(flatten(levels_of(side, levels@))),
        taker.side == side.opposite(),
    ensures
        r == min(total(crossing(flatten(levels_of(side, levels@)), *taker)), u128::MAX as int),
{
    let keys = prices(side, levels);
    let ghost all = levels_of(side, levels@);
    let mut sum: u128 = 0;
    let mut i: usize = 0;
    proof {
        lemma_levels_ordered(side, levels@);
        assert(flatten(all.take(0)) =~= Seq::<Order>::empty());
    }
    while i < keys.len() && can_trade(taker, keys[i])
        invariant
            all == levels_of(side, levels@),
            all_live(flatten(all)),
            i <= keys@.len(),
            all.len() == keys@.len(),
            forall|j: int|
                0 <= j < keys@.len() ==> (#[trigger] all[j]) == (PriceLevel {
                    price: keys@[j],
                    orders: levels@[keys@[j]]@,
                }) && levels@.contains_key(keys@[j]),
            forall|j: int| 0 <= j < i ==> crosses(*taker, (#[trigger] all[j]).price),
            sum == min(total(flatten(all.take(i as int))), u128::MAX as int),
        decreases keys@.len() - i,
    {
        let price = keys[i];
        assert(all[i as int].price == price);
        if let Some(level) = levels.get(&price) {
            proof {
                lemma_next_level(all, i as int);
                lemma_total_concat(flatten(all.take(i as int)), level@);
                lemma_total_bounds(level@);
                lemma_total_bounds(flatten(all.take(i as int)));
            }
            sum = sum.saturating_add(level_total(level) as u128);
        }
        i = i + 1;
    }
    proof {
        lemma_reached(side, all, *taker, i as int);
    }
    sum
}

/// The queue of the first `i + 1` levels, and that both its parts are live.
proof fn lemma_next_level(all: Seq<PriceLevel>, i: int)
    requires
        all_live(flatten(all)),
        0 <= i < all.len(),
    ensures
        flatten(all.take(i + 1)) == flatten(all.take(i)) + all[i].orders,
        all_live(flatten(all.take(i))),
        all_live(all[i].orders),
{
    let a = all.take(i);
    let here = all[i].orders;
    let b = all.skip(i + 1);
    assert(all.take(i + 1) =~= a + seq![all[i]]);
    lemma_flatten_concat(a, seq![all[i]]);
    lemma_flatten_one(all[i]);
    assert(all =~= all.take(i + 1) + b);
    lemma_flatten_concat(all.take(i + 1), b);
    let q = flatten(all);
    assert forall|j: int| 0 <= j < flatten(a).len() implies (
    #[trigger] flatten(a)[j]).remaining_qty > DUST by {
        assert(q[j] == flatten(a)[j]);
    }
    assert forall|j: int| 0 <= j < here.len() implies (#[trigger] here[j]).remaining_qty > DUST by {
        assert(q[flatten(a).len() + j] == here[j]);
    }
}

/// If the first `i` levels cross and the next does not, the orders that cross
/// are those of the first `i` levels.
proof fn lemma_reached(side: Side, all: Seq<PriceLevel>, taker: Order, i: int)
    requires
        shaped(all),
        levels_ordered(side, all),
        taker.side == side.opposite(),
        0 <= i <= all.len(),
        forall|j: int| 0 <= j < i ==> crosses(taker, (#[trigger] all[j]).price),
        i < all.len() ==> !crosses(taker, all[i].price),
    ensures
        crossing(flatten(all), taker) == flatten(all.take(i)),
{
    let a = all.take(i);
    let b = all.skip(i);
    assert(all =~= a + b);
    lemma_flatten_concat(a, b);
    assert forall|j: int| 0 <= j < a.len() implies level_shaped(#[trigger] a[j]) && crosses(
        taker,
        a[j].price,
    ) by {
        assert(a[j] == all[j]);
    }
    assert forall|j: int| 0 <= j < b.len() implies level_shaped(#[trigger] b[j]) && !crosses(
        taker,
        b[j].price,
    ) by {
        assert(b[j] == all[i + j]);
        if j > 0 {
            assert(ahead(side, all[i].price, all[i + j].price));
        }
    }
    lemma_flatten_prices(a, |p: i64| crosses(taker, p));
    lemma_flatten_prices(b, |p: i64| !crosses(taker, p));
    let keep = |o: Order| crosses(taker, o.price);
    lemma_filter_all(flatten(a), keep);
    lemma_filter_none(flatten(b), keep);
    Seq::filter_distributes_over_add(flatten(a), flatten(b), keep);
    assert(flatten(a) + Seq::<Order>::empty() =~= flatten(a));
}

} // verus!
