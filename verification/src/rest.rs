//! Putting an order at rest on one side of the book, and taking it out.
use crate::filters::{lemma_filter_all, lemma_filter_members, lemma_filter_none};
use crate::ladder::ahead;
use crate::levels::{
    lemma_flatten_concat, lemma_flatten_one, lemma_flatten_prices, lemma_levels_around,
    level_shaped, levels_of, shaped,
};
use crate::model::{enqueue, flatten, without, PriceLevel};
use crate::order::{Order, Side};
use std::collections::{BTreeMap, VecDeque};
use vstd::prelude::*;

verus! {

/// The queue of the levels `a`, a level with `orders` and the levels `b`.
proof fn lemma_flatten_three(a: Seq<PriceLevel>, level: PriceLevel, b: Seq<PriceLevel>)
    ensures
        flatten(a + seq![level] + b) == flatten(a) + level.orders + flatten(b),
{
    lemma_flatten_concat(a + seq![level], b);
    lemma_flatten_concat(a, seq![level]);
    lemma_flatten_one(level);
}

/// Levels are shaped if their parts are.
proof fn lemma_shaped_three(a: Seq<PriceLevel>, level: PriceLevel, b: Seq<PriceLevel>)
    requires
        shaped(a),
        level_shaped(level),
        shaped(b),
    ensures
        shaped(a + seq![level] + b),
{
    let all = a + seq![level] + b;
    assert forall|i: int| 0 <= i < all.len() implies level_shaped(#[trigger] all[i]) by {
        if i < a.len() {
            assert(all[i] == a[i]);
        } else if i > a.len() {
            assert(all[i] == b[i - a.len() - 1]);
        }
    }
}

/// An order at the end of the middle part of a queue.
proof fn lemma_push_add(a: Seq<Order>, b: Seq<Order>, o: Order, c: Seq<Order>)
    ensures
        a + b.push(o) + c == a + b + seq![o] + c,
{
    assert(a + b.push(o) + c =~= a + b + seq![o] + c);
}

/// An order put behind the `orders` at its price, between the levels `a` before
/// it and `b` behind it, is where price and time put it.
proof fn lemma_push_level(
    side: Side,
    a: Seq<PriceLevel>,
    b: Seq<PriceLevel>,
    orders: Seq<Order>,
    o: Order,
)
    requires
        shaped(a),
        shaped(b),
        forall|i: int| 0 <= i < a.len() ==> ahead(side, (#[trigger] a[i]).price, o.price),
        forall|i: int| 0 <= i < b.len() ==> ahead(side, o.price, (#[trigger] b[i]).price),
        forall|i: int| 0 <= i < orders.len() ==> (#[trigger] orders[i]).price == o.price,
    ensures
        flatten(a) + orders.push(o) + flatten(b) == enqueue(
            side,
            flatten(a) + orders + flatten(b),
            o,
        ),
{
    let early = |x: Order| !ahead(side, o.price, x.price);
    let late = |x: Order| ahead(side, o.price, x.price);
    lemma_flatten_prices(a, |p: i64| ahead(side, p, o.price));
    lemma_flatten_prices(b, |p: i64| ahead(side, o.price, p));
    let front = flatten(a) + orders;
    let back = flatten(b);
    assert forall|i: int| 0 <= i < front.len() implies early(#[trigger] front[i]) by {
        if i < flatten(a).len() {
            assert(front[i] == flatten(a)[i]);
        } else {
            assert(front[i] == orders[i - flatten(a).len()]);
        }
    }
    lemma_filter_all(front, early);
    lemma_filter_none(front, late);
    lemma_filter_all(back, late);
    lemma_filter_none(back, early);
    Seq::filter_distributes_over_add(front, back, early);
    Seq::filter_distributes_over_add(front, back, late);
    assert(front + Seq::<Order>::empty() =~= front);
    assert(Seq::<Order>::empty() + back =~= back);
    lemma_push_add(flatten(a), orders, o, back);
}

/// Taking orders out of the level at `px`, between the levels `a` before it and
/// `b` behind it, takes them out of the queue.
proof fn lemma_drop_level(
    side: Side,
    a: Seq<PriceLevel>,
    b: Seq<PriceLevel>,
    orders: Seq<Order>,
    id: u64,
    px: i64,
)
    requires
        shaped(a),
        shaped(b),
        forall|i: int| 0 <= i < a.len() ==> ahead(side, (#[trigger] a[i]).price, px),
        forall|i: int| 0 <= i < b.len() ==> ahead(side, px, (#[trigger] b[i]).price),
    ensures
        without(flatten(a) + orders + flatten(b), id, px) == flatten(a) + without(orders, id, px)
            + flatten(b),
{
    let keep = |x: Order| !(x.id == id && x.price == px);
    lemma_flatten_prices(a, |p: i64| ahead(side, p, px));
    lemma_flatten_prices(b, |p: i64| ahead(side, px, p));
    lemma_filter_all(flatten(a), keep);
    lemma_filter_all(flatten(b), keep);
    Seq::filter_distributes_over_add(flatten(a) + orders, flatten(b), keep);
    Seq::filter_distributes_over_add(flatten(a), orders, keep);
}

/// Puts `order` behind the other orders at its price.
pub(crate) fn push_order(side: Side, levels: &mut BTreeMap<i64, VecDeque<Order>>, order: Order)
    requires
        shaped(levels_of(side, old(levels)@)),
    ensures
        shaped(levels_of(side, final(levels)@)),
        flatten(levels_of(side, final(levels)@)) == enqueue(
            side,
            flatten(levels_of(side, old(levels)@)),
            order,
        ),
{
    let ghost before = levels@;
    let px = order.price;
    let ghost (a, b) = lemma_levels_around(side, before, px);
    let mut level: VecDeque<Order> = match levels.remove(&px) {
        Some(level) => level,
        None => VecDeque::new(),
    };
    let ghost orders = level@;
    proof {
        if before.contains_key(px) {
            let here = PriceLevel { price: px, orders };
            lemma_flatten_three(a, here, b);
            assert(levels_of(side, before)[a.len() as int] == here);
            assert(level_shaped(levels_of(side, before)[a.len() as int]));
        } else {
            lemma_flatten_concat(a, b);
            assert(flatten(a) + orders =~= flatten(a));
        }
        lemma_push_level(side, a, b, orders, order);
    }
    level.push_back(order);
    levels.insert(px, level);
    proof {
        let here = PriceLevel { price: px, orders: level@ };
        assert(before.remove(px).insert(px, level) =~= before.insert(px, level));
        lemma_flatten_three(a, here, b);
        assert forall|j: int| 0 <= j < here.orders.len() implies (#[trigger] here.orders[j]).price
            == px by {
            if j < orders.len() {
                assert(here.orders[j] == orders[j]);
            }
        }
        lemma_shaped_three(a, here, b);
    }
}

/// The orders of `level` that do not carry `id`. All are at `px`.
fn retain_others(level: &VecDeque<Order>, id: u64, Ghost(px): Ghost<i64>) -> (r: VecDeque<Order>)
    requires
        forall|i: int| 0 <= i < level@.len() ==> (#[trigger] level@[i]).price == px,
    ensures
        r@ == without(level@, id, px),
{
    let ghost keep = |x: Order| !(x.id == id && x.price == px);
    let mut kept: VecDeque<Order> = VecDeque::new();
    let mut i: usize = 0;
    assert(level@.take(0).filter(keep) =~= Seq::<Order>::empty()) by {
        reveal(Seq::filter);
    }
    while i < level.len()
        invariant
            i <= level@.len(),
            keep == (|x: Order| !(x.id == id && x.price == px)),
            forall|j: int| 0 <= j < level@.len() ==> (#[trigger] level@[j]).price == px,
            kept@ == level@.take(i as int).filter(keep),
        decreases level@.len() - i,
    {
        let o = level[i];
        proof {
            assert(level@.take(i + 1).drop_last() =~= level@.take(i as int));
            reveal(Seq::filter);
        }
        if o.id != id {
            kept.push_back(o);
        }
        i = i + 1;
    }
    assert(level@.take(i as int) =~= level@);
    kept
}

/// Takes the orders with `id` out of the level at `px`. Returns whether there
/// is such a level.
pub(crate) fn drop_order(
    side: Side,
    levels: &mut BTreeMap<i64, VecDeque<Order>>,
    id: u64,
    px: i64,
) -> (r: bool)
    requires
        shaped(levels_of(side, old(levels)@)),
    ensures
        shaped(levels_of(side, final(levels)@)),
        flatten(levels_of(side, final(levels)@)) == without(
            flatten(levels_of(side, old(levels)@)),
            id,
            px,
        ),
        r == old(levels)@.contains_key(px),
{
    let ghost before = levels@;
    let ghost (a, b) = lemma_levels_around(side, before, px);
    proof {
        lemma_flatten_concat(a, b);
        assert forall|i: int| 0 <= i < (a + b).len() implies level_shaped(
            #[trigger] (a + b)[i],
        ) by {
            if i < a.len() {
                assert((a + b)[i] == a[i]);
            } else {
                assert((a + b)[i] == b[i - a.len()]);
            }
        }
    }
    match levels.remove(&px) {
        None => {
            proof {
                let none = Seq::<Order>::empty();
                lemma_drop_level(side, a, b, none, id, px);
                lemma_filter_none(none, |x: Order| !(x.id == id && x.price == px));
                assert(flatten(a) + none =~= flatten(a));
            }
            false
        },
        Some(level) => {
            let ghost here = PriceLevel { price: px, orders: level@ };
            proof {
                lemma_flatten_three(a, here, b);
                assert(levels_of(side, before)[a.len() as int] == here);
                assert(level_shaped(levels_of(side, before)[a.len() as int]));
                lemma_drop_level(side, a, b, level@, id, px);
            }
            let kept = retain_others(&level, id, Ghost(px));
            let ghost left = PriceLevel { price: px, orders: kept@ };
            if kept.len() > 0 {
                levels.insert(px, kept);
                proof {
                    assert(before.remove(px).insert(px, kept) =~= before.insert(px, kept));
                    lemma_flatten_three(a, left, b);
                    let keep = |x: Order| !(x.id == id && x.price == px);
                    lemma_filter_members(here.orders, keep);
                    assert forall|j: int| 0 <= j < left.orders.len() implies (
                    #[trigger] left.orders[j]).price == px by {
                        let x = choose|x: int|
                            0 <= x < here.orders.len() && here.orders[x] == left.orders[j];
                        assert(here.orders[x].price == px);
                    }
                    lemma_shaped_three(a, left, b);
                }
            } else {
                assert(flatten(a) + left.orders =~= flatten(a));
            }
            true
        },
    }
}

} // verus!
