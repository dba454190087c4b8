//! The levels of one side of the book, as the map from prices to orders keeps
//! them, and the queue that they form.
use crate::ladder::{
    ahead, is_best, is_ladder, ladder, lemma_ladder_exists, lemma_ladder_unique,
};
use crate::model::{flatten, group, in_price_order, PriceLevel};
use crate::order::{Order, Side};
use std::collections::VecDeque;
use vstd::prelude::*;

verus! {

/// The levels that `m` holds, best price first.
pub open spec fn levels_of(side: Side, m: Map<i64, VecDeque<Order>>) -> Seq<PriceLevel> {
    ladder(side, m.dom()).map_values(|p: i64| PriceLevel { price: p, orders: m[p]@ })
}

/// Whether no level is empty and every order is at its own price.
pub open spec fn shaped(levels: Seq<PriceLevel>) -> bool {
    forall|i: int| 0 <= i < levels.len() ==> level_shaped(#[trigger] levels[i])
}

/// Whether the level is not empty and every order in it is at its price.
pub open spec fn level_shaped(level: PriceLevel) -> bool {
    &&& level.orders.len() > 0
    &&& forall|j: int|
        0 <= j < level.orders.len() ==> (#[trigger] level.orders[j]).price == level.price
}

/// Whether the prices of `levels` are strictly in order for `side`.
pub open spec fn levels_ordered(side: Side, levels: Seq<PriceLevel>) -> bool {
    forall|i: int, j: int|
        0 <= i < j < levels.len() ==> ahead(
            side,
            (#[trigger] levels[i]).price,
            (#[trigger] levels[j]).price,
        )
}

/// The levels of a map are strictly in price order.
pub proof fn lemma_levels_ordered(side: Side, m: Map<i64, VecDeque<Order>>)
    requires
        m.dom().finite(),
    ensures
        levels_ordered(side, levels_of(side, m)),
        levels_of(side, m).len() == ladder(side, m.dom()).len(),
        forall|i: int|
            0 <= i < levels_of(side, m).len() ==> (#[trigger] levels_of(side, m)[i]) == (
            PriceLevel { price: ladder(side, m.dom())[i], orders: m[ladder(side, m.dom())[i]]@ })
                && m.dom().contains(levels_of(side, m)[i].price),
        m.dom().len() == 0 <==> levels_of(side, m).len() == 0,
{
    lemma_ladder_exists(side, m.dom());
    let ks = ladder(side, m.dom());
    assert forall|i: int| 0 <= i < ks.len() implies m.dom().contains(#[trigger] ks[i]) by {
        assert(ks.contains(ks[i]));
    }
    if m.dom().len() == 0 {
        if ks.len() > 0 {
            assert(m.dom().contains(ks[0]));
        }
    } else {
        let p = m.dom().choose();
        assert(m.dom().contains(p));
        assert(ks.contains(p));
    }
}

/// In a list in price order that lacks `p`, the prices before `p` come first.
proof fn lemma_split_index(side: Side, ks: Seq<i64>, p: i64) -> (k: int)
    requires
        forall|i: int, j: int| 0 <= i < j < ks.len() ==> ahead(side, ks[i], ks[j]),
        !ks.contains(p),
    ensures
        0 <= k <= ks.len(),
        forall|j: int| 0 <= j < k ==> ahead(side, #[trigger] ks[j], p),
        forall|j: int| k <= j < ks.len() ==> ahead(side, p, #[trigger] ks[j]),
    decreases ks.len(),
{
    if ks.len() == 0 {
        0
    } else {
        let front = ks.drop_last();
        assert(ks.contains(ks.last()));
        if ahead(side, ks.last(), p) {
            assert forall|j: int| 0 <= j < ks.len() implies ahead(side, #[trigger] ks[j], p) by {
                if j < ks.len() - 1 {
                    assert(ahead(side, ks[j], ks[ks.len() - 1]));
                }
            }
            ks.len() as int
        } else {
            assert(!front.contains(p)) by {
                if front.contains(p) {
                    let i = choose|i: int| 0 <= i < front.len() && front[i] == p;
                    assert(ks[i] == p);
                }
            }
            let k = lemma_split_index(side, front, p);
            assert forall|j: int| 0 <= j < k implies ahead(side, #[trigger] ks[j], p) by {
                assert(front[j] == ks[j]);
            }
            assert forall|j: int| k <= j < ks.len() implies ahead(side, p, #[trigger] ks[j]) by {
                if j < ks.len() - 1 {
                    assert(front[j] == ks[j]);
                }
            }
            k
        }
    }
}

/// Around a price `p`, the levels fall into those before it (`r.0`) and those
/// behind it (`r.1`); a level at `p` stands between them.
pub proof fn lemma_levels_around(side: Side, m: Map<i64, VecDeque<Order>>, p: i64) -> (r: (
    Seq<PriceLevel>,
    Seq<PriceLevel>,
))
    requires
        m.dom().finite(),
    ensures
        levels_of(side, m.remove(p)) == r.0 + r.1,
        forall|v: VecDeque<Order>| #[trigger]
            levels_of(side, m.insert(p, v)) == r.0 + seq![PriceLevel { price: p, orders: v@ }]
                + r.1,
        m.dom().contains(p) ==> levels_of(side, m) == r.0 + seq![
            PriceLevel { price: p, orders: m[p]@ },
        ] + r.1,
        !m.dom().contains(p) ==> levels_of(side, m) == r.0 + r.1,
        forall|i: int| 0 <= i < r.0.len() ==> ahead(side, (#[trigger] r.0[i]).price, p),
        forall|i: int| 0 <= i < r.1.len() ==> ahead(side, p, (#[trigger] r.1[i]).price),
        shaped(levels_of(side, m)) ==> shaped(r.0) && shaped(r.1),
{
    let rest = m.remove(p);
    let ks = ladder(side, rest.dom());
    lemma_ladder_exists(side, rest.dom());
    assert(!ks.contains(p));
    let k = lemma_split_index(side, ks, p);
    let all = levels_of(side, rest);
    let a = all.take(k);
    let b = all.skip(k);
    assert(all =~= a + b);
    let ins = ks.take(k) + seq![p] + ks.skip(k);
    assert(is_ladder(side, rest.dom().insert(p), ins)) by {
        assert forall|i: int, j: int| 0 <= i < j < ins.len() implies ahead(
            side,
            ins[i],
            ins[j],
        ) by {
            let i0 = if i < k {
                i
            } else {
                i - 1
            };
            let j0 = if j < k {
                j
            } else {
                j - 1
            };
            if i != k && j != k {
                assert(ins[i] == ks[i0] && ins[j] == ks[j0]);
            } else if i == k {
                assert(ins[j] == ks[j0]);
            } else {
                assert(ins[i] == ks[i0]);
            }
        }
        assert forall|q: i64| ins.contains(q) <==> rest.dom().insert(p).contains(q) by {
            if ins.contains(q) {
                let i = choose|i: int| 0 <= i < ins.len() && ins[i] == q;
                if i < k {
                    assert(ks[i] == q);
                    assert(ks.contains(q));
                } else if i > k {
                    assert(ks[i - 1] == q);
                    assert(ks.contains(q));
                }
            }
            if rest.dom().insert(p).contains(q) {
                if q == p {
                    assert(ins[k] == q);
                } else {
                    assert(ks.contains(q));
                    let i = choose|i: int| 0 <= i < ks.len() && ks[i] == q;
                    if i < k {
                        assert(ins[i] == q);
                    } else {
                        assert(ins[i + 1] == q);
                    }
                }
            }
        }
    }
    assert forall|v: VecDeque<Order>| #[trigger] levels_of(side, m.insert(p, v)) == a + seq![
        PriceLevel { price: p, orders: v@ },
    ] + b by {
        lemma_levels_with(side, m, p, v, k);
    }
    if m.dom().contains(p) {
        assert(m.insert(p, m[p]) =~= m);
        assert(levels_of(side, m.insert(p, m[p])) == a + seq![
            PriceLevel { price: p, orders: m[p]@ },
        ] + b);
    } else {
        assert(m.remove(p) =~= m);
    }
    assert forall|i: int| 0 <= i < a.len() implies ahead(side, (#[trigger] a[i]).price, p) && (
    shaped(levels_of(side, m)) ==> level_shaped(a[i])) by {
        assert(a[i].price == ks[i]);
        assert(levels_of(side, m)[i] == a[i]);
    }
    assert forall|i: int| 0 <= i < b.len() implies ahead(side, p, (#[trigger] b[i]).price) && (
    shaped(levels_of(side, m)) ==> level_shaped(b[i])) by {
        assert(b[i].price == ks[i + k]);
        if m.dom().contains(p) {
            assert(levels_of(side, m)[i + k + 1] == b[i]);
        } else {
            assert(levels_of(side, m)[i + k] == b[i]);
        }
    }
    (a, b)
}

/// The levels with one more at `p`, where `k` levels come before it.
proof fn lemma_levels_with(
    side: Side,
    m: Map<i64, VecDeque<Order>>,
    p: i64,
    v: VecDeque<Order>,
    k: int,
)
    requires
        m.dom().finite(),
        0 <= k <= ladder(side, m.remove(p).dom()).len(),
        is_ladder(
            side,
            m.remove(p).dom().insert(p),
            ladder(side, m.remove(p).dom()).take(k) + seq![p] + ladder(
                side,
                m.remove(p).dom(),
            ).skip(k),
        ),
    ensures
        levels_of(side, m.insert(p, v)) == levels_of(side, m.remove(p)).take(k) + seq![
            PriceLevel { price: p, orders: v@ },
        ] + levels_of(side, m.remove(p)).skip(k),
{
    let rest = m.remove(p);
    let ks = ladder(side, rest.dom());
    let ins = ks.take(k) + seq![p] + ks.skip(k);
    lemma_ladder_exists(side, rest.dom());
    let m2 = m.insert(p, v);
    assert(m2.dom() =~= rest.dom().insert(p));
    lemma_ladder_exists(side, m2.dom());
    lemma_ladder_unique(side, m2.dom(), ladder(side, m2.dom()), ins);
    let want = levels_of(side, rest).take(k) + seq![PriceLevel { price: p, orders: v@ }]
        + levels_of(side, rest).skip(k);
    assert forall|i: int| 0 <= i < want.len() implies levels_of(side, m2)[i] == want[i] by {
        if i < k {
            assert(ins[i] == ks[i]);
            assert(ks.contains(ks[i]));
            assert(ks[i] != p);
        } else if i > k {
            assert(ins[i] == ks[i - 1]);
            assert(ks.contains(ks[i - 1]));
            assert(ks[i - 1] != p);
        }
    }
    assert(levels_of(side, m2) =~= want);
}

/// The best level comes first, before the levels of the other prices.
pub proof fn lemma_best_first(side: Side, m: Map<i64, VecDeque<Order>>, p: i64)
    requires
        m.dom().finite(),
        is_best(side, m.dom(), p),
    ensures
        levels_of(side, m) == seq![PriceLevel { price: p, orders: m[p]@ }] + levels_of(
            side,
            m.remove(p),
        ),
        forall|v: VecDeque<Order>| #[trigger]
            levels_of(side, m.insert(p, v)) == seq![PriceLevel { price: p, orders: v@ }]
                + levels_of(side, m.remove(p)),
{
    let (a, b) = lemma_levels_around(side, m, p);
    lemma_levels_ordered(side, m);
    if a.len() > 0 {
        assert(levels_of(side, m)[0] == a[0]);
        assert(m.dom().contains(a[0].price));
        assert(ahead(side, a[0].price, p));
    }
    assert(a =~= Seq::<PriceLevel>::empty());
    assert(a + b =~= b);
    assert(a + seq![PriceLevel { price: p, orders: m[p]@ }] + b =~= seq![
        PriceLevel { price: p, orders: m[p]@ },
    ] + b);
    assert forall|v: VecDeque<Order>| #[trigger] levels_of(side, m.insert(p, v)) == seq![
        PriceLevel { price: p, orders: v@ },
    ] + levels_of(side, m.remove(p)) by {
        assert(a + seq![PriceLevel { price: p, orders: v@ }] + b =~= seq![
            PriceLevel { price: p, orders: v@ },
        ] + b);
    }
}

/// The queue of two sequences of levels.
pub proof fn lemma_flatten_concat(a: Seq<PriceLevel>, b: Seq<PriceLevel>)
    ensures
        flatten(a + b) == flatten(a) + flatten(b),
    decreases a.len(),
{
    if a.len() == 0 {
        assert(a + b =~= b);
        assert(flatten(a) + flatten(b) =~= flatten(b));
    } else {
        assert((a + b).drop_first() =~= a.drop_first() + b);
        lemma_flatten_concat(a.drop_first(), b);
        assert(flatten(a + b) =~= flatten(a) + flatten(b));
    }
}

/// The queue of one level.
pub proof fn lemma_flatten_one(level: PriceLevel)
    ensures
        flatten(seq![level]) == level.orders,
{
    reveal_with_fuel(flatten, 2);
    assert(seq![level].drop_first() =~= Seq::<PriceLevel>::empty());
    assert(level.orders + Seq::<Order>::empty() =~= level.orders);
}

/// Every order of shaped levels is at the price of one of them.
pub proof fn lemma_flatten_prices(levels: Seq<PriceLevel>, ok: spec_fn(i64) -> bool)
    requires
        shaped(levels),
        forall|i: int| 0 <= i < levels.len() ==> ok((#[trigger] levels[i]).price),
    ensures
        forall|j: int| 0 <= j < flatten(levels).len() ==> ok((#[trigger] flatten(levels)[j]).price),
    decreases levels.len(),
{
    if levels.len() > 0 {
        let rest = levels.drop_first();
        assert forall|i: int| 0 <= i < rest.len() implies level_shaped(#[trigger] rest[i]) && ok(
            rest[i].price,
        ) by {
            assert(rest[i] == levels[i + 1]);
        }
        lemma_flatten_prices(rest, ok);
        assert(level_shaped(levels[0]));
        let head = levels[0].orders;
        assert forall|j: int| 0 <= j < flatten(levels).len() implies ok(
            (#[trigger] flatten(levels)[j]).price,
        ) by {
            if j < head.len() {
                assert(flatten(levels)[j] == head[j]);
            } else {
                assert(flatten(levels)[j] == flatten(rest)[j - head.len()]);
            }
        }
    }
}

/// Shaped levels in price order form a queue in price order.
pub proof fn lemma_flatten_ordered(side: Side, levels: Seq<PriceLevel>)
    requires
        shaped(levels),
        levels_ordered(side, levels),
    ensures
        in_price_order(side, flatten(levels)),
    decreases levels.len(),
{
    if levels.len() > 0 {
        let rest = levels.drop_first();
        assert forall|i: int| 0 <= i < rest.len() implies level_shaped(#[trigger] rest[i]) && ahead(
            side,
            levels[0].price,
            rest[i].price,
        ) by {
            assert(rest[i] == levels[i + 1]);
        }
        assert(levels_ordered(side, rest)) by {
            assert forall|i: int, j: int| 0 <= i < j < rest.len() implies ahead(
                side,
                (#[trigger] rest[i]).price,
                (#[trigger] rest[j]).price,
            ) by {
                assert(rest[i] == levels[i + 1]);
                assert(rest[j] == levels[j + 1]);
            }
        }
        lemma_flatten_ordered(side, rest);
        lemma_flatten_prices(rest, |p: i64| ahead(side, levels[0].price, p));
        assert(level_shaped(levels[0]));
        let q = flatten(levels);
        let head = levels[0].orders;
        assert forall|i: int, j: int| 0 <= i < j < q.len() implies !ahead(
            side,
            #[trigger] q[j].price,
            #[trigger] q[i].price,
        ) by {
            if j >= head.len() {
                assert(q[j] == flatten(rest)[j - head.len()]);
            } else {
                assert(q[j] == head[j]);
            }
            if i >= head.len() {
                assert(q[i] == flatten(rest)[i - head.len()]);
            } else {
                assert(q[i] == head[i]);
            }
        }
    }
}

/// Orders at one price, put behind a queue whose last level is at another,
/// form one new level.
proof fn lemma_group_append(queue: Seq<Order>, orders: Seq<Order>, price: i64)
    requires
        orders.len() > 0,
        forall|i: int| 0 <= i < orders.len() ==> (#[trigger] orders[i]).price == price,
        group(queue).len() > 0 ==> group(queue).last().price != price,
    ensures
        group(queue + orders) == group(queue).push(PriceLevel { price, orders }),
    decreases orders.len(),
{
    let front = orders.drop_last();
    assert((queue + orders).drop_last() =~= queue + front);
    assert((queue + orders).last() == orders.last());
    assert(orders.last().price == price);
    if front.len() == 0 {
        assert(queue + front =~= queue);
        assert(orders =~= seq![orders.last()]);
    } else {
        assert forall|i: int| 0 <= i < front.len() implies (#[trigger] front[i]).price
            == price by {
            assert(front[i] == orders[i]);
        }
        lemma_group_append(queue, front, price);
        let before = group(queue + front);
        assert(before.last() == PriceLevel { price, orders: front });
        assert(before.drop_last() =~= group(queue));
        assert(front.push(orders.last()) =~= orders);
    }
}

/// Grouping the queue of shaped levels in price order gives the levels back.
pub proof fn lemma_group_flatten(side: Side, levels: Seq<PriceLevel>)
    requires
        shaped(levels),
        levels_ordered(side, levels),
    ensures
        group(flatten(levels)) == levels,
    decreases levels.len(),
{
    if levels.len() > 0 {
        let front = levels.drop_last();
        let last = levels.last();
        assert forall|i: int| 0 <= i < front.len() implies level_shaped(#[trigger] front[i]) by {
            assert(front[i] == levels[i]);
        }
        assert(levels_ordered(side, front)) by {
            assert forall|i: int, j: int| 0 <= i < j < front.len() implies ahead(
                side,
                (#[trigger] front[i]).price,
                (#[trigger] front[j]).price,
            ) by {
                assert(front[i] == levels[i]);
                assert(front[j] == levels[j]);
            }
        }
        lemma_group_flatten(side, front);
        assert(levels =~= front + seq![last]);
        lemma_flatten_concat(front, seq![last]);
        lemma_flatten_one(last);
        assert(level_shaped(levels[levels.len() - 1]));
        if front.len() > 0 {
            assert(front.last() == levels[levels.len() - 2]);
            assert(ahead(
                side,
                levels[levels.len() - 2].price,
                levels[levels.len() - 1].price,
            ));
        }
        lemma_group_append(flatten(front), last.orders, last.price);
        assert(front.push(last) =~= levels);
    }
}

} // verus!
