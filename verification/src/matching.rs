//! Facts about fills: how a taker uses up the makers it meets.
use crate::filters::{lemma_filter_all, lemma_filter_none};
use crate::fixed::DUST;
use crate::ladder::ahead;
use crate::model::{
    crosses, crossing, filled_ids, fills, in_price_order, is_filled, min, sum, survivors, total,
    trade_list,
};
use crate::order::{Order, Side};
use vstd::prelude::*;

verus! {

/// Whether every one of `orders` has more than dust left.
pub open spec fn all_live(orders: Seq<Order>) -> bool {
    forall|i: int| 0 <= i < orders.len() ==> (#[trigger] orders[i]).remaining_qty > DUST
}

/// A sum with one more amount at the front.
pub proof fn lemma_sum_cons(a: int, s: Seq<int>)
    ensures
        sum(seq![a] + s) == a + sum(s),
    decreases s.len(),
{
    reveal_with_fuel(sum, 2);
    if s.len() == 0 {
        assert((seq![a] + s).drop_last() =~= Seq::<int>::empty());
    } else {
        assert((seq![a] + s).drop_last() =~= seq![a] + s.drop_last());
        lemma_sum_cons(a, s.drop_last());
    }
}

/// The sum of two sequences of amounts.
pub proof fn lemma_sum_concat(a: Seq<int>, b: Seq<int>)
    ensures
        sum(a + b) == sum(a) + sum(b),
    decreases b.len(),
{
    if b.len() == 0 {
        assert(a + b =~= a);
    } else {
        assert((a + b).drop_last() =~= a + b.drop_last());
        lemma_sum_concat(a, b.drop_last());
    }
}

/// What is left of two sequences of orders.
pub proof fn lemma_total_concat(a: Seq<Order>, b: Seq<Order>)
    ensures
        total(a + b) == total(a) + total(b),
    decreases b.len(),
{
    if b.len() == 0 {
        assert(a + b =~= a);
    } else {
        assert((a + b).drop_last() =~= a + b.drop_last());
        lemma_total_concat(a, b.drop_last());
    }
}

/// `n` orders hold at most `n` times the largest quantity, and at least `n`
/// times the smallest.
pub proof fn lemma_total_bounds(orders: Seq<Order>)
    ensures
        orders.len() * i64::MIN <= total(orders) <= orders.len() * i64::MAX,
        all_live(orders) ==> total(orders) >= 0,
        all_live(orders) && orders.len() > 0 ==> total(orders) > DUST,
    decreases orders.len(),
{
    if orders.len() > 0 {
        lemma_total_bounds(orders.drop_last());
    }
}

/// Fills, one by one: the `k`th maker gives all it has or all that is still
/// wanted, as long as more than dust is wanted.
pub proof fn lemma_fills_at(makers: Seq<Order>, want: int, k: int)
    requires
        0 <= k <= fills(makers, want).len(),
    ensures
        fills(makers, want).len() <= makers.len(),
        fills(makers.skip(k), want - sum(fills(makers, want).take(k))) == fills(
            makers,
            want,
        ).skip(k),
        k < fills(makers, want).len() ==> want - sum(fills(makers, want).take(k)) > DUST && fills(
            makers,
            want,
        )[k] == min(want - sum(fills(makers, want).take(k)), makers[k].remaining_qty as int),
        k == fills(makers, want).len() ==> want - sum(fills(makers, want)) <= DUST || k
            == makers.len(),
    decreases makers.len(),
{
    let fs = fills(makers, want);
    if makers.len() == 0 || want <= DUST {
        assert(makers.skip(k) =~= makers);
        assert(fs.skip(k) =~= fs);
        assert(fs.take(k) =~= fs);
    } else {
        let f = min(want, makers[0].remaining_qty as int);
        let tail = fills(makers.drop_first(), want - f);
        assert(fs == seq![f] + tail);
        if k == 0 {
            lemma_fills_at(makers.drop_first(), want - f, 0);
            assert(makers.skip(0) =~= makers);
            assert(fs.skip(0) =~= fs);
            assert(fs.take(0) =~= Seq::<int>::empty());
        } else {
            lemma_fills_at(makers.drop_first(), want - f, k - 1);
            assert(makers.drop_first().skip(k - 1) =~= makers.skip(k));
            assert(tail.skip(k - 1) =~= fs.skip(k));
            assert(fs.take(k) =~= seq![f] + tail.take(k - 1));
            lemma_sum_cons(f, tail.take(k - 1));
            lemma_sum_cons(f, tail);
        }
    }
}

/// What fills come to: each gives something and no more than it has, the taker
/// gets no more than it wants, and all but the last are used up.
pub proof fn lemma_fills_bounds(makers: Seq<Order>, want: int)
    requires
        all_live(makers),
    ensures
        forall|i: int|
            0 <= i < fills(makers, want).len() ==> 0 < #[trigger] fills(makers, want)[i]
                <= makers[i].remaining_qty,
        forall|i: int|
            0 <= i < fills(makers, want).len() - 1 ==> #[trigger] fills(makers, want)[i]
                == makers[i].remaining_qty,
        0 <= sum(fills(makers, want)),
        want >= 0 ==> sum(fills(makers, want)) <= want,
        want <= DUST ==> fills(makers, want).len() == 0,
        fills(makers, want).len() > 0 && !is_filled(
            makers,
            fills(makers, want),
            fills(makers, want).len() - 1,
        ) ==> sum(fills(makers, want)) == want,
        want - sum(fills(makers, want)) > DUST ==> sum(fills(makers, want)) == total(makers),
        sum(fills(makers, want)) <= total(makers),
    decreases makers.len(),
{
    let fs = fills(makers, want);
    if makers.len() == 0 || want <= DUST {
        lemma_total_bounds(makers);
    } else {
        let f = min(want, makers[0].remaining_qty as int);
        let rest = makers.drop_first();
        let tail = fills(rest, want - f);
        assert(fs == seq![f] + tail);
        assert(all_live(rest)) by {
            assert forall|i: int| 0 <= i < rest.len() implies (#[trigger] rest[i]).remaining_qty
                > DUST by {
                assert(rest[i] == makers[i + 1]);
            }
        }
        lemma_fills_bounds(rest, want - f);
        lemma_fills_at(rest, want - f, 0);
        lemma_sum_cons(f, tail);
        assert(makers =~= seq![makers[0]] + rest);
        lemma_total_concat(seq![makers[0]], rest);
        assert(total(seq![makers[0]]) == makers[0].remaining_qty) by {
            reveal_with_fuel(total, 2);
            assert(seq![makers[0]].drop_last() =~= Seq::<Order>::empty());
        }
        assert forall|i: int| 0 <= i < fs.len() implies 0 < #[trigger] fs[i]
            <= makers[i].remaining_qty by {
            if i > 0 {
                assert(fs[i] == tail[i - 1]);
                assert(makers[i] == rest[i - 1]);
            }
        }
        assert forall|i: int| 0 <= i < fs.len() - 1 implies #[trigger] fs[i]
            == makers[i].remaining_qty by {
            if i > 0 {
                assert(fs[i] == tail[i - 1]);
                assert(makers[i] == rest[i - 1]);
            } else {
                assert(tail.len() > 0);
            }
        }
        if tail.len() > 0 {
            assert(fs[fs.len() - 1] == tail[tail.len() - 1]);
            assert(makers[fs.len() - 1] == rest[tail.len() - 1]);
        }
    }
}

/// Fills against two lists of makers, one after the other.
pub proof fn lemma_fills_concat(a: Seq<Order>, b: Seq<Order>, want: int)
    requires
        all_live(a),
    ensures
        fills(a + b, want) == fills(a, want) + fills(b, want - sum(fills(a, want))),
    decreases a.len(),
{
    if a.len() == 0 {
        assert(a + b =~= b);
        assert(fills(a + b, want) =~= fills(a, want) + fills(b, want));
    } else if want <= DUST {
        assert(fills(a + b, want) =~= Seq::<int>::empty() + Seq::<int>::empty());
    } else {
        let f = min(want, a[0].remaining_qty as int);
        let rest = a.drop_first();
        assert((a + b).drop_first() =~= rest + b);
        assert(all_live(rest)) by {
            assert forall|i: int| 0 <= i < rest.len() implies (#[trigger] rest[i]).remaining_qty
                > DUST by {
                assert(rest[i] == a[i + 1]);
            }
        }
        lemma_fills_concat(rest, b, want - f);
        lemma_sum_cons(f, fills(rest, want - f));
        assert(fills(a + b, want) =~= fills(a, want) + fills(b, want - sum(fills(a, want))));
    }
}

/// In a queue in price order, the orders that a taker may trade with come
/// first: `n` of them.
pub proof fn lemma_crossing_prefix(side: Side, queue: Seq<Order>, taker: Order) -> (n: int)
    requires
        in_price_order(side, queue),
        taker.side == side.opposite(),
    ensures
        0 <= n <= queue.len(),
        forall|i: int| 0 <= i < n ==> crosses(taker, (#[trigger] queue[i]).price),
        forall|i: int| n <= i < queue.len() ==> !crosses(taker, (#[trigger] queue[i]).price),
        crossing(queue, taker) == queue.take(n),
        forall|k: int|
            0 <= k <= n ==> crossing(#[trigger] queue.skip(k), taker) == queue.take(n).skip(k),
    decreases queue.len(),
{
    let n = lemma_crossing_count(side, queue, taker);
    let keep = |o: Order| crosses(taker, o.price);
    assert forall|k: int| 0 <= k <= n implies crossing(#[trigger] queue.skip(k), taker)
        == queue.take(n).skip(k) by {
        let a = queue.subrange(k, n);
        let b = queue.skip(n);
        assert(queue.skip(k) =~= a + b);
        assert forall|i: int| 0 <= i < a.len() implies keep(#[trigger] a[i]) by {
            assert(a[i] == queue[k + i]);
        }
        assert forall|i: int| 0 <= i < b.len() implies !keep(#[trigger] b[i]) by {
            assert(b[i] == queue[n + i]);
        }
        lemma_filter_all(a, keep);
        lemma_filter_none(b, keep);
        Seq::filter_distributes_over_add(a, b, keep);
        assert(a + Seq::<Order>::empty() =~= a);
        assert(queue.take(n).skip(k) =~= a);
    }
    assert(queue.skip(0) =~= queue);
    assert(queue.take(n).skip(0) =~= queue.take(n));
    n
}

/// How many orders of a queue in price order `taker` may trade with.
proof fn lemma_crossing_count(side: Side, queue: Seq<Order>, taker: Order) -> (n: int)
    requires
        in_price_order(side, queue),
        taker.side == side.opposite(),
    ensures
        0 <= n <= queue.len(),
        forall|i: int| 0 <= i < n ==> crosses(taker, (#[trigger] queue[i]).price),
        forall|i: int| n <= i < queue.len() ==> !crosses(taker, (#[trigger] queue[i]).price),
    decreases queue.len(),
{
    if queue.len() == 0 {
        0
    } else if crosses(taker, queue.last().price) {
        assert forall|i: int| 0 <= i < queue.len() implies crosses(
            taker,
            (#[trigger] queue[i]).price,
        ) by {
            if i < queue.len() - 1 {
                assert(!ahead(side, queue[queue.len() - 1].price, queue[i].price));
            }
        }
        queue.len() as int
    } else {
        let front = queue.drop_last();
        assert forall|i: int, j: int| 0 <= i < j < front.len() implies !ahead(
            side,
            #[trigger] front[j].price,
            #[trigger] front[i].price,
        ) by {
            assert(front[i] == queue[i]);
            assert(front[j] == queue[j]);
        }
        let n = lemma_crossing_count(side, front, taker);
        assert forall|i: int| 0 <= i < n implies crosses(taker, (#[trigger] queue[i]).price) by {
            assert(front[i] == queue[i]);
        }
        assert forall|i: int| n <= i < queue.len() implies !crosses(
            taker,
            (#[trigger] queue[i]).price,
        ) by {
            if i < queue.len() - 1 {
                assert(front[i] == queue[i]);
            }
        }
        n
    }
}

/// Giving some of it away does not move an order to another price.
pub proof fn lemma_survivors_price(queue: Seq<Order>, amounts: Seq<int>, price: i64)
    requires
        amounts.len() <= queue.len(),
        forall|i: int| 0 <= i < queue.len() ==> (#[trigger] queue[i]).price == price,
    ensures
        forall|i: int|
            0 <= i < survivors(queue, amounts).len() ==> (#[trigger] survivors(
                queue,
                amounts,
            )[i]).price == price,
{
    let n = amounts.len() as int;
    let kept = survivors(queue, amounts);
    assert forall|i: int| 0 <= i < kept.len() implies (#[trigger] kept[i]).price == price by {
        if n > 0 && !is_filled(queue, amounts, n - 1) {
            if i > 0 {
                assert(kept[i] == queue[n + i - 1]);
            }
        } else {
            assert(kept[i] == queue[n + i]);
        }
    }
}

/// One step of a taker through a queue. Of what the taker takes from
/// `queue` in all, it has taken the first `k` amounts and still wants `want`;
/// next it meets `head`, the orders at the best price, which cross, before
/// `rest`.
pub proof fn lemma_sweep_step(
    side: Side,
    queue: Seq<Order>,
    taker: Order,
    amounts: Seq<int>,
    k: int,
    want: int,
    head: Seq<Order>,
    rest: Seq<Order>,
)
    requires
        in_price_order(side, queue),
        all_live(queue),
        taker.side == side.opposite(),
        amounts == fills(crossing(queue, taker), taker.remaining_qty as int),
        0 <= k <= amounts.len(),
        want == taker.remaining_qty - sum(amounts.take(k)),
        want > DUST,
        queue.skip(k) == head + rest,
        head.len() > 0,
        forall|i: int| 0 <= i < head.len() ==> crosses(taker, (#[trigger] head[i]).price),
    ensures
        ({
            let given = fills(head, want);
            let next = k + given.len();
            &&& given.len() > 0
            &&& next <= amounts.len()
            &&& amounts.take(next) == amounts.take(k) + given
            &&& survivors(head, given) + rest == survivors(queue, amounts.take(next))
            &&& want - sum(given) > DUST ==> survivors(head, given) + rest == queue.skip(next)
            &&& sum(amounts.take(next)) == sum(amounts.take(k)) + sum(given)
            &&& filled_ids(queue, amounts.take(next)) == filled_ids(queue, amounts.take(k)).union(
                filled_ids(head, given),
            )
            &&& forall|last_id: int| #[trigger]
                trade_list(crossing(queue, taker), amounts.take(next), taker, last_id)
                    == trade_list(crossing(queue, taker), amounts.take(k), taker, last_id)
                    + trade_list(head, given, taker, last_id + k)
        }),
{
    let n = lemma_crossing_prefix(side, queue, taker);
    let makers = crossing(queue, taker);
    let all = taker.remaining_qty as int;
    let given = fills(head, want);
    let next = k + given.len();
    lemma_fills_at(makers, all, k);
    assert(all_live(head)) by {
        assert forall|i: int| 0 <= i < head.len() implies (#[trigger] head[i]).remaining_qty
            > DUST by {
            assert(head[i] == queue.skip(k)[i]);
            assert(head[i] == queue[k + i]);
        }
    }
    let keep = |o: Order| crosses(taker, o.price);
    lemma_filter_all(head, keep);
    Seq::filter_distributes_over_add(head, rest, keep);
    let later = crossing(rest, taker);
    assert(crossing(queue.skip(k), taker) == head + later);
    assert(makers.skip(k) == head + later);
    lemma_fills_concat(head, later, want);
    lemma_fills_at(head, want, 0);
    lemma_fills_bounds(head, want);
    assert(amounts.skip(k) == given + fills(later, want - sum(given)));
    assert forall|i: int| 0 <= i < given.len() implies amounts[k + i] == #[trigger] given[i] by {
        assert(amounts.skip(k)[i] == amounts[k + i]);
    }
    assert(amounts.skip(k).len() == given.len() + fills(later, want - sum(given)).len());
    assert(amounts.take(next) =~= amounts.take(k) + given);
    lemma_sum_concat(amounts.take(k), given);
    let m = given.len() as int;
    assert forall|i: int| 0 <= i < head.len() implies queue[k + i] == #[trigger] head[i] by {
        assert(queue.skip(k)[i] == queue[k + i]);
        assert((head + rest)[i] == head[i]);
    }
    assert(queue.skip(next) =~= head.skip(m) + rest) by {
        assert(queue.skip(k).skip(m) =~= queue.skip(next));
        assert((head + rest).skip(m) =~= head.skip(m) + rest);
    }
    assert(queue[next - 1] == head[m - 1]);
    assert(survivors(head, given) + rest =~= survivors(queue, amounts.take(next)));
    if want - sum(given) > DUST {
        assert(is_filled(head, given, m - 1));
        assert(survivors(head, given) + rest =~= queue.skip(next));
    }
    let a = filled_ids(queue, amounts.take(next));
    let b = filled_ids(queue, amounts.take(k));
    let c = filled_ids(head, given);
    assert forall|id: u64| a.contains(id) <==> b.contains(id) || c.contains(id) by {
        if a.contains(id) {
            let i = choose|i: int|
                is_filled(queue, amounts.take(next), i) && #[trigger] queue[i].id == id;
            if i < k {
                assert(is_filled(queue, amounts.take(k), i));
            } else {
                assert(is_filled(head, given, i - k));
                assert(head[i - k].id == id);
            }
        }
        if b.contains(id) {
            let i = choose|i: int|
                is_filled(queue, amounts.take(k), i) && #[trigger] queue[i].id == id;
            assert(is_filled(queue, amounts.take(next), i));
        }
        if c.contains(id) {
            let i = choose|i: int| is_filled(head, given, i) && #[trigger] head[i].id == id;
            assert(is_filled(queue, amounts.take(next), k + i));
            assert(queue[k + i].id == id);
        }
    }
    assert(a =~= b.union(c));
    assert forall|last_id: int| #[trigger]
        trade_list(makers, amounts.take(next), taker, last_id) == trade_list(
            makers,
            amounts.take(k),
            taker,
            last_id,
        ) + trade_list(head, given, taker, last_id + k) by {
        let whole = trade_list(makers, amounts.take(next), taker, last_id);
        let parts = trade_list(makers, amounts.take(k), taker, last_id) + trade_list(
            head,
            given,
            taker,
            last_id + k,
        );
        assert forall|i: int| 0 <= i < whole.len() implies whole[i] == parts[i] by {
            if i >= k {
                assert(makers.skip(k)[i - k] == makers[i]);
                assert((head + later)[i - k] == head[i - k]);
            }
        }
        assert(whole =~= parts);
    }
}

} // verus!
