//! Letting a taker trade with one side of the book.
use crate::fixed::DUST;
use crate::levels::{
    lemma_best_first, lemma_flatten_concat, lemma_flatten_one, lemma_flatten_ordered,
    lemma_levels_ordered, level_shaped, levels_of, shaped,
};
use crate::matching::{
    all_live, lemma_crossing_prefix, lemma_fills_at, lemma_fills_bounds, lemma_survivors_price,
    lemma_sweep_step,
};
use crate::model::{
    crosses, crossing, filled_ids, filled_list, fills, flatten, in_price_order, is_filled, reduced,
    sum, survivors, trade_list, PriceLevel,
};
use crate::order::{Order, OrderType, Side, Trade};
use crate::walk::best_price;
use std::collections::{BTreeMap, HashMap, VecDeque};
use vstd::prelude::*;

verus! {

/// Whether `taker` may trade with an order that rests at `price`.
pub(crate) fn can_trade(taker: &Order, price: i64) -> (r: bool)
    ensures
        r == crosses(*taker, price),
{
    taker.order_type == OrderType::Market || match taker.side {
        Side::Buy => price <= taker.price,
        Side::Sell => price >= taker.price,
    }
}

/// Takes `ids` out of `index`.
pub(crate) fn forget_all(index: &mut HashMap<u64, (Side, i64)>, ids: &Vec<u64>)
    ensures
        final(index)@ == old(index)@.remove_keys(ids@.to_set()),
{
    let ghost before = index@;
    let mut i: usize = 0;
    assert(before.remove_keys(ids@.take(0).to_set()) =~= before);
    while i < ids.len()
        invariant
            0 <= i <= ids@.len(),
            index@ == before.remove_keys(ids@.take(i as int).to_set()),
        decreases ids@.len() - i,
    {
        let id = ids[i];
        index.remove(&id);
        proof {
            let a = ids@.take(i as int);
            let b = ids@.take(i + 1);
            assert(b =~= a.push(id));
            assert forall|x: u64| b.to_set().contains(x) <==> a.to_set().contains(x) || x == id by {
                if a.contains(x) {
                    let j = choose|j: int| 0 <= j < a.len() && a[j] == x;
                    assert(b[j] == x);
                }
                if x == id {
                    assert(b[i as int] == x);
                }
            }
            assert(index@ =~= before.remove_keys(b.to_set()));
        }
        i = i + 1;
    }
    assert(ids@.take(i as int) =~= ids@);
}

/// Lets `taker` trade with the orders of one level, oldest first, at
/// `trade_price`. Returns the ids of the orders that were filled.
pub(crate) fn drain_level(
    level: &mut VecDeque<Order>,
    taker: &mut Order,
    trade_price: i64,
    trades: &mut Vec<Trade>,
    next_trade_id: &mut u64,
) -> (filled: Vec<u64>)
    requires
        all_live(old(level)@),
        forall|i: int| 0 <= i < old(level)@.len() ==> old(level)@[i].price == trade_price,
        *old(next_trade_id) + fills(
            old(level)@,
            old(taker).remaining_qty as int,
        ).len() <= u64::MAX,
    ensures
        ({
            let amounts = fills(old(level)@, old(taker).remaining_qty as int);
            &&& final(level)@ == survivors(old(level)@, amounts)
            &&& final(taker).remaining_qty == old(taker).remaining_qty - sum(amounts)
            &&& *final(taker) == (Order {
                remaining_qty: final(taker).remaining_qty,
                ..*old(taker)
            })
            &&& final(trades)@ == old(trades)@ + trade_list(
                old(level)@,
                amounts,
                *old(taker),
                *old(next_trade_id) as int,
            )
            &&& *final(next_trade_id) == *old(next_trade_id) + amounts.len()
            &&& filled@ == filled_list(old(level)@, amounts)
            &&& filled@.to_set() == filled_ids(old(level)@, amounts)
        }),
{
    let ghost makers = level@;
    let ghost want = taker.remaining_qty as int;
    let ghost amounts = fills(makers, want);
    let ghost first = *next_trade_id as int;
    let ghost taker0 = *taker;
    let ghost trades0 = trades@;
    let ghost mut k: int = 0;
    proof {
        lemma_fills_at(makers, want, 0);
        lemma_fills_bounds(makers, want);
        assert(amounts.take(0) =~= Seq::<int>::empty());
        assert(makers.skip(0) =~= makers);
    }
    let mut filled: Vec<u64> = Vec::new();
    assert(trades@ =~= trades0 + trade_list(makers, amounts.take(0), taker0, first));
    while taker.remaining_qty > DUST && level.len() > 0
        invariant
            all_live(makers),
            forall|i: int| 0 <= i < makers.len() ==> makers[i].price == trade_price,
            amounts == fills(makers, want),
            first + amounts.len() <= u64::MAX,
            0 <= k <= amounts.len(),
            amounts.len() <= makers.len(),
            level@ == survivors(makers, amounts.take(k)),
            taker.remaining_qty > DUST ==> level@ == makers.skip(k),
            taker.remaining_qty == want - sum(amounts.take(k)),
            *taker == (Order { remaining_qty: taker.remaining_qty, ..taker0 }),
            want == taker0.remaining_qty,
            trades@ == trades0 + trade_list(makers, amounts.take(k), taker0, first),
            *next_trade_id == first + k,
            filled@ == filled_list(makers, amounts.take(k)),
            filled@.to_set() == filled_ids(makers, amounts.take(k)),
        decreases amounts.len() - k,
    {
        proof {
            lemma_fills_at(makers, want, k);
            lemma_fills_at(makers, want, amounts.len() as int);
            lemma_fills_bounds(makers, want);
            assert(amounts.take(amounts.len() as int) =~= amounts);
            assert(k < amounts.len());
            assert(amounts.take(k + 1).drop_last() =~= amounts.take(k));
        }
        let ghost before = level@;
        let front = level.pop_front();
        if let Some(mut maker) = front {
            assert(maker == makers[k]);
            let fill_qty: i64 = if taker.remaining_qty <= maker.remaining_qty {
                taker.remaining_qty
            } else {
                maker.remaining_qty
            };
            assert(fill_qty == amounts[k]);
            maker.remaining_qty = maker.remaining_qty - fill_qty;
            taker.remaining_qty = taker.remaining_qty - fill_qty;
            *next_trade_id = *next_trade_id + 1;
            trades.push(
                Trade {
                    id: *next_trade_id,
                    maker_order_id: maker.id,
                    taker_order_id: taker.id,
                    price: trade_price,
                    qty: fill_qty,
                    timestamp_ms: taker.timestamp_ms,
                },
            );
            assert(trades@ =~= trades0 + trade_list(
                makers,
                amounts.take(k + 1),
                taker0,
                first,
            ));
            let ghost done = filled@;
            if maker.remaining_qty <= DUST {
                filled.push(maker.id);
                assert(is_filled(makers, amounts.take(k + 1), k));
                assert(level@ =~= makers.skip(k + 1));
            } else {
                level.push_front(maker);
                assert(!is_filled(makers, amounts.take(k + 1), k));
                assert(maker == reduced(makers[k], amounts[k]));
                assert(level@ =~= survivors(makers, amounts.take(k + 1)));
            }
            proof {
                assert forall|id: u64|
                    filled@.to_set().contains(id) <==> filled_ids(
                        makers,
                        amounts.take(k + 1),
                    ).contains(id) by {
                    let old_ids = filled_ids(makers, amounts.take(k));
                    if filled@.contains(id) {
                        if done.contains(id) {
                            assert(done.to_set().contains(id));
                            assert(old_ids.contains(id));
                            let i = choose|i: int|
                                is_filled(makers, amounts.take(k), i) && #[trigger] makers[i].id
                                    == id;
                            assert(is_filled(makers, amounts.take(k + 1), i));
                        } else {
                            assert(makers[k].id == id);
                        }
                    }
                    if filled_ids(makers, amounts.take(k + 1)).contains(id) {
                        let i = choose|i: int|
                            is_filled(makers, amounts.take(k + 1), i)
                                && #[trigger] makers[i].id == id;
                        if i < k {
                            assert(is_filled(makers, amounts.take(k), i));
                            assert(done.to_set().contains(id));
                            let j = choose|j: int| 0 <= j < done.len() && done[j] == id;
                            assert(filled@[j] == id);
                        } else {
                            assert(filled@[filled@.len() - 1] == id);
                        }
                    }
                }
                assert(filled@.to_set() =~= filled_ids(makers, amounts.take(k + 1)));
                k = k + 1;
            }
        }
    }
    proof {
        lemma_fills_at(makers, want, k);
        if k < amounts.len() {
            assert(level@.len() == 0);
            assert(makers.skip(k).len() == 0);
        }
        assert(amounts.take(k) =~= amounts);
    }
    filled
}

/// Lets `taker` trade with the levels of `side`, best price first, as long
/// as it wants more than dust and the price crosses. Filled orders leave
/// the index, and levels without orders leave the side.
pub(crate) fn sweep(
    side: Side,
    levels: &mut BTreeMap<i64, VecDeque<Order>>,
    index: &mut HashMap<u64, (Side, i64)>,
    taker: &mut Order,
    trades: &mut Vec<Trade>,
    next_trade_id: &mut u64,
)
    requires
        shaped(levels_of(side, old(levels)@)),
        all_live(flatten(levels_of(side, old(levels)@))),
        old(taker).side == side.opposite(),
        *old(next_trade_id) + fills(
            crossing(flatten(levels_of(side, old(levels)@)), *old(taker)),
            old(taker).remaining_qty as int,
        ).len() <= u64::MAX,
    ensures
        ({
            let queue = flatten(levels_of(side, old(levels)@));
            let makers = crossing(queue, *old(taker));
            let amounts = fills(makers, old(taker).remaining_qty as int);
            &&& shaped(levels_of(side, final(levels)@))
            &&& flatten(levels_of(side, final(levels)@)) == survivors(queue, amounts)
            &&& final(index)@ == old(index)@.remove_keys(filled_ids(queue, amounts))
            &&& final(taker).remaining_qty == old(taker).remaining_qty - sum(amounts)
            &&& *final(taker) == (Order {
                remaining_qty: final(taker).remaining_qty,
                ..*old(taker)
            })
            &&& final(trades)@ == old(trades)@ + trade_list(
                makers,
                amounts,
                *old(taker),
                *old(next_trade_id) as int,
            )
            &&& *final(next_trade_id) == *old(next_trade_id) + amounts.len()
        }),
{
    let ghost queue = flatten(levels_of(side, levels@));
    let ghost taker0 = *taker;
    let ghost makers = crossing(queue, taker0);
    let ghost amounts = fills(makers, taker0.remaining_qty as int);
    let ghost index0 = index@;
    let ghost trades0 = trades@;
    let ghost first = *next_trade_id as int;
    let ghost mut k: int = 0;
    let mut open = true;
    proof {
        lemma_levels_ordered(side, levels@);
        lemma_flatten_ordered(side, levels_of(side, levels@));
        assert(amounts.take(0) =~= Seq::<int>::empty());
        assert(queue.skip(0) =~= queue);
        assert(filled_ids(queue, amounts.take(0)) =~= Set::<u64>::empty());
        assert(index0.remove_keys(filled_ids(queue, amounts.take(0))) =~= index0);
        assert(trades0 + trade_list(makers, amounts.take(0), taker0, first) =~= trades0);
    }
    while open && taker.remaining_qty > DUST
        invariant
            in_price_order(side, queue),
            all_live(queue),
            taker0.side == side.opposite(),
            makers == crossing(queue, taker0),
            amounts == fills(makers, taker0.remaining_qty as int),
            first + amounts.len() <= u64::MAX,
            0 <= k <= amounts.len(),
            shaped(levels_of(side, levels@)),
            flatten(levels_of(side, levels@)) == survivors(queue, amounts.take(k)),
            taker.remaining_qty > DUST ==> flatten(levels_of(side, levels@)) == queue.skip(k),
            taker.remaining_qty == taker0.remaining_qty - sum(amounts.take(k)),
            *taker == (Order { remaining_qty: taker.remaining_qty, ..taker0 }),
            index@ == index0.remove_keys(filled_ids(queue, amounts.take(k))),
            trades@ == trades0 + trade_list(makers, amounts.take(k), taker0, first),
            *next_trade_id == first + k,
            !open ==> k == amounts.len(),
        decreases amounts.len() - k, (if open { 1int } else { 0int }),
    {
        let best_px = best_price(side, levels);
        let ghost before = levels@;
        proof {
            lemma_levels_ordered(side, before);
            lemma_fills_at(makers, taker0.remaining_qty as int, k);
            let n = lemma_crossing_prefix(side, queue, taker0);
        }
        match best_px {
            None => {
                assert(queue.skip(k).len() == 0);
                open = false;
            },
            Some(px) => {
                proof {
                    lemma_best_first(side, before, px);
                    let tail = levels_of(side, before.remove(px));
                    let head = PriceLevel { price: px, orders: before[px]@ };
                    lemma_flatten_concat(seq![head], tail);
                    lemma_flatten_one(head);
                    assert(levels_of(side, before)[0] == head);
                    assert(level_shaped(levels_of(side, before)[0]));
                }
                if !can_trade(taker, px) {
                    proof {
                        assert(queue.skip(k)[0] == before[px]@[0]);
                        assert(queue[k] == queue.skip(k)[0]);
                        assert(makers.skip(k).len() == 0);
                    }
                    open = false;
                } else {
                    let taken = levels.remove(&px);
                    if let Some(mut level) = taken {
                        let ghost head = level@;
                        let ghost tail = levels_of(side, before.remove(px));
                        let ghost rest = flatten(tail);
                        let ghost want = taker.remaining_qty as int;
                        let ghost given = fills(head, want);
                        assert(head == before[px]@);
                        proof {
                            assert forall|i: int| 0 <= i < head.len() implies (
                            #[trigger] head[i]).remaining_qty > DUST by {
                                assert(head[i] == queue.skip(k)[i]);
                                assert(head[i] == queue[k + i]);
                            }
                            lemma_sweep_step(
                                side,
                                queue,
                                taker0,
                                amounts,
                                k,
                                want,
                                head,
                                rest,
                            );
                        }
                        let filled = drain_level(
                            &mut level,
                            taker,
                            px,
                            trades,
                            next_trade_id,
                        );
                        forget_all(index, &filled);
                        proof {
                            assert(trade_list(head, given, *taker, first + k) =~= trade_list(
                                head,
                                given,
                                taker0,
                                first + k,
                            ));
                            assert(index@ =~= index0.remove_keys(
                                filled_ids(queue, amounts.take(k + given.len())),
                            ));
                            assert(trades@ =~= trades0 + trade_list(
                                makers,
                                amounts.take(k + given.len()),
                                taker0,
                                first,
                            ));
                        }
                        let ghost kept = level@;
                        if level.len() > 0 {
                            levels.insert(px, level);
                            proof {
                                let lv = PriceLevel { price: px, orders: kept };
                                assert(before.remove(px).insert(px, level) =~= before.insert(
                                    px,
                                    level,
                                ));
                                assert(levels_of(side, levels@) == seq![lv] + tail);
                                lemma_flatten_concat(seq![lv], tail);
                                lemma_flatten_one(lv);
                                lemma_fills_at(head, want, 0);
                                lemma_survivors_price(head, given, px);
                                assert(level_shaped(lv));
                                assert forall|i: int|
                                    0 <= i < levels_of(side, levels@).len() implies level_shaped(
                                    #[trigger] levels_of(side, levels@)[i],
                                ) by {
                                    if i > 0 {
                                        assert(levels_of(side, levels@)[i] == levels_of(
                                            side,
                                            before,
                                        )[i]);
                                    }
                                }
                            }
                        } else {
                            proof {
                                assert(levels@ == before.remove(px));
                                assert(kept + rest =~= rest);
                                assert forall|i: int| 0 <= i < tail.len() implies level_shaped(
                                    #[trigger] tail[i],
                                ) by {
                                    assert(tail[i] == levels_of(side, before)[i + 1]);
                                }
                            }
                        }
                        proof {
                            k = k + given.len();
                        }
                    }
                }
            },
        }
    }
    proof {
        lemma_fills_at(makers, taker0.remaining_qty as int, k);
        assert(amounts.take(k) =~= amounts);
    }
}

} // verus!
