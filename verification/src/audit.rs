//! Finding what is wrong with a book.
use crate::fixed::DUST;
use crate::ladder::ahead;
use crate::levels::{
    lemma_flatten_concat, lemma_flatten_one, level_shaped, levels_ordered, shaped,
};
use crate::matching::{all_live, lemma_total_bounds, lemma_total_concat};
use crate::model::{flatten, total, PriceLevel};
use crate::order::{Order, Side};
use crate::orderbook::{is_row, sums_up, BookLevel, OrderBook};
use crate::outcome::lemma_total_is_fold;
use crate::text::{decimal, push_decimal};
use crate::walk::best;
use vstd::prelude::*;

verus! {

/// What `strings` say.
pub open spec fn texts(strings: Seq<String>) -> Seq<Seq<char>> {
    strings.map_values(|s: String| s@)
}

/// What is wrong with the best prices: a bid that is not below the best ask.
pub open spec fn crossed_faults(bid: Option<i64>, ask: Option<i64>) -> Seq<Seq<char>> {
    match (bid, ask) {
        (Some(b), Some(a)) => if b >= a {
            seq![
                "crossed book: best_bid "@ + decimal(b as int) + " >= best_ask "@ + decimal(
                    a as int,
                ),
            ]
        } else {
            Seq::empty()
        },
        _ => Seq::empty(),
    }
}

/// What is wrong with one level: there is nothing left of its orders, or it has
/// none.
pub open spec fn level_faults(level: PriceLevel) -> Seq<Seq<char>> {
    let amount = if total(level.orders) <= 0 {
        seq![
            "non-positive quantity "@ + decimal(total(level.orders)) + " at price "@ + decimal(
                level.price as int,
            ),
        ]
    } else {
        Seq::empty()
    };
    let count = if level.orders.len() == 0 {
        seq!["empty price level present at "@ + decimal(level.price as int)]
    } else {
        Seq::empty()
    };
    amount + count
}

/// What is wrong with each of `levels`.
pub open spec fn levels_faults(levels: Seq<PriceLevel>) -> Seq<Seq<char>>
    decreases levels.len(),
{
    if levels.len() == 0 {
        Seq::empty()
    } else {
        levels_faults(levels.drop_last()) + level_faults(levels.last())
    }
}

/// What is said of a level that is not behind the one before it.
pub open spec fn disorder(side: Side) -> Seq<char> {
    match side {
        Side::Buy => "bid levels not strictly descending"@,
        Side::Sell => "ask levels not strictly ascending"@,
    }
}

/// What is wrong with the order of `levels`: one fault for each level that is
/// not behind the one before it.
pub open spec fn order_faults(side: Side, levels: Seq<PriceLevel>) -> Seq<Seq<char>>
    decreases levels.len(),
{
    if levels.len() <= 1 {
        Seq::empty()
    } else {
        let front = levels.drop_last();
        if ahead(side, front.last().price, levels.last().price) {
            order_faults(side, front)
        } else {
            order_faults(side, front).push(disorder(side))
        }
    }
}

/// All that is wrong with a book that has these levels.
pub open spec fn faults(bids: Seq<PriceLevel>, asks: Seq<PriceLevel>) -> Seq<Seq<char>> {
    crossed_faults(best(bids), best(asks)) + levels_faults(bids) + levels_faults(asks)
        + order_faults(Side::Buy, bids) + order_faults(Side::Sell, asks)
}

/// Levels that hold orders with more than dust left have no faults.
proof fn lemma_levels_sound(levels: Seq<PriceLevel>)
    requires
        shaped(levels),
        forall|i: int| 0 <= i < levels.len() ==> all_live((#[trigger] levels[i]).orders),
    ensures
        levels_faults(levels).len() == 0,
    decreases levels.len(),
{
    if levels.len() > 0 {
        let front = levels.drop_last();
        assert forall|i: int| 0 <= i < front.len() implies level_shaped(#[trigger] front[i])
            && all_live(front[i].orders) by {
            assert(front[i] == levels[i]);
        }
        lemma_levels_sound(front);
        assert(level_shaped(levels[levels.len() - 1]));
        lemma_total_bounds(levels.last().orders);
    }
}

/// Levels in price order have no fault in their order.
proof fn lemma_order_sound(side: Side, levels: Seq<PriceLevel>)
    requires
        levels_ordered(side, levels),
    ensures
        order_faults(side, levels).len() == 0,
    decreases levels.len(),
{
    if levels.len() > 1 {
        let front = levels.drop_last();
        assert forall|i: int, j: int| 0 <= i < j < front.len() implies ahead(
            side,
            (#[trigger] front[i]).price,
            (#[trigger] front[j]).price,
        ) by {
            assert(front[i] == levels[i] && front[j] == levels[j]);
        }
        lemma_order_sound(side, front);
        assert(front.last() == levels[levels.len() - 2]);
    }
}

/// Of no book, well formed or not, can it be said that its levels are out of
/// order: all that can be wrong with one is that it is crossed, or that a level
/// is empty or has nothing left.
pub proof fn lemma_no_disorder(book: OrderBook)
    ensures
        ({
            let bids = book.levels(Side::Buy);
            let asks = book.levels(Side::Sell);
            &&& order_faults(Side::Buy, bids) == Seq::<Seq<char>>::empty()
            &&& order_faults(Side::Sell, asks) == Seq::<Seq<char>>::empty()
            &&& faults(bids, asks) == crossed_faults(best(bids), best(asks)) + levels_faults(bids)
                + levels_faults(asks)
        }),
{
    let bids = book.levels(Side::Buy);
    let asks = book.levels(Side::Sell);
    book.lemma_levels_in_order(Side::Buy);
    book.lemma_levels_in_order(Side::Sell);
    lemma_order_sound(Side::Buy, bids);
    lemma_order_sound(Side::Sell, asks);
    assert(order_faults(Side::Buy, bids) =~= Seq::<Seq<char>>::empty());
    assert(order_faults(Side::Sell, asks) =~= Seq::<Seq<char>>::empty());
    assert(faults(bids, asks) =~= crossed_faults(best(bids), best(asks)) + levels_faults(bids)
        + levels_faults(asks));
}

/// The queue of `levels` holds the orders of each of them.
pub proof fn lemma_level_in_queue(levels: Seq<PriceLevel>, i: int) -> (at: int)
    requires
        0 <= i < levels.len(),
    ensures
        0 <= at,
        at + levels[i].orders.len() <= flatten(levels).len(),
        forall|j: int|
            0 <= j < levels[i].orders.len() ==> flatten(levels)[at + j] == (
            #[trigger] levels[i].orders[j]),
{
    let a = levels.take(i);
    let b = levels.skip(i + 1);
    assert(levels =~= a + seq![levels[i]] + b);
    lemma_flatten_concat(a + seq![levels[i]], b);
    lemma_flatten_concat(a, seq![levels[i]]);
    lemma_flatten_one(levels[i]);
    flatten(a).len() as int
}

/// All orders of a well-formed book have more than dust left.
proof fn lemma_levels_live(book: OrderBook, side: Side)
    requires
        book.wf(),
    ensures
        forall|k: int|
            0 <= k < book.levels(side).len() ==> all_live((#[trigger] book.levels(side)[k]).orders),
{
    let levels = book.levels(side);
    assert forall|k: int| 0 <= k < levels.len() implies all_live((#[trigger] levels[k]).orders) by {
        let at = lemma_level_in_queue(levels, k);
        let here = levels[k].orders;
        assert forall|j: int| 0 <= j < here.len() implies (#[trigger] here[j]).remaining_qty
            > DUST by {
            assert(book@.queue(side)[at + j] == here[j]);
            assert(book@.queue(side)[at + j].side == side);
        }
    }
}

/// Nothing is wrong with a well-formed book.
pub proof fn lemma_no_faults(book: OrderBook)
    requires
        book.wf(),
    ensures
        faults(book.levels(Side::Buy), book.levels(Side::Sell)) == Seq::<Seq<char>>::empty(),
{
    let bids = book.levels(Side::Buy);
    let asks = book.levels(Side::Sell);
    book.lemma_levels(Side::Buy);
    book.lemma_levels(Side::Sell);
    lemma_order_sound(Side::Buy, bids);
    lemma_order_sound(Side::Sell, asks);
    lemma_levels_live(book, Side::Buy);
    lemma_levels_live(book, Side::Sell);
    lemma_levels_sound(bids);
    lemma_levels_sound(asks);
    if bids.len() > 0 && asks.len() > 0 {
        assert(level_shaped(bids[0]) && level_shaped(asks[0]));
        let x = lemma_level_in_queue(bids, 0);
        let y = lemma_level_in_queue(asks, 0);
        assert(book@.bids[x + 0] == bids[0].orders[0]);
        assert(book@.asks[y + 0] == asks[0].orders[0]);
    }
    assert(faults(bids, asks) =~= Seq::<Seq<char>>::empty());
}

/// Adds `text` to `errors`.
fn note(errors: &mut Vec<String>, text: String)
    ensures
        texts(final(errors)@) == texts(old(errors)@).push(text@),
{
    errors.push(text);
    assert(texts(errors@) =~= texts(old(errors)@).push(text@));
}

/// Adds to `errors` what is wrong with the best prices.
pub(crate) fn check_crossed(errors: &mut Vec<String>, bid: Option<i64>, ask: Option<i64>)
    ensures
        texts(final(errors)@) == texts(old(errors)@) + crossed_faults(bid, ask),
{
    if let (Some(b), Some(a)) = (bid, ask) {
        if b >= a {
            let mut text = "crossed book: best_bid ".to_string();
            push_decimal(&mut text, b as i128);
            text.append(" >= best_ask ");
            push_decimal(&mut text, a as i128);
            note(errors, text);
        }
    }
    assert(texts(errors@) =~= texts(old(errors)@) + crossed_faults(bid, ask));
}

/// Adds to `errors` what is wrong with the level that `row` sums up.
fn check_level(errors: &mut Vec<String>, row: &BookLevel, Ghost(level): Ghost<PriceLevel>)
    requires
        is_row(*row, level),
    ensures
        texts(final(errors)@) == texts(old(errors)@) + level_faults(level),
{
    if row.qty <= 0 {
        let mut text = "non-positive quantity ".to_string();
        push_decimal(&mut text, row.qty);
        text.append(" at price ");
        push_decimal(&mut text, row.price as i128);
        note(errors, text);
    }
    if row.order_count == 0 {
        let mut text = "empty price level present at ".to_string();
        push_decimal(&mut text, row.price as i128);
        note(errors, text);
    }
    assert(texts(errors@) =~= texts(old(errors)@) + level_faults(level));
}

/// Adds to `errors` what is wrong with each of the levels that `rows` sum up.
pub(crate) fn check_levels(
    errors: &mut Vec<String>,
    rows: &Vec<BookLevel>,
    Ghost(levels): Ghost<Seq<PriceLevel>>,
)
    requires
        sums_up(rows@, levels, levels.len()),
    ensures
        texts(final(errors)@) == texts(old(errors)@) + levels_faults(levels),
{
    let ghost before = texts(errors@);
    let mut i: usize = 0;
    assert(before + levels_faults(levels.take(0)) =~= before);
    while i < rows.len()
        invariant
            i <= rows@.len(),
            sums_up(rows@, levels, levels.len()),
            texts(errors@) == before + levels_faults(levels.take(i as int)),
        decreases rows@.len() - i,
    {
        check_level(errors, &rows[i], Ghost(levels[i as int]));
        proof {
            assert(levels.take(i + 1).drop_last() =~= levels.take(i as int));
            assert(texts(errors@) =~= before + levels_faults(levels.take(i + 1)));
        }
        i = i + 1;
    }
    assert(levels.take(i as int) =~= levels);
}

/// Adds to `errors` what is wrong with the order of the levels that `rows` sum
/// up.
pub(crate) fn check_order(
    errors: &mut Vec<String>,
    side: Side,
    rows: &Vec<BookLevel>,
    Ghost(levels): Ghost<Seq<PriceLevel>>,
)
    requires
        sums_up(rows@, levels, levels.len()),
    ensures
        texts(final(errors)@) == texts(old(errors)@) + order_faults(side, levels),
{
    let ghost before = texts(errors@);
    let mut i: usize = 0;
    assert(before + order_faults(side, levels.take(0)) =~= before);
    while i < rows.len()
        invariant
            i <= rows@.len(),
            sums_up(rows@, levels, levels.len()),
            texts(errors@) == before + order_faults(side, levels.take(i as int)),
        decreases rows@.len() - i,
    {
        if i > 0 {
            let last = rows[i - 1].price;
            let price = rows[i].price;
            let behind = match side {
                Side::Buy => price < last,
                Side::Sell => price > last,
            };
            if !behind {
                let text = match side {
                    Side::Buy => "bid levels not strictly descending".to_string(),
                    Side::Sell => "ask levels not strictly ascending".to_string(),
                };
                note(errors, text);
            }
        }
        proof {
            assert(levels.take(i + 1).drop_last() =~= levels.take(i as int));
            if i > 0 {
                assert(is_row(rows@[i - 1], levels[i - 1]));
                assert(is_row(rows@[i as int], levels[i as int]));
            }
            assert(texts(errors@) =~= before + order_faults(side, levels.take(i + 1)));
        }
        i = i + 1;
    }
    assert(levels.take(i as int) =~= levels);
}

/// What is left of the orders of all the levels that `rows` sum up.
pub(crate) fn rows_total(
    rows: &Vec<BookLevel>,
    Ghost(levels): Ghost<Seq<PriceLevel>>,
) -> (r: i128)
    requires
        sums_up(rows@, levels, levels.len()),
        flatten(levels).len() <= u64::MAX,
    ensures
        r == total(flatten(levels)),
{
    let mut acc: i128 = 0;
    let mut i: usize = 0;
    proof {
        assert(flatten(levels.take(0)).len() == 0);
    }
    while i < rows.len()
        invariant
            i <= rows@.len(),
            sums_up(rows@, levels, levels.len()),
            flatten(levels).len() <= u64::MAX,
            acc == total(flatten(levels.take(i as int))),
        decreases rows@.len() - i,
    {
        proof {
            let a = levels.take(i as int);
            let here = levels[i as int];
            assert(levels.take(i + 1) =~= a + seq![here]);
            lemma_flatten_concat(a, seq![here]);
            lemma_flatten_one(here);
            lemma_total_concat(flatten(a), here.orders);
            assert(levels =~= levels.take(i + 1) + levels.skip(i + 1));
            lemma_flatten_concat(levels.take(i + 1), levels.skip(i + 1));
            lemma_total_bounds(flatten(levels.take(i + 1)));
            assert(is_row(rows@[i as int], here));
        }
        acc = acc + rows[i].qty;
        i = i + 1;
    }
    assert(levels.take(i as int) =~= levels);
    acc
}

/// What is said of best prices: nothing unless both are there and the bid is not
/// below the ask, and one thing if so.
pub proof fn lemma_crossed_reported(bid: Option<i64>, ask: Option<i64>)
    ensures
        bid is None || ask is None ==> crossed_faults(bid, ask).len() == 0,
        bid is Some && ask is Some && bid->0 < ask->0 ==> crossed_faults(bid, ask).len() == 0,
        bid is Some && ask is Some && bid->0 >= ask->0 ==> crossed_faults(bid, ask) == seq![
            "crossed book: best_bid "@ + decimal(bid->0 as int) + " >= best_ask "@ + decimal(
                ask->0 as int,
            ),
        ],
{
}

/// What is said of a level: first, if the quantities of its orders add up to nothing
/// or less, how much that is and at which price; second, if there are no orders, at
/// which price.
pub proof fn lemma_level_reported(level: PriceLevel)
    ensures
        ({
            let left = level.orders.fold_left(0int, |a: int, o: Order| a + o.remaining_qty);
            let price = decimal(level.price as int);
            let nothing_left = "non-positive quantity "@ + decimal(left) + " at price "@ + price;
            let no_orders = "empty price level present at "@ + price;
            level_faults(level) == if level.orders.len() == 0 {
                seq![nothing_left, no_orders]
            } else if left <= 0 {
                seq![nothing_left]
            } else {
                Seq::empty()
            }
        }),
{
    lemma_total_is_fold(level.orders, |a: int, o: Order| a + o.remaining_qty);
    let left = total(level.orders);
    let price = decimal(level.price as int);
    let nothing_left = "non-positive quantity "@ + decimal(left) + " at price "@ + price;
    let no_orders = "empty price level present at "@ + price;
    if level.orders.len() == 0 {
        assert(level_faults(level) =~= seq![nothing_left, no_orders]);
    } else if left <= 0 {
        assert(level_faults(level) =~= seq![nothing_left]);
    } else {
        assert(level_faults(level) =~= Seq::empty());
    }
}

/// What is said of levels: what is said of each, one after the other.
pub proof fn lemma_levels_reported(levels: Seq<PriceLevel>)
    ensures
        levels_faults(levels) == levels.map_values(
            |level: PriceLevel| level_faults(level),
        ).flatten(),
    decreases levels.len(),
{
    let each = levels.map_values(|level: PriceLevel| level_faults(level));
    if levels.len() > 0 {
        lemma_levels_reported(levels.drop_last());
        assert(each.drop_last() =~= levels.drop_last().map_values(
            |level: PriceLevel| level_faults(level),
        ));
        assert(each =~= each.drop_last().push(level_faults(levels.last())));
        each.drop_last().lemma_flatten_push(level_faults(levels.last()));
    }
}

/// Two conditions that agree on all of `at` pick the same.
proof fn lemma_same_places(at: Seq<int>, a: spec_fn(int) -> bool, b: spec_fn(int) -> bool)
    requires
        forall|k: int| 0 <= k < at.len() ==> a(#[trigger] at[k]) == b(at[k]),
    ensures
        at.filter(a) == at.filter(b),
    decreases at.len(),
{
    reveal(Seq::filter);
    if at.len() > 0 {
        assert forall|k: int| 0 <= k < at.drop_last().len() implies a(
            #[trigger] at.drop_last()[k],
        ) == b(at.drop_last()[k]) by {
            assert(at.drop_last()[k] == at[k]);
        }
        lemma_same_places(at.drop_last(), a, b);
        assert(at.last() == at[at.len() - 1]);
    }
}

/// What is said of the order of levels: once for each bid level that is not below
/// the one before it, and once for each ask level that is not above.
pub proof fn lemma_disorder_reported(levels: Seq<PriceLevel>)
    ensures
        ({
            let bids = order_faults(Side::Buy, levels);
            let asks = order_faults(Side::Sell, levels);
            let at = Seq::new(levels.len(), |i: int| i);
            &&& bids.len() == at.filter(
                |i: int| i > 0 && levels[i].price >= levels[i - 1].price,
            ).len()
            &&& asks.len() == at.filter(
                |i: int| i > 0 && levels[i].price <= levels[i - 1].price,
            ).len()
            &&& forall|k: int|
                0 <= k < bids.len() ==> #[trigger] bids[k] == "bid levels not strictly descending"@
            &&& forall|k: int|
                0 <= k < asks.len() ==> #[trigger] asks[k] == "ask levels not strictly ascending"@
        }),
    decreases levels.len(),
{
    reveal(Seq::filter);
    if levels.len() > 0 {
        let front = levels.drop_last();
        lemma_disorder_reported(front);
        let at = Seq::new(levels.len(), |i: int| i);
        let before = Seq::new(front.len(), |i: int| i);
        assert(at.drop_last() =~= before);
        let rising = |i: int| i > 0 && levels[i].price >= levels[i - 1].price;
        let falling = |i: int| i > 0 && levels[i].price <= levels[i - 1].price;
        lemma_same_places(before, |i: int| i > 0 && front[i].price >= front[i - 1].price, rising);
        lemma_same_places(before, |i: int| i > 0 && front[i].price <= front[i - 1].price, falling);
    }
}

/// What is said of a book: first of its best prices, which are those of its first
/// levels, then of the bid levels, of the ask levels, and of the order of each.
pub proof fn lemma_faults_in_turn(bids: Seq<PriceLevel>, asks: Seq<PriceLevel>)
    ensures
        ({
            let bid = if bids.len() > 0 {
                Some(bids[0].price)
            } else {
                None
            };
            let ask = if asks.len() > 0 {
                Some(asks[0].price)
            } else {
                None
            };
            faults(bids, asks) == seq![
                crossed_faults(bid, ask),
                levels_faults(bids),
                levels_faults(asks),
                order_faults(Side::Buy, bids),
                order_faults(Side::Sell, asks),
            ].flatten()
        }),
{
    let bid = best(bids);
    let ask = best(asks);
    let parts = seq![
        crossed_faults(bid, ask),
        levels_faults(bids),
        levels_faults(asks),
        order_faults(Side::Buy, bids),
        order_faults(Side::Sell, asks),
    ];
    parts.lemma_flatten_and_flatten_alt_are_equivalent();
    reveal_with_fuel(Seq::flatten_alt, 6);
    assert(parts.flatten_alt() =~= faults(bids, asks));
}

} // verus!
