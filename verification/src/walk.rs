//! Walking through one side of the book in price order.
use crate::ladder::{
    is_best, is_ladder, ladder, lemma_ladder_exists, lemma_ladder_unique, lemma_tail_is_ladder,
};
use crate::levels::{lemma_levels_ordered, levels_of};
use crate::model::PriceLevel;
use crate::order::{Order, Side};
use std::collections::{BTreeMap, VecDeque};
use vstd::prelude::*;
use vstd::std_specs::btree::increasing_seq;
use vstd::std_specs::cmp::OrdSpec;
use vstd::std_specs::iter::IteratorSpec;

verus! {

/// The price of the first of `levels`.
pub open spec fn best(levels: Seq<PriceLevel>) -> Option<i64> {
    if levels.len() == 0 {
        None
    } else {
        Some(levels[0].price)
    }
}

/// The first item that `it` still has to give.
pub(crate) fn first_item<I: Iterator>(it: &mut I) -> (r: Option<I::Item>)
    requires
        IteratorSpec::obeys_prophetic_iter_laws(old(it)),
    ensures
        r == if IteratorSpec::remaining(old(it)).len() > 0 {
            Some(IteratorSpec::remaining(old(it))[0])
        } else {
            None
        },
{
    it.next()
}

/// The last item that `it` still has to give.
pub(crate) fn last_item<I: DoubleEndedIterator>(it: &mut I) -> (r: Option<I::Item>)
    requires
        IteratorSpec::obeys_prophetic_iter_laws(old(it)),
    ensures
        r == if IteratorSpec::remaining(old(it)).len() > 0 {
            Some(IteratorSpec::remaining(old(it)).last())
        } else {
            None
        },
{
    it.next_back()
}

/// The keys that a map walks through, lowest first, are the ladder of asks;
/// backwards they are the ladder of bids.
proof fn lemma_walk_is_ladder(
    m: Map<i64, VecDeque<Order>>,
    walk: Seq<(&i64, &VecDeque<Order>)>,
    keys: Seq<i64>,
)
    requires
        m.dom().finite(),
        keys == walk.map_values(|kv: (&i64, &VecDeque<Order>)| *kv.0),
        increasing_seq(keys),
        forall|i: int|
            0 <= i < walk.len() ==> m.contains_key(*(#[trigger] walk[i]).0) && m[*walk[i].0]
                == *walk[i].1,
        forall|k: i64| #[trigger] m.contains_key(k) ==> walk.contains((&k, &m[k])),
    ensures
        ladder(Side::Sell, m.dom()) == keys,
        ladder(Side::Buy, m.dom()) == keys.reverse(),
{
    lemma_ladder_exists(Side::Sell, m.dom());
    lemma_ladder_exists(Side::Buy, m.dom());
    assert forall|i: int, j: int| 0 <= i < j < keys.len() implies keys[i] < keys[j] by {
        assert(keys[i].cmp_spec(&keys[j]) is Less);
    }
    let back = keys.reverse();
    assert forall|p: i64| #[trigger] keys.contains(p) <==> m.dom().contains(p) by {
        if keys.contains(p) {
            let i = choose|i: int| 0 <= i < keys.len() && keys[i] == p;
            assert(m.contains_key(*walk[i].0));
        }
        if m.dom().contains(p) {
            assert(m.contains_key(p));
            let i = choose|i: int| 0 <= i < walk.len() && walk[i] == (&p, &m[p]);
            assert(keys[i] == p);
        }
    }
    assert forall|p: i64| #[trigger] back.contains(p) <==> keys.contains(p) by {
        if back.contains(p) {
            let i = choose|i: int| 0 <= i < back.len() && back[i] == p;
            assert(keys[keys.len() - 1 - i] == p);
        }
        if keys.contains(p) {
            let i = choose|i: int| 0 <= i < keys.len() && keys[i] == p;
            assert(back[keys.len() - 1 - i] == p);
        }
    }
    assert(is_ladder(Side::Sell, m.dom(), keys));
    assert(is_ladder(Side::Buy, m.dom(), back));
    lemma_ladder_unique(Side::Sell, m.dom(), keys, ladder(Side::Sell, m.dom()));
    lemma_ladder_unique(Side::Buy, m.dom(), back, ladder(Side::Buy, m.dom()));
}

/// The highest key of `m`.
pub(crate) fn highest(m: &BTreeMap<i64, VecDeque<Order>>) -> (r: Option<i64>)
    ensures
        match r {
            Some(p) => is_best(Side::Buy, m@.dom(), p),
            None => m@.dom().len() == 0,
        },
        r == best(levels_of(Side::Buy, m@)),
{
    let mut it = m.iter();
    proof {
        lemma_walk_is_ladder(
            m@,
            it.remaining(),
            it.remaining().map_values(|kv: (&i64, &VecDeque<Order>)| *kv.0),
        );
        lemma_levels_ordered(Side::Buy, m@);
        lemma_ladder_exists(Side::Buy, m@.dom());
        if ladder(Side::Buy, m@.dom()).len() > 0 {
            lemma_tail_is_ladder(Side::Buy, m@.dom(), ladder(Side::Buy, m@.dom()));
        }
    }
    match last_item(&mut it) {
        Some((p, _)) => Some(*p),
        None => None,
    }
}

/// The lowest key of `m`.
pub(crate) fn lowest(m: &BTreeMap<i64, VecDeque<Order>>) -> (r: Option<i64>)
    ensures
        match r {
            Some(p) => is_best(Side::Sell, m@.dom(), p),
            None => m@.dom().len() == 0,
        },
        r == best(levels_of(Side::Sell, m@)),
{
    let mut it = m.iter();
    proof {
        lemma_walk_is_ladder(
            m@,
            it.remaining(),
            it.remaining().map_values(|kv: (&i64, &VecDeque<Order>)| *kv.0),
        );
        lemma_levels_ordered(Side::Sell, m@);
        lemma_ladder_exists(Side::Sell, m@.dom());
        if ladder(Side::Sell, m@.dom()).len() > 0 {
            lemma_tail_is_ladder(Side::Sell, m@.dom(), ladder(Side::Sell, m@.dom()));
        }
    }
    match first_item(&mut it) {
        Some((p, _)) => Some(*p),
        None => None,
    }
}

/// The best key of `m`.
pub(crate) fn best_price(side: Side, m: &BTreeMap<i64, VecDeque<Order>>) -> (r: Option<i64>)
    ensures
        match r {
            Some(p) => is_best(side, m@.dom(), p),
            None => m@.dom().len() == 0,
        },
        r == best(levels_of(side, m@)),
{
    match side {
        Side::Buy => highest(m),
        Side::Sell => lowest(m),
    }
}

/// The keys of `m`, best first.
pub(crate) fn prices(side: Side, m: &BTreeMap<i64, VecDeque<Order>>) -> (r: Vec<i64>)
    ensures
        r@ == ladder(side, m@.dom()),
{
    let mut up: Vec<i64> = Vec::new();
    let ghost keys = ladder(Side::Sell, m@.dom());
    let walk = m.iter();
    proof {
        lemma_walk_is_ladder(
            m@,
            walk.remaining(),
            walk.remaining().map_values(|kv: (&i64, &VecDeque<Order>)| *kv.0),
        );
    }
    for kv in it: walk
        invariant
            keys == it.seq().map_values(|kv: (&i64, &VecDeque<Order>)| *kv.0),
            up@ == keys.take(it.index() as int),
    {
        up.push(*kv.0);
        assert(up@ =~= keys.take(it.index() + 1));
    }
    assert(up@ =~= keys);
    match side {
        Side::Sell => up,
        Side::Buy => {
            let mut down: Vec<i64> = Vec::new();
            let mut i: usize = up.len();
            while i > 0
                invariant
                    i <= up@.len(),
                    down@ == up@.skip(i as int).reverse(),
                decreases i,
            {
                i = i - 1;
                down.push(up[i]);
            }
            down
        },
    }
}

} // verus!
