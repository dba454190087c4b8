//! The prices of one side of the book, best first.
use crate::order::Side;
use vstd::prelude::*;

verus! {

/// Whether price `a` goes strictly before price `b` among the orders that rest
/// on `side`: the highest bid and the lowest ask come first.
pub open spec fn ahead(side: Side, a: i64, b: i64) -> bool {
    match side {
        Side::Buy => a > b,
        Side::Sell => a < b,
    }
}

/// Whether `prices` lists the prices in `set`, each once, best first.
pub open spec fn is_ladder(side: Side, set: Set<i64>, prices: Seq<i64>) -> bool {
    &&& forall|i: int, j: int| 0 <= i < j < prices.len() ==> ahead(side, prices[i], prices[j])
    &&& forall|p: i64| prices.contains(p) <==> set.contains(p)
}

/// The prices in `set`, best first.
pub open spec fn ladder(side: Side, set: Set<i64>) -> Seq<i64> {
    choose|prices: Seq<i64>| is_ladder(side, set, prices)
}

/// Whether `p` is the best price in `set`.
pub open spec fn is_best(side: Side, set: Set<i64>, p: i64) -> bool {
    &&& set.contains(p)
    &&& forall|q: i64| set.contains(q) ==> q == p || ahead(side, p, q)
}

/// A non-empty finite set of prices has a best one.
pub proof fn lemma_best_exists(side: Side, set: Set<i64>) -> (p: i64)
    requires
        set.finite(),
        set.len() > 0,
    ensures
        is_best(side, set, p),
    decreases set.len(),
{
    let a = set.choose();
    assert(set.contains(a));
    let rest = set.remove(a);
    if rest.len() == 0 {
        assert forall|q: i64| set.contains(q) implies q == a by {
            if q != a {
                assert(rest.contains(q));
            }
        }
        a
    } else {
        let b = lemma_best_exists(side, rest);
        let p = if ahead(side, a, b) {
            a
        } else {
            b
        };
        assert forall|q: i64| set.contains(q) implies q == p || ahead(side, p, q) by {
            if q != a {
                assert(rest.contains(q));
            }
        }
        p
    }
}

/// A list with the best price in front is the ladder if its tail is the ladder
/// of the other prices.
pub proof fn lemma_cons_is_ladder(side: Side, set: Set<i64>, p: i64, tail: Seq<i64>)
    requires
        is_best(side, set, p),
        is_ladder(side, set.remove(p), tail),
    ensures
        is_ladder(side, set, seq![p] + tail),
{
    let all = seq![p] + tail;
    assert forall|i: int, j: int| 0 <= i < j < all.len() implies ahead(side, all[i], all[j]) by {
        assert(tail.contains(tail[j - 1]));
        assert(all[j] == tail[j - 1]);
        if i > 0 {
            assert(all[i] == tail[i - 1]);
        }
    }
    assert forall|q: i64| all.contains(q) <==> set.contains(q) by {
        if set.contains(q) {
            if q == p {
                assert(all[0] == q);
            } else {
                assert(set.remove(p).contains(q));
                let k = choose|k: int| 0 <= k < tail.len() && tail[k] == q;
                assert(all[k + 1] == q);
            }
        }
        if all.contains(q) {
            let k = choose|k: int| 0 <= k < all.len() && all[k] == q;
            if k > 0 {
                assert(tail[k - 1] == q);
                assert(tail.contains(q));
            }
        }
    }
}

/// Every finite set of prices has a ladder.
pub proof fn lemma_ladder_exists(side: Side, set: Set<i64>)
    requires
        set.finite(),
    ensures
        is_ladder(side, set, ladder(side, set)),
    decreases set.len(),
{
    if set.len() == 0 {
        assert(is_ladder(side, set, Seq::<i64>::empty()));
    } else {
        let p = lemma_best_exists(side, set);
        lemma_ladder_exists(side, set.remove(p));
        lemma_cons_is_ladder(side, set, p, ladder(side, set.remove(p)));
    }
}

/// A set of prices has at most one ladder.
pub proof fn lemma_ladder_unique(side: Side, set: Set<i64>, a: Seq<i64>, b: Seq<i64>)
    requires
        is_ladder(side, set, a),
        is_ladder(side, set, b),
    ensures
        a == b,
    decreases a.len(),
{
    if a.len() == 0 {
        if b.len() > 0 {
            assert(b.contains(b[0]));
            assert(a.contains(b[0]));
        }
        assert(a =~= b);
    } else {
        assert(a.contains(a[0]));
        assert(b.contains(a[0]));
        assert(b.contains(b[0]));
        assert(a.contains(b[0]));
        let i = choose|i: int| 0 <= i < a.len() && a[i] == b[0];
        let j = choose|j: int| 0 <= j < b.len() && b[j] == a[0];
        if i > 0 {
            assert(ahead(side, a[0], a[i]));
        }
        if j > 0 {
            assert(ahead(side, b[0], b[j]));
        }
        assert(a[0] == b[0]);
        lemma_tail_is_ladder(side, set, a);
        lemma_tail_is_ladder(side, set, b);
        lemma_ladder_unique(side, set.remove(a[0]), a.drop_first(), b.drop_first());
        assert(a =~= seq![a[0]] + a.drop_first());
        assert(b =~= seq![b[0]] + b.drop_first());
    }
}

/// Without its first price, a ladder is the ladder of the other prices; the
/// first price is the best.
pub proof fn lemma_tail_is_ladder(side: Side, set: Set<i64>, a: Seq<i64>)
    requires
        is_ladder(side, set, a),
        a.len() > 0,
    ensures
        is_best(side, set, a[0]),
        is_ladder(side, set.remove(a[0]), a.drop_first()),
{
    let tail = a.drop_first();
    assert(a.contains(a[0]));
    assert forall|q: i64| set.contains(q) implies q == a[0] || ahead(side, a[0], q) by {
        assert(a.contains(q));
        let k = choose|k: int| 0 <= k < a.len() && a[k] == q;
        if k > 0 {
            assert(ahead(side, a[0], a[k]));
        }
    }
    assert forall|q: i64| tail.contains(q) <==> set.remove(a[0]).contains(q) by {
        if tail.contains(q) {
            let k = choose|k: int| 0 <= k < tail.len() && tail[k] == q;
            assert(a[k + 1] == q);
            assert(a.contains(q));
            assert(ahead(side, a[0], a[k + 1]));
        }
        if set.remove(a[0]).contains(q) {
            assert(a.contains(q));
            let k = choose|k: int| 0 <= k < a.len() && a[k] == q;
            assert(tail[k - 1] == q);
        }
    }
}

} // verus!
