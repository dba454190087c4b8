//! Facts about the elements of a sequence that meet a condition.
use vstd::prelude::*;

verus! {

/// A filter that everything passes changes nothing.
pub proof fn lemma_filter_all<A>(q: Seq<A>, keep: spec_fn(A) -> bool)
    requires
        forall|i: int| 0 <= i < q.len() ==> keep(#[trigger] q[i]),
    ensures
        q.filter(keep) == q,
    decreases q.len(),
{
    reveal(Seq::filter);
    if q.len() > 0 {
        let front = q.drop_last();
        assert forall|i: int| 0 <= i < front.len() implies keep(#[trigger] front[i]) by {
            assert(front[i] == q[i]);
        }
        lemma_filter_all(front, keep);
        assert(keep(q[q.len() - 1]));
        assert(q =~= front.push(q.last()));
    }
}

/// A filter that nothing passes leaves nothing.
pub proof fn lemma_filter_none<A>(q: Seq<A>, keep: spec_fn(A) -> bool)
    requires
        forall|i: int| 0 <= i < q.len() ==> !keep(#[trigger] q[i]),
    ensures
        q.filter(keep) == Seq::<A>::empty(),
    decreases q.len(),
{
    reveal(Seq::filter);
    if q.len() > 0 {
        let front = q.drop_last();
        assert forall|i: int| 0 <= i < front.len() implies !keep(#[trigger] front[i]) by {
            assert(front[i] == q[i]);
        }
        lemma_filter_none(front, keep);
        assert(!keep(q[q.len() - 1]));
    }
}

/// Everything that a filter keeps was there before, and passes it; everything
/// that passes it is kept.
pub proof fn lemma_filter_members<A>(q: Seq<A>, keep: spec_fn(A) -> bool)
    ensures
        forall|i: int|
            0 <= i < q.filter(keep).len() ==> keep(#[trigger] q.filter(keep)[i]) && q.contains(
                q.filter(keep)[i],
            ),
        forall|i: int|
            0 <= i < q.len() && keep(#[trigger] q[i]) ==> q.filter(keep).contains(q[i]),
        q.filter(keep).len() <= q.len(),
    decreases q.len(),
{
    reveal(Seq::filter);
    if q.len() > 0 {
        let front = q.drop_last();
        let some = front.filter(keep);
        let all = q.filter(keep);
        lemma_filter_members(front, keep);
        assert(keep(q.last()) ==> all == some.push(q.last()));
        assert forall|i: int| 0 <= i < all.len() implies keep(#[trigger] all[i]) && q.contains(
            all[i],
        ) by {
            if i < some.len() {
                assert(all[i] == some[i]);
                let x = choose|x: int| 0 <= x < front.len() && front[x] == some[i];
                assert(q[x] == all[i]);
            } else {
                assert(q[q.len() - 1] == all[i]);
            }
        }
        assert forall|i: int| 0 <= i < q.len() && keep(#[trigger] q[i]) implies all.contains(
            q[i],
        ) by {
            if i < front.len() {
                assert(front[i] == q[i]);
                let x = choose|x: int| 0 <= x < some.len() && some[x] == q[i];
                assert(all[x] == q[i]);
            } else {
                assert(all[all.len() - 1] == q[i]);
            }
        }
    }
}

/// Two filters of which exactly one keeps each element keep as many together as
/// there are.
pub proof fn lemma_filter_partition<A>(
    q: Seq<A>,
    a: spec_fn(A) -> bool,
    b: spec_fn(A) -> bool,
)
    requires
        forall|x: A| #[trigger] a(x) == !b(x),
    ensures
        q.filter(a).len() + q.filter(b).len() == q.len(),
    decreases q.len(),
{
    reveal(Seq::filter);
    if q.len() > 0 {
        lemma_filter_partition(q.drop_last(), a, b);
        assert(a(q.last()) == !b(q.last()));
    }
}

/// It does not matter which of two filters comes first.
pub proof fn lemma_filter_commute<A>(q: Seq<A>, a: spec_fn(A) -> bool, b: spec_fn(A) -> bool)
    ensures
        q.filter(a).filter(b) == q.filter(b).filter(a),
    decreases q.len(),
{
    reveal(Seq::filter);
    if q.len() > 0 {
        let front = q.drop_last();
        let last = q.last();
        lemma_filter_commute(front, a, b);
        lemma_filter_push(front.filter(a), last, b);
        lemma_filter_push(front.filter(b), last, a);
    }
}

/// Filtering a sequence with one more element at its end.
pub proof fn lemma_filter_push<A>(q: Seq<A>, x: A, keep: spec_fn(A) -> bool)
    ensures
        q.push(x).filter(keep) == if keep(x) {
            q.filter(keep).push(x)
        } else {
            q.filter(keep)
        },
{
    reveal(Seq::filter);
    assert(q.push(x).drop_last() =~= q);
}

} // verus!
