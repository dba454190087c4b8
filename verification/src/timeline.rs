//! Events in the order of their timestamps.
use crate::filters::{
    lemma_filter_all, lemma_filter_commute, lemma_filter_members, lemma_filter_none,
    lemma_filter_push,
};
use crate::order::EngineEvent;
use vstd::prelude::*;

verus! {

/// Whether no event is later than one behind it.
pub open spec fn in_time_order(events: Seq<EngineEvent>) -> bool {
    forall|i: int, j: int|
        0 <= i < j < events.len() ==> (#[trigger] events[i]).time() <= (#[trigger] events[j]).time()
}

/// `events` with `e` behind all events that are not later and before all that
/// are.
pub open spec fn inserted(events: Seq<EngineEvent>, e: EngineEvent) -> Seq<EngineEvent> {
    events.filter(|x: EngineEvent| x.time() <= e.time()).push(e) + events.filter(
        |x: EngineEvent| x.time() > e.time(),
    )
}

/// `events` by time. Events at the same time stay in the order in which they
/// stand.
pub open spec fn by_time(events: Seq<EngineEvent>) -> Seq<EngineEvent>
    decreases events.len(),
{
    if events.len() == 0 {
        Seq::empty()
    } else {
        inserted(by_time(events.drop_last()), events.last())
    }
}

/// The events up to and including `target`, as they stand.
pub open spec fn until(events: Seq<EngineEvent>, target: i64) -> Seq<EngineEvent> {
    events.filter(|e: EngineEvent| e.time() <= target)
}

/// In a sequence by time, what is not later than `t` is its front part.
proof fn lemma_time_split(events: Seq<EngineEvent>, t: i64, k: int)
    requires
        0 <= k <= events.len(),
        forall|i: int| 0 <= i < k ==> (#[trigger] events[i]).time() <= t,
        forall|i: int| k <= i < events.len() ==> (#[trigger] events[i]).time() > t,
    ensures
        events.filter(|x: EngineEvent| x.time() <= t) == events.take(k),
        events.filter(|x: EngineEvent| x.time() > t) == events.skip(k),
{
    let early = |x: EngineEvent| x.time() <= t;
    let late = |x: EngineEvent| x.time() > t;
    let a = events.take(k);
    let b = events.skip(k);
    assert(events =~= a + b);
    assert forall|i: int| 0 <= i < a.len() implies early(#[trigger] a[i]) && !late(a[i]) by {
        assert(a[i] == events[i]);
    }
    assert forall|i: int| 0 <= i < b.len() implies !early(#[trigger] b[i]) && late(b[i]) by {
        assert(b[i] == events[k + i]);
    }
    Seq::filter_distributes_over_add(a, b, early);
    Seq::filter_distributes_over_add(a, b, late);
    lemma_filter_all(a, early);
    lemma_filter_none(a, late);
    lemma_filter_none(b, early);
    lemma_filter_all(b, late);
    assert(a + Seq::<EngineEvent>::empty() =~= a);
    assert(Seq::<EngineEvent>::empty() + b =~= b);
}

/// Where `t` splits a sequence by time.
proof fn lemma_time_index(events: Seq<EngineEvent>, t: i64) -> (k: int)
    requires
        in_time_order(events),
    ensures
        0 <= k <= events.len(),
        forall|i: int| 0 <= i < k ==> (#[trigger] events[i]).time() <= t,
        forall|i: int| k <= i < events.len() ==> (#[trigger] events[i]).time() > t,
    decreases events.len(),
{
    if events.len() == 0 {
        0
    } else if events.last().time() <= t {
        events.len() as int
    } else {
        let front = events.drop_last();
        let k = lemma_time_index(front, t);
        assert forall|i: int| 0 <= i < k implies (#[trigger] events[i]).time() <= t by {
            assert(front[i] == events[i]);
        }
        assert forall|i: int| k <= i < events.len() implies (#[trigger] events[i]).time() > t by {
            if i < front.len() {
                assert(front[i] == events[i]);
            }
        }
        k
    }
}

/// Inserting `e` puts it where its time splits the sequence.
proof fn lemma_inserted_at(events: Seq<EngineEvent>, e: EngineEvent, k: int)
    requires
        0 <= k <= events.len(),
        forall|i: int| 0 <= i < k ==> (#[trigger] events[i]).time() <= e.time(),
        forall|i: int| k <= i < events.len() ==> (#[trigger] events[i]).time() > e.time(),
    ensures
        inserted(events, e) == events.insert(k, e),
{
    lemma_time_split(events, e.time(), k);
    assert(events.take(k).push(e) + events.skip(k) =~= events.insert(k, e));
}

/// Inserting into a sequence by time keeps it by time, keeps what was there,
/// and adds one event.
proof fn lemma_inserted(events: Seq<EngineEvent>, e: EngineEvent)
    requires
        in_time_order(events),
    ensures
        in_time_order(inserted(events, e)),
        inserted(events, e).len() == events.len() + 1,
        inserted(events, e).to_multiset() == events.to_multiset().insert(e),
        (events.len() > 0 ==> events.last().time() <= e.time()) ==> inserted(events, e)
            == events.push(e),
{
    let k = lemma_time_index(events, e.time());
    lemma_inserted_at(events, e, k);
    let r = events.insert(k, e);
    assert forall|i: int, j: int| 0 <= i < j < r.len() implies (#[trigger] r[i]).time() <= (
    #[trigger] r[j]).time() by {
        assert(r[i] == if i < k { events[i] } else if i == k { e } else { events[i - 1] });
        assert(r[j] == if j < k { events[j] } else if j == k { e } else { events[j - 1] });
    }
    vstd::seq_lib::to_multiset_insert(events, k, e);
    if events.len() > 0 ==> events.last().time() <= e.time() {
        assert(k == events.len());
        assert(r =~= events.push(e));
    }
}

/// Filtering after an insertion, or before it.
proof fn lemma_inserted_filter(
    events: Seq<EngineEvent>,
    e: EngineEvent,
    keep: spec_fn(EngineEvent) -> bool,
)
    requires
        in_time_order(events),
    ensures
        inserted(events, e).filter(keep) == if keep(e) {
            inserted(events.filter(keep), e)
        } else {
            events.filter(keep)
        },
{
    let early = |x: EngineEvent| x.time() <= e.time();
    let late = |x: EngineEvent| x.time() > e.time();
    let k = lemma_time_index(events, e.time());
    lemma_time_split(events, e.time(), k);
    let a = events.filter(early);
    let b = events.filter(late);
    Seq::filter_distributes_over_add(a.push(e), b, keep);
    lemma_filter_push(a, e, keep);
    lemma_filter_commute(events, early, keep);
    lemma_filter_commute(events, late, keep);
    if !keep(e) {
        Seq::filter_distributes_over_add(a, b, keep);
        assert(events =~= a + b);
    }
}

/// Sorting by time orders the events by time, keeps each of them as often as it
/// occurs, and changes nothing if they are by time already.
pub proof fn lemma_by_time(events: Seq<EngineEvent>)
    ensures
        in_time_order(by_time(events)),
        by_time(events).len() == events.len(),
        by_time(events).to_multiset() == events.to_multiset(),
        in_time_order(events) ==> by_time(events) == events,
    decreases events.len(),
{
    if events.len() == 0 {
        assert(events =~= Seq::<EngineEvent>::empty());
    } else {
        let front = events.drop_last();
        lemma_by_time(front);
        lemma_inserted(by_time(front), events.last());
        assert(events =~= front.push(events.last()));
        vstd::seq_lib::to_multiset_build(front, events.last());
        if in_time_order(events) {
            assert forall|i: int, j: int| 0 <= i < j < front.len() implies (
            #[trigger] front[i]).time() <= (#[trigger] front[j]).time() by {
                assert(front[i] == events[i] && front[j] == events[j]);
            }
            if front.len() > 0 {
                assert(front.last() == events[events.len() - 2]);
            }
        }
    }
}

/// It does not matter whether events are left out before they are sorted by
/// time or afterwards.
pub proof fn lemma_by_time_filter(events: Seq<EngineEvent>, keep: spec_fn(EngineEvent) -> bool)
    ensures
        by_time(events).filter(keep) == by_time(events.filter(keep)),
    decreases events.len(),
{
    if events.len() == 0 {
        reveal(Seq::filter);
    } else {
        let front = events.drop_last();
        let last = events.last();
        lemma_by_time_filter(front, keep);
        lemma_by_time(front);
        lemma_inserted_filter(by_time(front), last, keep);
        assert(events =~= front.push(last));
        lemma_filter_push(front, last, keep);
        if keep(last) {
            assert(front.filter(keep).push(last).drop_last() =~= front.filter(keep));
        }
    }
}

/// Events at the same time keep their order when they are sorted by time.
pub proof fn lemma_by_time_stable(events: Seq<EngineEvent>, t: i64)
    ensures
        by_time(events).filter(|e: EngineEvent| e.time() == t) == events.filter(
            |e: EngineEvent| e.time() == t,
        ),
{
    let same = |e: EngineEvent| e.time() == t;
    let some = events.filter(same);
    lemma_by_time_filter(events, same);
    lemma_filter_members(events, same);
    assert forall|i: int, j: int| 0 <= i < j < some.len() implies (#[trigger] some[i]).time() <= (
    #[trigger] some[j]).time() by {
        assert(same(some[i]) && same(some[j]));
    }
    lemma_by_time(some);
}

/// The events up to an earlier time, by time, are the first of those up to a
/// later one.
pub proof fn lemma_until_grows(events: Seq<EngineEvent>, t1: i64, t2: i64)
    requires
        t1 <= t2,
    ensures
        by_time(until(events, t1)).is_prefix_of(by_time(until(events, t2))),
{
    let all = by_time(events);
    lemma_by_time(events);
    let a = lemma_time_index(all, t1);
    let b = lemma_time_index(all, t2);
    lemma_time_split(all, t1, a);
    lemma_time_split(all, t2, b);
    lemma_by_time_filter(events, |e: EngineEvent| e.time() <= t1);
    lemma_by_time_filter(events, |e: EngineEvent| e.time() <= t2);
    assert(a <= b) by {
        if b < a {
            assert(all[b].time() <= t1);
        }
    }
    assert(all.take(a) =~= all.take(b).take(a));
}

/// Whether no two of `events` happened at the same time.
pub open spec fn distinct_times(events: Seq<EngineEvent>) -> bool {
    forall|i: int, j: int|
        0 <= i < j < events.len() ==> (#[trigger] events[i]).time() != (#[trigger] events[j]).time()
}

/// Sorting by time keeps times distinct.
proof fn lemma_by_time_distinct(events: Seq<EngineEvent>)
    requires
        distinct_times(events),
    ensures
        distinct_times(by_time(events)),
    decreases events.len(),
{
    if events.len() > 0 {
        let front = events.drop_last();
        let e = events.last();
        assert forall|i: int, j: int| 0 <= i < j < front.len() implies (#[trigger] front[i]).time()
            != (#[trigger] front[j]).time() by {
            assert(front[i] == events[i] && front[j] == events[j]);
        }
        lemma_by_time_distinct(front);
        lemma_by_time(front);
        let s = by_time(front);
        assert forall|i: int| 0 <= i < s.len() implies (#[trigger] s[i]).time() != e.time() by {
            lemma_same_members(s, front, i);
            let x = choose|x: int| 0 <= x < front.len() && front[x] == s[i];
            assert(events[x].time() != events[events.len() - 1].time());
        }
        let k = lemma_time_index(s, e.time());
        lemma_inserted_at(s, e, k);
        let r = s.insert(k, e);
        assert forall|i: int, j: int| 0 <= i < j < r.len() implies (#[trigger] r[i]).time() != (
        #[trigger] r[j]).time() by {
            assert(r[i] == if i < k { s[i] } else if i == k { e } else { s[i - 1] });
            assert(r[j] == if j < k { s[j] } else if j == k { e } else { s[j - 1] });
        }
    }
}

/// What stands in `a` stands in `b` too, if they hold the same as often.
pub proof fn lemma_same_members(a: Seq<EngineEvent>, b: Seq<EngineEvent>, i: int)
    requires
        a.to_multiset() == b.to_multiset(),
        0 <= i < a.len(),
    ensures
        b.contains(a[i]),
{
    vstd::seq_lib::to_multiset_contains(a, a[i]);
    vstd::seq_lib::to_multiset_contains(b, a[i]);
}

/// Two sequences by time that hold the same events, no two at the same time, are
/// the same.
proof fn lemma_one_order(a: Seq<EngineEvent>, b: Seq<EngineEvent>)
    requires
        in_time_order(a),
        in_time_order(b),
        distinct_times(a),
        a.to_multiset() == b.to_multiset(),
    ensures
        a == b,
    decreases a.len(),
{
    vstd::seq_lib::to_multiset_len(a);
    vstd::seq_lib::to_multiset_len(b);
    if a.len() > 0 {
        let n = a.len() - 1;
        lemma_same_members(a, b, n);
        lemma_same_members(b, a, n);
        let x = choose|x: int| 0 <= x < b.len() && b[x] == a[n];
        let y = choose|y: int| 0 <= y < a.len() && a[y] == b[n];
        assert(a[n].time() <= b[n].time()) by {
            assert(b[x].time() <= b[n].time());
        }
        assert(b[n].time() <= a[n].time()) by {
            assert(a[y].time() <= a[n].time());
        }
        assert(y == n);
        let c = a.drop_last();
        let d = b.drop_last();
        assert(a =~= c.push(a[n]) && b =~= d.push(a[n]));
        vstd::seq_lib::to_multiset_build(c, a[n]);
        vstd::seq_lib::to_multiset_build(d, a[n]);
        assert(c.to_multiset() =~= a.to_multiset().remove(a[n]));
        assert(d.to_multiset() =~= a.to_multiset().remove(a[n]));
        assert forall|i: int, j: int| 0 <= i < j < c.len() implies (#[trigger] c[i]).time() <= (
        #[trigger] c[j]).time() && c[i].time() != c[j].time() by {
            assert(c[i] == a[i] && c[j] == a[j]);
        }
        assert forall|i: int, j: int| 0 <= i < j < d.len() implies (#[trigger] d[i]).time() <= (
        #[trigger] d[j]).time() by {
            assert(d[i] == b[i] && d[j] == b[j]);
        }
        lemma_one_order(c, d);
    }
}

/// If no two events happened at the same time, sorting them by time does not
/// depend on the order in which they stand.
pub proof fn lemma_by_time_is_one_order(a: Seq<EngineEvent>, b: Seq<EngineEvent>)
    requires
        distinct_times(a),
        a.to_multiset() == b.to_multiset(),
    ensures
        by_time(a) == by_time(b),
{
    lemma_by_time(a);
    lemma_by_time(b);
    lemma_by_time_distinct(a);
    lemma_one_order(by_time(a), by_time(b));
}

/// The events, by time.
pub(crate) fn sort_by_time(events: &[EngineEvent]) -> (r: Vec<EngineEvent>)
    ensures
        r@ == by_time(events@),
{
    let mut out: Vec<EngineEvent> = Vec::new();
    let mut i: usize = 0;
    while i < events.len()
        invariant
            i <= events@.len(),
            out@ == by_time(events@.take(i as int)),
        decreases events@.len() - i,
    {
        let e = events[i];
        proof {
            lemma_by_time(events@.take(i as int));
        }
        let mut k: usize = out.len();
        while k > 0 && out[k - 1].timestamp_ms() > e.timestamp_ms()
            invariant
                k <= out@.len(),
                forall|j: int| k <= j < out@.len() ==> (#[trigger] out@[j]).time() > e.time(),
            decreases k,
        {
            k = k - 1;
        }
        proof {
            assert forall|j: int| 0 <= j < k implies (#[trigger] out@[j]).time() <= e.time() by {
                assert(out@[k - 1].time() <= e.time());
            }
            lemma_inserted_at(out@, e, k as int);
            assert(events@.take(i + 1).drop_last() =~= events@.take(i as int));
        }
        out.insert(k, e);
        i = i + 1;
    }
    assert(events@.take(i as int) =~= events@);
    out
}

} // verus!
