//! The publisher at work: round by round it takes a command if there is one,
//! publishes what it asks for, and then an order of its own if the stream owes
//! one.
use crate::bridge::{
    order_of, AeronState, PrefillKind, PublishCmd, MIN_INTERVAL_MS, STREAM_SEED,
};
use crate::filters::lemma_filter_push;
use crate::generator::{is_usual, Market, Quote, START_MID};
use crate::order::Order;
use vstd::prelude::*;

verus! {

/// How many nanoseconds make a millisecond.
pub const NS_PER_MS: u128 = 1_000_000;

/// How a wait for a command ended.
#[derive(Debug, Clone, Copy, PartialEq, Eq, Structural)]
pub enum Received {
    Cmd(PublishCmd),
    Timeout,
    Disconnected,
}

/// The market that makes up the streamed orders, and when the stream published
/// its last one, in nanoseconds from some start.
#[derive(Debug, Clone, Copy, PartialEq, Eq, Structural)]
pub struct Worker {
    pub market: Market,
    pub last_tick_ns: u128,
}

/// The delay that a stream with this interval keeps, in nanoseconds: no less than
/// twenty milliseconds.
pub open spec fn pause_ns(interval_ms: u64) -> int {
    if interval_ms < MIN_INTERVAL_MS {
        MIN_INTERVAL_MS * NS_PER_MS
    } else {
        interval_ms * NS_PER_MS
    }
}

impl Worker {
    /// Whether the stream, if it is on, owes an order at `now_ns`.
    pub open spec fn owes(self, streaming: bool, interval_ms: u64, now_ns: u128) -> bool {
        streaming && now_ns - self.last_tick_ns >= pause_ns(interval_ms)
    }

    /// The worker after it published an order of its own at `now_ns`.
    pub open spec fn ticked(self, now_ns: u128) -> Worker {
        Worker { market: self.market.quoted().1, last_tick_ns: now_ns }
    }

    /// A worker that starts at `now_ns`.
    pub fn new(now_ns: u128) -> (r: Self)
        ensures
            r.market.wf(),
            r == (Worker {
                market: Market { mid_price: START_MID, rng_state: STREAM_SEED },
                last_tick_ns: now_ns,
            }),
            r.market.mid_price == 16_225_927_682_921_336_339_157_801_028_812_800,
            r.market.rng_state == 0xD1B5_4A32_D192_ED03,
    {
        Worker { market: Market::new(STREAM_SEED), last_tick_ns: now_ns }
    }

    /// The orders to publish now that a wait for a command has ended in
    /// `received`: those of the command, none if there is no command, and `None`
    /// if there will be no more, in which case the work is over.
    pub fn receive(state: &mut AeronState, received: Received) -> (r: Option<Vec<Order>>)
        requires
            received matches Received::Cmd(cmd) ==> old(state).has_ids(cmd),
        ensures
            match received {
                Received::Cmd(cmd) => r is Some && old(state).publishes(*final(state), cmd, r->0@),
                Received::Timeout => r is Some && r->0@.len() == 0 && *final(state) == *old(state),
                Received::Disconnected => r is None && *final(state) == *old(state),
            },
    {
        match received {
            Received::Cmd(cmd) => Some(state.orders_for(cmd)),
            Received::Timeout => Some(Vec::new()),
            Received::Disconnected => None,
        }
    }

    /// The order that the stream owes at `now_ns`, under the next id, if it owes
    /// one.
    pub fn tick(&mut self, state: &mut AeronState, now_ns: u128) -> (r: Option<Order>)
        requires
            old(self).market.wf(),
            old(self).last_tick_ns <= now_ns,
            old(self).owes(old(state).streaming, old(state).stream_interval_ms, now_ns)
                ==> old(state).next_order_id < u64::MAX,
        ensures
            final(self).market.wf(),
            if old(self).owes(old(state).streaming, old(state).stream_interval_ms, now_ns) {
                let quote = old(self).market.quoted().0;
                let id = (old(state).next_order_id + 1) as u64;
                &&& is_usual(quote)
                &&& r is Some
                &&& r->0 == order_of(quote, id, r->0.timestamp_ms)
                &&& 0 <= r->0.timestamp_ms
                &&& *final(self) == old(self).ticked(now_ns)
                &&& *final(state) == (AeronState { next_order_id: id, ..*old(state) })
            } else {
                &&& r is None
                &&& *final(self) == *old(self)
                &&& *final(state) == *old(state)
            },
    {
        let elapsed: u128 = (now_ns - self.last_tick_ns) / NS_PER_MS;
        let elapsed_ms: u64 = if elapsed <= u64::MAX as u128 {
            elapsed as u64
        } else {
            u64::MAX
        };
        proof {
            self.market.lemma_quoted();
        }
        if state.tick_due(elapsed_ms) {
            self.last_tick_ns = now_ns;
            Some(state.random_order(&mut self.market))
        } else {
            None
        }
    }
}

/// What a round of the publisher meets: the command that it takes, if there is
/// one, and, when it comes to the stream, whether that is on, its interval, and
/// the time.
pub struct Round {
    pub cmd: Option<PublishCmd>,
    pub streaming: bool,
    pub interval_ms: u64,
    pub now_ns: u128,
}

/// What the publisher publishes: the order of a command, the orders of a prefill,
/// or an order that the market made up.
pub enum Sent {
    Asked(Order),
    Filled(PrefillKind),
    Made(Quote),
}

/// What `cmd` has published.
pub open spec fn sent_for(cmd: PublishCmd) -> Sent {
    match cmd {
        PublishCmd::Submit(order) => Sent::Asked(order),
        PublishCmd::Prefill(kind) => Sent::Filled(kind),
    }
}

/// The worker after `rounds`.
pub open spec fn worker_after(start: Worker, rounds: Seq<Round>) -> Worker
    decreases rounds.len(),
{
    if rounds.len() == 0 {
        start
    } else {
        let before = worker_after(start, rounds.drop_last());
        let r = rounds.last();
        if before.owes(r.streaming, r.interval_ms, r.now_ns) {
            before.ticked(r.now_ns)
        } else {
            before
        }
    }
}

/// Whether round `i` publishes an order that the market made up.
pub open spec fn makes(start: Worker, rounds: Seq<Round>, i: int) -> bool {
    let r = rounds[i];
    worker_after(start, rounds.take(i)).owes(r.streaming, r.interval_ms, r.now_ns)
}

/// What is published in `rounds`, in turn.
pub open spec fn sent(start: Worker, rounds: Seq<Round>) -> Seq<Sent>
    decreases rounds.len(),
{
    if rounds.len() == 0 {
        Seq::empty()
    } else {
        let before = sent(start, rounds.drop_last());
        let asked = match rounds.last().cmd {
            Some(cmd) => before.push(sent_for(cmd)),
            None => before,
        };
        if makes(start, rounds, rounds.len() - 1) {
            asked.push(Sent::Made(worker_after(start, rounds.drop_last()).market.quoted().0))
        } else {
            asked
        }
    }
}

/// What the commands of `rounds` ask for, in turn.
pub open spec fn asked_for(rounds: Seq<Round>) -> Seq<Sent>
    decreases rounds.len(),
{
    if rounds.len() == 0 {
        Seq::empty()
    } else {
        let before = asked_for(rounds.drop_last());
        match rounds.last().cmd {
            Some(cmd) => before.push(sent_for(cmd)),
            None => before,
        }
    }
}

/// Whether the times of `rounds` do not go back, from `start` on.
pub open spec fn time_goes_on(start: Worker, rounds: Seq<Round>) -> bool {
    &&& forall|i: int| 0 <= i < rounds.len() ==> start.last_tick_ns <= (#[trigger] rounds[i]).now_ns
    &&& forall|i: int, j: int|
        0 <= i < j < rounds.len() ==> (#[trigger] rounds[i]).now_ns <= (#[trigger] rounds[j]).now_ns
}

/// Every command is handled exactly once, and in the order in which they come:
/// leaving out the orders that the market made up, what is published is what the
/// commands ask for.
pub proof fn lemma_commands_once(start: Worker, rounds: Seq<Round>)
    ensures
        sent(start, rounds).filter(|s: Sent| !(s is Made)) == asked_for(rounds),
    decreases rounds.len(),
{
    let keep = |s: Sent| !(s is Made);
    if rounds.len() == 0 {
        reveal(Seq::filter);
    } else {
        let front = rounds.drop_last();
        lemma_commands_once(start, front);
        let before = sent(start, front);
        let asked = match rounds.last().cmd {
            Some(cmd) => before.push(sent_for(cmd)),
            None => before,
        };
        if let Some(cmd) = rounds.last().cmd {
            lemma_filter_push(before, sent_for(cmd), keep);
        }
        let quote = worker_after(start, front).market.quoted().0;
        lemma_filter_push(asked, Sent::Made(quote), keep);
    }
}

/// A round without a command in which the stream owes nothing publishes nothing;
/// in particular none does while the stream is off.
pub proof fn lemma_idle_round(start: Worker, rounds: Seq<Round>)
    requires
        rounds.len() > 0,
        rounds.last().cmd is None,
        !rounds.last().streaming || !makes(start, rounds, rounds.len() - 1),
    ensures
        sent(start, rounds) == sent(start, rounds.drop_last()),
{
}

/// The worker does not know of a time that has not come, its last order is no
/// older than any that it made, and its market stays within its limits.
proof fn lemma_worker(start: Worker, rounds: Seq<Round>, i: int)
    requires
        start.market.wf(),
        time_goes_on(start, rounds),
        0 <= i < rounds.len(),
        makes(start, rounds, i),
    ensures
        worker_after(start, rounds).market.wf(),
        rounds[i].now_ns <= worker_after(start, rounds).last_tick_ns <= rounds.last().now_ns,
    decreases rounds.len(),
{
    let front = rounds.drop_last();
    let n = rounds.len() - 1;
    assert(rounds.take(n) =~= front);
    lemma_market(start, rounds);
    if i < n {
        assert(front.take(i) =~= rounds.take(i));
        assert(front[i] == rounds[i]);
        assert forall|k: int| 0 <= k < front.len() implies start.last_tick_ns <= (
        #[trigger] front[k]).now_ns by {
            assert(front[k] == rounds[k]);
        }
        assert forall|k: int, l: int| 0 <= k < l < front.len() implies (#[trigger] front[k]).now_ns
            <= (#[trigger] front[l]).now_ns by {
            assert(front[k] == rounds[k] && front[l] == rounds[l]);
        }
        lemma_worker(start, front, i);
        assert(front.last() == rounds[n - 1]);
    }
}

/// The market of the worker stays within its limits.
proof fn lemma_market(start: Worker, rounds: Seq<Round>)
    requires
        start.market.wf(),
    ensures
        worker_after(start, rounds).market.wf(),
    decreases rounds.len(),
{
    if rounds.len() > 0 {
        lemma_market(start, rounds.drop_last());
        worker_after(start, rounds.drop_last()).market.lemma_quoted();
    }
}

/// An order that the market made up is published only while the stream is on, is
/// usual, and comes no sooner after one before it than the interval then set, and
/// no sooner than twenty milliseconds.
pub proof fn lemma_made_orders(start: Worker, rounds: Seq<Round>, i: int, j: int)
    requires
        start.market.wf(),
        time_goes_on(start, rounds),
        0 <= i < j < rounds.len(),
        makes(start, rounds, i),
        makes(start, rounds, j),
    ensures
        rounds[j].streaming,
        is_usual(worker_after(start, rounds.take(j)).market.quoted().0),
        rounds[j].now_ns - rounds[i].now_ns >= rounds[j].interval_ms * NS_PER_MS,
        rounds[j].now_ns - rounds[i].now_ns >= 20 * NS_PER_MS,
{
    let front = rounds.take(j);
    assert(front.take(i) =~= rounds.take(i));
    assert(front[i] == rounds[i]);
    assert forall|k: int| 0 <= k < front.len() implies start.last_tick_ns <= (
    #[trigger] front[k]).now_ns by {
        assert(front[k] == rounds[k]);
    }
    assert forall|k: int, l: int| 0 <= k < l < front.len() implies (#[trigger] front[k]).now_ns <= (
    #[trigger] front[l]).now_ns by {
        assert(front[k] == rounds[k] && front[l] == rounds[l]);
    }
    lemma_worker(start, front, i);
    worker_after(start, front).market.lemma_quoted();
}

/// When the stream owes an order: it is on, and since its last one at least the
/// interval that is set and at least twenty milliseconds have passed.
pub proof fn lemma_when_owed(w: Worker, streaming: bool, interval_ms: u64, now_ns: u128)
    ensures
        w.owes(streaming, interval_ms, now_ns) <==> {
            &&& streaming
            &&& now_ns - w.last_tick_ns >= 1_000_000 * interval_ms
            &&& now_ns - w.last_tick_ns >= 20_000_000
        },
        w.ticked(now_ns).last_tick_ns == now_ns,
        w.ticked(now_ns).market == w.market.quoted().1,
{
}

} // verus!
