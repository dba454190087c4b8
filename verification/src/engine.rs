//! The engine: a book, the journal of all that was asked of it, and the trades.
//! The journal can be replayed up to any time.
use crate::audit::{
    check_crossed, check_levels, check_order, faults, lemma_no_faults, rows_total, texts,
};
use crate::history::{history, lemma_history, lemma_submission_growth, History};
use crate::filters::lemma_filter_push;
use crate::model::{group, total, BookView};
use crate::order::{EngineEvent, Order, Side, Trade};
use crate::orderbook::{sums_up, BookSnapshot, OrderBook, SubmitResult};
use crate::timeline::{by_time, lemma_by_time, lemma_by_time_filter, sort_by_time, until};
use crate::walk::best;
use vstd::prelude::*;

verus! {

/// How many levels of each side a snapshot for clients holds.
pub const SNAPSHOT_DEPTH: usize = 25;

/// A book with its journal and its trades.
pub struct Engine {
    pub book: OrderBook,
    pub journal: Vec<EngineEvent>,
    pub trade_log: Vec<Trade>,
    next_order_id: u64,
}

/// What an engine holds.
#[verifier::ext_equal]
pub struct EngineView {
    pub book: BookView,
    pub journal: Seq<EngineEvent>,
    pub trade_log: Seq<Trade>,
    pub last_order_id: u64,
}

impl EngineView {
    /// The engine that nothing was asked of.
    pub open spec fn empty() -> EngineView {
        EngineView {
            book: BookView::empty(),
            journal: Seq::empty(),
            trade_log: Seq::empty(),
            last_order_id: 0,
        }
    }

    /// The engine after `order` is submitted.
    pub open spec fn submitted(self, order: Order) -> EngineView {
        EngineView {
            book: self.book.submitted(order),
            journal: self.journal.push(EngineEvent::Submit { order }),
            trade_log: self.trade_log + self.book.executed(order),
            last_order_id: self.last_order_id,
        }
    }

    /// The engine after order `order_id` is cancelled at `timestamp_ms`.
    pub open spec fn cancelled(self, order_id: u64, timestamp_ms: i64) -> EngineView {
        EngineView {
            book: self.book.cancelled(order_id),
            journal: self.journal.push(EngineEvent::Cancel { order_id, timestamp_ms }),
            trade_log: self.trade_log,
            last_order_id: self.last_order_id,
        }
    }

    /// Whether book and trades are what the journal adds up to.
    pub open spec fn consistent(self) -> bool {
        history(self.journal) == (History { book: self.book, trades: self.trade_log })
    }
}

impl View for Engine {
    type V = EngineView;

    closed spec fn view(&self) -> EngineView {
        EngineView {
            book: self.book@,
            journal: self.journal@,
            trade_log: self.trade_log@,
            last_order_id: self.next_order_id,
        }
    }
}

/// Puts `new` at the end of `log`.
fn extend_log(log: &mut Vec<Trade>, new: &Vec<Trade>)
    ensures
        final(log)@ == old(log)@ + new@,
{
    let ghost before = log@;
    let mut i: usize = 0;
    assert(before + new@.take(0) =~= before);
    while i < new.len()
        invariant
            i <= new@.len(),
            log@ == before + new@.take(i as int),
        decreases new@.len() - i,
    {
        log.push(new[i]);
        i = i + 1;
        assert(log@ =~= before + new@.take(i as int));
    }
    assert(new@.take(i as int) =~= new@);
}

impl Engine {
    /// Whether the book itself is well formed.
    pub closed spec fn book_wf(self) -> bool {
        self.book.wf()
    }

    /// What every engine keeps: its book is well formed, and book and trades
    /// are what the journal adds up to.
    pub open spec fn wf(self) -> bool {
        &&& self.book_wf()
        &&& self@.consistent()
    }

    /// An engine that nothing was asked of.
    pub fn new() -> (r: Self)
        ensures
            r.wf(),
            r@ == EngineView::empty(),
            r@.book.bids.len() == 0,
            r@.book.asks.len() == 0,
            r@.book.index.dom() == Set::<u64>::empty(),
            r@.book.last_trade_id == 0,
            r@.journal.len() == 0,
            r@.trade_log.len() == 0,
            r@.last_order_id == 0,
    {
        let r = Engine {
            book: OrderBook::new(),
            journal: Vec::new(),
            trade_log: Vec::new(),
            next_order_id: 0,
        };
        assert(r@ =~= EngineView::empty());
        r
    }

    /// An order id that was not given out before: one more than the last.
    pub fn next_id(&mut self) -> (r: u64)
        requires
            old(self)@.last_order_id < u64::MAX,
        ensures
            r == old(self)@.last_order_id + 1,
            final(self)@ == (EngineView { last_order_id: r, ..old(self)@ }),
            old(self).wf() ==> final(self).wf(),
    {
        self.next_order_id = self.next_order_id + 1;
        self.next_order_id
    }

    /// Journals the submission of `order` and submits it to the book.
    pub fn submit(&mut self, order: Order) -> (r: SubmitResult)
        requires
            old(self).wf(),
        ensures
            final(self).wf(),
            final(self)@ == old(self)@.submitted(order),
            r.tells(old(self)@.book, order),
    {
        let ghost before = self@;
        self.journal.push(EngineEvent::Submit { order });
        proof {
            let n = self.journal.len();
            lemma_history(before.journal);
            lemma_submission_growth(before.book, order);
            assert(self.journal@.drop_last() =~= before.journal);
        }
        let result = self.book.submit(order);
        extend_log(&mut self.trade_log, &result.trades);
        assert(self@ =~= before.submitted(order));
        result
    }

    /// Journals the cancellation of order `order_id` and cancels it in the
    /// book. Says whether it was there to cancel.
    pub fn cancel(&mut self, order_id: u64, timestamp_ms: i64) -> (r: bool)
        requires
            old(self).wf(),
        ensures
            final(self).wf(),
            final(self)@ == old(self)@.cancelled(order_id, timestamp_ms),
            r == old(self)@.book.index.contains_key(order_id),
    {
        let ghost before = self@;
        self.journal.push(EngineEvent::Cancel { order_id, timestamp_ms });
        let found = self.book.cancel(order_id);
        proof {
            assert(self.journal@.drop_last() =~= before.journal);
            assert(self@ =~= before.cancelled(order_id, timestamp_ms));
        }
        found
    }

    /// The best levels of each side, summed up.
    pub fn snapshot(&self) -> (r: BookSnapshot)
        requires
            self.wf(),
        ensures
            sums_up(r.bids@, group(self@.book.bids), 25),
            sums_up(r.asks@, group(self@.book.asks), 25),
    {
        proof {
            self.book.lemma_levels(Side::Buy);
            self.book.lemma_levels(Side::Sell);
        }
        self.book.snapshot(SNAPSHOT_DEPTH)
    }

    /// The journal of an engine is no longer than a vector can be.
    pub proof fn lemma_journal_len(self)
        ensures
            self@.journal.len() <= usize::MAX,
    {
        assert(self.journal.len() == self.journal@.len());
    }

    /// The last order id that was given out.
    pub fn last_id(&self) -> (r: u64)
        ensures
            r == self@.last_order_id,
    {
        self.next_order_id
    }

    /// How many events the journal holds, and the first and the last time among
    /// them.
    pub fn span(&self) -> (r: (usize, Option<i64>, Option<i64>))
        ensures
            r.0 == self@.journal.len(),
            is_earliest(r.1, self@.journal),
            is_latest(r.2, self@.journal),
    {
        let mut earliest: Option<i64> = None;
        let mut latest: Option<i64> = None;
        let mut i: usize = 0;
        while i < self.journal.len()
            invariant
                i <= self.journal@.len(),
                is_earliest(earliest, self.journal@.take(i as int)),
                is_latest(latest, self.journal@.take(i as int)),
            decreases self.journal@.len() - i,
        {
            let t = self.journal[i].timestamp_ms();
            proof {
                lemma_span_push(self.journal@, i as int, earliest, latest);
            }
            earliest = match earliest {
                Some(e) if e <= t => Some(e),
                _ => Some(t),
            };
            latest = match latest {
                Some(l) if l >= t => Some(l),
                _ => Some(t),
            };
            i = i + 1;
        }
        assert(self.journal@.take(i as int) =~= self.journal@);
        (self.journal.len(), earliest, latest)
    }

    /// Rebuilds the book as it was at `target_time_ms` from the journal, and
    /// checks it.
    pub fn replay(&self, target_time_ms: i64) -> (r: ReplayResult)
        ensures
            r.shows(self@.journal, target_time_ms),
    {
        replay_to(self.journal.as_slice(), target_time_ms)
    }
}

/// Whether `t` is the time of the first of `events`, by time; none if there is
/// none.
pub open spec fn is_earliest(t: Option<i64>, events: Seq<EngineEvent>) -> bool {
    match t {
        None => events.len() == 0,
        Some(t) => {
            &&& exists|i: int| 0 <= i < events.len() && (#[trigger] events[i]).time() == t
            &&& forall|i: int| 0 <= i < events.len() ==> t <= (#[trigger] events[i]).time()
        },
    }
}

/// Whether `t` is the time of the last of `events`, by time; none if there is
/// none.
pub open spec fn is_latest(t: Option<i64>, events: Seq<EngineEvent>) -> bool {
    match t {
        None => events.len() == 0,
        Some(t) => {
            &&& exists|i: int| 0 <= i < events.len() && (#[trigger] events[i]).time() == t
            &&& forall|i: int| 0 <= i < events.len() ==> (#[trigger] events[i]).time() <= t
        },
    }
}

/// First and last time with one more event.
proof fn lemma_span_push(
    events: Seq<EngineEvent>,
    n: int,
    earliest: Option<i64>,
    latest: Option<i64>,
)
    requires
        0 <= n < events.len(),
        is_earliest(earliest, events.take(n)),
        is_latest(latest, events.take(n)),
    ensures
        is_earliest(
            match earliest {
                Some(e) if e <= events[n].time() => Some(e),
                _ => Some(events[n].time()),
            },
            events.take(n + 1),
        ),
        is_latest(
            match latest {
                Some(l) if l >= events[n].time() => Some(l),
                _ => Some(events[n].time()),
            },
            events.take(n + 1),
        ),
{
    let a = events.take(n);
    let b = events.take(n + 1);
    assert(b[n] == events[n]);
    assert forall|i: int| 0 <= i < n implies #[trigger] b[i] == a[i] by {}
    if let Some(e) = earliest {
        let i = choose|i: int| 0 <= i < a.len() && (#[trigger] a[i]).time() == e;
        assert(b[i].time() == e);
    }
    if let Some(l) = latest {
        let i = choose|i: int| 0 <= i < a.len() && (#[trigger] a[i]).time() == l;
        assert(b[i].time() == l);
    }
}

/// What a check of a replayed book found. Prices and quantities are in
/// billionths.
#[derive(Debug, Clone)]
pub struct ValidationReport {
    pub valid: bool,
    pub errors: Vec<String>,
    pub events_replayed: usize,
    pub events_skipped: usize,
    pub trades_produced: usize,
    pub best_bid: Option<i64>,
    pub best_ask: Option<i64>,
    pub total_bid_qty: i128,
    pub total_ask_qty: i128,
}

/// The book at a time, how it came about, and whether it is sound.
#[derive(Debug, Clone)]
pub struct ReplayResult {
    pub target_time_ms: i64,
    pub book: BookSnapshot,
    pub trades: Vec<Trade>,
    pub validation: ValidationReport,
}

/// The events of `journal` that a replay up to `target` runs: those that are
/// not later, by time.
pub open spec fn replayed(journal: Seq<EngineEvent>, target: i64) -> Seq<EngineEvent> {
    by_time(until(journal, target))
}

impl ReplayResult {
    /// Whether this and `other` are the same in all that they say of book, trades
    /// and validation.
    pub open spec fn same_findings(self, other: ReplayResult) -> bool {
        let a = self.validation;
        let b = other.validation;
        &&& self.target_time_ms == other.target_time_ms
        &&& self.book.bids@ == other.book.bids@
        &&& self.book.asks@ == other.book.asks@
        &&& self.trades@ == other.trades@
        &&& a.valid == b.valid
        &&& texts(a.errors@) == texts(b.errors@)
        &&& a.events_replayed == b.events_replayed
        &&& a.events_skipped == b.events_skipped
        &&& a.trades_produced == b.trades_produced
        &&& a.best_bid == b.best_bid
        &&& a.best_ask == b.best_ask
        &&& a.total_bid_qty == b.total_bid_qty
        &&& a.total_ask_qty == b.total_ask_qty
    }

    /// Whether this is what a replay of `journal` up to `target` shows: the
    /// book and the trades that the replayed events add up to, and that nothing
    /// is wrong with that book.
    pub open spec fn shows(self, journal: Seq<EngineEvent>, target: i64) -> bool {
        let events = replayed(journal, target);
        let h = history(events);
        let report = self.validation;
        &&& self.target_time_ms == target
        &&& sums_up(self.book.bids@, group(h.book.bids), SNAPSHOT_DEPTH as nat)
        &&& sums_up(self.book.asks@, group(h.book.asks), SNAPSHOT_DEPTH as nat)
        &&& self.trades@ == h.trades
        &&& report.valid
        &&& report.errors@.len() == 0
        &&& report.events_replayed == events.len()
        &&& report.events_skipped == journal.len() - events.len()
        &&& report.trades_produced == h.trades.len()
        &&& report.best_bid == best(group(h.book.bids))
        &&& report.best_ask == best(group(h.book.asks))
        &&& report.total_bid_qty == total(h.book.bids)
        &&& report.total_ask_qty == total(h.book.asks)
    }
}

/// Rebuilds the book from `journal` as it was at `target_time_ms`, and checks
/// it.
pub fn replay_to(journal: &[EngineEvent], target_time_ms: i64) -> (r: ReplayResult)
    ensures
        r.shows(journal@, target_time_ms),
{
    let mut book = OrderBook::new();
    let mut trades: Vec<Trade> = Vec::new();
    let mut replayed: usize = 0;
    let mut skipped: usize = 0;
    let ordered = sort_by_time(journal);
    let ghost keep = |e: EngineEvent| e.time() <= target_time_ms;
    let mut i: usize = 0;
    proof {
        lemma_by_time(journal@);
        lemma_by_time_filter(journal@, keep);
        reveal(Seq::filter);
        assert(ordered@.take(0).len() == 0);
    }
    while i < ordered.len()
        invariant
            i <= ordered@.len(),
            keep == (|e: EngineEvent| e.time() <= target_time_ms),
            book.wf(),
            history(ordered@.take(i as int).filter(keep)) == (History {
                book: book@,
                trades: trades@,
            }),
            replayed == ordered@.take(i as int).filter(keep).len(),
            replayed + skipped == i,
        decreases ordered@.len() - i,
    {
        let event = ordered[i];
        let ghost done = ordered@.take(i as int);
        proof {
            assert(ordered@.take(i + 1) =~= done.push(event));
            lemma_filter_push(done, event, keep);
            assert(done.filter(keep).push(event).drop_last() =~= done.filter(keep));
            lemma_history(done.filter(keep));
        }
        i = i + 1;
        if event.timestamp_ms() > target_time_ms {
            skipped = skipped + 1;
        } else {
            match event {
                EngineEvent::Submit { order } => {
                    proof {
                        lemma_submission_growth(book@, order);
                    }
                    let result = book.submit(order);
                    extend_log(&mut trades, &result.trades);
                },
                EngineEvent::Cancel { order_id, .. } => {
                    book.cancel(order_id);
                },
            }
            replayed = replayed + 1;
        }
    }
    proof {
        assert(ordered@.take(i as int) =~= ordered@);
        lemma_history(ordered@.filter(keep));
        lemma_no_faults(book);
        book.lemma_levels(Side::Buy);
        book.lemma_levels(Side::Sell);
    }
    let validation = validate(&book, trades.as_slice(), replayed, skipped);
    let snapshot = book.snapshot(SNAPSHOT_DEPTH);
    ReplayResult { target_time_ms, book: snapshot, trades, validation }
}

/// Checks `book`: it is not crossed, no level is empty or has nothing left, and
/// the levels are in price order.
pub fn validate(
    book: &OrderBook,
    trades: &[Trade],
    replayed: usize,
    skipped: usize,
) -> (r: ValidationReport)
    requires
        book@.bids.len() <= u64::MAX,
        book@.asks.len() <= u64::MAX,
    ensures
        texts(r.errors@) == faults(book.levels(Side::Buy), book.levels(Side::Sell)),
        r.valid == (faults(book.levels(Side::Buy), book.levels(Side::Sell)).len() == 0),
        r.events_replayed == replayed,
        r.events_skipped == skipped,
        r.trades_produced == trades@.len(),
        r.best_bid == best(book.levels(Side::Buy)),
        r.best_ask == best(book.levels(Side::Sell)),
        r.total_bid_qty == total(book@.bids),
        r.total_ask_qty == total(book@.asks),
{
    let ghost bids = book.levels(Side::Buy);
    let ghost asks = book.levels(Side::Sell);
    let mut errors: Vec<String> = Vec::new();
    let best_bid = book.best_bid();
    let best_ask = book.best_ask();
    check_crossed(&mut errors, best_bid, best_ask);
    let snapshot = book.snapshot(usize::MAX);
    check_levels(&mut errors, &snapshot.bids, Ghost(bids));
    check_levels(&mut errors, &snapshot.asks, Ghost(asks));
    check_order(&mut errors, Side::Buy, &snapshot.bids, Ghost(bids));
    check_order(&mut errors, Side::Sell, &snapshot.asks, Ghost(asks));
    assert(texts(errors@) =~= faults(bids, asks));
    assert(texts(errors@).len() == errors@.len());
    let total_bid_qty = rows_total(&snapshot.bids, Ghost(bids));
    let total_ask_qty = rows_total(&snapshot.asks, Ghost(asks));
    ValidationReport {
        valid: errors.len() == 0,
        errors,
        events_replayed: replayed,
        events_skipped: skipped,
        trades_produced: trades.len(),
        best_bid,
        best_ask,
        total_bid_qty,
        total_ask_qty,
    }
}

} // verus!
