//! A check that an archive replays what was recorded: numbered messages go in,
//! and the same numbers have to come out.
use crate::text::{digits, push_number};
use vstd::arithmetic::div_mod::lemma_fundamental_div_mod;
use vstd::prelude::*;

verus! {

pub const CHANNEL: &'static str = "aeron:ipc";

pub const STREAM_ID: i32 = 16;

pub const REPLAY_STREAM_ID: i32 = 17;

/// How many messages are recorded.
pub const MESSAGE_COUNT: i64 = 1_000_000;

/// How long the replay may be silent before it counts as stalled, in
/// nanoseconds.
pub const REPLAY_IDLE_TIMEOUT_NS: u128 = 5_000_000_000;

/// How many bytes a message takes in a recording: a header of 32, eight of
/// payload, and 24 of padding.
pub const BYTES_PER_MESSAGE: i64 = 64;

/// After how many messages progress is shown.
pub const PROGRESS_EVERY: i64 = 100_000;

/// 2^64.
pub open spec fn modulus() -> int {
    0x1_0000_0000_0000_0000
}

/// The eight bytes of the natural number `u`, the lowest first.
pub open spec fn low_bytes(u: int) -> Seq<u8> {
    let q1 = u / 256;
    let q2 = q1 / 256;
    let q3 = q2 / 256;
    let q4 = q3 / 256;
    let q5 = q4 / 256;
    let q6 = q5 / 256;
    let q7 = q6 / 256;
    seq![
        (u % 256) as u8,
        (q1 % 256) as u8,
        (q2 % 256) as u8,
        (q3 % 256) as u8,
        (q4 % 256) as u8,
        (q5 % 256) as u8,
        (q6 % 256) as u8,
        (q7 % 256) as u8,
    ]
}

/// The natural number that the first eight of `b` make, the lowest first.
pub open spec fn low_value(b: Seq<u8>) -> int {
    b[0] + 256 * (b[1] + 256 * (b[2] + 256 * (b[3] + 256 * (b[4] + 256 * (b[5] + 256 * (b[6] + 256
        * b[7]))))))
}

/// The payload of message `i`: its number as a signed 64-bit integer in two's
/// complement, the lowest byte first.
pub open spec fn payload(i: i64) -> Seq<u8> {
    low_bytes(
        if i < 0 {
            i + modulus()
        } else {
            i as int
        },
    )
}

/// The number in a payload.
pub open spec fn number_in(b: Seq<u8>) -> int {
    let u = low_value(b);
    if 2 * u < modulus() {
        u
    } else {
        u - modulus()
    }
}

/// The number in the payload of message `i` is `i`.
pub proof fn lemma_payload_round_trip(i: i64)
    ensures
        payload(i).len() == 8,
        number_in(payload(i)) == i,
{
    let u = if i < 0 {
        i + modulus()
    } else {
        i as int
    };
    let q1 = u / 256;
    let q2 = q1 / 256;
    let q3 = q2 / 256;
    let q4 = q3 / 256;
    let q5 = q4 / 256;
    let q6 = q5 / 256;
    let q7 = q6 / 256;
    assert(0 <= q7 < 256);
    assert(low_value(low_bytes(u)) == u);
}

/// The payload of message `i`.
pub fn encode(i: i64) -> (r: Vec<u8>)
    ensures
        r@ == payload(i),
{
    let u: u64 = if i < 0 {
        u64::MAX - ((-(i + 1)) as u64)
    } else {
        i as u64
    };
    let q1 = u / 256;
    let q2 = q1 / 256;
    let q3 = q2 / 256;
    let q4 = q3 / 256;
    let q5 = q4 / 256;
    let q6 = q5 / 256;
    let q7 = q6 / 256;
    let r: Vec<u8> = vec![
        (u % 256) as u8,
        (q1 % 256) as u8,
        (q2 % 256) as u8,
        (q3 % 256) as u8,
        (q4 % 256) as u8,
        (q5 % 256) as u8,
        (q6 % 256) as u8,
        (q7 % 256) as u8,
    ];
    assert(r@ =~= payload(i));
    r
}

/// The number in a payload.
fn decode(b: &[u8]) -> (r: i64)
    requires
        b@.len() >= 8,
    ensures
        r == number_in(b@),
{
    let u: u64 = b[0] as u64 + 256 * (b[1] as u64 + 256 * (b[2] as u64 + 256 * (b[3] as u64 + 256
        * (b[4] as u64 + 256 * (b[5] as u64 + 256 * (b[6] as u64 + 256 * b[7] as u64))))));
    if u <= i64::MAX as u64 {
        u as i64
    } else {
        -((u64::MAX - u) as i64) - 1
    }
}

/// How the offer of a message ended.
#[derive(Debug, Clone, Copy, PartialEq, Eq, Structural)]
pub enum Offer {
    Accepted,
    Retryable,
    Failed,
}

/// What follows on an offer: how many messages have been published, whether to
/// show progress, and whether to offer the same message again.
#[derive(Debug, Clone, Copy, PartialEq, Eq, Structural)]
pub struct AfterOffer {
    pub published: i64,
    pub progress: bool,
    pub again: bool,
}

/// What follows on the offer of a message that ended in `offer`, after
/// `published` messages.
pub fn after_offer(published: i64, offer: Offer) -> (r: AfterOffer)
    requires
        0 <= published < i64::MAX,
    ensures
        r == match offer {
            Offer::Accepted => AfterOffer {
                published: (published + 1) as i64,
                progress: (published + 1) % 100_000 == 0,
                again: false,
            },
            Offer::Retryable => AfterOffer { published, progress: false, again: true },
            Offer::Failed => AfterOffer { published, progress: false, again: false },
        },
{
    match offer {
        Offer::Accepted => AfterOffer {
            published: published + 1,
            progress: (published + 1) % PROGRESS_EVERY == 0,
            again: false,
        },
        Offer::Retryable => AfterOffer { published, progress: false, again: true },
        Offer::Failed => AfterOffer { published, progress: false, again: false },
    }
}

/// A recording: its id and the positions where it starts and stops.
#[derive(Debug, Clone, Copy, PartialEq, Eq, Structural)]
pub struct Recording {
    pub id: i64,
    pub start: i64,
    pub stop: i64,
}

/// Whether `r` is the recording to replay: the first of those with the largest
/// id, if that is not negative.
pub open spec fn is_newest(r: Option<Recording>, found: Seq<Recording>) -> bool {
    match r {
        None => forall|i: int| 0 <= i < found.len() ==> (#[trigger] found[i]).id < 0,
        Some(best) => best.id >= 0 && exists|k: int|
            0 <= k < found.len() && #[trigger] found[k] == best && newest_at(found, k),
    }
}

/// Whether no recording has a larger id than the `k`th, and none before it the
/// same.
pub open spec fn newest_at(found: Seq<Recording>, k: int) -> bool {
    &&& forall|i: int| 0 <= i < found.len() ==> (#[trigger] found[i]).id <= found[k].id
    &&& forall|i: int| 0 <= i < k ==> (#[trigger] found[i]).id < found[k].id
}

/// The recording to replay, out of those that were found; otherwise why there
/// is none.
pub fn choose_recording(found: &Vec<Recording>) -> (r: Result<Recording, String>)
    ensures
        match r {
            Ok(best) => is_newest(Some(best), found@),
            Err(why) => is_newest(None, found@) && why@ == "No recording found!"@,
        },
{
    let mut best: Option<usize> = None;
    let mut i: usize = 0;
    while i < found.len()
        invariant
            i <= found@.len(),
            match best {
                None => forall|j: int| 0 <= j < i ==> (#[trigger] found@[j]).id < 0,
                Some(k) => k < i && found@[k as int].id >= 0 && newest_at(
                    found@.take(i as int),
                    k as int,
                ),
            },
        decreases found@.len() - i,
    {
        let id = found[i].id;
        let last = match best {
            None => -1,
            Some(k) => found[k].id,
        };
        let ghost before = found@.take(i as int);
        let ghost now = found@.take(i + 1);
        proof {
            assert forall|j: int| 0 <= j < i implies #[trigger] now[j] == before[j] by {}
            assert(now[i as int] == found@[i as int]);
        }
        if id > last {
            proof {
                assert forall|j: int| 0 <= j < i implies (#[trigger] now[j]).id < id by {
                    assert(before[j] == found@[j]);
                    if let Some(k) = best {
                        assert(before[j].id <= before[k as int].id);
                    }
                }
            }
            best = Some(i);
        } else if let Some(k) = best {
            assert(newest_at(now, k as int)) by {
                assert forall|j: int| 0 <= j < now.len() implies (#[trigger] now[j]).id
                    <= now[k as int].id by {
                    if j < i {
                        assert(now[j] == before[j]);
                    }
                }
                assert forall|j: int| 0 <= j < k implies (#[trigger] now[j]).id
                    < now[k as int].id by {
                    assert(now[j] == before[j]);
                }
            }
        }
        i = i + 1;
    }
    assert(found@.take(i as int) =~= found@);
    match best {
        None => Err("No recording found!".to_string()),
        Some(k) => Ok(found[k]),
    }
}

/// How large a recording is, how large it should be, and how many bytes it has
/// for each message.
#[derive(Debug, Clone, Copy, PartialEq, Eq, Structural)]
pub struct Extent {
    pub length: i64,
    pub expected: i64,
    pub per_message: i64,
    pub mismatch: bool,
}

/// `a` divided by `b`, rounded towards zero.
pub open spec fn quotient(a: int, b: int) -> int {
    if a >= 0 {
        a / b
    } else {
        -((-a) / b)
    }
}

/// The extent of `recording`.
pub fn measure(recording: &Recording) -> (r: Extent)
    requires
        i64::MIN <= recording.stop - recording.start <= i64::MAX,
    ensures
        r.length == recording.stop - recording.start,
        r.expected == 64_000_000,
        r.per_message == quotient(r.length as int, 1_000_000),
        r.mismatch == (r.length != r.expected),
{
    let length = recording.stop - recording.start;
    let expected = BYTES_PER_MESSAGE * MESSAGE_COUNT;
    let per_message = if length >= 0 {
        length / MESSAGE_COUNT
    } else {
        -(((-(length as i128)) / MESSAGE_COUNT as i128) as i64)
    };
    Extent { length, expected, per_message, mismatch: length != expected }
}

/// What has come back so far: how many messages, and the first and the last
/// number.
#[derive(Debug, Clone, Copy, PartialEq, Eq, Structural)]
pub struct Tally {
    pub received: usize,
    pub first: i64,
    pub last: i64,
}

/// What has come back, as numbers without bounds.
pub struct Counts {
    pub received: int,
    pub first: int,
    pub last: int,
}

impl Counts {
    /// Nothing has come back.
    pub open spec fn none() -> Counts {
        Counts { received: 0, first: -1, last: -1 }
    }

    /// The counts after one more fragment. One that is too short for a payload
    /// does not count.
    pub open spec fn with(self, buffer: Seq<u8>) -> Counts {
        if buffer.len() < 8 {
            self
        } else {
            Counts {
                received: self.received + 1,
                first: if self.received == 0 {
                    number_in(buffer)
                } else {
                    self.first
                },
                last: number_in(buffer),
            }
        }
    }
}

/// The counts after the fragments `buffers`.
pub open spec fn tallied(buffers: Seq<Seq<u8>>) -> Counts
    decreases buffers.len(),
{
    if buffers.len() == 0 {
        Counts::none()
    } else {
        tallied(buffers.drop_last()).with(buffers.last())
    }
}

/// What follows on a poll of the replay.
#[derive(Debug, Clone, Copy, PartialEq, Eq, Structural)]
pub enum AfterPoll {
    /// Something came: the silence starts anew.
    Progress,
    /// Nothing came: poll again.
    Yield,
    /// Nothing has come for too long.
    Stalled,
}

/// What follows on a poll that gave `fragments` fragments, when nothing came for
/// `silence_ns` nanoseconds.
pub fn after_poll(fragments: usize, silence_ns: u128) -> (r: AfterPoll)
    ensures
        r == if fragments > 0 {
            AfterPoll::Progress
        } else if silence_ns > 5_000_000_000 {
            AfterPoll::Stalled
        } else {
            AfterPoll::Yield
        },
{
    if fragments > 0 {
        AfterPoll::Progress
    } else if silence_ns > REPLAY_IDLE_TIMEOUT_NS {
        AfterPoll::Stalled
    } else {
        AfterPoll::Yield
    }
}

/// What is said of a replay that gave back something else than was published.
pub open spec fn mismatch_text(received: int, published: int) -> Seq<char> {
    "Unexpected replay count: "@ + digits(received as nat) + "/"@ + digits(published as nat)
}

impl Tally {
    /// The counts.
    pub open spec fn counts(self) -> Counts {
        Counts {
            received: self.received as int,
            first: self.first as int,
            last: self.last as int,
        }
    }

    /// Nothing has come back.
    pub fn new() -> (r: Self)
        ensures
            r.counts() == Counts::none(),
            r.received == 0 && r.first == -1 && r.last == -1,
    {
        Tally { received: 0, first: -1, last: -1 }
    }

    /// Counts one fragment. Says whether to show progress.
    pub fn on_fragment(&mut self, buffer: &[u8]) -> (r: bool)
        requires
            old(self).received < usize::MAX,
        ensures
            final(self).counts() == old(self).counts().with(buffer@),
            r == (buffer@.len() >= 8 && final(self).received as int % 100_000 == 0),
    {
        if buffer.len() < 8 {
            return false;
        }
        let value = decode(buffer);
        if self.received == 0 {
            self.first = value;
        }
        self.last = value;
        self.received = self.received + 1;
        self.received % (PROGRESS_EVERY as usize) == 0
    }

    /// Whether messages are still missing.
    pub fn wants_more(&self) -> (r: bool)
        ensures
            r == (self.received < 1_000_000),
    {
        self.received < MESSAGE_COUNT as usize
    }

    /// Whether all of the `published` messages came back, from the first number
    /// to the last; otherwise what to say of it.
    pub fn verdict(&self, published: i64) -> (r: Result<(), String>)
        requires
            0 <= published,
        ensures
            match r {
                Ok(()) => self.received == published && self.first == 0 && self.last == 999_999,
                Err(why) => !(self.received == published && self.first == 0 && self.last
                    == 999_999) && why@ == mismatch_text(self.received as int, published as int),
            },
    {
        if self.received as u64 == published as u64 && self.first == 0 && self.last == MESSAGE_COUNT
            - 1 {
            Ok(())
        } else {
            let mut why = "Unexpected replay count: ".to_string();
            push_number(&mut why, self.received as u64);
            why.append("/");
            push_number(&mut why, published as u64);
            Err(why)
        }
    }
}

/// A replay that gives back the payloads of messages zero to `n - 1` in turn
/// counts `n` messages, of which the first is zero and the last `n - 1`: for
/// `n` the number of recorded messages, that is what passes.
pub proof fn lemma_faithful_replay_passes(n: nat)
    requires
        n <= i64::MAX,
    ensures
        tallied(Seq::new(n, |i: int| payload(i as i64))) == (Counts {
            received: n as int,
            first: if n == 0 {
                -1
            } else {
                0
            },
            last: n - 1,
        }),
    decreases n,
{
    if n > 0 {
        let m = (n - 1) as nat;
        lemma_faithful_replay_passes(m);
        let all = Seq::new(n, |i: int| payload(i as i64));
        assert(all.drop_last() =~= Seq::new(m, |i: int| payload(i as i64)));
        assert(all.last() == payload((n - 1) as i64));
        lemma_payload_round_trip((n - 1) as i64);
        lemma_payload_round_trip(0);
    }
}

/// What the bytes of a payload stand for: the first for ones and each further one
/// for 256 times as much as the one before; from half of all numbers up, for
/// negative ones.
pub proof fn lemma_bytes_stand_for(b: Seq<u8>, i: i64)
    requires
        b.len() >= 8,
    ensures
        ({
            let u = b[0] + b[1] * 0x100 + b[2] * 0x1_0000 + b[3] * 0x100_0000 + b[4] * 0x1_0000_0000
                + b[5] * 0x100_0000_0000 + b[6] * 0x1_0000_0000_0000 + b[7] * 0x100_0000_0000_0000;
            number_in(b) == if b[7] < 128 {
                u
            } else {
                u - 0x1_0000_0000_0000_0000
            }
        }),
        ({
            let p = payload(i);
            let u = p[0] + p[1] * 0x100 + p[2] * 0x1_0000 + p[3] * 0x100_0000 + p[4] * 0x1_0000_0000
                + p[5] * 0x100_0000_0000 + p[6] * 0x1_0000_0000_0000 + p[7] * 0x100_0000_0000_0000;
            &&& p.len() == 8
            &&& i == u || i == u - 0x1_0000_0000_0000_0000
        }),
{
    lemma_payload_round_trip(i);
}

/// What a quotient is: so many times `b` that nothing of the same size is left over,
/// and what is left over is on the same side of zero as `a`.
pub proof fn lemma_quotient(a: int, b: int)
    requires
        b > 0,
    ensures
        a >= 0 ==> 0 <= a - b * quotient(a, b) < b,
        a <= 0 ==> -b < a - b * quotient(a, b) <= 0,
{
    lemma_fundamental_div_mod(a, b);
    lemma_fundamental_div_mod(-a, b);
    assert(b * (-((-a) / b)) == -(b * ((-a) / b))) by (nonlinear_arith);
    assert(b * 0 == 0);
    if a == 0 {
        assert(0int / b == 0) by (nonlinear_arith)
            requires
                b > 0,
        ;
    }
}

/// What is counted: the fragments of eight bytes or more, the number in the first of
/// them and that in the last, or minus one as long as there is none.
pub proof fn lemma_what_is_counted(buffers: Seq<Seq<u8>>)
    ensures
        ({
            let long = buffers.filter(|b: Seq<u8>| b.len() >= 8);
            let counts = tallied(buffers);
            &&& counts.received == long.len()
            &&& long.len() == 0 ==> counts.first == -1 && counts.last == -1
            &&& long.len() > 0 ==> counts.first == number_in(long[0]) && counts.last == number_in(
                long.last(),
            )
        }),
    decreases buffers.len(),
{
    reveal(Seq::filter);
    if buffers.len() > 0 {
        lemma_what_is_counted(buffers.drop_last());
    }
}

/// Which recording is the newest: one of those found, with an id that is not
/// negative, as large as any and larger than those of all before it. There is none
/// only if all ids are negative.
pub proof fn lemma_newest(r: Option<Recording>, found: Seq<Recording>) -> (k: int)
    requires
        is_newest(r, found),
    ensures
        r is None <==> forall|i: int| 0 <= i < found.len() ==> (#[trigger] found[i]).id < 0,
        r matches Some(best) ==> {
            &&& 0 <= k < found.len()
            &&& found[k] == best
            &&& best.id >= 0
            &&& forall|i: int| 0 <= i < found.len() ==> (#[trigger] found[i]).id <= best.id
            &&& forall|i: int| 0 <= i < k ==> (#[trigger] found[i]).id < best.id
        },
{
    match r {
        None => 0,
        Some(best) => {
            let k = choose|k: int|
                0 <= k < found.len() && #[trigger] found[k] == best && newest_at(found, k);
            assert(found[k].id >= 0);
            k
        },
    }
}

/// What is said of a replay that gave back something else than was published: both
/// counts.
pub proof fn lemma_mismatch_text(received: nat, published: nat)
    ensures
        mismatch_text(received as int, published as int) == "Unexpected replay count: "@ + digits(
            received,
        ) + "/"@ + digits(published),
{
}

} // verus!
