use matching_engine::replay::{
    after_offer, after_poll, choose_recording, encode, measure, AfterOffer, AfterPoll, Offer,
    Recording, Tally, CHANNEL, MESSAGE_COUNT, REPLAY_STREAM_ID, STREAM_ID,
};
use matching_engine::schema::Signal;

#[test]
fn constants_of_the_archive() {
    assert_eq!((CHANNEL, STREAM_ID, REPLAY_STREAM_ID), ("aeron:ipc", 16, 17));
}

#[test]
fn payload_is_little_endian() {
    for i in [0, 1, 255, 256, -1, -2, 123_456_789_012_345, i64::MAX, i64::MIN] {
        assert_eq!(encode(i), i.to_le_bytes().to_vec());
    }
}

#[test]
fn payload_gives_back_its_number() {
    for i in [0, 1, 77_777, -1, -9_000_000_000, i64::MAX, i64::MIN] {
        let mut tally = Tally::new();
        tally.on_fragment(&encode(i));
        assert_eq!((tally.received, tally.first, tally.last), (1, i, i));
    }
}

#[test]
fn longer_fragments_count_and_shorter_do_not() {
    let mut tally = Tally::new();
    assert!(!tally.on_fragment(&[1, 2, 3]));
    assert_eq!(tally, Tally::new());
    tally.on_fragment(&[5, 0, 0, 0, 0, 0, 0, 0, 9, 9]);
    tally.on_fragment(&encode(6));
    assert_eq!((tally.received, tally.first, tally.last), (2, 5, 6));
}

#[test]
fn offers_are_counted() {
    assert_eq!(
        after_offer(99_999, Offer::Accepted),
        AfterOffer { published: 100_000, progress: true, again: false }
    );
    assert_eq!(
        after_offer(5, Offer::Accepted),
        AfterOffer { published: 6, progress: false, again: false }
    );
    assert_eq!(
        after_offer(100_000, Offer::Retryable),
        AfterOffer { published: 100_000, progress: false, again: true }
    );
    assert_eq!(
        after_offer(5, Offer::Failed),
        AfterOffer { published: 5, progress: false, again: false }
    );
}

#[test]
fn newest_recording_is_replayed() {
    let r = |id: i64, start: i64| Recording { id, start, stop: start + 1 };
    assert_eq!(choose_recording(&vec![r(3, 0), r(7, 1), r(5, 2), r(7, 3)]), Ok(r(7, 1)));
    assert_eq!(choose_recording(&vec![r(0, 4)]), Ok(r(0, 4)));
    assert_eq!(choose_recording(&vec![]), Err("No recording found!".to_string()));
    assert_eq!(choose_recording(&vec![r(-1, 0)]), Err("No recording found!".to_string()));
}

#[test]
fn extent_of_a_recording() {
    let e = measure(&Recording { id: 1, start: 100, stop: 64_000_100 });
    assert_eq!((e.length, e.expected, e.per_message, e.mismatch), (64_000_000, 64_000_000, 64, false));
    let e = measure(&Recording { id: 1, start: 2_500_000, stop: 0 });
    assert_eq!((e.length, e.per_message, e.mismatch), (-2_500_000, -2, true));
}

#[test]
fn silence_stalls_a_replay() {
    assert_eq!(after_poll(3, u128::MAX), AfterPoll::Progress);
    assert_eq!(after_poll(0, 5_000_000_000), AfterPoll::Yield);
    assert_eq!(after_poll(0, 5_000_000_001), AfterPoll::Stalled);
}

#[test]
fn faithful_replay_passes() {
    let mut tally = Tally::new();
    let mut shown = 0;
    for i in 0..MESSAGE_COUNT {
        assert!(tally.wants_more());
        if tally.on_fragment(&encode(i)) {
            shown += 1;
        }
    }
    assert!(!tally.wants_more());
    assert_eq!(shown, 10);
    assert_eq!(tally.verdict(MESSAGE_COUNT), Ok(()));
    assert_eq!(
        tally.verdict(MESSAGE_COUNT - 1),
        Err("Unexpected replay count: 1000000/999999".to_string())
    );
}

#[test]
fn replay_with_wrong_ends_fails() {
    let tally = Tally { received: 1_000_000, first: 1, last: 999_999 };
    assert!(tally.verdict(1_000_000).is_err());
    let tally = Tally { received: 1_000_000, first: 0, last: 999_998 };
    assert_eq!(
        tally.verdict(1_000_000),
        Err("Unexpected replay count: 1000000/1000000".to_string())
    );
}

#[test]
fn signals_hold_what_they_are_given() {
    let s = Signal::ReplaySnapshot {
        recording_id: 1,
        start_seq_num: 2,
        end_seq_num: 3,
        snapshot: vec![4, 5],
    };
    assert!(matches!(s.clone(), Signal::ReplaySnapshot { snapshot, .. } if snapshot == vec![4, 5]));
    assert!(matches!(Signal::ClickSnapshot { timestamp: 9 }, Signal::ClickSnapshot { timestamp: 9 }));
}
