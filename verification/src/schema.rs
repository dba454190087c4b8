//! Signals between the matching engine and its viewers.
use vstd::prelude::*;

verus! {

/// A signal over the socket.
#[derive(Debug, Clone)]
pub enum Signal {
    ClickSnapshot { timestamp: i64 },
    ReplaySnapshot {
        recording_id: i32,
        start_seq_num: i32,
        end_seq_num: i32,
        snapshot: Vec<u8>,
    },
}

} // verus!
