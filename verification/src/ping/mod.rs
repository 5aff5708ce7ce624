//! Ping: the reply to one echo request, the reading of the system `ping`
//! command's output, and the statistics over a run.

pub mod fallback;
pub mod stats;

use vstd::prelude::*;

verus! {

/// The outcome of one echo request. A reply time is held in microseconds.
#[derive(Debug, Clone)]
pub enum PingReply {
    Reply { rtt_us: u32 },
    Timeout,
    Error(String),
}

} // verus!
