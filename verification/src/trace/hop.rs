//! One hop of a traced route.

use vstd::prelude::*;

verus! {

/// One hop: its TTL, and the address, reply time (in microseconds) and
/// host name that the trace shows for it, where it shows them.
#[derive(Debug)]
pub struct TraceHop {
    pub ttl: u8,
    pub ip: Option<String>,
    pub rtt_us: Option<u32>,
    pub hostname: Option<String>,
}

/// A hop with its texts as character sequences.
pub struct HopView {
    pub ttl: u8,
    pub ip: Option<Seq<char>>,
    pub rtt_us: Option<u32>,
    pub hostname: Option<Seq<char>>,
}

pub open spec fn opt_view(o: Option<String>) -> Option<Seq<char>> {
    match o {
        Some(s) => Some(s@),
        None => None,
    }
}

impl View for TraceHop {
    type V = HopView;

    open spec fn view(&self) -> HopView {
        HopView {
            ttl: self.ttl,
            ip: opt_view(self.ip),
            rtt_us: self.rtt_us,
            hostname: opt_view(self.hostname),
        }
    }
}

} // verus!
