//! The colored terminal tables.

use vstd::prelude::*;

verus! {

/// How a reply time is shown.
#[derive(Debug, Clone, Copy, PartialEq, Eq, Structural)]
pub enum RttLevel {
    /// Plain.
    Normal,
    /// In yellow: over 100 ms.
    Slow,
    /// In red: over 500 ms.
    Critical,
}

/// The level of a reply time given in microseconds.
pub open spec fn rtt_level_of(rtt_us: u32) -> RttLevel {
    if rtt_us > 500_000 {
        RttLevel::Critical
    } else if rtt_us > 100_000 {
        RttLevel::Slow
    } else {
        RttLevel::Normal
    }
}

/// The formatter that prints colored tables.
pub struct TableFormatter;

impl TableFormatter {
    pub fn new() -> Self {
        TableFormatter
    }

    /// How a reply time is shown: red over 500 ms, yellow over 100 ms,
    /// plain otherwise.
    pub fn rtt_level(&self, rtt_us: u32) -> (l: RttLevel)
        ensures
            l == rtt_level_of(rtt_us),
    {
        if rtt_us > 500_000 {
            RttLevel::Critical
        } else if rtt_us > 100_000 {
            RttLevel::Slow
        } else {
            RttLevel::Normal
        }
    }
}

/// A longer reply time is never shown at a lower level.
pub proof fn law_rtt_level_monotone(a: u32, b: u32)
    requires
        a <= b,
    ensures
        rtt_level_of(a) == RttLevel::Critical ==> rtt_level_of(b) == RttLevel::Critical,
        rtt_level_of(a) == RttLevel::Slow ==> rtt_level_of(b) != RttLevel::Normal,
{
}

} // verus!
