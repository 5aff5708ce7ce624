//! Port scanning: what a scan found, and the rules that build it.

pub mod ports;
pub mod service;
pub mod tcp_connect;

use vstd::prelude::*;

verus! {

/// A finished scan of one host.
#[derive(Debug)]
pub struct ScanResult {
    pub host: String,
    pub ip: String,
    pub ports: Vec<PortResult>,
    pub elapsed_ms: u64,
}

/// What the scan found on one port.
#[derive(Debug)]
pub struct PortResult {
    pub port: u16,
    pub state: PortState,
    pub service: Option<String>,
}

#[derive(Debug, Clone, Copy, PartialEq, Eq, Structural)]
pub enum PortState {
    Open,
    Closed,
}

/// How many of the port results are open.
pub open spec fn open_count_of(ports: Seq<PortResult>) -> nat
    decreases ports.len(),
{
    if ports.len() == 0 {
        0
    } else {
        open_count_of(ports.drop_last()) + if ports.last().state == PortState::Open {
            1nat
        } else {
            0nat
        }
    }
}

proof fn lemma_open_count_bound(ports: Seq<PortResult>)
    ensures
        open_count_of(ports) <= ports.len(),
    decreases ports.len(),
{
    if ports.len() > 0 {
        lemma_open_count_bound(ports.drop_last());
    }
}

impl PortResult {
    pub fn is_open(&self) -> (b: bool)
        ensures
            b == (self.state == PortState::Open),
    {
        self.state == PortState::Open
    }
}

impl ScanResult {
    /// The number of open ports.
    pub fn open_count(&self) -> (n: usize)
        ensures
            n == open_count_of(self.ports@),
    {
        let mut n: usize = 0;
        for i in 0..self.ports.len()
            invariant
                n == open_count_of(self.ports@.take(i as int)),
        {
            assert(self.ports@.take(i + 1).drop_last() =~= self.ports@.take(i as int));
            proof {
                lemma_open_count_bound(self.ports@.take(i as int));
            }
            if self.ports[i].is_open() {
                n = n + 1;
            }
        }
        assert(self.ports@.take(self.ports@.len() as int) =~= self.ports@);
        n
    }

    /// The number of ports found closed or filtered.
    pub fn closed_count(&self) -> (n: usize)
        ensures
            n == self.ports@.len() - open_count_of(self.ports@),
    {
        proof {
            lemma_open_count_bound(self.ports@);
        }
        self.ports.len() - self.open_count()
    }
}

} // verus!
