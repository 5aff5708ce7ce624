//! The rules of a TCP connect scan: what one probe means, and the order of
//! the results. The probes themselves are made by the program around the
//! library.

use vstd::prelude::*;
use super::{PortResult, PortState};
use super::ports::{known_service, service_name};
use crate::sorting::{sort_by_key, sorted_by_key, with_key, SortKey};

verus! {

impl SortKey for PortResult {
    open spec fn sort_key(&self) -> int {
        self.port as int
    }

    fn key_le(&self, other: &Self) -> (b: bool) {
        self.port <= other.port
    }
}

/// The result for one port. A port that accepted the connection is open,
/// and its service is the banner it sent where there is one, else its
/// well-known service; any other port is closed, with no service.
pub fn port_result(port: u16, connected: bool, banner: Option<String>) -> (r: PortResult)
    ensures
        r.port == port,
        r.state == (if connected { PortState::Open } else { PortState::Closed }),
        !connected ==> r.service is None,
        connected && banner is Some ==> r.service == banner,
        connected && banner is None ==> (r.service is None <==> known_service(port) is None),
        connected && banner is None ==> (r.service matches Some(s) ==> known_service(port) == Some(
            s@,
        )),
{
    if !connected {
        return PortResult { port, state: PortState::Closed, service: None };
    }
    let service = match banner {
        Some(b) => Some(b),
        None => match service_name(port) {
            Some(name) => Some(name.to_owned()),
            None => None,
        },
    };
    PortResult { port, state: PortState::Open, service }
}

/// Puts the results in ascending port order; results for the same port keep
/// their order.
pub fn sort_port_results(results: Vec<PortResult>) -> (r: Vec<PortResult>)
    ensures
        sorted_by_key(r@),
        r@.to_multiset() == results@.to_multiset(),
        forall|k: int| #[trigger] with_key(r@, k) == with_key(results@, k),
{
    sort_by_key(results)
}

} // verus!
