//! Host discovery: which hosts of a subnet answered a ping, in address
//! order. The sweep itself is run by the program around the library.

pub mod subnet;

use vstd::prelude::*;
use crate::addr::HostAddr;
use crate::ping::PingReply;
use crate::sorting::{sort_by_key, sorted_by_key, with_key, SortKey};
use crate::text::{chars_of, slice_copy, string_of};

verus! {

/// A host that answered.
#[derive(Debug)]
pub struct HostInfo {
    pub ip: HostAddr,
    pub rtt_us: u32,
    pub hostname: Option<String>,
}

/// The order of addresses: every IPv4 address before every IPv6 address,
/// each family in numeric order (the order of `IpAddr`).
pub open spec fn addr_rank(a: HostAddr) -> int {
    match a {
        HostAddr::V4(v) => v as int,
        HostAddr::V6(v) => 0x1_0000_0000 + v,
    }
}

impl SortKey for HostInfo {
    open spec fn sort_key(&self) -> int {
        addr_rank(self.ip)
    }

    fn key_le(&self, other: &Self) -> (b: bool) {
        match (self.ip, other.ip) {
            (HostAddr::V4(a), HostAddr::V4(b)) => a <= b,
            (HostAddr::V4(_), HostAddr::V6(_)) => true,
            (HostAddr::V6(_), HostAddr::V4(_)) => false,
            (HostAddr::V6(a), HostAddr::V6(b)) => a <= b,
        }
    }
}

/// What one probe of the sweep finds: a host that answered, with its reply
/// time; none for a lost or failed probe. Its host name is looked up
/// separately (see `named_host`).
pub fn host_info(ip: HostAddr, reply: &PingReply) -> (r: Option<HostInfo>)
    ensures
        match *reply {
            PingReply::Reply { rtt_us } => r matches Some(h) && h.ip == ip && h.rtt_us == rtt_us
                && h.hostname is None,
            _ => r is None,
        },
{
    match reply {
        PingReply::Reply { rtt_us } => Some(HostInfo { ip, rtt_us: *rtt_us, hostname: None }),
        _ => None,
    }
}

/// A PTR name as a host label: the name without its final root dot.
pub open spec fn host_label(name: Seq<char>) -> Seq<char> {
    if name.len() > 0 && name.last() == '.' {
        name.drop_last()
    } else {
        name
    }
}

/// A live host with the name that its reverse lookup gave: the first PTR
/// name, without its final dot; no name where the lookup gave none.
pub fn named_host(host: HostInfo, ptr_names: &[String]) -> (r: HostInfo)
    ensures
        r.ip == host.ip,
        r.rtt_us == host.rtt_us,
        ptr_names@.len() == 0 ==> r.hostname is None,
        ptr_names@.len() > 0 ==> (r.hostname matches Some(n) && n@ == host_label(ptr_names@[0]@)),
{
    if ptr_names.len() == 0 {
        return HostInfo { hostname: None, ..host };
    }
    let v = chars_of(ptr_names[0].as_str());
    let label = if v.len() > 0 && v[v.len() - 1] == '.' {
        slice_copy(&v, 0, v.len() - 1)
    } else {
        v
    };
    assert(v@.len() > 0 ==> v@.subrange(0, v@.len() - 1) =~= v@.drop_last());
    HostInfo { hostname: Some(string_of(&label)), ..host }
}

/// Puts the live hosts in address order; hosts with the same address keep
/// their order.
pub fn sort_hosts(hosts: Vec<HostInfo>) -> (r: Vec<HostInfo>)
    ensures
        sorted_by_key(r@),
        r@.to_multiset() == hosts@.to_multiset(),
        forall|k: int| #[trigger] with_key(r@, k) == with_key(hosts@, k),
{
    sort_by_key(hosts)
}

} // verus!
