//! DNS lookups: the records found for a query.

pub mod resolver;

use vstd::prelude::*;

verus! {

/// The records found for one query, and how long the lookup took.
#[derive(Debug)]
pub struct LookupResult {
    pub query: String,
    pub a_records: Vec<DnsRecord>,
    pub aaaa_records: Vec<DnsRecord>,
    pub mx_records: Vec<DnsRecord>,
    pub ptr_records: Vec<DnsRecord>,
    pub elapsed_ms: u64,
}

#[derive(Debug)]
pub struct DnsRecord {
    pub value: String,
    pub ttl: u32,
}

/// Each record's value and TTL, in order.
pub open spec fn record_views(rs: Seq<DnsRecord>) -> Seq<(Seq<char>, u32)> {
    rs.map_values(|r: DnsRecord| (r.value@, r.ttl))
}

} // verus!
