//! The library's error type.

use vstd::prelude::*;

verus! {

/// Errors of the toolkit. The messages that go with each variant are
/// written where the error is shown.
#[derive(Debug)]
pub enum MeshpingError {
    DnsError { host: String, reason: String },
    ConnectionError { host: String, port: u16, reason: String },
    PingError { host: String, reason: String },
    InvalidPortRange(String),
    InvalidCidr(String),
    CommandError(String),
    /// A timeout, in milliseconds.
    Timeout(u64),
    Other(String),
}

} // verus!
