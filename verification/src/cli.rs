//! The options of the subcommands that take no fractional numbers. The
//! command line itself is parsed by the program around the library.

use vstd::prelude::*;

verus! {

/// Options of `scan`.
pub struct ScanArgs {
    /// Target host (IP address or hostname).
    pub host: String,
    /// Port range (e.g. "80,443" or "1-1024").
    pub ports: String,
    /// Timeout per port in milliseconds.
    pub timeout: u64,
    /// Maximum concurrent connections.
    pub concurrency: usize,
    /// Detect services on open ports.
    pub service: bool,
}

/// Options of `discover`.
pub struct DiscoverArgs {
    /// Subnet in CIDR notation (e.g. "192.168.1.0/24").
    pub subnet: String,
    /// Timeout per host in milliseconds.
    pub timeout: u64,
    /// Maximum concurrent probes.
    pub concurrency: usize,
}

/// Options of `lookup`.
pub struct LookupArgs {
    /// Hostname or IP address to look up.
    pub host: String,
    /// Perform reverse DNS lookup (IP -> hostname).
    pub reverse: bool,
}

} // verus!
