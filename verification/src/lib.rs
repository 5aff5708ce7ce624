//! meshping: a network diagnostic toolkit. This library holds its logic,
//! with proofs: ping output reading and reply-time statistics, port lists
//! and scan results, subnet sweeps, traceroute output reading, DNS lookup
//! results, and the text of host addresses.

pub mod addr;
pub mod cli;
pub mod discover;
pub mod error;
pub mod lookup;
pub mod output;
pub mod ping;
pub mod scan;
pub mod sorting;
pub mod text;
pub mod trace;

pub use error::MeshpingError;
