//! Discovery and verification of HTTP forward proxies.
//!
//! The library holds the logic of the pipeline: parsing candidate
//! endpoints from input records, enumerating the usable hosts of a
//! subnet, classifying geolocation replies into verification outcomes,
//! the aggregator state machine that drives the run, and the sorted
//! final report.  Network probing, HTTP traffic and console rendering
//! live outside the library and hand it plain values.

use vstd::prelude::*;

pub mod addr;
pub mod geo;
pub mod pipeline;
pub mod report;
pub mod subnet;
pub mod text;

verus! {

/// Port scanned or tested when none is configured.
pub const DEFAULT_PORT: u16 = 7890;

/// Connect timeout of one range-mode probe, in milliseconds.
pub const DEFAULT_SCAN_TIMEOUT_MS: u64 = 200;

/// Timeout of one proxy verification, in seconds.
pub const DEFAULT_TEST_TIMEOUT_SECS: u64 = 10;

/// Capacity of the bounded candidate channel between the address
/// source and the verifier pool.
pub const CHANNEL_CAPACITY: usize = 200;

} // verus!
