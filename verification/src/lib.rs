//! A local disk cache for the outputs of external subprocess invocations,
//! keyed by a deterministic fingerprint of the command and its execution
//! environment, so that repeated invocations within a time-to-live return
//! previously captured output without re-executing.
//!
//! The core is verified: descriptors and their fingerprints, the record
//! wire format, the advisory file lock, and the two-level key-to-data
//! store with its lookup, publication and cleanup rules, stated over an
//! explicit model of the cache root's on-disk state (`cache::CacheFs`).
//! An embedder binds that model to a real filesystem and real
//! subprocesses; every decision in between is made and proved here.

use vstd::prelude::*;

pub mod cache;
pub mod codec;
pub mod desc;
pub mod fingerprint;
pub mod lock;
pub mod orch;
pub mod record;

verus! {

/// Nanoseconds in one second; durations throughout the crate are u64 nanosecond counts.
pub const NANOS_PER_SEC: u64 = 1_000_000_000;

/// Smallest whole number of seconds that covers `nanos` nanoseconds.
pub open spec fn spec_seconds_ceiling(nanos: u64) -> u64 {
    if nanos % NANOS_PER_SEC == 0 {
        (nanos / NANOS_PER_SEC) as u64
    } else {
        (nanos / NANOS_PER_SEC + 1) as u64
    }
}

} // verus!
