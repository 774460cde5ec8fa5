//! A verified domain discovery engine.
//!
//! A deterministic, resumable generator enumerates candidate domains from an
//! alphabet, a length range and a TLD list; a rate- and concurrency-limited
//! prober decides which candidates count as reachable; a grouped store keeps
//! the results; progress counters and a durable resume snapshot make the run
//! observable and restartable. The I/O — files, sockets, clocks, the task
//! runtime — lives outside this crate and drives the state machines defined
//! here.
pub mod api;
pub mod config;
pub mod generator;
pub mod pipeline;
pub mod prober;
pub mod progress;
pub mod resume;
pub mod store;
pub mod text;

use vstd::prelude::*;

verus! {

/// A candidate count cap of zero means "uncapped"; any positive cap is kept.
pub fn normalize_cap(cap: i64) -> (r: i64)
    ensures
        r == if cap > 0 {
            cap
        } else {
            0i64
        },
{
    if cap > 0 {
        cap
    } else {
        0
    }
}

} // verus!
