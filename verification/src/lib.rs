//! Per-device daily check-in streaks with authorization-scoped live event
//! fan-out.
//!
//! The library models the system's state in plain values and verifies every
//! state transition: the idempotent streak engine, the bounded publish/
//! subscribe event bus, the supervision request workflow that populates the
//! supervision directory, and the per-connection stream filter that forwards
//! a check-in event only to registered supervisors of the checking-in device.

pub mod bus;
pub mod clock;
pub mod devices;
pub mod errors;
pub mod idgen;
pub mod models;
pub mod service;
pub mod streak;
pub mod stream;
pub mod supervision;

use vstd::prelude::*;

verus! {

/// Number of seconds in one UTC calendar day.
pub const SECONDS_PER_DAY: u64 = 86400;

/// The UTC calendar day that a timestamp (seconds since the Unix epoch)
/// falls on, counted in whole days since the epoch.
pub open spec fn spec_day_of(ts: u64) -> u64 {
    ts / 86400
}

/// Computes the UTC calendar day of a timestamp.
pub fn day_of(ts: u64) -> (d: u64)
    ensures
        d == spec_day_of(ts),
{
    ts / SECONDS_PER_DAY
}

} // verus!
