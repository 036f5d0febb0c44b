//! The wall clock, read through the chrono crate.

use vstd::prelude::*;

verus! {

/// Relies on chrono::Utc::now for the current UTC time, carried as seconds
/// since the Unix epoch. The value depends on the machine's clock, so
/// nothing is promised of it; callers state what holds for every value.
/// chrono panics inside `now` itself when the system clock is set before
/// the Unix epoch, so this call also relies on a post-1970 clock; nothing
/// this wrapper could do to the returned value would reach that panic.
#[verifier::external_body]
pub(crate) fn now_utc_seconds() -> u64 {
    chrono::Utc::now().timestamp() as u64
}

} // verus!
