//! Fresh identifiers for new rows, drawn from the uuid crate.

use vstd::prelude::*;

verus! {

/// Relies on uuid::Uuid::new_v4 for a randomly generated version-4 UUID,
/// carried as its 128-bit value. The value is random, so nothing is promised
/// of it; callers test it for collisions themselves.
#[verifier::external_body]
pub(crate) fn fresh_uuid() -> u128 {
    uuid::Uuid::new_v4().as_u128()
}

} // verus!
