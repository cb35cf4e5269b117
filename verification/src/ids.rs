//! Identity of blocks, connections and groups.
//!
//! Identities are 128-bit values; fresh ones come from a random UUID.

use vstd::prelude::*;

verus! {

/// Draws a fresh random identity.
///
/// Relies on `uuid::Uuid::new_v4`, a version-4 random UUID, taken as its
/// 128-bit value. The result depends on a random number generator, so
/// nothing is promised of it; in particular, distinctness from existing
/// identities is not promised.
#[verifier::external_body]
pub fn fresh_id() -> u128 {
    uuid::Uuid::new_v4().as_u128()
}

} // verus!
