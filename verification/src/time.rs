//! Points in time, as the app stamps requests, toasts and results with them.

use vstd::prelude::*;
use std::time::Instant;

verus! {

/// A point in time (`std::time::Instant`).
#[verifier::external_type_specification]
#[verifier::external_body]
pub struct ExInstant(Instant);

/// `Instant` is `Copy`: its `clone` (`<Instant as Clone>::clone`) hands back
/// the same point in time.
pub assume_specification[ <Instant as Clone>::clone ](instant: &Instant) -> (copy: Instant)
    ensures
        copy == *instant,
;

/// The current time (`std::time::Instant::now`). It comes from the clock,
/// so nothing is stated of it.
#[verifier::external_body]
pub(crate) fn now() -> Instant {
    Instant::now()
}

} // verus!
