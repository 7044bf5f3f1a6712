use vstd::prelude::*;
use std::time::Instant;

verus! {

#[verifier::external_type_specification]
#[verifier::external_body]
pub struct ExInstant(std::time::Instant);

/// Relies on `Instant::elapsed`: the time passed since `start`, in nanoseconds.
#[verifier::external_body]
pub(crate) fn nanos_since(start: &Instant) -> (r: u128) {
    start.elapsed().as_nanos()
}

} // verus!
