//! Trusted timing hooks.  The solve loop records how long the search took as
//! a purely diagnostic value; nothing is promised of what the clock reads,
//! and no proof depends on it.

use vstd::prelude::*;

verus! {

#[verifier::external_type_specification]
#[verifier::external_body]
pub struct ExInstant(std::time::Instant);

/// Relies on `std::time::Instant::now`: an opaque monotonic timestamp.  The
/// value depends on the machine and the moment, so nothing is stated of it.
#[verifier::external_body]
pub(crate) fn clock_now() -> std::time::Instant {
    std::time::Instant::now()
}

/// Relies on `std::time::Instant::elapsed`: the time since `t`, as
/// nanoseconds truncated into `u64`.  The value depends on the machine and
/// the moment, so nothing is stated of it.
#[verifier::external_body]
pub(crate) fn nanos_since(t: &std::time::Instant) -> u64 {
    t.elapsed().as_nanos() as u64
}

} // verus!
