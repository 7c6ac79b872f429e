//! The wall clock, latched by `Queue::tick`.

use vstd::prelude::*;

verus! {

/// Relies on clock_ticks::precise_time_s for the current wall clock in
/// seconds. Nothing is promised of the value: every queue operation takes
/// the latched clock as an input and is verified for all of its values.
#[verifier::external_body]
pub(crate) fn now_seconds() -> u32 {
    clock_ticks::precise_time_s() as u32
}

} // verus!
