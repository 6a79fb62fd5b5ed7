use vstd::prelude::*;

use core::time::Duration;
use std::time::Instant;

verus! {

#[verifier::external_type_specification]
#[verifier::external_body]
pub struct ExInstant(Instant);

/// Relies on std::time::Instant::now: an opaque moment on a monotonic
/// clock; nothing is promised of its value.
pub assume_specification[ Instant::now ]() -> (r: Instant);

/// Relies on std::time::Instant::elapsed: the time since that moment;
/// nothing is promised of its value.
pub assume_specification[ Instant::elapsed ](i: &Instant) -> (r: Duration);

/// Runs the operation once and measures how long it took on the wall clock.
/// The measured duration depends on the machine, so nothing is stated of it;
/// the returned value is whatever the operation returned.
pub fn time_operation<T, F: FnOnce() -> T>(operation: F) -> (r: (T, Duration))
    requires
        call_requires(operation, ()),
    ensures
        call_ensures(operation, (), r.0),
{
    let start = Instant::now();
    let result = operation();
    let duration = start.elapsed();
    (result, duration)
}

} // verus!
