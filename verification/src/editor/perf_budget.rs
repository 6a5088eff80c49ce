//! Time budgets for the editor's heavier work. Durations are in nanoseconds.

use vstd::prelude::*;

verus! {

/// The most time for one stroke of the terrain brush.
pub const TERRAIN_BRUSH_BUDGET: u128 = 25_000_000;

/// The most time for one scan of the dependencies.
pub const DEPENDENCY_SCAN_BUDGET: u128 = 10_000_000;

/// A point in time, `std::time::Instant`.
#[verifier::external_type_specification]
#[verifier::external_body]
pub struct ExInstant(std::time::Instant);

/// `Instant::now`: the present. Nothing is stated of it.
#[verifier::external_body]
fn now() -> std::time::Instant {
    std::time::Instant::now()
}

/// `Instant::elapsed`: how long ago the point in time was. Nothing is stated of it.
#[verifier::external_body]
fn elapsed(start: &std::time::Instant) -> u128 {
    start.elapsed().as_nanos()
}

/// Runs the operation once, and says how long it took and whether that is within the
/// budget.
pub fn within_budget<F: FnOnce()>(budget: u128, operation: F) -> (measured: (u128, bool))
    requires
        operation.requires(()),
    ensures
        measured.1 == (measured.0 <= budget),
        operation.ensures((), ()),
{
    let start = now();
    operation();
    let taken: u128 = elapsed(&start);
    (taken, taken <= budget)
}

} // verus!
