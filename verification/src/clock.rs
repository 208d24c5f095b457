//! Wall-clock deadlines.
//!
//! The solver polls a deadline cooperatively.  The clock itself lives
//! outside the verified world: readings are opaque, and two polls of the
//! same deadline may answer differently.  Nothing downstream relies on more
//! than the one stated fact: with no deadline, the poll never fires.

use vstd::prelude::*;

verus! {

#[verifier::external_type_specification]
#[verifier::external_body]
pub struct ExInstant(std::time::Instant);

/// Relies on std::time::Instant::now: an opaque reading of the clock.
#[verifier::external_body]
fn instant_now() -> std::time::Instant {
    std::time::Instant::now()
}

/// Relies on Instant::checked_add and Duration::from_secs: the point `secs`
/// seconds past `base`, or `None` when the clock cannot represent it.
#[verifier::external_body]
fn instant_plus_secs(base: &std::time::Instant, secs: u64) -> Option<std::time::Instant> {
    base.checked_add(std::time::Duration::from_secs(secs))
}

/// Relies on Instant's Ord: whether `a` is at or past `b`.
#[verifier::external_body]
fn instant_at_or_past(a: &std::time::Instant, b: &std::time::Instant) -> bool {
    *a >= *b
}

/// The deadline `secs` seconds from now, if the clock can represent it.
pub fn deadline_in_secs(secs: u64) -> (r: Option<std::time::Instant>) {
    let now = instant_now();
    instant_plus_secs(&now, secs)
}

/// Polled deadline check: `false` when there is no deadline, otherwise
/// whether the clock has reached it.  Time is outside the model, so two
/// calls may answer differently.
pub fn deadline_reached(deadline: &Option<std::time::Instant>) -> (r: bool)
    ensures
        deadline.is_none() ==> !r,
{
    match deadline {
        None => false,
        Some(d) => instant_at_or_past(&instant_now(), d),
    }
}

} // verus!
