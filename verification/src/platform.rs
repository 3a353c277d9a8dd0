//! The clock and the random numbers that the cache uses, taken from the
//! standard library and from `rand`.
use vstd::prelude::*;

verus! {

#[verifier::external_type_specification]
#[verifier::external_body]
pub struct ExInstant(std::time::Instant);

/// Calls `std::time::Instant::now`. Nothing is stated of the instant it
/// returns: it depends on the machine's clock.
#[verifier::external_body]
pub(crate) fn instant_now() -> std::time::Instant {
    std::time::Instant::now()
}

/// Calls `std::time::Instant::elapsed` on `start`. Nothing is stated of the
/// duration it returns: it depends on the machine's clock.
#[verifier::external_body]
pub(crate) fn elapsed(start: &std::time::Instant) -> std::time::Duration {
    start.elapsed()
}

/// The number of whole seconds in a duration, as `Duration::as_secs` gives it.
pub uninterp spec fn duration_secs(d: std::time::Duration) -> u64;

/// Calls `std::time::Duration::as_secs`, which its documentation describes as
/// the number of whole seconds contained by the duration: a function of the
/// duration alone, named `duration_secs` here.
#[verifier::external_body]
pub(crate) fn whole_secs(d: &std::time::Duration) -> (r: u64)
    ensures
        r == duration_secs(*d),
{
    d.as_secs()
}

/// Calls `rand::random::<u32>()`, a value drawn from the thread-local
/// generator. Nothing is stated of it: every `u32` may come back.
#[verifier::external_body]
pub(crate) fn random_u32() -> u32 {
    rand::random::<u32>()
}

} // verus!
