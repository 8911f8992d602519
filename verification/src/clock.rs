//! Wall-clock readings, used to stamp recorded frames.
use vstd::prelude::*;

verus! {

#[verifier::external_type_specification]
#[verifier::external_body]
pub struct ExSystemTimeError(std::time::SystemTimeError);

/// Calls `SystemTime::elapsed` on `UNIX_EPOCH`: the time from the epoch to
/// now, or an error when the clock reads before the epoch. The reading
/// depends on the clock, so nothing is stated of it.
#[verifier::external_body]
pub(crate) fn epoch_elapsed() -> Result<std::time::Duration, std::time::SystemTimeError> {
    std::time::UNIX_EPOCH.elapsed()
}

/// Calls `Duration::as_secs`: the whole seconds of a duration. The duration
/// is opaque here, so nothing is stated of the result.
#[verifier::external_body]
pub(crate) fn duration_as_secs(d: &std::time::Duration) -> u64 {
    d.as_secs()
}

/// Calls `Duration::subsec_micros`, which std documents as the fractional
/// part of a second in microseconds, always less than one million.
#[verifier::external_body]
pub(crate) fn duration_subsec_micros(d: &std::time::Duration) -> (r: u32)
    ensures
        r < 1_000_000,
{
    d.subsec_micros()
}

} // verus!
