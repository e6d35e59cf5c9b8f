//! The wall clock.
use vstd::prelude::*;

verus! {

/// The latest instant `chrono` can represent, in milliseconds since the Unix epoch.
pub const MAX_INSTANT_MILLIS: i64 = 8_210_266_876_799_999;

/// The earliest instant `chrono` can represent, in milliseconds since the Unix epoch.
pub const MIN_INSTANT_MILLIS: i64 = -8_334_601_315_200_000;

/// The current time in milliseconds since the Unix epoch
/// (`chrono::Utc::now().timestamp_millis()`).
///
/// Every `DateTime<Utc>` lies within the instants `chrono` represents, so
/// the result lies between the earliest and the latest of them. Nothing else
/// is claimed of it: it is whatever the clock says, before the Unix epoch
/// too where the platform reports such a time. On a native target,
/// `Utc::now` stops the process when the system clock is set before the
/// epoch; that comes from the machine, not from any argument.
#[verifier::external_body]
pub fn now_millis() -> (t: i64)
    ensures
        MIN_INSTANT_MILLIS <= t <= MAX_INSTANT_MILLIS,
{
    chrono::Utc::now().timestamp_millis()
}

} // verus!
