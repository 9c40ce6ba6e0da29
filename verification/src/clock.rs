//! The wall clock.

use vstd::prelude::*;

verus! {

/// The seconds since the Unix epoch by the clock of the machine, as chrono counts
/// them: `chrono::DateTime::<Utc>::from` of the system time, then `timestamp()`. A
/// clock that stands before the epoch gives a negative count. The conversion is made
/// for every time that chrono can hold, which is every time within 262 000 years of
/// the epoch. Nothing is claimed of the number: the clock may stand anywhere and may
/// jump.
#[verifier::external_body]
pub(crate) fn unix_timestamp() -> (seconds: i64) {
    chrono::DateTime::<chrono::Utc>::from(std::time::SystemTime::now()).timestamp()
}

} // verus!
