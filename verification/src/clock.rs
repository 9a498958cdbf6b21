//! The clock that stamps each write.

use vstd::prelude::*;

verus! {

/// Asks the system for the present moment, turns it into chrono's
/// `DateTime<Utc>` and takes its `timestamp`: the whole seconds since the
/// epoch, negative where the machine's clock stands before 1970.
///
/// Not proved, and nothing is claimed of the number: it is whatever the
/// machine's clock says.
#[verifier::external_body]
fn unix_seconds() -> (seconds: i64) {
    chrono::DateTime::<chrono::Utc>::from(std::time::SystemTime::now()).timestamp()
}

/// The timestamp that a record written at `seconds` after the epoch
/// carries: the same number, where it fits the header's 32 bits.
pub fn timestamp_from_seconds(seconds: i64) -> (timestamp: Option<u32>)
    ensures
        0 <= seconds <= u32::MAX ==> timestamp == Some(seconds as u32),
        !(0 <= seconds <= u32::MAX) ==> timestamp is None,
{
    if 0 <= seconds && seconds <= u32::MAX as i64 {
        Some(seconds as u32)
    } else {
        None
    }
}

/// Reads the clock. `None` when the time it tells cannot be written as a
/// record's timestamp.
pub(crate) fn current_timestamp() -> (timestamp: Option<u32>) {
    timestamp_from_seconds(unix_seconds())
}

} // verus!
