//! Fixed-width time-slot binning of absolute trace timestamps.

use vstd::prelude::*;

use crate::error::TraceError;

verus! {

/// The trace epoch: the absolute timestamp (microseconds) of slot 0.
pub const TIME_MIN: u64 = 600_000_000;

/// The documented trace horizon (microseconds, about 29 days past the
/// epoch). It is not enforced against input timestamps.
pub const TIME_MAX: u64 = 2_506_200_000_000;

/// Width of one time slot: one minute in microseconds.
pub const TIME_SLOT_LEN: u64 = 60_000_000;

/// The slot index of a timestamp at or past the epoch.
pub open spec fn spec_slot_of(timestamp: u64) -> int {
    (timestamp - TIME_MIN) / (TIME_SLOT_LEN as int)
}

/// Whether a timestamp maps to a slot index that the in-memory matrix can
/// address. The bound only matters on targets whose `usize` is narrower than
/// a slot index; within the documented trace horizon it always holds.
pub open spec fn slot_addressable(timestamp: u64) -> bool {
    &&& timestamp >= TIME_MIN
    &&& spec_slot_of(timestamp) <= usize::MAX
}

/// Converts an absolute timestamp into its slot index relative to the trace
/// epoch. A timestamp before the epoch is rejected rather than allowed to
/// wrap through unsigned arithmetic, and so is one whose slot index would
/// not fit the platform's addressable range.
pub fn to_time_slot_index(timestamp: u64) -> (r: Result<usize, TraceError>)
    ensures
        slot_addressable(timestamp) ==> r == Ok::<usize, TraceError>(
            spec_slot_of(timestamp) as usize,
        ) && r.unwrap() == spec_slot_of(timestamp),
        !slot_addressable(timestamp) ==> r == Err::<usize, TraceError>(
            TraceError::InvalidTimestamp,
        ),
{
    if timestamp < TIME_MIN {
        Err(TraceError::InvalidTimestamp)
    } else {
        let diff = timestamp - TIME_MIN;
        let slot = diff / TIME_SLOT_LEN;
        if slot <= usize::MAX as u64 {
            Ok(slot as usize)
        } else {
            Err(TraceError::InvalidTimestamp)
        }
    }
}

} // verus!
