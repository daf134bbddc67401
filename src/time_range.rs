//! Time windows `(start, end]` over epoch seconds.

use vstd::prelude::*;

verus! {

/// The window of instants `t` with `start < t <= end`, in epoch seconds.
#[derive(Clone, Copy, Debug, PartialEq, Eq, Hash, Structural)]
pub struct TimeRange {
    pub start_timestamp_in_seconds: i64,
    pub end_timestamp_in_seconds: i64,
}

/// The instants of the window `(lo, hi]`.
pub open spec fn window(lo: int, hi: int) -> Set<int> {
    Set::new(|t: int| lo < t && t <= hi)
}

impl TimeRange {
    pub open spec fn lo(self) -> int {
        self.start_timestamp_in_seconds as int
    }

    pub open spec fn hi(self) -> int {
        self.end_timestamp_in_seconds as int
    }

    /// The instants this range covers.
    pub open spec fn times(self) -> Set<int> {
        window(self.lo(), self.hi())
    }

    pub fn new(start_timestamp_in_seconds: i64, end_timestamp_in_seconds: i64) -> (r: Self)
        ensures
            r.start_timestamp_in_seconds == start_timestamp_in_seconds,
            r.end_timestamp_in_seconds == end_timestamp_in_seconds,
    {
        TimeRange { start_timestamp_in_seconds, end_timestamp_in_seconds }
    }
}

} // verus!
