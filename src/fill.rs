//! Trade fills and the backend's lookup of the fills inside a time window.

use vstd::prelude::*;
use crate::decimal::Dec;
use crate::time_range::window;

verus! {

/// `direction` of a fill that was a market buy.
pub const BUY: i32 = 1;

/// `direction` of a fill that was a market sell.
pub const SELL: i32 = -1;

/// The earliest instant, in epoch seconds, that a timestamp can name
/// (January 1 of year -262143, 00:00:00 UTC).
pub const MIN_TIMESTAMP: i64 = -8334601228800;

/// The latest instant, in epoch seconds, that a timestamp can name
/// (December 31 of year 262142, 23:59:59 UTC).
pub const MAX_TIMESTAMP: i64 = 8210266876799;

/// One executed trade, identified by its `sequence_number`.
#[derive(Clone, Copy, Debug, PartialEq, Eq)]
pub struct Fill {
    /// Epoch seconds.
    pub time: i64,
    /// `BUY`, `SELL`, or any other value for a neutral fill.
    pub direction: i32,
    pub price: Dec,
    pub quantity: Dec,
    pub sequence_number: u64,
}

/// Why the backend refused a lookup.
#[derive(Clone, Copy, Debug, PartialEq, Eq, Structural)]
pub enum BackendError {
    /// A bound of the window is not a representable instant.
    InvalidTimestamp,
}

pub open spec fn valid_timestamp(secs: int) -> bool {
    MIN_TIMESTAMP <= secs && secs <= MAX_TIMESTAMP
}

/// The fills of `d` whose time lies in `times`, in the order of `d`.
pub open spec fn within(d: Seq<Fill>, times: Set<int>) -> Seq<Fill>
    decreases d.len(),
{
    if d.len() == 0 {
        Seq::empty()
    } else {
        let rest = within(d.drop_last(), times);
        if times.contains(d.last().time as int) {
            rest.push(d.last())
        } else {
            rest
        }
    }
}

/// What a lookup of the window `(lo, hi]` over the dataset `d` returns.
pub open spec fn fetch_result(d: Seq<Fill>, lo: int, hi: int) -> Result<Seq<Fill>, BackendError> {
    if valid_timestamp(lo) && valid_timestamp(hi) {
        Ok(within(d, window(lo, hi)))
    } else {
        Err(BackendError::InvalidTimestamp)
    }
}

/// Relies on `chrono::DateTime::from_timestamp`, which returns `Some` exactly for
/// the seconds from `MIN_TIMESTAMP` to `MAX_TIMESTAMP`.
#[verifier::external_body]
fn timestamp_is_valid(secs: i64) -> (r: bool)
    ensures
        r == valid_timestamp(secs as int),
{
    chrono::DateTime::from_timestamp(secs, 0).is_some()
}

/// The backend's lookup: every fill of `fills` with time in
/// `(start_timestamp_in_seconds, end_timestamp_in_seconds]`, in stored order.
pub fn get_fills_api(
    fills: &Vec<Fill>,
    start_timestamp_in_seconds: i64,
    end_timestamp_in_seconds: i64,
) -> (r: Result<Vec<Fill>, BackendError>)
    ensures
        match r {
            Ok(v) => fetch_result(fills@, start_timestamp_in_seconds as int, end_timestamp_in_seconds as int) == Ok::<Seq<Fill>, BackendError>(v@),
            Err(e) => fetch_result(fills@, start_timestamp_in_seconds as int, end_timestamp_in_seconds as int) == Err::<Seq<Fill>, BackendError>(e),
        },
{
    if !timestamp_is_valid(start_timestamp_in_seconds) || !timestamp_is_valid(end_timestamp_in_seconds) {
        return Err(BackendError::InvalidTimestamp);
    }
    let mut out: Vec<Fill> = Vec::new();
    let mut i: usize = 0;
    while i < fills.len()
        invariant
            i <= fills.len(),
            out@ == within(fills@.take(i as int), window(start_timestamp_in_seconds as int, end_timestamp_in_seconds as int)),
        decreases fills.len() - i,
    {
        let f = fills[i];
        proof {
            assert(fills@.take(i + 1).drop_last() =~= fills@.take(i as int));
            assert(fills@.take(i + 1).last() == f);
        }
        if start_timestamp_in_seconds < f.time && f.time <= end_timestamp_in_seconds {
            out.push(f);
        }
        i = i + 1;
    }
    proof {
        assert(fills@.take(fills.len() as int) =~= fills@);
    }
    Ok(out)
}

} // verus!
