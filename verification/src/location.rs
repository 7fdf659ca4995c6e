//! The value type for one GPS sample.

use vstd::prelude::*;

verus! {

/// One GPS sample from a location history.
///
/// Coordinates are kept in their fixed-point source encoding: degrees scaled
/// by ten million (`E7`). The decimal-degree value of a coordinate is its
/// `E7` field divided by 10_000_000, a conversion the caller performs where
/// it needs floating point.
#[derive(Clone, Copy, Debug, PartialEq)]
pub struct Location {
    /// Whole seconds since the Unix epoch.
    pub timestamp: i64,
    /// Latitude in degrees scaled by ten million.
    pub latitude_e7: i64,
    /// Longitude in degrees scaled by ten million.
    pub longitude_e7: i64,
    /// Reported horizontal accuracy in meters.
    pub accuracy: i32,
    /// Altitude in meters, when the source reported one.
    pub altitude: Option<i32>,
}

/// Non-decreasing timestamp order: the invariant a series holds after
/// ingestion, and the precondition of the nearest-timestamp search.
pub open spec fn sorted_by_timestamp(s: Seq<Location>) -> bool {
    forall|i: int, j: int| 0 <= i <= j < s.len() ==> s[i].timestamp <= s[j].timestamp
}

} // verus!
