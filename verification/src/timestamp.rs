//! Points in time and durations, in milliseconds.

use vstd::prelude::*;

verus! {

/// A number of milliseconds: since the epoch for a point in time, or the
/// length of an interval.
#[derive(Clone, Copy, Debug, PartialEq, Eq, Structural, Hash)]
pub struct Timestamp(pub u64);

impl Timestamp {
    /// The timestamp of `ms` milliseconds.
    pub fn millis(ms: u64) -> (t: Self)
        ensures
            t.0 == ms,
    {
        Timestamp(ms)
    }

    /// The timestamp of `s` seconds, or `None` where that many milliseconds
    /// do not fit.
    pub fn seconds(s: u64) -> (t: Option<Self>)
        ensures
            s * 1000 <= u64::MAX ==> t == Some(Timestamp((s * 1000) as u64)),
            s * 1000 > u64::MAX ==> t is None,
    {
        match s.checked_mul(1000) {
            Some(ms) => Some(Timestamp(ms)),
            None => None,
        }
    }

    /// The number of milliseconds.
    pub fn to_millis(&self) -> (ms: u64)
        ensures
            ms == self.0,
    {
        self.0
    }
}

} // verus!
