//! A minimal model of time: instants at second precision.
//!
//! The engine never reads a clock itself; callers hand it the current time
//! where one is needed (landing events are stamped at detection time).  It
//! only compares instants and subtracts bounded spans from them, so a signed
//! second count is a faithful model of an upstream timestamp.

use vstd::prelude::*;

verus! {

/// A point in time, counted in whole seconds since the Unix epoch.
#[derive(Clone, Copy, PartialEq, Eq, Structural, Debug, Hash)]
pub struct DateTime {
    pub secs: i64,
}

pub const SECS_PER_HOUR: i64 = 3600;

impl DateTime {
    /// `self` is no later than `other`.
    pub open spec fn spec_le(self, other: DateTime) -> bool {
        self.secs <= other.secs
    }

    /// `self` is strictly earlier than `other`.
    pub open spec fn spec_lt(self, other: DateTime) -> bool {
        self.secs < other.secs
    }

    pub fn le(&self, other: &DateTime) -> (r: bool)
        ensures
            r == self.spec_le(*other),
    {
        self.secs <= other.secs
    }

    pub fn lt(&self, other: &DateTime) -> (r: bool)
        ensures
            r == self.spec_lt(*other),
    {
        self.secs < other.secs
    }

    /// The later of two instants.
    pub fn max(self, other: DateTime) -> (r: DateTime)
        ensures
            r.secs == if self.secs >= other.secs {
                self.secs
            } else {
                other.secs
            },
            other.spec_le(r) && self.spec_le(r),
    {
        if self.secs >= other.secs {
            self
        } else {
            other
        }
    }

    /// The instant `hours` hours before `self`; the lower edge of a feed
    /// window.
    pub fn hours_before(self, hours: u32) -> (r: DateTime)
        requires
            self.secs - hours * SECS_PER_HOUR >= i64::MIN,
        ensures
            r.secs == self.secs - hours * SECS_PER_HOUR,
    {
        DateTime { secs: self.secs - (hours as i64) * SECS_PER_HOUR }
    }
}

} // verus!
