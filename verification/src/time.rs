use vstd::prelude::*;

verus! {

/// A span of time, counted in whole milliseconds.
#[derive(Clone, Copy, Debug, PartialEq, Eq, Hash, PartialOrd, Ord, Structural)]
pub struct Duration {
    pub millis: u64,
}

impl Duration {
    /// A span of `millis` milliseconds.
    pub fn from_millis(millis: u64) -> (r: Duration)
        ensures
            r.millis == millis,
    {
        Duration { millis }
    }

    /// A span of `secs` seconds.
    pub fn from_secs(secs: u64) -> (r: Duration)
        requires
            secs * 1000 <= u64::MAX,
        ensures
            r.millis == secs * 1000,
    {
        Duration { millis: secs * 1000 }
    }

    /// The length of this span in milliseconds.
    pub fn as_millis(&self) -> (r: u64)
        ensures
            r == self.millis,
    {
        self.millis
    }
}

} // verus!
