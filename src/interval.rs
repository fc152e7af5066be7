//! Lengths of time as whole seconds and nanoseconds.

use vstd::prelude::*;

verus! {

/// A length of time: `secs` seconds and `nanos` nanoseconds, `nanos` below one second.
#[derive(Clone, Copy, Debug, PartialEq, Eq, Structural, Hash, Default)]
pub struct Interval {
    pub secs: u64,
    pub nanos: u32,
}

impl Interval {
    /// The nanoseconds part is below one second.
    pub open spec fn wf(&self) -> bool {
        self.nanos < 1_000_000_000
    }

    /// `secs` whole seconds.
    pub fn from_secs(secs: u64) -> (r: Interval)
        ensures
            r.wf(),
            r.secs == secs,
            r.nanos == 0,
    {
        Interval { secs, nanos: 0 }
    }
}

} // verus!
