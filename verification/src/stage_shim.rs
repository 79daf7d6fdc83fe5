//! Stage timers for search, as a build without profiling has them: nothing is recorded.
use std::collections::HashMap;
use vstd::prelude::*;

verus! {

/// A recorded stage.
#[derive(Debug, Clone, Default)]
pub struct StageSample {
    pub name: String,
    pub dur_ns: u64,
    /// Measures by name, each an IEEE 754 double by its bits.
    pub meta: HashMap<String, u64>,
}

/// A stage guard that records nothing.
pub struct NoopGuard;

impl NoopGuard {
    /// Takes a measure, by its bits, and drops it; calls can be chained.
    pub fn set(&mut self, _key: &'static str, _value: u64) -> (r: &mut NoopGuard)
        ensures
            *r == *old(self),
            *final(self) == *final(r),
    {
        self
    }
}

/// Whether this build can record stages.
pub fn supported() -> (r: bool)
    ensures
        !r,
{
    false
}

/// Starts a recording; here there is none to start.
pub fn begin() {
}

/// The stages recorded since `begin`; here there are none.
pub fn take() -> (samples: Vec<StageSample>)
    ensures
        samples@ == Seq::<StageSample>::empty(),
{
    Vec::new()
}

} // verus!
