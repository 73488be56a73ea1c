use vstd::prelude::*;

verus! {

/// A monotonic local timestamp, in nanoseconds since some fixed origin.
///
/// The cache is keyed by the local receive instant; callers must hand in
/// strictly monotonic (hence unique) timestamps per receive path. Reading
/// the clock itself is left to the embedding program, which converts its
/// monotonic clock into a `Timestamp`.
#[derive(Clone, Copy, Debug, PartialEq, Eq, Structural)]
pub struct Timestamp {
    pub nanos: u64,
}

impl Timestamp {
    pub fn from_nanos(nanos: u64) -> (r: Timestamp)
        ensures
            r.nanos == nanos,
    {
        Timestamp { nanos }
    }
}

} // verus!
