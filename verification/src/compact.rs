//! Handles of compacted regions: the memory that holds a corpus payload's
//! object graph once loaded.
use vstd::prelude::*;

verus! {

/// The raw handle of a compacted region, as an integer.
pub type LeanCompactedRegion = usize;

/// A compacted-region handle; dropping it does not free the region.
pub struct Region {
    handle: LeanCompactedRegion,
}

impl Region {
    /// The raw handle this region holds.
    pub closed spec fn raw(&self) -> LeanCompactedRegion {
        self.handle
    }

    /// Wraps a raw handle. Nothing in this library frees the region it
    /// names: freeing it is the caller's job, by the runtime's own call.
    pub fn from_raw(handle: LeanCompactedRegion) -> (r: Self)
        ensures
            r.raw() == handle,
    {
        Region { handle }
    }

    /// The raw handle.
    pub fn handle(&self) -> (h: LeanCompactedRegion)
        ensures
            h == self.raw(),
    {
        self.handle
    }

    /// Gives up the region and hands back its raw handle.
    pub fn into_raw(self) -> (h: LeanCompactedRegion)
        ensures
            h == self.raw(),
    {
        self.handle
    }
}

} // verus!
