use vstd::prelude::*;

verus! {

/// Why an allocation or a deallocation was turned down.
#[derive(Debug, Clone, Copy, PartialEq, Eq, Structural)]
pub enum PallocError {
    /// The block is too small for the request, and the block behind it is
    /// in use, so it cannot grow.
    NoBlockSpace,
    /// The block is already handed out.
    AlreadyAllocated,
    /// The block is free, so there is nothing to give back or to split.
    NotAllocated,
    /// The last block of the chain has no successor to split against.
    SegmentingTail,
    /// The request does not fit between the last block and the end of the
    /// region.
    OutOfMemory,
}

} // verus!
