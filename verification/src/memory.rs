use vstd::prelude::*;

verus! {

/// A frame allocator with nothing to hand out.
///
/// It can still back mappings whose page tables already exist, since those
/// need no new frame. Frames are named by their starting physical address.
pub struct EmptyFrameAllocator;

impl EmptyFrameAllocator {
    /// Always reports that no unused physical frame is available.
    pub fn allocate_frame(&mut self) -> (r: Option<u64>)
        ensures
            r is None,
    {
        None
    }
}

} // verus!
