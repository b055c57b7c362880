use vstd::prelude::*;

verus! {

use crate::allocator::{
    align_up,
    align_up_spec,
    is_power_of_two,
    lemma_align_up_spec_props,
    ranges_disjoint,
    live_pairwise_disjoint,
    live_within,
};

/// Bytes a free-region header occupies inside the region it describes on the
/// 64-bit target: a length word and a link word.
pub const LIST_NODE_SIZE: usize = 16;

/// Natural alignment of such a header on the 64-bit target.
pub const LIST_NODE_ALIGN: usize = 8;

/// Descriptor of one free region: its start address and its length in bytes.
///
/// The running kernel stores this header inside the free region itself; here
/// the descriptor carries the address explicitly, so that all reasoning is
/// over plain addresses and no byte of memory is reinterpreted.
#[derive(Clone, Copy, PartialEq, Eq, Structural, Debug)]
pub struct ListNode {
    pub addr: usize,
    pub size: usize,
}

impl ListNode {
    /// A region that may carry a header: it starts above zero at header
    /// alignment, has room for the header, and ends within the address space.
    pub open spec fn wf(self) -> bool {
        &&& 1 <= self.addr
        &&& self.addr % LIST_NODE_ALIGN == 0
        &&& self.size >= LIST_NODE_SIZE
        &&& self.addr + self.size <= usize::MAX
    }

    pub fn new(addr: usize, size: usize) -> (r: ListNode)
        ensures
            r.addr == addr,
            r.size == size,
    {
        ListNode { addr, size }
    }

    pub fn start_addr(&self) -> (r: usize)
        ensures
            r == self.addr,
    {
        self.addr
    }

    pub fn end_addr(&self) -> (r: usize)
        requires
            self.addr + self.size <= usize::MAX,
        ensures
            r == self.addr + self.size,
    {
        self.addr + self.size
    }
}

/// The alignment actually used for a request: at least the header alignment.
pub open spec fn normalized_align(align: int) -> int {
    if align < LIST_NODE_ALIGN as int {
        LIST_NODE_ALIGN as int
    } else {
        align
    }
}

/// The size actually carved out for a request: padded to the normalized
/// alignment and to at least one header, so that whatever comes back through
/// `deallocate` can always hold a header again.
pub open spec fn normalized_size(size: int, align: int) -> int {
    let padded = if size == 0 {
        0
    } else {
        align_up_spec(size, normalized_align(align))
    };
    if padded < LIST_NODE_SIZE as int {
        LIST_NODE_SIZE as int
    } else {
        padded
    }
}

/// Where a request would be placed inside one free region: the region start
/// rounded up to the alignment, provided the rounded block fits and does not
/// strand a leftover too small to ever hold a header. A rounding that would
/// leave the address space is a request that does not fit.
pub open spec fn alloc_from_region_spec(region: ListNode, size: int, align: int) -> Option<int> {
    if region.addr + align - 1 > usize::MAX {
        None
    } else {
        let start = align_up_spec(region.addr as int, align);
        let end = start + size;
        let region_end = region.addr + region.size;
        if end <= region_end && (region_end - end == 0 || region_end - end
            >= LIST_NODE_SIZE as int) {
            Some(start)
        } else {
            None
        }
    }
}

/// Index of the first region a request fits in, or `-1` when none does.
pub open spec fn find_index(regions: Seq<ListNode>, size: int, align: int) -> int
    decreases regions.len(),
{
    if regions.len() == 0 {
        -1
    } else if alloc_from_region_spec(regions[0], size, align) is Some {
        0
    } else {
        let rest = find_index(regions.drop_first(), size, align);
        if rest < 0 {
            -1
        } else {
            rest + 1
        }
    }
}

/// First-fit allocator over a list of free regions.
///
/// Freed regions are pushed at the head and never merged with their
/// neighbours; allocation walks the list from the head and carves the block
/// out of the first region that fits.
pub struct LinkedListAllocator {
    pub free_list: Vec<ListNode>,
}

impl LinkedListAllocator {
    /// Every region on the free list can carry a header.
    pub open spec fn wf(self) -> bool {
        forall|i: int| 0 <= i < self.free_list@.len() ==> (#[trigger] self.free_list@[i]).wf()
    }

    pub fn new() -> (r: LinkedListAllocator)
        ensures
            r.free_list@.len() == 0,
            r.wf(),
    {
        LinkedListAllocator { free_list: Vec::new() }
    }

    /// Hands the whole heap region to the allocator as one initial free
    /// region. Must be called exactly once, on a region that is unused and
    /// fully mapped; the caller owns that guarantee.
    pub fn init(&mut self, heap_start: usize, heap_size: usize)
        requires
            old(self).free_list@.len() == 0,
            1 <= heap_start,
            heap_start % LIST_NODE_ALIGN == 0,
            heap_size >= LIST_NODE_SIZE,
            heap_start + heap_size <= usize::MAX,
        ensures
            final(self).free_list@ =~= seq![ListNode { addr: heap_start, size: heap_size }],
            final(self).wf(),
    {
        self.add_free_region(heap_start, heap_size);
    }

    /// Pushes the region `[addr, addr + size)` at the head of the free list.
    ///
    /// The region must be able to carry a header: aligned for one and at
    /// least one header long.
    pub fn add_free_region(&mut self, addr: usize, size: usize)
        requires
            old(self).wf(),
            1 <= addr,
            addr % LIST_NODE_ALIGN == 0,
            size >= LIST_NODE_SIZE,
            addr + size <= usize::MAX,
        ensures
            final(self).free_list@ == old(self).free_list@.insert(0, ListNode { addr, size }),
            final(self).wf(),
    {
        let node = ListNode::new(addr, size);
        self.free_list.insert(0, node);
        proof {
            assert forall|i: int| 0 <= i < self.free_list@.len() implies (
            #[trigger] self.free_list@[i]).wf() by {
                if i > 0 {
                    assert(self.free_list@[i] == old(self).free_list@[i - 1]);
                }
            }
        }
    }

    /// Tries to place a request inside one free region, per
    /// `alloc_from_region_spec`.
    pub fn alloc_from_region(region: &ListNode, size: usize, align: usize) -> (r: Result<
        usize,
        (),
    >)
        requires
            region.wf(),
            is_power_of_two(align as int),
        ensures
            r matches Ok(start) ==> alloc_from_region_spec(*region, size as int, align as int)
                == Some(start as int),
            r is Err ==> alloc_from_region_spec(*region, size as int, align as int) is None,
    {
        if align - 1 > usize::MAX - region.start_addr() {
            // Rounding the region start up to this alignment would leave the
            // address space; treat it as a region that does not fit.
            return Err(());
        }
        let alloc_start = align_up(region.start_addr(), align);
        let alloc_end = match alloc_start.checked_add(size) {
            Some(end) => end,
            None => {
                return Err(());
            },
        };
        if alloc_end > region.end_addr() {
            return Err(());
        }
        let remaining_size = region.end_addr() - alloc_end;
        if 0 < remaining_size && remaining_size < LIST_NODE_SIZE {
            return Err(());
        }
        Ok(alloc_start)
    }

    /// First-fit search: walks the free list from the head and unlinks the
    /// first region the request fits in, returning it together with the
    /// address the request would be placed at.
    #[verifier::loop_isolation(false)]
    pub fn find_region(&mut self, size: usize, align: usize) -> (r: Option<(ListNode, usize)>)
        requires
            old(self).wf(),
            is_power_of_two(align as int),
        ensures
            final(self).wf(),
            ({
                let regions = old(self).free_list@;
                let k = find_index(regions, size as int, align as int);
                if k >= 0 {
                    &&& r matches Some(pair)
                    &&& pair.0 == regions[k]
                    &&& alloc_from_region_spec(regions[k], size as int, align as int) == Some(
                        pair.1 as int,
                    )
                    &&& final(self).free_list@ == regions.remove(k)
                } else {
                    &&& r is None
                    &&& final(self).free_list@ == old(self).free_list@
                }
            }),
    {
        let ghost regions = self.free_list@;
        let mut index: usize = 0;
        while index < self.free_list.len()
            invariant
                self.wf(),
                self.free_list@ == regions,
                is_power_of_two(align as int),
                index <= regions.len(),
                forall|j: int|
                    0 <= j < index ==> alloc_from_region_spec(
                        #[trigger] regions[j],
                        size as int,
                        align as int,
                    ) is None,
            decreases regions.len() - index,
        {
            let region = self.free_list[index];
            match Self::alloc_from_region(&region, size, align) {
                Ok(alloc_start) => {
                    let node = self.free_list.remove(index);
                    proof {
                        lemma_find_index_first_match(regions, size as int, align as int, index as int);
                    }
                    return Some((node, alloc_start));
                },
                Err(()) => {
                    index = index + 1;
                },
            }
        }
        proof {
            lemma_find_index_no_match(regions, size as int, align as int);
        }
        None
    }

    /// Serves one request: normalizes the layout, carves the block out of the
    /// first region that fits, and returns any true excess of that region to
    /// the free list as a new region.
    pub fn allocate(&mut self, size: usize, align: usize) -> (r: Option<usize>)
        requires
            old(self).wf(),
            is_power_of_two(align as int),
            size + normalized_align(align as int) - 1 <= usize::MAX,
        ensures
            final(self).wf(),
            r == allocate_result(old(self).free_list@, size as int, align as int),
            final(self).free_list@ == allocate_after(old(self).free_list@, size as int, align as int),
            r matches Some(p) ==> {
                &&& 1 <= p
                &&& p as int % align as int == 0
                &&& p % LIST_NODE_ALIGN == 0
                &&& p + normalized_size(size as int, align as int) <= usize::MAX
                &&& size <= normalized_size(size as int, align as int)
            },
    {
        let (size2, align2) = Self::size_align(size, align);
        let ghost regions = self.free_list@;
        match self.find_region(size2, align2) {
            Some((region, alloc_start)) => {
                proof {
                    let k = find_index(regions, size2 as int, align2 as int);
                    lemma_find_index_props(regions, size2 as int, align2 as int);
                    assert(region == regions[k]);
                    assert(region.wf());
                    lemma_align_up_spec_props(region.addr as int, align2 as int);
                }
                let alloc_end = alloc_start + size2;
                let excess_size = region.end_addr() - alloc_end;
                if excess_size > 0 {
                    proof {
                        // The carved block starts and ends at header
                        // alignment, so the excess region does too.
                        crate::allocator::lemma_power_of_two_constants();
                        crate::allocator::lemma_power_of_two_divides(
                            LIST_NODE_ALIGN as int,
                            align2 as int,
                        );
                        crate::allocator::lemma_mod_trans(
                            alloc_start as int,
                            LIST_NODE_ALIGN as int,
                            align2 as int,
                        );
                        crate::allocator::lemma_mod_sum_zero(
                            alloc_start as int,
                            size2 as int,
                            LIST_NODE_ALIGN as int,
                        );
                    }
                    self.add_free_region(alloc_end, excess_size);
                }
                proof {
                    crate::allocator::lemma_power_of_two_constants();
                    crate::allocator::lemma_power_of_two_divides(align as int, align2 as int);
                    crate::allocator::lemma_mod_trans(
                        alloc_start as int,
                        align as int,
                        align2 as int,
                    );
                    crate::allocator::lemma_power_of_two_divides(
                        LIST_NODE_ALIGN as int,
                        align2 as int,
                    );
                    crate::allocator::lemma_mod_trans(
                        alloc_start as int,
                        LIST_NODE_ALIGN as int,
                        align2 as int,
                    );
                }
                Some(alloc_start)
            },
            None => None,
        }
    }

    /// Returns one block: normalizes the layout exactly as `allocate` did and
    /// pushes the block at the head of the free list. No merging with
    /// address-adjacent neighbours takes place.
    pub fn deallocate(&mut self, ptr: usize, size: usize, align: usize)
        requires
            old(self).wf(),
            is_power_of_two(align as int),
            1 <= ptr,
            ptr % LIST_NODE_ALIGN == 0,
            size + normalized_align(align as int) - 1 <= usize::MAX,
            ptr + normalized_size(size as int, align as int) <= usize::MAX,
        ensures
            final(self).wf(),
            final(self).free_list@ == old(self).free_list@.insert(
                0,
                ListNode {
                    addr: ptr,
                    size: normalized_size(size as int, align as int) as usize,
                },
            ),
    {
        let (size2, _align2) = Self::size_align(size, align);
        self.add_free_region(ptr, size2);
    }

    /// Normalizes a request the way the running kernel's layout padding does:
    /// the alignment is raised to at least the header alignment, and the size
    /// is padded to that alignment and to at least one header, so that any
    /// freed block can carry a header again.
    pub fn size_align(size: usize, align: usize) -> (r: (usize, usize))
        requires
            is_power_of_two(align as int),
            size + normalized_align(align as int) - 1 <= usize::MAX,
        ensures
            r.0 == normalized_size(size as int, align as int),
            r.1 == normalized_align(align as int),
            is_power_of_two(r.1 as int),
            r.0 >= LIST_NODE_SIZE,
            r.1 >= LIST_NODE_ALIGN,
            r.0 >= size,
            r.1 >= align,
            r.0 % LIST_NODE_ALIGN == 0,
    {
        proof {
            crate::allocator::lemma_power_of_two_constants();
        }
        let align2 = if align < LIST_NODE_ALIGN {
            LIST_NODE_ALIGN
        } else {
            align
        };
        let padded = if size == 0 {
            0
        } else {
            align_up(size, align2)
        };
        let size2 = if padded < LIST_NODE_SIZE {
            LIST_NODE_SIZE
        } else {
            padded
        };
        proof {
            if size2 == padded {
                crate::allocator::lemma_power_of_two_divides(LIST_NODE_ALIGN as int, align2 as int);
                crate::allocator::lemma_mod_trans(
                    padded as int,
                    LIST_NODE_ALIGN as int,
                    align2 as int,
                );
            }
        }
        (size2, align2)
    }
}

/// Result of `allocate` over a free list: the placement inside the first
/// region the normalized request fits in, or nothing.
pub open spec fn allocate_result(regions: Seq<ListNode>, size: int, align: int) -> Option<usize> {
    let s2 = normalized_size(size, align);
    let a2 = normalized_align(align);
    let k = find_index(regions, s2, a2);
    if k >= 0 {
        Some(alloc_from_region_spec(regions[k], s2, a2)->Some_0 as usize)
    } else {
        None
    }
}

/// The free list after `allocate`: the matched region is unlinked, and its
/// excess past the carved block, when any, is pushed at the head.
pub open spec fn allocate_after(regions: Seq<ListNode>, size: int, align: int) -> Seq<ListNode> {
    let s2 = normalized_size(size, align);
    let a2 = normalized_align(align);
    let k = find_index(regions, s2, a2);
    if k >= 0 {
        let region = regions[k];
        let start = alloc_from_region_spec(region, s2, a2)->Some_0;
        let excess = region.addr + region.size - (start + s2);
        let removed = regions.remove(k);
        if excess > 0 {
            removed.insert(0, ListNode { addr: (start + s2) as usize, size: excess as usize })
        } else {
            removed
        }
    } else {
        regions
    }
}

/// What layout normalization guarantees: the alignment is a power of two at
/// least the header alignment, and the size covers the request, has room for
/// a header, and keeps header alignment.
pub proof fn lemma_normalized_props(size: int, align: int)
    requires
        is_power_of_two(align),
        0 <= size,
    ensures
        is_power_of_two(normalized_align(align)),
        LIST_NODE_ALIGN as int <= normalized_align(align),
        align <= normalized_align(align),
        LIST_NODE_SIZE as int <= normalized_size(size, align),
        size <= normalized_size(size, align),
        normalized_size(size, align) % LIST_NODE_ALIGN as int == 0,
        normalized_size(size, align) % normalized_align(align) == 0 || normalized_size(size, align)
            == LIST_NODE_SIZE as int,
{
    crate::allocator::lemma_power_of_two_constants();
    let a2 = normalized_align(align);
    if size > 0 {
        lemma_align_up_spec_props(size, a2);
    }
    crate::allocator::lemma_power_of_two_divides(LIST_NODE_ALIGN as int, a2);
    let padded = if size == 0 {
        0int
    } else {
        align_up_spec(size, a2)
    };
    if padded >= LIST_NODE_SIZE as int {
        crate::allocator::lemma_mod_trans(padded, LIST_NODE_ALIGN as int, a2);
    }
}

/// Freeing a block and then asking for the same layout hands the very same
/// block back and leaves the free list exactly as it stood before the free:
/// a freed region goes to the head of the list, and the first-fit search
/// finds that head region a perfect fit.
pub proof fn lemma_lifo_reuse(regions: Seq<ListNode>, ptr: usize, size: int, align: int)
    requires
        is_power_of_two(align),
        align <= usize::MAX,
        0 <= size,
        1 <= ptr,
        ptr as int % normalized_align(align) == 0,
        ptr + normalized_size(size, align) <= usize::MAX,
    ensures
        ({
            let freed = regions.insert(
                0,
                ListNode { addr: ptr, size: normalized_size(size, align) as usize },
            );
            &&& allocate_result(freed, size, align) == Some(ptr)
            &&& allocate_after(freed, size, align) == regions
        }),
{
    let s2 = normalized_size(size, align);
    let a2 = normalized_align(align);
    lemma_normalized_props(size, align);
    let node = ListNode { addr: ptr, size: s2 as usize };
    let freed = regions.insert(0, node);
    assert(freed[0] == node);
    crate::allocator::lemma_aligned_stride_fits(ptr, a2 as usize);
    assert(alloc_from_region_spec(node, s2, a2) == Some(ptr as int));
    lemma_find_index_first_match(freed, s2, a2, 0);
    assert(freed.remove(0) =~= regions);
}

/// Every region on the list can carry a header.
pub open spec fn regions_wf(regions: Seq<ListNode>) -> bool {
    forall|i: int| 0 <= i < regions.len() ==> (#[trigger] regions[i]).wf()
}

/// The free regions are mutually disjoint.
pub open spec fn regions_pairwise_disjoint(regions: Seq<ListNode>) -> bool {
    forall|i: int, j: int|
        0 <= i < regions.len() && 0 <= j < regions.len() && i != j ==> ranges_disjoint(
            (#[trigger] regions[i]).addr as int,
            regions[i].size as int,
            (#[trigger] regions[j]).addr as int,
            regions[j].size as int,
        )
}

/// No free region overlaps a live block. A live block is a start address
/// paired with the normalized size it was carved with.
pub open spec fn regions_disjoint_from_live(regions: Seq<ListNode>, live: Seq<(int, int)>) -> bool {
    forall|i: int, k: int|
        0 <= i < regions.len() && 0 <= k < live.len() ==> ranges_disjoint(
            (#[trigger] regions[i]).addr as int,
            regions[i].size as int,
            (#[trigger] live[k]).0,
            live[k].1,
        )
}

/// The allocator's half of the interleaving invariant: when the free regions
/// are mutually disjoint and disjoint from every live block, a successful
/// `allocate` hands out a block that overlaps no live block, and the
/// invariant holds again once the new block is counted live. Chained with
/// `lemma_ll_deallocate_keeps_disjoint` over any interleaving of calls, this
/// shows the allocator never grants two overlapping blocks that are live at
/// the same time.
pub proof fn lemma_ll_allocate_keeps_disjoint(
    regions: Seq<ListNode>,
    live: Seq<(int, int)>,
    size: int,
    align: int,
)
    requires
        is_power_of_two(align),
        0 <= size,
        regions_wf(regions),
        regions_pairwise_disjoint(regions),
        regions_disjoint_from_live(regions, live),
        live_pairwise_disjoint(live),
        allocate_result(regions, size, align) is Some,
    ensures
        ({
            let p = allocate_result(regions, size, align)->Some_0 as int;
            let s2 = normalized_size(size, align);
            let after = allocate_after(regions, size, align);
            let live2 = live.push((p, s2));
            &&& regions_wf(after)
            &&& regions_pairwise_disjoint(after)
            &&& regions_disjoint_from_live(after, live2)
            &&& live_pairwise_disjoint(live2)
        }),
{
    let s2 = normalized_size(size, align);
    let a2 = normalized_align(align);
    lemma_normalized_props(size, align);
    crate::allocator::lemma_power_of_two_constants();
    let k0 = find_index(regions, s2, a2);
    lemma_find_index_props(regions, s2, a2);
    let region = regions[k0];
    let start = alloc_from_region_spec(region, s2, a2)->Some_0;
    lemma_align_up_spec_props(region.addr as int, a2);
    // The carved block and the excess both lie inside the matched region.
    assert(region.addr <= start);
    assert(start + s2 <= region.addr + region.size);
    let p = allocate_result(regions, size, align)->Some_0 as int;
    assert(p == start);
    let removed = regions.remove(k0);
    regions.remove_ensures(k0);
    let after = allocate_after(regions, size, align);
    let live2 = live.push((p, s2));
    let excess = region.addr + region.size - (start + s2);

    // Each element of the shortened list is an element of the original list
    // other than the matched region.
    assert forall|i: int| 0 <= i < removed.len() implies (#[trigger] removed[i]).wf()
        && ranges_disjoint(
        removed[i].addr as int,
        removed[i].size as int,
        region.addr as int,
        region.size as int,
    ) && (forall|m: int|
        0 <= m < live.len() ==> ranges_disjoint(
            removed[i].addr as int,
            removed[i].size as int,
            (#[trigger] live[m]).0,
            live[m].1,
        )) by {
        if i < k0 {
            assert(removed[i] == regions[i]);
        } else {
            assert(removed[i] == regions[i + 1]);
        }
    }

    if excess > 0 {
        let node = ListNode { addr: (start + s2) as usize, size: excess as usize };
        // The excess region can itself carry a header.
        crate::allocator::lemma_power_of_two_divides(LIST_NODE_ALIGN as int, a2);
        crate::allocator::lemma_mod_trans(start, LIST_NODE_ALIGN as int, a2);
        if s2 % a2 == 0 {
            crate::allocator::lemma_mod_trans(s2, LIST_NODE_ALIGN as int, a2);
        }
        crate::allocator::lemma_mod_sum_zero(start, s2, LIST_NODE_ALIGN as int);
        assert(node.wf());
        assert(after == removed.insert(0, node));
        removed.insert_ensures(0, node);
        assert forall|i: int, j: int|
            0 <= i < after.len() && 0 <= j < after.len() && i != j implies ranges_disjoint(
            (#[trigger] after[i]).addr as int,
            after[i].size as int,
            (#[trigger] after[j]).addr as int,
            after[j].size as int,
        ) by {
            if i > 0 {
                assert(after[i] == removed[i - 1]);
            }
            if j > 0 {
                assert(after[j] == removed[j - 1]);
            }
        }
        assert forall|i: int, k: int|
            0 <= i < after.len() && 0 <= k < live2.len() implies ranges_disjoint(
            (#[trigger] after[i]).addr as int,
            after[i].size as int,
            (#[trigger] live2[k]).0,
            live2[k].1,
        ) by {
            if i > 0 {
                assert(after[i] == removed[i - 1]);
            }
            if k < live.len() {
                assert(live2[k] == live[k]);
            }
        }
        assert(regions_wf(after)) by {
            assert forall|i: int| 0 <= i < after.len() implies (#[trigger] after[i]).wf() by {
                if i > 0 {
                    assert(after[i] == removed[i - 1]);
                }
            }
        }
    } else {
        assert(after == removed);
        assert forall|i: int, k: int|
            0 <= i < after.len() && 0 <= k < live2.len() implies ranges_disjoint(
            (#[trigger] after[i]).addr as int,
            after[i].size as int,
            (#[trigger] live2[k]).0,
            live2[k].1,
        ) by {
            if k < live.len() {
                assert(live2[k] == live[k]);
            }
        }
    }

    // The new block overlaps no block that was already live: it lies inside
    // the matched region, and that region overlapped none of them.
    assert forall|m: int, k: int|
        0 <= m < live2.len() && 0 <= k < live2.len() && m != k implies ranges_disjoint(
        (#[trigger] live2[m]).0,
        live2[m].1,
        (#[trigger] live2[k]).0,
        live2[k].1,
    ) by {
        if m < live.len() && k < live.len() {
            assert(live2[m] == live[m]);
            assert(live2[k] == live[k]);
        } else if m < live.len() {
            assert(live2[m] == live[m]);
            assert(ranges_disjoint(
                region.addr as int,
                region.size as int,
                live[m].0,
                live[m].1,
            ));
        } else {
            assert(live2[k] == live[k]);
            assert(ranges_disjoint(
                region.addr as int,
                region.size as int,
                live[k].0,
                live[k].1,
            ));
        }
    }
}

/// The caller's half of the interleaving invariant: freeing a live block
/// moves it from the live set to the free list, and everything stays
/// mutually disjoint.
pub proof fn lemma_ll_deallocate_keeps_disjoint(
    regions: Seq<ListNode>,
    live: Seq<(int, int)>,
    k: int,
    size: int,
    align: int,
)
    requires
        is_power_of_two(align),
        0 <= size,
        regions_wf(regions),
        regions_pairwise_disjoint(regions),
        regions_disjoint_from_live(regions, live),
        live_pairwise_disjoint(live),
        0 <= k < live.len(),
        // The block is freed with the layout it was allocated with, so it
        // re-enters the list with its original normalized extent.
        live[k].1 == normalized_size(size, align),
        1 <= live[k].0,
        live[k].0 % LIST_NODE_ALIGN as int == 0,
        live[k].0 + live[k].1 <= usize::MAX,
    ensures
        ({
            let node = ListNode { addr: live[k].0 as usize, size: live[k].1 as usize };
            let after = regions.insert(0, node);
            let live2 = live.remove(k);
            &&& regions_wf(after)
            &&& regions_pairwise_disjoint(after)
            &&& regions_disjoint_from_live(after, live2)
            &&& live_pairwise_disjoint(live2)
        }),
{
    lemma_normalized_props(size, align);
    let node = ListNode { addr: live[k].0 as usize, size: live[k].1 as usize };
    let after = regions.insert(0, node);
    let live2 = live.remove(k);
    regions.insert_ensures(0, node);
    live.remove_ensures(k);
    assert(node.wf());

    assert forall|i: int, j: int|
        0 <= i < after.len() && 0 <= j < after.len() && i != j implies ranges_disjoint(
        (#[trigger] after[i]).addr as int,
        after[i].size as int,
        (#[trigger] after[j]).addr as int,
        after[j].size as int,
    ) by {
        if i > 0 {
            assert(after[i] == regions[i - 1]);
        }
        if j > 0 {
            assert(after[j] == regions[j - 1]);
        }
    }
    assert forall|i: int, m: int|
        0 <= i < after.len() && 0 <= m < live2.len() implies ranges_disjoint(
        (#[trigger] after[i]).addr as int,
        after[i].size as int,
        (#[trigger] live2[m]).0,
        live2[m].1,
    ) by {
        if i > 0 {
            assert(after[i] == regions[i - 1]);
        }
        if m < k {
            assert(live2[m] == live[m]);
        } else {
            assert(live2[m] == live[m + 1]);
        }
    }
    assert forall|m: int, n: int|
        0 <= m < live2.len() && 0 <= n < live2.len() && m != n implies ranges_disjoint(
        (#[trigger] live2[m]).0,
        live2[m].1,
        (#[trigger] live2[n]).0,
        live2[n].1,
    ) by {
        if m < k {
            assert(live2[m] == live[m]);
        } else {
            assert(live2[m] == live[m + 1]);
        }
        if n < k {
            assert(live2[n] == live[n]);
        } else {
            assert(live2[n] == live[n + 1]);
        }
    }
    assert(regions_wf(after)) by {
        assert forall|i: int| 0 <= i < after.len() implies (#[trigger] after[i]).wf() by {
            if i > 0 {
                assert(after[i] == regions[i - 1]);
            }
        }
    }
}

/// Every region on the list lies inside the heap's configured bounds.
pub open spec fn regions_within(regions: Seq<ListNode>, lo: int, hi: int) -> bool {
    forall|i: int|
        0 <= i < regions.len() ==> lo <= (#[trigger] regions[i]).addr && regions[i].addr
            + regions[i].size <= hi
}

/// Every live block could carry a header once it is freed: it was carved with
/// a normalized layout.
pub open spec fn live_blocks_wf(live: Seq<(int, int)>) -> bool {
    forall|k: int|
        0 <= k < live.len() ==> 1 <= (#[trigger] live[k]).0 && live[k].0 % LIST_NODE_ALIGN as int
            == 0 && LIST_NODE_SIZE as int <= live[k].1 && live[k].0 + live[k].1 <= usize::MAX
}

/// The block predicates only look at which blocks a sequence holds, not
/// where: they carry over to any sequence whose entries all come from the
/// first one, injectively for the pairwise predicate.
pub proof fn lemma_live_reindex(
    c1: Seq<(int, int)>,
    c2: Seq<(int, int)>,
    f: spec_fn(int) -> int,
    free: Seq<ListNode>,
    lo: int,
    hi: int,
)
    requires
        forall|k: int| 0 <= k < c2.len() ==> 0 <= #[trigger] f(k) < c1.len() && c2[k] == c1[f(k)],
        forall|k: int, m: int|
            0 <= k < c2.len() && 0 <= m < c2.len() && k != m ==> #[trigger] f(k) != #[trigger] f(
                m,
            ),
    ensures
        live_pairwise_disjoint(c1) ==> live_pairwise_disjoint(c2),
        live_blocks_wf(c1) ==> live_blocks_wf(c2),
        live_within(c1, lo, hi) ==> live_within(c2, lo, hi),
        regions_disjoint_from_live(free, c1) ==> regions_disjoint_from_live(free, c2),
{
    if live_pairwise_disjoint(c1) {
        assert forall|k: int, m: int|
            0 <= k < c2.len() && 0 <= m < c2.len() && k != m implies ranges_disjoint(
            (#[trigger] c2[k]).0,
            c2[k].1,
            (#[trigger] c2[m]).0,
            c2[m].1,
        ) by {
            assert(c2[k] == c1[f(k)]);
            assert(c2[m] == c1[f(m)]);
        }
    }
    if regions_disjoint_from_live(free, c1) {
        assert forall|i: int, k: int|
            0 <= i < free.len() && 0 <= k < c2.len() implies ranges_disjoint(
            (#[trigger] free[i]).addr as int,
            free[i].size as int,
            (#[trigger] c2[k]).0,
            c2[k].1,
        ) by {
            assert(c2[k] == c1[f(k)]);
        }
    }
    if live_blocks_wf(c1) {
        assert forall|k: int| 0 <= k < c2.len() implies 1 <= (#[trigger] c2[k]).0 && c2[k].0
            % LIST_NODE_ALIGN as int == 0 && LIST_NODE_SIZE as int <= c2[k].1 && c2[k].0 + c2[k].1
            <= usize::MAX by {
            assert(c2[k] == c1[f(k)]);
        }
    }
    if live_within(c1, lo, hi) {
        assert forall|k: int| 0 <= k < c2.len() implies lo <= (#[trigger] c2[k]).0 && c2[k].0
            + c2[k].1 <= hi by {
            assert(c2[k] == c1[f(k)]);
        }
    }
}

/// A successful allocation stays inside the heap bounds, as does the whole
/// free list after it, and the granted block is fit to carry a header later.
pub proof fn lemma_ll_allocate_keeps_bounds(
    regions: Seq<ListNode>,
    size: int,
    align: int,
    lo: int,
    hi: int,
)
    requires
        is_power_of_two(align),
        0 <= size,
        1 <= lo,
        hi <= usize::MAX,
        regions_wf(regions),
        regions_within(regions, lo, hi),
        allocate_result(regions, size, align) is Some,
    ensures
        ({
            let p = allocate_result(regions, size, align)->Some_0 as int;
            let s2 = normalized_size(size, align);
            &&& regions_within(allocate_after(regions, size, align), lo, hi)
            &&& lo <= p
            &&& p + s2 <= hi
            &&& p % LIST_NODE_ALIGN as int == 0
        }),
{
    let s2 = normalized_size(size, align);
    let a2 = normalized_align(align);
    lemma_normalized_props(size, align);
    crate::allocator::lemma_power_of_two_constants();
    let k0 = find_index(regions, s2, a2);
    lemma_find_index_props(regions, s2, a2);
    let region = regions[k0];
    let start = alloc_from_region_spec(region, s2, a2)->Some_0;
    lemma_align_up_spec_props(region.addr as int, a2);
    crate::allocator::lemma_power_of_two_divides(LIST_NODE_ALIGN as int, a2);
    crate::allocator::lemma_mod_trans(start, LIST_NODE_ALIGN as int, a2);
    let removed = regions.remove(k0);
    regions.remove_ensures(k0);
    let after = allocate_after(regions, size, align);
    let excess = region.addr + region.size - (start + s2);
    assert forall|i: int| 0 <= i < removed.len() implies lo <= (#[trigger] removed[i]).addr
        && removed[i].addr + removed[i].size <= hi by {
        if i < k0 {
            assert(removed[i] == regions[i]);
        } else {
            assert(removed[i] == regions[i + 1]);
        }
    }
    if excess > 0 {
        let node = ListNode { addr: (start + s2) as usize, size: excess as usize };
        removed.insert_ensures(0, node);
        assert forall|i: int| 0 <= i < after.len() implies lo <= (#[trigger] after[i]).addr
            && after[i].addr + after[i].size <= hi by {
            if i > 0 {
                assert(after[i] == removed[i - 1]);
            }
        }
    }
}

/// One allocate or deallocate call, as the heap's clients see it: a request
/// is served or refused, and a free returns one live block together with the
/// layout it was allocated with.
pub enum HeapOp {
    Allocate { size: int, align: int },
    Deallocate { index: int, size: int, align: int },
}

/// The heap's invariant: free regions and live blocks all lie inside the
/// configured region, no two of them overlap in any combination, and
/// everything can carry a header when it sits on the free list.
pub open spec fn heap_state_inv(
    free: Seq<ListNode>,
    live: Seq<(int, int)>,
    lo: int,
    hi: int,
) -> bool {
    &&& 1 <= lo
    &&& hi <= usize::MAX
    &&& regions_wf(free)
    &&& regions_pairwise_disjoint(free)
    &&& regions_disjoint_from_live(free, live)
    &&& live_pairwise_disjoint(live)
    &&& live_blocks_wf(live)
    &&& regions_within(free, lo, hi)
    &&& live_within(live, lo, hi)
}

/// How one call changes the heap: a successful allocation moves a block from
/// the free list to the live set, a failed one changes nothing, and a free of
/// a live block — with the layout it was allocated with — moves it back onto
/// the free list. A call outside the allocator's contract (a non-power-of-two
/// alignment, a free of something not live) is a caller bug and is not a step
/// of the model.
pub open spec fn apply_op(free: Seq<ListNode>, live: Seq<(int, int)>, op: HeapOp) -> (
    Seq<ListNode>,
    Seq<(int, int)>,
) {
    match op {
        HeapOp::Allocate { size, align } => {
            if is_power_of_two(align) && 0 <= size {
                if allocate_result(free, size, align) is Some {
                    let p = allocate_result(free, size, align)->Some_0;
                    (
                        allocate_after(free, size, align),
                        live.push((p as int, normalized_size(size, align))),
                    )
                } else {
                    (free, live)
                }
            } else {
                (free, live)
            }
        },
        HeapOp::Deallocate { index, size, align } => {
            if is_power_of_two(align) && 0 <= size && 0 <= index < live.len() && live[index].1
                == normalized_size(size, align) {
                (
                    free.insert(
                        0,
                        ListNode { addr: live[index].0 as usize, size: live[index].1 as usize },
                    ),
                    live.remove(index),
                )
            } else {
                (free, live)
            }
        },
    }
}

/// The heap after a whole sequence of calls.
pub open spec fn run_ops(free: Seq<ListNode>, live: Seq<(int, int)>, ops: Seq<HeapOp>) -> (
    Seq<ListNode>,
    Seq<(int, int)>,
)
    decreases ops.len(),
{
    if ops.len() == 0 {
        (free, live)
    } else {
        let next = apply_op(free, live, ops[0]);
        run_ops(next.0, next.1, ops.drop_first())
    }
}

/// A freshly initialized heap satisfies the invariant: one free region, the
/// whole configured range, and nothing live.
pub proof fn lemma_fresh_heap_inv(heap_start: usize, heap_size: usize)
    requires
        1 <= heap_start,
        heap_start % LIST_NODE_ALIGN == 0,
        heap_size >= LIST_NODE_SIZE,
        heap_start + heap_size <= usize::MAX,
    ensures
        heap_state_inv(
            seq![ListNode { addr: heap_start, size: heap_size }],
            Seq::empty(),
            heap_start as int,
            heap_start + heap_size,
        ),
{
}

/// Under any interleaving of allocate and deallocate calls that starts from a
/// state satisfying the heap invariant — a fresh heap in particular — the
/// invariant holds at the end: at no point do two live blocks overlap, and
/// every block the allocator has granted lies inside the configured region.
/// Since every prefix of an interleaving is itself an interleaving, this
/// holds at every intermediate point as well.
pub proof fn lemma_ll_no_overlap_any_interleaving(
    free: Seq<ListNode>,
    live: Seq<(int, int)>,
    ops: Seq<HeapOp>,
    lo: int,
    hi: int,
)
    requires
        heap_state_inv(free, live, lo, hi),
    ensures
        heap_state_inv(run_ops(free, live, ops).0, run_ops(free, live, ops).1, lo, hi),
        live_pairwise_disjoint(run_ops(free, live, ops).1),
        live_within(run_ops(free, live, ops).1, lo, hi),
    decreases ops.len(),
{
    if ops.len() > 0 {
        let next = apply_op(free, live, ops[0]);
        match ops[0] {
            HeapOp::Allocate { size, align } => {
                if is_power_of_two(align) && 0 <= size && allocate_result(
                    free,
                    size,
                    align,
                ) is Some {
                    lemma_normalized_props(size, align);
                    lemma_ll_allocate_keeps_disjoint(free, live, size, align);
                    lemma_ll_allocate_keeps_bounds(free, size, align, lo, hi);
                    let p = allocate_result(free, size, align)->Some_0 as int;
                    let s2 = normalized_size(size, align);
                    assert(live_blocks_wf(next.1)) by {
                        assert forall|k: int| 0 <= k < next.1.len() implies 1 <= (
                        #[trigger] next.1[k]).0 && next.1[k].0 % LIST_NODE_ALIGN as int == 0
                            && LIST_NODE_SIZE as int <= next.1[k].1 && next.1[k].0 + next.1[k].1
                            <= usize::MAX by {
                            if k < live.len() {
                                assert(next.1[k] == live[k]);
                            } else {
                                assert(next.1[k] == (p, s2));
                            }
                        }
                    }
                    assert(live_within(next.1, lo, hi)) by {
                        assert forall|k: int| 0 <= k < next.1.len() implies lo <= (
                        #[trigger] next.1[k]).0 && next.1[k].0 + next.1[k].1 <= hi by {
                            if k < live.len() {
                                assert(next.1[k] == live[k]);
                            } else {
                                assert(next.1[k] == (p, s2));
                            }
                        }
                    }
                }
            },
            HeapOp::Deallocate { index, size, align } => {
                if is_power_of_two(align) && 0 <= size && 0 <= index < live.len() && live[index].1
                    == normalized_size(size, align) {
                    lemma_ll_deallocate_keeps_disjoint(free, live, index, size, align);
                    live.remove_ensures(index);
                    free.insert_ensures(
                        0,
                        ListNode { addr: live[index].0 as usize, size: live[index].1 as usize },
                    );
                    assert(live_blocks_wf(next.1)) by {
                        assert forall|k: int| 0 <= k < next.1.len() implies 1 <= (
                        #[trigger] next.1[k]).0 && next.1[k].0 % LIST_NODE_ALIGN as int == 0
                            && LIST_NODE_SIZE as int <= next.1[k].1 && next.1[k].0 + next.1[k].1
                            <= usize::MAX by {
                            if k < index {
                                assert(next.1[k] == live[k]);
                            } else {
                                assert(next.1[k] == live[k + 1]);
                            }
                        }
                    }
                    assert(live_within(next.1, lo, hi)) by {
                        assert forall|k: int| 0 <= k < next.1.len() implies lo <= (
                        #[trigger] next.1[k]).0 && next.1[k].0 + next.1[k].1 <= hi by {
                            if k < index {
                                assert(next.1[k] == live[k]);
                            } else {
                                assert(next.1[k] == live[k + 1]);
                            }
                        }
                    }
                    assert(regions_within(next.0, lo, hi)) by {
                        assert forall|i: int| 0 <= i < next.0.len() implies lo <= (
                        #[trigger] next.0[i]).addr && next.0[i].addr + next.0[i].size <= hi by {
                            if i > 0 {
                                assert(next.0[i] == free[i - 1]);
                            }
                        }
                    }
                }
            },
        }
        lemma_ll_no_overlap_any_interleaving(next.0, next.1, ops.drop_first(), lo, hi);
    }
}

/// Blocks that do not overlap and have room for a header start at distinct
/// addresses: with `lemma_ll_no_overlap_any_interleaving` (or its segregated
/// counterpart) this says that all pointers handed out and still live after
/// any run from a fresh heap are distinct.
pub proof fn lemma_disjoint_blocks_distinct(live: Seq<(int, int)>)
    requires
        live_pairwise_disjoint(live),
        live_blocks_wf(live),
    ensures
        forall|k: int, m: int|
            0 <= k < live.len() && 0 <= m < live.len() && k != m ==> (#[trigger] live[k]).0 != (
            #[trigger] live[m]).0,
{
    assert forall|k: int, m: int|
        0 <= k < live.len() && 0 <= m < live.len() && k != m implies (#[trigger] live[k]).0 != (
    #[trigger] live[m]).0 by {
        assert(ranges_disjoint(live[k].0, live[k].1, live[m].0, live[m].1));
    }
}

/// If a request fits at position `k` and in none before it, then `k` is where
/// the first-fit search stops.
proof fn lemma_find_index_first_match(regions: Seq<ListNode>, size: int, align: int, k: int)
    requires
        0 <= k < regions.len(),
        alloc_from_region_spec(regions[k], size, align) is Some,
        forall|j: int|
            0 <= j < k ==> alloc_from_region_spec(#[trigger] regions[j], size, align) is None,
    ensures
        find_index(regions, size, align) == k,
    decreases k,
{
    if k > 0 {
        lemma_find_index_first_match(regions.drop_first(), size, align, k - 1);
    }
}

/// If a request fits nowhere, the first-fit search reports that.
proof fn lemma_find_index_no_match(regions: Seq<ListNode>, size: int, align: int)
    requires
        forall|j: int|
            0 <= j < regions.len() ==> alloc_from_region_spec(
                #[trigger] regions[j],
                size,
                align,
            ) is None,
    ensures
        find_index(regions, size, align) == -1,
    decreases regions.len(),
{
    if regions.len() > 0 {
        lemma_find_index_no_match(regions.drop_first(), size, align);
    }
}

/// What the first-fit search guarantees about its result.
pub proof fn lemma_find_index_props(regions: Seq<ListNode>, size: int, align: int)
    ensures
        -1 <= find_index(regions, size, align) < regions.len(),
        find_index(regions, size, align) >= 0 ==> alloc_from_region_spec(
            regions[find_index(regions, size, align)],
            size,
            align,
        ) is Some,
        forall|j: int|
            0 <= j < regions.len() && (find_index(regions, size, align) == -1 || j < find_index(
                regions,
                size,
                align,
            )) ==> alloc_from_region_spec(#[trigger] regions[j], size, align) is None,
    decreases regions.len(),
{
    if regions.len() > 0 && alloc_from_region_spec(regions[0], size, align) is None {
        let rest = regions.drop_first();
        lemma_find_index_props(rest, size, align);
        let fr = find_index(rest, size, align);
        if fr >= 0 {
            assert(regions[fr + 1] == rest[fr]);
        }
        assert forall|j: int|
            0 <= j < regions.len() && (find_index(regions, size, align) == -1 || j < find_index(
                regions,
                size,
                align,
            )) implies alloc_from_region_spec(#[trigger] regions[j], size, align) is None by {
            if j > 0 {
                assert(regions[j] == rest[j - 1]);
            }
        }
    }
}

} // verus!
