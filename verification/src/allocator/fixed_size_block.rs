use vstd::prelude::*;

verus! {

use crate::allocator::{is_power_of_two, live_pairwise_disjoint, live_within};
use crate::allocator::linked_list::{
    LinkedListAllocator,
    ListNode,
    allocate_result,
    allocate_after,
    normalized_size,
    normalized_align,
    heap_state_inv,
    live_blocks_wf,
    lemma_normalized_props,
    lemma_ll_allocate_keeps_disjoint,
    lemma_ll_allocate_keeps_bounds,
    lemma_ll_deallocate_keeps_disjoint,
    lemma_live_reindex,
    LIST_NODE_SIZE,
    LIST_NODE_ALIGN,
};

/// Number of size classes.
pub const BLOCK_CLASS_COUNT: usize = 9;

/// The fixed ascending block sizes, one per class.
pub open spec fn block_size_spec(index: int) -> int {
    if index == 0 {
        8
    } else if index == 1 {
        16
    } else if index == 2 {
        32
    } else if index == 3 {
        64
    } else if index == 4 {
        128
    } else if index == 5 {
        256
    } else if index == 6 {
        512
    } else if index == 7 {
        1024
    } else {
        2048
    }
}

/// A request must be served from a block at least as large as its size and at
/// least as aligned as its alignment; since every class size is a power of
/// two, a block of the larger of the two suffices.
pub open spec fn required_block_size(size: int, align: int) -> int {
    if size < align {
        align
    } else {
        size
    }
}

/// The class a request is routed to: the first class whose block size covers
/// the required size, or none when the request exceeds the largest class and
/// must go to the fallback allocator.
pub open spec fn class_for_spec(size: int, align: int) -> Option<int> {
    let req = required_block_size(size, align);
    if req <= 8 {
        Some(0)
    } else if req <= 16 {
        Some(1)
    } else if req <= 32 {
        Some(2)
    } else if req <= 64 {
        Some(3)
    } else if req <= 128 {
        Some(4)
    } else if req <= 256 {
        Some(5)
    } else if req <= 512 {
        Some(6)
    } else if req <= 1024 {
        Some(7)
    } else if req <= 2048 {
        Some(8)
    } else {
        None
    }
}

/// Segregated-fit allocator: one free list of fixed-size blocks per size
/// class, backed by a first-fit allocator for class misses and oversized
/// requests.
pub struct FixedSizeAllocator {
    /// One stack of free block addresses per class; the top of each stack is
    /// at the end of its vector.
    pub list_heads: Vec<Vec<usize>>,
    pub fallback_allocator: LinkedListAllocator,
}

/// Every class size is a power of two no smaller than the header alignment.
proof fn lemma_block_size_powers(i: int)
    requires
        0 <= i < BLOCK_CLASS_COUNT,
    ensures
        is_power_of_two(block_size_spec(i)),
        8 <= block_size_spec(i),
{
    crate::allocator::lemma_power_of_two_constants();
}

/// A block parked on class `i`'s free list: carved with the class's own
/// size and alignment, so it can serve any request of that class.
pub open spec fn class_block_ok(addr: usize, i: int) -> bool {
    &&& 1 <= addr
    &&& addr as int % block_size_spec(i) == 0
    &&& addr + class_extent(i) <= usize::MAX
}

impl FixedSizeAllocator {
    pub open spec fn wf(self) -> bool {
        &&& self.list_heads@.len() == BLOCK_CLASS_COUNT
        &&& self.fallback_allocator.wf()
        &&& forall|i: int, j: int|
            0 <= i < BLOCK_CLASS_COUNT && 0 <= j < self.list_heads@[i]@.len()
                ==> #[trigger] class_block_ok(self.list_heads@[i]@[j], i)
    }

    pub fn new() -> (r: FixedSizeAllocator)
        ensures
            r.wf(),
            forall|i: int| 0 <= i < BLOCK_CLASS_COUNT ==> (#[trigger] r.list_heads@[i])@.len() == 0,
            r.fallback_allocator.free_list@.len() == 0,
    {
        let mut list_heads: Vec<Vec<usize>> = Vec::new();
        let mut i: usize = 0;
        while i < BLOCK_CLASS_COUNT
            invariant
                i <= BLOCK_CLASS_COUNT,
                list_heads@.len() == i,
                forall|j: int| 0 <= j < i ==> (#[trigger] list_heads@[j])@.len() == 0,
            decreases BLOCK_CLASS_COUNT - i,
        {
            list_heads.push(Vec::new());
            i = i + 1;
        }
        FixedSizeAllocator { list_heads, fallback_allocator: LinkedListAllocator::new() }
    }

    /// Hands the whole heap region to the fallback allocator. Must be called
    /// exactly once, on a region that is unused and fully mapped; the caller
    /// owns that guarantee.
    pub fn init(&mut self, heap_start: usize, heap_size: usize)
        requires
            old(self).wf(),
            old(self).fallback_allocator.free_list@.len() == 0,
            1 <= heap_start,
            heap_start % LIST_NODE_ALIGN == 0,
            heap_size >= LIST_NODE_SIZE,
            heap_start + heap_size <= usize::MAX,
        ensures
            final(self).wf(),
            final(self).fallback_allocator.free_list@ =~= seq![
                crate::allocator::linked_list::ListNode { addr: heap_start, size: heap_size },
            ],
            final(self).list_heads@ == old(self).list_heads@,
    {
        self.fallback_allocator.init(heap_start, heap_size);
    }

    /// Delegates one request to the fallback allocator.
    fn fallback_alloc(&mut self, size: usize, align: usize) -> (r: Option<usize>)
        requires
            old(self).wf(),
            is_power_of_two(align as int),
            size + normalized_align(align as int) - 1 <= usize::MAX,
        ensures
            final(self).wf(),
            r == allocate_result(old(self).fallback_allocator.free_list@, size as int, align as int),
            final(self).fallback_allocator.free_list@ == allocate_after(
                old(self).fallback_allocator.free_list@,
                size as int,
                align as int,
            ),
            final(self).list_heads@ == old(self).list_heads@,
            r matches Some(p) ==> {
                &&& 1 <= p
                &&& p as int % align as int == 0
                &&& p % LIST_NODE_ALIGN == 0
                &&& p + normalized_size(size as int, align as int) <= usize::MAX
                &&& size <= normalized_size(size as int, align as int)
            },
    {
        self.fallback_allocator.allocate(size, align)
    }

    /// Routes a request to its size class, per `class_for_spec`.
    pub fn list_index(&self, size: usize, align: usize) -> (r: Option<usize>)
        ensures
            r matches Some(i) ==> class_for_spec(size as int, align as int) == Some(i as int),
            r is None ==> class_for_spec(size as int, align as int) is None,
            r matches Some(i) ==> i < BLOCK_CLASS_COUNT,
    {
        let required = if size < align {
            align
        } else {
            size
        };
        if required <= 8 {
            Some(0)
        } else if required <= 16 {
            Some(1)
        } else if required <= 32 {
            Some(2)
        } else if required <= 64 {
            Some(3)
        } else if required <= 128 {
            Some(4)
        } else if required <= 256 {
            Some(5)
        } else if required <= 512 {
            Some(6)
        } else if required <= 1024 {
            Some(7)
        } else if required <= 2048 {
            Some(8)
        } else {
            None
        }
    }

    /// The block size of a class.
    pub fn block_size(index: usize) -> (r: usize)
        requires
            index < BLOCK_CLASS_COUNT,
        ensures
            r == block_size_spec(index as int),
            is_power_of_two(r as int),
            LIST_NODE_SIZE <= r || r == 8,
    {
        proof {
            crate::allocator::lemma_power_of_two_constants();
        }
        match index {
            0 => 8,
            1 => 16,
            2 => 32,
            3 => 64,
            4 => 128,
            5 => 256,
            6 => 512,
            7 => 1024,
            _ => 2048,
        }
    }

    /// Serves one request: an oversized request goes straight to the fallback
    /// allocator; otherwise the request's class serves it from its free list
    /// in constant time, or, when that list is empty, one block of exactly the
    /// class size is fetched from the fallback allocator.
    pub fn allocate(&mut self, size: usize, align: usize) -> (r: Option<usize>)
        requires
            old(self).wf(),
            is_power_of_two(align as int),
            size + normalized_align(align as int) - 1 <= usize::MAX,
        ensures
            final(self).wf(),
            r matches Some(p) ==> 1 <= p && p as int % align as int == 0,
            ({
                let c = class_for_spec(size as int, align as int);
                let fallback = old(self).fallback_allocator.free_list@;
                match c {
                    None => {
                        // Oversized: served by the fallback allocator.
                        &&& r == allocate_result(fallback, size as int, align as int)
                        &&& final(self).fallback_allocator.free_list@ == allocate_after(
                            fallback,
                            size as int,
                            align as int,
                        )
                        &&& final(self).list_heads@ == old(self).list_heads@
                    },
                    Some(i) => {
                        let stack = old(self).list_heads@[i]@;
                        if stack.len() > 0 {
                            // Class hit: pop the most recently freed block.
                            &&& r == Some(stack.last())
                            &&& final(self).list_heads@.len() == BLOCK_CLASS_COUNT
                            &&& final(self).list_heads@[i]@ == stack.drop_last()
                            &&& forall|j: int|
                                0 <= j < BLOCK_CLASS_COUNT && j != i ==> (#[trigger] final(self).list_heads@[j])@ == old(self).list_heads@[j]@
                            &&& final(self).fallback_allocator == old(self).fallback_allocator
                        } else {
                            // Class miss: fetch one block of the class size
                            // from the fallback allocator.
                            let bs = block_size_spec(i);
                            &&& r == allocate_result(fallback, bs, bs)
                            &&& final(self).fallback_allocator.free_list@ == allocate_after(
                                fallback,
                                bs,
                                bs,
                            )
                            &&& final(self).list_heads@ == old(self).list_heads@
                        }
                    },
                }
            }),
    {
        match self.list_index(size, align) {
            None => self.fallback_alloc(size, align),
            Some(index) => {
                let ghost bs = block_size_spec(index as int);
                proof {
                    crate::allocator::lemma_power_of_two_constants();
                    lemma_block_size_powers(index as int);
                    crate::allocator::lemma_power_of_two_divides(align as int, bs);
                }
                let mut stack = self.list_heads.remove(index);
                if stack.len() > 0 {
                    let addr = stack.pop();
                    self.list_heads.insert(index, stack);
                    proof {
                        assert(self.list_heads@ =~= old(self).list_heads@.update(
                            index as int,
                            self.list_heads@[index as int],
                        ));
                        // The popped block was parked aligned to its class
                        // size, which the request's alignment divides.
                        assert(class_block_ok(addr->Some_0, index as int));
                        crate::allocator::lemma_mod_trans(
                            addr->Some_0 as int,
                            align as int,
                            bs,
                        );
                    }
                    addr
                } else {
                    self.list_heads.insert(index, stack);
                    proof {
                        assert(self.list_heads@ =~= old(self).list_heads@);
                    }
                    let block_size = Self::block_size(index);
                    let block_align = block_size;
                    let r = self.fallback_alloc(block_size, block_align);
                    proof {
                        if r is Some {
                            crate::allocator::lemma_mod_trans(
                                r->Some_0 as int,
                                align as int,
                                bs,
                            );
                        }
                    }
                    r
                }
            },
        }
    }

    /// Returns one block: an oversized block goes back to the fallback
    /// allocator, and a class block is pushed onto its class's free list in
    /// constant time. The class is recomputed from the layout, so a block
    /// always returns to the class it was carved for.
    pub fn deallocate(&mut self, ptr: usize, size: usize, align: usize)
        requires
            old(self).wf(),
            is_power_of_two(align as int),
            class_for_spec(size as int, align as int) is None ==> {
                &&& 1 <= ptr
                &&& ptr % LIST_NODE_ALIGN == 0
                &&& size + normalized_align(align as int) - 1 <= usize::MAX
                &&& ptr + normalized_size(size as int, align as int) <= usize::MAX
            },
            // A class block is returned as it was granted: aligned to its
            // class size. Freeing anything else is a caller bug.
            class_for_spec(size as int, align as int) matches Some(i) ==> class_block_ok(ptr, i),
        ensures
            final(self).wf(),
            ({
                let c = class_for_spec(size as int, align as int);
                match c {
                    None => {
                        &&& final(self).fallback_allocator.free_list@ == old(self).fallback_allocator.free_list@.insert(
                            0,
                            crate::allocator::linked_list::ListNode {
                                addr: ptr,
                                size: normalized_size(size as int, align as int) as usize,
                            },
                        )
                        &&& final(self).list_heads@ == old(self).list_heads@
                    },
                    Some(i) => {
                        &&& final(self).list_heads@.len() == BLOCK_CLASS_COUNT
                        &&& final(self).list_heads@[i]@ == old(self).list_heads@[i]@.push(ptr)
                        &&& forall|j: int|
                            0 <= j < BLOCK_CLASS_COUNT && j != i ==> (#[trigger] final(self).list_heads@[j])@ == old(self).list_heads@[j]@
                        &&& final(self).fallback_allocator == old(self).fallback_allocator
                    },
                }
            }),
    {
        match self.list_index(size, align) {
            None => {
                self.fallback_allocator.deallocate(ptr, size, align);
            },
            Some(index) => {
                // The class covers the block's size and alignment by
                // construction; the running kernel asserts this at run time.
                proof {
                    assert(size <= block_size_spec(index as int));
                    assert(align <= block_size_spec(index as int));
                }
                let mut stack = self.list_heads.remove(index);
                stack.push(ptr);
                self.list_heads.insert(index, stack);
                proof {
                    assert(self.list_heads@ =~= old(self).list_heads@.update(
                        index as int,
                        self.list_heads@[index as int],
                    ));
                    assert(self.list_heads@[index as int]@ == old(self).list_heads@[
                        index as int]@.push(ptr));
                }
            },
        }
    }
}

/// Ghost model of the segregated heap for the interleaving law below: the
/// fallback's free regions, the blocks parked on the class lists, and the
/// blocks held by callers. A block is a start address paired with the
/// normalized extent it was carved with.
pub struct FsModel {
    pub free: Seq<ListNode>,
    pub class_blocks: Seq<(int, int)>,
    pub user: Seq<(int, int)>,
}

/// Every block carved out of the fallback's regions: from the fallback
/// allocator's point of view, a block parked on a class list is as live as
/// one held by a caller.
pub open spec fn fs_carved(m: FsModel) -> Seq<(int, int)> {
    m.user + m.class_blocks
}

/// The segregated heap's invariant: the fallback's free regions and all
/// carved blocks together satisfy the free-list heap invariant — everything
/// inside the configured region and nothing overlapping.
pub open spec fn fs_inv(m: FsModel, lo: int, hi: int) -> bool {
    heap_state_inv(m.free, fs_carved(m), lo, hi)
}

/// The extent of a class block: one block of the class size, aligned to
/// itself, as the fallback allocator normalizes it.
pub open spec fn class_extent(i: int) -> int {
    normalized_size(block_size_spec(i), block_size_spec(i))
}

/// One call on the segregated allocator, with the route it takes inside.
/// Which route a call takes is determined by the allocator's state; the
/// model accepts any of them, so it covers the real one.
pub enum FsOp {
    /// A request beyond the largest class, served by the fallback allocator.
    AllocOversized { size: int, align: int },
    /// A class request served by popping a parked block of that class.
    AllocClassHit { index: int, size: int, align: int },
    /// A class request on an empty class list: one block of the class size
    /// is carved out of the fallback.
    AllocClassMiss { size: int, align: int },
    /// A caller returns an oversized block to the fallback allocator.
    FreeOversized { index: int, size: int, align: int },
    /// A caller returns a class block; it is parked on its class list.
    FreeClass { index: int, size: int, align: int },
}

/// How one call changes the segregated heap. A call whose conditions do not
/// hold — a free of something not live, a layout outside the allocator's
/// contract — is a caller bug and is not a step of the model; a refused
/// request changes nothing.
pub open spec fn apply_fs_op(m: FsModel, op: FsOp) -> FsModel {
    match op {
        FsOp::AllocOversized { size, align } => {
            if is_power_of_two(align) && 0 <= size && class_for_spec(size, align) is None
                && allocate_result(m.free, size, align) is Some {
                let p = allocate_result(m.free, size, align)->Some_0 as int;
                FsModel {
                    free: allocate_after(m.free, size, align),
                    user: m.user.push((p, normalized_size(size, align))),
                    ..m
                }
            } else {
                m
            }
        },
        FsOp::AllocClassHit { index, size, align } => {
            if is_power_of_two(align) && 0 <= size && (class_for_spec(size, align) matches Some(i)
                && 0 <= index < m.class_blocks.len() && m.class_blocks[index].1 == class_extent(
                i,
            )) {
                FsModel {
                    user: m.user.push(m.class_blocks[index]),
                    class_blocks: m.class_blocks.remove(index),
                    ..m
                }
            } else {
                m
            }
        },
        FsOp::AllocClassMiss { size, align } => {
            if is_power_of_two(align) && 0 <= size && (class_for_spec(size, align) matches Some(i)
                && allocate_result(m.free, block_size_spec(i), block_size_spec(i)) is Some) {
                let i = class_for_spec(size, align)->Some_0;
                let bs = block_size_spec(i);
                let p = allocate_result(m.free, bs, bs)->Some_0 as int;
                FsModel {
                    free: allocate_after(m.free, bs, bs),
                    user: m.user.push((p, class_extent(i))),
                    ..m
                }
            } else {
                m
            }
        },
        FsOp::FreeOversized { index, size, align } => {
            if is_power_of_two(align) && 0 <= size && class_for_spec(size, align) is None
                && 0 <= index < m.user.len() && m.user[index].1 == normalized_size(size, align) {
                FsModel {
                    free: m.free.insert(
                        0,
                        ListNode {
                            addr: m.user[index].0 as usize,
                            size: m.user[index].1 as usize,
                        },
                    ),
                    user: m.user.remove(index),
                    ..m
                }
            } else {
                m
            }
        },
        FsOp::FreeClass { index, size, align } => {
            if is_power_of_two(align) && 0 <= size && (class_for_spec(size, align) matches Some(i)
                && 0 <= index < m.user.len() && m.user[index].1 == class_extent(i)) {
                FsModel {
                    class_blocks: m.class_blocks.push(m.user[index]),
                    user: m.user.remove(index),
                    ..m
                }
            } else {
                m
            }
        },
    }
}

/// The segregated heap after a whole sequence of calls.
pub open spec fn run_fs_ops(m: FsModel, ops: Seq<FsOp>) -> FsModel
    decreases ops.len(),
{
    if ops.len() == 0 {
        m
    } else {
        run_fs_ops(apply_fs_op(m, ops[0]), ops.drop_first())
    }
}

/// A freshly initialized segregated heap satisfies the invariant: the whole
/// configured range is one fallback region, the class lists are empty, and
/// nothing is live.
pub proof fn lemma_fs_fresh_inv(heap_start: usize, heap_size: usize)
    requires
        1 <= heap_start,
        heap_start % LIST_NODE_ALIGN == 0,
        heap_size >= LIST_NODE_SIZE,
        heap_start + heap_size <= usize::MAX,
    ensures
        fs_inv(
            FsModel {
                free: seq![ListNode { addr: heap_start, size: heap_size }],
                class_blocks: Seq::empty(),
                user: Seq::empty(),
            },
            heap_start as int,
            heap_start + heap_size,
        ),
{
    let m = FsModel {
        free: seq![ListNode { addr: heap_start, size: heap_size }],
        class_blocks: Seq::empty(),
        user: Seq::empty(),
    };
    assert(fs_carved(m) =~= Seq::<(int, int)>::empty());
}

/// One step preserves the segregated heap's invariant.
proof fn lemma_fs_step(m: FsModel, op: FsOp, lo: int, hi: int)
    requires
        fs_inv(m, lo, hi),
    ensures
        fs_inv(apply_fs_op(m, op), lo, hi),
{
    let c = fs_carved(m);
    let u = m.user.len() as int;
    let m2 = apply_fs_op(m, op);
    let c2 = fs_carved(m2);
    match op {
        FsOp::AllocOversized { size, align } => {
            if is_power_of_two(align) && 0 <= size && class_for_spec(size, align) is None
                && allocate_result(m.free, size, align) is Some {
                lemma_fs_alloc_step(m, size, align, normalized_size(size, align), lo, hi);
            }
        },
        FsOp::AllocClassMiss { size, align } => {
            if is_power_of_two(align) && 0 <= size && (class_for_spec(size, align) matches Some(i)
                && allocate_result(m.free, block_size_spec(i), block_size_spec(i)) is Some) {
                let i = class_for_spec(size, align)->Some_0;
                crate::allocator::lemma_power_of_two_constants();
                lemma_fs_alloc_step(m, block_size_spec(i), block_size_spec(i), class_extent(i), lo, hi);
            }
        },
        FsOp::AllocClassHit { index, size, align } => {
            if is_power_of_two(align) && 0 <= size && (class_for_spec(size, align) matches Some(i)
                && 0 <= index < m.class_blocks.len() && m.class_blocks[index].1 == class_extent(i)) {
                let f = |k: int|
                    if k < u {
                        k
                    } else if k == u {
                        u + index
                    } else if k - u - 1 < index {
                        k - 1
                    } else {
                        k
                    };
                m.class_blocks.remove_ensures(index);
                assert forall|k: int| 0 <= k < c2.len() implies 0 <= #[trigger] f(k) < c.len()
                    && c2[k] == c[f(k)] by {
                    if k < u {
                        assert(c2[k] == m.user[k]);
                        assert(c[k] == m.user[k]);
                    } else if k == u {
                        assert(c2[k] == m.class_blocks[index]);
                        assert(c[u + index] == m.class_blocks[index]);
                    } else if k - u - 1 < index {
                        assert(c2[k] == m.class_blocks.remove(index)[k - u - 1]);
                        assert(m.class_blocks.remove(index)[k - u - 1] == m.class_blocks[k - u - 1]);
                        assert(c[k - 1] == m.class_blocks[k - 1 - u]);
                    } else {
                        assert(c2[k] == m.class_blocks.remove(index)[k - u - 1]);
                        assert(m.class_blocks.remove(index)[k - u - 1] == m.class_blocks[k - u]);
                        assert(c[k] == m.class_blocks[k - u]);
                    }
                }
                lemma_live_reindex(c, c2, f, m.free, lo, hi);
            }
        },
        FsOp::FreeClass { index, size, align } => {
            if is_power_of_two(align) && 0 <= size && (class_for_spec(size, align) matches Some(i)
                && 0 <= index < m.user.len() && m.user[index].1 == class_extent(i)) {
                let f = |k: int|
                    if k == c.len() - 1 {
                        index
                    } else if k < index {
                        k
                    } else {
                        k + 1
                    };
                m.user.remove_ensures(index);
                assert forall|k: int| 0 <= k < c2.len() implies 0 <= #[trigger] f(k) < c.len()
                    && c2[k] == c[f(k)] by {
                    let u2 = m2.user.len() as int;
                    if k == c.len() - 1 {
                        assert(c2[k] == m.class_blocks.push(m.user[index])[k - u2]);
                        assert(k - u2 == m.class_blocks.len());
                        assert(c2[k] == m.user[index]);
                        assert(c[index] == m.user[index]);
                    } else if k < u2 {
                        assert(c2[k] == m2.user[k]);
                        if k < index {
                            assert(m2.user[k] == m.user[k]);
                            assert(c[k] == m.user[k]);
                        } else {
                            assert(m2.user[k] == m.user[k + 1]);
                            assert(c[k + 1] == m.user[k + 1]);
                        }
                    } else {
                        assert(c2[k] == m.class_blocks.push(m.user[index])[k - u2]);
                        assert(c2[k] == m.class_blocks[k - u2]);
                        assert(c[k + 1] == m.class_blocks[k + 1 - u]);
                    }
                }
                lemma_live_reindex(c, c2, f, m.free, lo, hi);
            }
        },
        FsOp::FreeOversized { index, size, align } => {
            if is_power_of_two(align) && 0 <= size && class_for_spec(size, align) is None
                && 0 <= index < m.user.len() && m.user[index].1 == normalized_size(size, align) {
                assert(c[index] == m.user[index]);
                lemma_ll_deallocate_keeps_disjoint(m.free, c, index, size, align);
                m.user.remove_ensures(index);
                c.remove_ensures(index);
                assert(c2 =~= c.remove(index)) by {
                    assert forall|k: int| 0 <= k < c2.len() implies c2[k] == c.remove(index)[k] by {
                        let u2 = m2.user.len() as int;
                        if k < u2 {
                            if k < index {
                                assert(c2[k] == m.user[k]);
                                assert(c.remove(index)[k] == c[k]);
                            } else {
                                assert(c2[k] == m.user[k + 1]);
                                assert(c.remove(index)[k] == c[k + 1]);
                            }
                        } else {
                            assert(c2[k] == m.class_blocks[k - u2]);
                            assert(c.remove(index)[k] == c[k + 1]);
                            assert(c[k + 1] == m.class_blocks[k + 1 - u]);
                        }
                    }
                }
                let node = ListNode {
                    addr: m.user[index].0 as usize,
                    size: m.user[index].1 as usize,
                };
                m.free.insert_ensures(0, node);
                assert forall|i2: int| 0 <= i2 < m2.free.len() implies lo <= (
                #[trigger] m2.free[i2]).addr && m2.free[i2].addr + m2.free[i2].size <= hi by {
                    if i2 > 0 {
                        assert(m2.free[i2] == m.free[i2 - 1]);
                    }
                }
            }
        },
    }
}

/// A successful fallback carve — for an oversized request or for one class
/// block — preserves the invariant, with the new block counted live.
proof fn lemma_fs_alloc_step(m: FsModel, size: int, align: int, extent: int, lo: int, hi: int)
    requires
        fs_inv(m, lo, hi),
        is_power_of_two(align),
        0 <= size,
        allocate_result(m.free, size, align) is Some,
        extent == normalized_size(size, align),
    ensures
        fs_inv(
            FsModel {
                free: allocate_after(m.free, size, align),
                user: m.user.push((allocate_result(m.free, size, align)->Some_0 as int, extent)),
                ..m
            },
            lo,
            hi,
        ),
{
    let c = fs_carved(m);
    let u = m.user.len() as int;
    let p = allocate_result(m.free, size, align)->Some_0 as int;
    let s2 = normalized_size(size, align);
    lemma_normalized_props(size, align);
    lemma_ll_allocate_keeps_disjoint(m.free, c, size, align);
    lemma_ll_allocate_keeps_bounds(m.free, size, align, lo, hi);
    let m2 = FsModel {
        free: allocate_after(m.free, size, align),
        user: m.user.push((p, extent)),
        ..m
    };
    let c2 = fs_carved(m2);
    let c1 = c.push((p, s2));
    // The pushed block is itself a valid live block.
    assert(live_blocks_wf(c1)) by {
        assert forall|k: int| 0 <= k < c1.len() implies 1 <= (#[trigger] c1[k]).0 && c1[k].0
            % LIST_NODE_ALIGN as int == 0 && LIST_NODE_SIZE as int <= c1[k].1 && c1[k].0 + c1[k].1
            <= usize::MAX by {
            if k < c.len() {
                assert(c1[k] == c[k]);
            } else {
                assert(c1[k] == (p, s2));
            }
        }
    }
    assert(live_within(c1, lo, hi)) by {
        assert forall|k: int| 0 <= k < c1.len() implies lo <= (#[trigger] c1[k]).0 && c1[k].0
            + c1[k].1 <= hi by {
            if k < c.len() {
                assert(c1[k] == c[k]);
            } else {
                assert(c1[k] == (p, s2));
            }
        }
    }
    // The carved blocks after the call are the old ones plus the new block,
    // merely listed in a different order.
    let f = |k: int|
        if k < u {
            k
        } else if k == u {
            c.len() as int
        } else {
            k - 1
        };
    assert forall|k: int| 0 <= k < c2.len() implies 0 <= #[trigger] f(k) < c1.len() && c2[k]
        == c1[f(k)] by {
        if k < u {
            assert(c2[k] == m.user[k]);
            assert(c1[k] == c[k]);
            assert(c[k] == m.user[k]);
        } else if k == u {
            assert(c2[k] == (p, extent));
            assert(c1[c.len() as int] == (p, s2));
        } else {
            assert(c2[k] == m.class_blocks[k - u - 1]);
            assert(c1[k - 1] == c[k - 1]);
            assert(c[k - 1] == m.class_blocks[k - 1 - u]);
        }
    }
    lemma_live_reindex(c1, c2, f, m2.free, lo, hi);
}

/// Under any interleaving of calls on the segregated allocator that starts
/// from a state satisfying its invariant — a fresh heap in particular — the
/// invariant holds at the end: at no point do two blocks that are out of the
/// fallback's hands overlap, whether they are held by callers or parked on a
/// class list, and every granted block lies inside the configured region.
/// Since every prefix of an interleaving is itself an interleaving, this
/// holds at every intermediate point as well.
pub proof fn lemma_fs_no_overlap_any_interleaving(m: FsModel, ops: Seq<FsOp>, lo: int, hi: int)
    requires
        fs_inv(m, lo, hi),
    ensures
        fs_inv(run_fs_ops(m, ops), lo, hi),
        live_pairwise_disjoint(run_fs_ops(m, ops).user),
        live_within(run_fs_ops(m, ops).user, lo, hi),
    decreases ops.len(),
{
    if ops.len() == 0 {
        let id = |k: int| k;
        assert forall|k: int| 0 <= k < m.user.len() implies 0 <= #[trigger] id(k) < fs_carved(
            m,
        ).len() && m.user[k] == fs_carved(m)[id(k)] by {
            assert(fs_carved(m)[k] == m.user[k]);
        }
        lemma_live_reindex(fs_carved(m), m.user, id, m.free, lo, hi);
    } else {
        lemma_fs_step(m, ops[0], lo, hi);
        lemma_fs_no_overlap_any_interleaving(apply_fs_op(m, ops[0]), ops.drop_first(), lo, hi);
    }
}

} // verus!
