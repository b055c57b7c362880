use vstd::prelude::*;

verus! {

use crate::allocator::{align_up, align_up_spec, is_power_of_two, live_pairwise_disjoint, live_within, ranges_disjoint};

/// Monotonic pointer allocator.
///
/// Memory is served by advancing `next` through the heap region; individual
/// deallocations only decrement the count of live allocations, and the whole
/// region is reclaimed at once when the last live allocation is returned.
pub struct BumpAllocator {
    pub heap_start: usize,
    pub heap_end: usize,
    pub next: usize,
    pub alloc_count: usize,
}

impl BumpAllocator {
    /// Holds for every allocator that `init` has set up: the bump pointer
    /// stays inside the configured region, and addresses start above zero so
    /// that address arithmetic never wraps below the region.
    pub open spec fn wf(self) -> bool {
        &&& 1 <= self.heap_start
        &&& self.heap_start <= self.next <= self.heap_end
    }

    /// An allocator that `init` has not touched yet.
    pub open spec fn is_unused(self) -> bool {
        &&& self.heap_start == 0
        &&& self.heap_end == 0
        &&& self.next == 0
        &&& self.alloc_count == 0
    }

    /// The address a request would be served at: the bump pointer rounded up
    /// to the requested alignment.
    pub open spec fn alloc_candidate(self, align: int) -> int {
        align_up_spec(self.next as int, align)
    }

    /// Whether a request fits between the (aligned) bump pointer and the end
    /// of the region. Stated over unbounded integers, so an address
    /// computation that would wrap is simply a request that does not fit.
    pub open spec fn alloc_fits(self, size: int, align: int) -> bool {
        self.alloc_candidate(align) + size <= self.heap_end
    }

    /// State after one `allocate` call.
    pub open spec fn after_alloc(self, size: int, align: int) -> BumpAllocator {
        if self.alloc_fits(size, align) {
            BumpAllocator {
                next: (self.alloc_candidate(align) + size) as usize,
                alloc_count: (self.alloc_count + 1) as usize,
                ..self
            }
        } else {
            self
        }
    }

    /// Result of one `allocate` call.
    pub open spec fn alloc_result(self, size: int, align: int) -> Option<usize> {
        if self.alloc_fits(size, align) {
            Some(self.alloc_candidate(align) as usize)
        } else {
            None
        }
    }

    /// State after one `deallocate` call: the live count drops, and the bump
    /// pointer rewinds to the start of the heap once nothing is live.
    pub open spec fn after_dealloc(self) -> BumpAllocator {
        let count = (self.alloc_count - 1) as usize;
        BumpAllocator {
            next: if count == 0 {
                self.heap_start
            } else {
                self.next
            },
            alloc_count: count,
            ..self
        }
    }

    pub fn new() -> (r: BumpAllocator)
        ensures
            r.is_unused(),
    {
        BumpAllocator { heap_start: 0, heap_end: 0, next: 0, alloc_count: 0 }
    }

    /// Binds the allocator to the heap region `[heap_start, heap_start + heap_size)`.
    ///
    /// Must be called exactly once, on a region that is unused and fully
    /// mapped; the caller owns that guarantee.
    pub fn init(&mut self, heap_start: usize, heap_size: usize)
        requires
            old(self).is_unused(),
            1 <= heap_start,
            heap_start + heap_size <= usize::MAX,
        ensures
            final(self).heap_start == heap_start,
            final(self).heap_end == heap_start + heap_size,
            final(self).next == heap_start,
            final(self).alloc_count == 0,
            final(self).wf(),
    {
        self.heap_start = heap_start;
        self.heap_end = heap_start + heap_size;
        self.next = heap_start;
        self.alloc_count = 0;
    }

    /// Serves one request: rounds the bump pointer up to `align`, fails if the
    /// request does not fit below `heap_end` (or if the end address would
    /// wrap), and otherwise advances the pointer past the new block.
    pub fn allocate(&mut self, size: usize, align: usize) -> (r: Option<usize>)
        requires
            old(self).wf(),
            is_power_of_two(align as int),
            old(self).next + align - 1 <= usize::MAX,
            old(self).alloc_count < usize::MAX,
        ensures
            final(self).heap_start == old(self).heap_start,
            final(self).heap_end == old(self).heap_end,
            *final(self) == old(self).after_alloc(size as int, align as int),
            r == old(self).alloc_result(size as int, align as int),
            final(self).wf(),
            r matches Some(p) ==> {
                &&& p % align == 0
                &&& old(self).next <= p
                &&& p + size <= final(self).heap_end
                &&& final(self).next == p + size
                &&& final(self).alloc_count == old(self).alloc_count + 1
            },
            r is None ==> *final(self) == *old(self),
    {
        let alloc_start = align_up(self.next, align);
        match alloc_start.checked_add(size) {
            Some(alloc_end) => {
                if alloc_end > self.heap_end {
                    None
                } else {
                    self.alloc_count = self.alloc_count + 1;
                    self.next = alloc_end;
                    Some(alloc_start)
                }
            },
            None => None,
        }
    }

    /// Returns one block. The pointer and layout are not consulted: the bump
    /// allocator cannot reuse individual blocks, so deallocation only lowers
    /// the live count, and rewinds to the heap start when it reaches zero.
    pub fn deallocate(&mut self, _ptr: usize, _size: usize, _align: usize)
        requires
            old(self).wf(),
            1 <= old(self).alloc_count,
        ensures
            *final(self) == old(self).after_dealloc(),
            final(self).heap_start == old(self).heap_start,
            final(self).heap_end == old(self).heap_end,
            final(self).alloc_count == old(self).alloc_count - 1,
            final(self).next == if final(self).alloc_count == 0 {
                final(self).heap_start
            } else {
                old(self).next
            },
            final(self).wf(),
    {
        self.alloc_count = self.alloc_count - 1;
        if self.alloc_count == 0 {
            self.next = self.heap_start;
        }
    }
}

/// State after a run of `n` identical `allocate` requests.
pub open spec fn after_allocs(s: BumpAllocator, size: int, align: int, n: nat) -> BumpAllocator
    decreases n,
{
    if n == 0 {
        s
    } else {
        after_allocs(s.after_alloc(size, align), size, align, (n - 1) as nat)
    }
}

/// Every one of `n` identical `allocate` requests succeeds.
pub open spec fn allocs_all_fit(s: BumpAllocator, size: int, align: int, n: nat) -> bool
    decreases n,
{
    n > 0 ==> {
        &&& s.alloc_fits(size, align)
        &&& allocs_all_fit(s.after_alloc(size, align), size, align, (n - 1) as nat)
    }
}

/// The block handed out by the `i`-th request of such a run.
pub open spec fn result_at(s: BumpAllocator, size: int, align: int, i: nat) -> Option<usize> {
    after_allocs(s, size, align, i).alloc_result(size, align)
}

/// State after `n` `deallocate` calls.
pub open spec fn after_deallocs(s: BumpAllocator, n: nat) -> BumpAllocator
    decreases n,
{
    if n == 0 {
        s
    } else {
        after_deallocs(s.after_dealloc(), (n - 1) as nat)
    }
}

/// One allocation keeps the allocator well formed, never moves the bump
/// pointer backwards, and never touches the region bounds.
proof fn lemma_after_alloc_props(s: BumpAllocator, size: int, align: int)
    requires
        s.wf(),
        0 <= size,
        1 <= align,
    ensures
        s.after_alloc(size, align).wf(),
        s.after_alloc(size, align).heap_start == s.heap_start,
        s.after_alloc(size, align).heap_end == s.heap_end,
        s.next <= s.after_alloc(size, align).next,
        s.alloc_candidate(align) % align == 0,
        s.next <= s.alloc_candidate(align) < s.next + align,
        s.alloc_fits(size, align) ==> s.after_alloc(size, align).next == s.alloc_candidate(align)
            + size,
        s.alloc_fits(size, align) && s.alloc_count < usize::MAX ==> s.after_alloc(
            size,
            align,
        ).alloc_count == s.alloc_count + 1,
{
    crate::allocator::lemma_align_up_spec_props(s.next as int, align);
}

/// A run of allocations keeps the allocator well formed and only moves the
/// bump pointer forwards; when every request succeeds the live count grows by
/// one per request, and any successful request moves the pointer strictly.
proof fn lemma_after_allocs_props(s: BumpAllocator, size: int, align: int, n: nat)
    requires
        s.wf(),
        0 <= size,
        1 <= align,
    ensures
        after_allocs(s, size, align, n).wf(),
        after_allocs(s, size, align, n).heap_start == s.heap_start,
        after_allocs(s, size, align, n).heap_end == s.heap_end,
        s.next <= after_allocs(s, size, align, n).next,
        allocs_all_fit(s, size, align, n) && s.alloc_count + n <= usize::MAX ==> after_allocs(
            s,
            size,
            align,
            n,
        ).alloc_count == s.alloc_count + n,
        allocs_all_fit(s, size, align, n) && n >= 1 && size >= 1 ==> s.next < after_allocs(
            s,
            size,
            align,
            n,
        ).next,
    decreases n,
{
    if n > 0 {
        lemma_after_alloc_props(s, size, align);
        lemma_after_allocs_props(s.after_alloc(size, align), size, align, (n - 1) as nat);
    }
}

/// Splitting a run of allocations at any point gives the same final state.
proof fn lemma_after_allocs_split(s: BumpAllocator, size: int, align: int, m: nat, k: nat)
    ensures
        after_allocs(s, size, align, m + k) == after_allocs(
            after_allocs(s, size, align, m),
            size,
            align,
            k,
        ),
        allocs_all_fit(s, size, align, m + k) ==> allocs_all_fit(s, size, align, m)
            && allocs_all_fit(after_allocs(s, size, align, m), size, align, k),
    decreases m,
{
    if m > 0 {
        lemma_after_allocs_split(s.after_alloc(size, align), size, align, (m - 1) as nat, k);
    }
}

/// In a run of identical successful requests from one heap, any two requests
/// are granted disjoint blocks — in particular distinct addresses — and each
/// block is aligned and lies inside the configured region.
pub proof fn lemma_bump_allocations_separate(
    s: BumpAllocator,
    size: int,
    align: int,
    i: nat,
    j: nat,
)
    requires
        s.wf(),
        1 <= size,
        is_power_of_two(align),
        allocs_all_fit(s, size, align, (j + 1) as nat),
        i < j,
    ensures
        result_at(s, size, align, i) matches Some(p) ==> {
            &&& p as int % align == 0
            &&& s.heap_start <= p
            &&& p + size <= s.heap_end
        },
        result_at(s, size, align, i) is Some,
        result_at(s, size, align, j) is Some,
        (result_at(s, size, align, i)->Some_0 + size) as int <= result_at(
            s,
            size,
            align,
            j,
        )->Some_0 as int,
{
    let u_i = after_allocs(s, size, align, i);
    let u_i1 = after_allocs(s, size, align, i + 1);
    let u_j = after_allocs(s, size, align, j);

    lemma_after_allocs_split(s, size, align, i, (j + 1 - i) as nat);
    lemma_after_allocs_split(s, size, align, i + 1, (j - i - 1) as nat);
    lemma_after_allocs_split(s, size, align, j, 1);
    assert(allocs_all_fit(u_i, size, align, (j + 1 - i) as nat));
    assert(allocs_all_fit(u_j, size, align, 1));

    lemma_after_allocs_props(s, size, align, i);
    lemma_after_allocs_props(s, size, align, i + 1);
    lemma_after_allocs_props(s, size, align, j);
    lemma_after_alloc_props(u_i, size, align);
    lemma_after_alloc_props(u_j, size, align);

    // One step from `u_i` is exactly `u_i1`.
    assert(after_allocs(u_i.after_alloc(size, align), size, align, 0) == u_i.after_alloc(
        size,
        align,
    ));
    assert(after_allocs(u_i, size, align, 1) == u_i.after_alloc(size, align));
    assert(u_i1 == u_i.after_alloc(size, align)) by {
        lemma_after_allocs_split(s, size, align, i, 1);
        assert(after_allocs(s, size, align, i + 1) == after_allocs(u_i, size, align, 1));
    }

    // The pointer only moves forward between the two requests.
    assert(u_j == after_allocs(u_i1, size, align, (j - i - 1) as nat)) by {
        assert(after_allocs(s, size, align, (i + 1 + (j - i - 1)) as nat) == after_allocs(
            u_i1,
            size,
            align,
            (j - i - 1) as nat,
        )) by {
            lemma_after_allocs_split(s, size, align, i + 1, (j - i - 1) as nat);
        }
        assert((i + 1 + (j - i - 1)) as nat == j);
    }
    lemma_after_allocs_props(u_i1, size, align, (j - i - 1) as nat);
}

/// Freeing as many blocks as are live rewinds the bump pointer to the heap
/// start; freeing fewer leaves it untouched.
proof fn lemma_after_deallocs_props(s: BumpAllocator, j: nat)
    requires
        s.wf(),
        1 <= j <= s.alloc_count,
    ensures
        after_deallocs(s, j).heap_start == s.heap_start,
        after_deallocs(s, j).heap_end == s.heap_end,
        after_deallocs(s, j).alloc_count == s.alloc_count - j,
        after_deallocs(s, j).next == if j == s.alloc_count {
            s.heap_start
        } else {
            s.next
        },
        after_deallocs(s, j).wf(),
    decreases j,
{
    let t = s.after_dealloc();
    assert(after_deallocs(t, 0) == t);
    if j > 1 {
        lemma_after_deallocs_props(t, (j - 1) as nat);
    }
}

/// Allocating `n` blocks from a fresh heap and then freeing all `n` rewinds
/// the bump pointer to the heap start, while freeing only `n - 1` of them
/// reclaims nothing: the pointer stays strictly past the heap start.
pub proof fn lemma_bump_bulk_reclamation(s: BumpAllocator, size: int, align: int, n: nat)
    requires
        s.wf(),
        s.next == s.heap_start,
        s.alloc_count == 0,
        1 <= size,
        is_power_of_two(align),
        1 <= n <= usize::MAX,
        allocs_all_fit(s, size, align, n),
    ensures
        after_deallocs(after_allocs(s, size, align, n), n).next == s.heap_start,
        after_deallocs(after_allocs(s, size, align, n), (n - 1) as nat).next != s.heap_start,
{
    let t = after_allocs(s, size, align, n);
    lemma_after_allocs_props(s, size, align, n);
    lemma_after_deallocs_props(t, n);
    if n >= 2 {
        lemma_after_deallocs_props(t, (n - 1) as nat);
    }
}

/// Every block in `live` was granted earlier and not yet freed: it lies in the
/// region, wholly below the bump pointer.
pub open spec fn live_ranges_below(s: BumpAllocator, live: Seq<(int, int)>) -> bool {
    forall|k: int|
        0 <= k < live.len() ==> s.heap_start <= #[trigger] live[k].0 && live[k].0 + live[k].1
            <= s.next
}

/// A granted block never overlaps a block that is still live: the new block
/// starts at or past the bump pointer, while everything live ends below it.
/// Together with `lemma_bump_dealloc_preserves_live` this is the inductive
/// step showing that, under any interleaving of calls, no two live blocks
/// overlap.
pub proof fn lemma_bump_alloc_preserves_live(
    s: BumpAllocator,
    live: Seq<(int, int)>,
    size: int,
    align: int,
)
    requires
        s.wf(),
        1 <= align,
        0 <= size,
        live_ranges_below(s, live),
        s.alloc_fits(size, align),
    ensures
        forall|k: int|
            0 <= k < live.len() ==> #[trigger] live[k].0 + live[k].1 <= s.alloc_result(
                size,
                align,
            )->Some_0,
        live_ranges_below(
            s.after_alloc(size, align),
            live.push((s.alloc_result(size, align)->Some_0 as int, size)),
        ),
{
    lemma_after_alloc_props(s, size, align);
}

/// Freeing a live block keeps every remaining live block below the bump
/// pointer: if others remain live the pointer does not move, and if nothing
/// remains live there is nothing left to stay below it.
pub proof fn lemma_bump_dealloc_preserves_live(s: BumpAllocator, live: Seq<(int, int)>, k: int)
    requires
        s.wf(),
        live_ranges_below(s, live),
        live.len() == s.alloc_count,
        0 <= k < live.len(),
    ensures
        live_ranges_below(s.after_dealloc(), live.remove(k)),
{
    let live2 = live.remove(k);
    assert forall|m: int| 0 <= m < live2.len() implies s.heap_start <= #[trigger] live2[m].0
        && live2[m].0 + live2[m].1 <= s.after_dealloc().next by {
        if s.alloc_count == 1 {
            assert(live2.len() == 0);
        } else {
            if m < k {
                assert(live2[m] == live[m]);
            } else {
                assert(live2[m] == live[m + 1]);
            }
        }
    }
}

/// One allocate or deallocate call on the bump allocator, as its clients see
/// it: a request is served or refused, and a free returns one live block.
pub enum BumpOp {
    Allocate { size: int, align: int },
    Deallocate { index: int },
}

/// The bump heap's invariant: every live block lies inside the region and
/// wholly below the bump pointer, no two live blocks overlap, and the live
/// count agrees with the live set.
pub open spec fn bump_state_inv(s: BumpAllocator, live: Seq<(int, int)>) -> bool {
    &&& s.wf()
    &&& live_ranges_below(s, live)
    &&& live_pairwise_disjoint(live)
    &&& live_within(live, s.heap_start as int, s.heap_end as int)
    &&& live.len() == s.alloc_count
}

/// How one call changes the bump heap: a successful allocation adds a block
/// at the bump pointer and a refused one changes nothing; a free drops one
/// live block, and the pointer rewinds once nothing is live. A free of
/// something not live is a caller bug and is not a step of the model.
pub open spec fn apply_bump_op(s: BumpAllocator, live: Seq<(int, int)>, op: BumpOp) -> (
    BumpAllocator,
    Seq<(int, int)>,
) {
    match op {
        BumpOp::Allocate { size, align } => {
            if 1 <= align && 0 <= size && s.alloc_count < usize::MAX {
                if s.alloc_fits(size, align) {
                    (s.after_alloc(size, align), live.push((s.alloc_candidate(align), size)))
                } else {
                    (s, live)
                }
            } else {
                (s, live)
            }
        },
        BumpOp::Deallocate { index } => {
            if 0 <= index < live.len() {
                (s.after_dealloc(), live.remove(index))
            } else {
                (s, live)
            }
        },
    }
}

/// The bump heap after a whole sequence of calls.
pub open spec fn run_bump_ops(s: BumpAllocator, live: Seq<(int, int)>, ops: Seq<BumpOp>) -> (
    BumpAllocator,
    Seq<(int, int)>,
)
    decreases ops.len(),
{
    if ops.len() == 0 {
        (s, live)
    } else {
        let next = apply_bump_op(s, live, ops[0]);
        run_bump_ops(next.0, next.1, ops.drop_first())
    }
}

/// One step preserves the bump heap's invariant.
proof fn lemma_bump_step(s: BumpAllocator, live: Seq<(int, int)>, op: BumpOp)
    requires
        bump_state_inv(s, live),
    ensures
        bump_state_inv(apply_bump_op(s, live, op).0, apply_bump_op(s, live, op).1),
{
    let next = apply_bump_op(s, live, op);
    match op {
        BumpOp::Allocate { size, align } => {
            if 1 <= align && 0 <= size && s.alloc_count < usize::MAX && s.alloc_fits(size, align) {
                lemma_bump_alloc_preserves_live(s, live, size, align);
                lemma_after_alloc_props(s, size, align);
                let p = s.alloc_candidate(align);
                assert forall|k: int, m: int|
                    0 <= k < next.1.len() && 0 <= m < next.1.len() && k != m implies ranges_disjoint(
                    (#[trigger] next.1[k]).0,
                    next.1[k].1,
                    (#[trigger] next.1[m]).0,
                    next.1[m].1,
                ) by {
                    if k < live.len() && m < live.len() {
                        assert(next.1[k] == live[k]);
                        assert(next.1[m] == live[m]);
                    } else if k < live.len() {
                        assert(next.1[k] == live[k]);
                        assert(next.1[m] == (p, size));
                        assert(live[k].0 + live[k].1 <= s.next);
                    } else {
                        assert(next.1[k] == (p, size));
                        assert(next.1[m] == live[m]);
                        assert(live[m].0 + live[m].1 <= s.next);
                    }
                }
                assert forall|k: int| 0 <= k < next.1.len() implies next.0.heap_start as int <= (
                #[trigger] next.1[k]).0 && next.1[k].0 + next.1[k].1 <= next.0.heap_end as int by {
                    if k < live.len() {
                        assert(next.1[k] == live[k]);
                    } else {
                        assert(next.1[k] == (p, size));
                    }
                }
            }
        },
        BumpOp::Deallocate { index } => {
            if 0 <= index < live.len() {
                lemma_bump_dealloc_preserves_live(s, live, index);
                assert forall|k: int, m: int|
                    0 <= k < next.1.len() && 0 <= m < next.1.len() && k != m implies ranges_disjoint(
                    (#[trigger] next.1[k]).0,
                    next.1[k].1,
                    (#[trigger] next.1[m]).0,
                    next.1[m].1,
                ) by {
                    if k < index {
                        assert(next.1[k] == live[k]);
                    } else {
                        assert(next.1[k] == live[k + 1]);
                    }
                    if m < index {
                        assert(next.1[m] == live[m]);
                    } else {
                        assert(next.1[m] == live[m + 1]);
                    }
                }
                assert forall|k: int| 0 <= k < next.1.len() implies next.0.heap_start as int <= (
                #[trigger] next.1[k]).0 && next.1[k].0 + next.1[k].1 <= next.0.heap_end as int by {
                    if k < index {
                        assert(next.1[k] == live[k]);
                    } else {
                        assert(next.1[k] == live[k + 1]);
                    }
                }
            }
        },
    }
}

/// Under any interleaving of allocate and deallocate calls that starts from
/// a state satisfying the bump heap's invariant — a fresh heap in particular
/// — the invariant holds at the end: at no point do two live blocks overlap,
/// and every granted block lies inside the configured region. Since every
/// prefix of an interleaving is itself an interleaving, this holds at every
/// intermediate point as well.
pub proof fn lemma_bump_no_overlap_any_interleaving(
    s: BumpAllocator,
    live: Seq<(int, int)>,
    ops: Seq<BumpOp>,
)
    requires
        bump_state_inv(s, live),
    ensures
        bump_state_inv(run_bump_ops(s, live, ops).0, run_bump_ops(s, live, ops).1),
        live_pairwise_disjoint(run_bump_ops(s, live, ops).1),
    decreases ops.len(),
{
    if ops.len() > 0 {
        lemma_bump_step(s, live, ops[0]);
        let next = apply_bump_op(s, live, ops[0]);
        lemma_bump_no_overlap_any_interleaving(next.0, next.1, ops.drop_first());
    }
}

} // verus!
