use text_os::allocator::linked_list::LinkedListAllocator;

const HEAP_START: usize = 8192;
const HEAP_SIZE: usize = 4096;

fn fresh() -> LinkedListAllocator {
    let mut ll = LinkedListAllocator::new();
    ll.init(HEAP_START, HEAP_SIZE);
    ll
}

#[test]
fn first_allocation_carves_the_region_head() {
    let mut ll = fresh();
    assert_eq!(ll.allocate(24, 8), Some(HEAP_START));
    // The remainder of the region is still allocatable.
    assert_eq!(ll.allocate(24, 8), Some(HEAP_START + 24));
}

#[test]
fn freed_block_is_reused_lifo() {
    let mut ll = fresh();
    let a = ll.allocate(24, 8).expect("allocation must succeed");
    ll.deallocate(a, 24, 8);
    let b = ll.allocate(24, 8).expect("allocation must succeed");
    assert_eq!(a, b);
}

#[test]
fn freed_block_is_reused_lifo_among_several() {
    let mut ll = fresh();
    let a = ll.allocate(32, 8).unwrap();
    let b = ll.allocate(32, 8).unwrap();
    let c = ll.allocate(32, 8).unwrap();
    assert!(a != b && b != c && a != c);
    ll.deallocate(b, 32, 8);
    // The most recently freed block is first-fit's first candidate.
    assert_eq!(ll.allocate(32, 8), Some(b));
}

#[test]
fn small_requests_are_padded_to_a_header() {
    let mut ll = fresh();
    let a = ll.allocate(1, 1).unwrap();
    let b = ll.allocate(1, 1).unwrap();
    // Each one-byte request occupies one 16-byte header-capable block.
    assert_eq!(b, a + 16);
}

#[test]
fn unusable_fragment_makes_a_region_not_fit() {
    let mut ll = LinkedListAllocator::new();
    // One region of 40 bytes.
    ll.init(HEAP_START, 40);
    // Carving 32 bytes would strand 8 unusable bytes: not a fit.
    assert_eq!(ll.allocate(32, 8), None);
    // Carving 24 bytes leaves 16, enough for a header: served.
    assert_eq!(ll.allocate(24, 8), Some(HEAP_START));
}

#[test]
fn whole_region_can_be_consumed_exactly() {
    let mut ll = LinkedListAllocator::new();
    ll.init(HEAP_START, 40);
    assert_eq!(ll.allocate(40, 8), Some(HEAP_START));
    assert_eq!(ll.allocate(16, 8), None);
}

#[test]
fn exhaustion_returns_none() {
    let mut ll = fresh();
    assert_eq!(ll.allocate(HEAP_SIZE + 16, 8), None);
    assert_eq!(ll.allocate(HEAP_SIZE, 8), Some(HEAP_START));
    assert_eq!(ll.allocate(16, 8), None);
}

#[test]
fn overflowing_size_returns_none() {
    let mut ll = fresh();
    assert_eq!(ll.allocate(usize::MAX - 64, 1), None);
}

#[test]
fn first_fit_skips_a_head_that_is_too_small() {
    let mut ll = fresh();
    let a = ll.allocate(32, 8).unwrap();
    let b = ll.allocate(32, 8).unwrap();
    assert_eq!((a, b), (HEAP_START, HEAP_START + 32));
    ll.deallocate(a, 32, 8);
    // The freed 32-byte head cannot hold 64 bytes; the request walks past it
    // into the region after the second block.
    assert_eq!(ll.allocate(64, 8), Some(HEAP_START + 64));
    // That carve pushed its excess to the head; drain it to reach the freed
    // block again, which is still on the list and still fits its own size.
    assert_eq!(ll.allocate(3968, 8), Some(HEAP_START + 128));
    assert_eq!(ll.allocate(32, 8), Some(a));
}

#[test]
fn live_blocks_never_overlap_across_interleavings() {
    let mut ll = fresh();
    let mut live: Vec<(usize, usize)> = Vec::new();
    let sizes = [24usize, 40, 16, 64, 32, 48, 16, 80, 24, 56];
    for (round, &size) in sizes.iter().enumerate() {
        let p = ll.allocate(size, 8).expect("allocation must succeed");
        live.push((p, size));
        // Free every third block to interleave allocation and deallocation.
        if round % 3 == 2 {
            let (q, s) = live.remove(round / 3);
            ll.deallocate(q, s, 8);
        }
        for (i, &(a, sa)) in live.iter().enumerate() {
            assert!(HEAP_START <= a && a + sa <= HEAP_START + HEAP_SIZE);
            for &(b, sb) in &live[i + 1..] {
                assert!(a + sa <= b || b + sb <= a, "live blocks overlap");
            }
        }
    }
}
