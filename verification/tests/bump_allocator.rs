use text_os::allocator::bump::BumpAllocator;

const HEAP_START: usize = 4096;
const HEAP_SIZE: usize = 4096;

fn fresh() -> BumpAllocator {
    let mut b = BumpAllocator::new();
    b.init(HEAP_START, HEAP_SIZE);
    b
}

#[test]
fn first_allocation_starts_at_heap_start() {
    let mut b = fresh();
    assert_eq!(b.allocate(100, 8), Some(4096));
    assert_eq!(b.allocate(50, 8), Some(4200));
}

#[test]
fn same_size_allocations_distinct_in_region_aligned() {
    let mut b = fresh();
    let mut ptrs = Vec::new();
    for _ in 0..10 {
        let p = b.allocate(32, 8).expect("allocation must succeed");
        ptrs.push(p);
    }
    for (i, &p) in ptrs.iter().enumerate() {
        assert_eq!(p % 8, 0);
        assert!(HEAP_START <= p && p + 32 <= HEAP_START + HEAP_SIZE);
        for &q in &ptrs[i + 1..] {
            assert_ne!(p, q);
            assert!(p + 32 <= q || q + 32 <= p);
        }
    }
}

#[test]
fn freeing_all_blocks_resets_pointer() {
    let mut b = fresh();
    for _ in 0..5 {
        b.allocate(64, 8).expect("allocation must succeed");
    }
    for _ in 0..5 {
        b.deallocate(0, 64, 8);
    }
    assert_eq!(b.next, HEAP_START);
    assert_eq!(b.alloc_count, 0);
}

#[test]
fn freeing_all_but_one_block_reclaims_nothing() {
    let mut b = fresh();
    for _ in 0..5 {
        b.allocate(64, 8).expect("allocation must succeed");
    }
    for _ in 0..4 {
        b.deallocate(0, 64, 8);
    }
    assert_eq!(b.next, HEAP_START + 5 * 64);
    assert_eq!(b.alloc_count, 1);
}

#[test]
fn reuse_only_after_full_reset() {
    let mut b = fresh();
    let p1 = b.allocate(64, 8).unwrap();
    b.deallocate(p1, 64, 8);
    let p2 = b.allocate(64, 8).unwrap();
    assert_eq!(p1, p2);
}

#[test]
fn alignment_is_honored() {
    let mut b = fresh();
    b.allocate(1, 1).unwrap();
    let p = b.allocate(1, 64).unwrap();
    assert_eq!(p % 64, 0);
}

#[test]
fn overflowing_end_address_returns_none() {
    let mut b = fresh();
    assert_eq!(b.allocate(usize::MAX, 1), None);
    assert_eq!(b.allocate(usize::MAX - 100, 8), None);
    // The failed requests left the allocator untouched.
    assert_eq!(b.next, HEAP_START);
    assert_eq!(b.allocate(8, 8), Some(HEAP_START));
}

#[test]
fn out_of_memory_returns_none_and_keeps_state() {
    let mut b = fresh();
    assert_eq!(b.allocate(HEAP_SIZE + 1, 1), None);
    assert_eq!(b.allocate(HEAP_SIZE, 1), Some(HEAP_START));
    assert_eq!(b.allocate(1, 1), None);
}
