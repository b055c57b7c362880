use text_os::allocator::fixed_size_block::FixedSizeAllocator;
use text_os::allocator::HEAP_SIZE;

const HEAP_START: usize = 16384;

fn fresh() -> FixedSizeAllocator {
    let mut fs = FixedSizeAllocator::new();
    fs.init(HEAP_START, HEAP_SIZE);
    fs
}

#[test]
fn three_bytes_with_alignment_one_use_the_8_byte_class() {
    let fs = FixedSizeAllocator::new();
    assert_eq!(fs.list_index(3, 1), Some(0));
    assert_eq!(FixedSizeAllocator::block_size(0), 8);
}

#[test]
fn class_routing_covers_all_classes() {
    let fs = FixedSizeAllocator::new();
    assert_eq!(fs.list_index(8, 1), Some(0));
    assert_eq!(fs.list_index(9, 1), Some(1));
    assert_eq!(fs.list_index(100, 1), Some(4));
    assert_eq!(fs.list_index(2048, 1), Some(8));
    assert_eq!(fs.list_index(2049, 1), None);
    // Alignment alone can force a larger class.
    assert_eq!(fs.list_index(1, 512), Some(6));
}

#[test]
fn freed_class_block_is_reused_in_constant_time() {
    let mut fs = fresh();
    let p = fs.allocate(3, 1).expect("allocation must succeed");
    assert_eq!(p, HEAP_START);
    fs.deallocate(p, 3, 1);
    // The block now sits on the 8-byte class's free list.
    assert_eq!(fs.list_heads[0], vec![p]);
    // The next same-class request pops it without touching the fallback.
    let fallback_before = fs.fallback_allocator.free_list.clone();
    let q = fs.allocate(5, 1).expect("allocation must succeed");
    assert_eq!(q, p);
    assert!(fs.list_heads[0].is_empty());
    assert_eq!(fs.fallback_allocator.free_list, fallback_before);
}

#[test]
fn oversized_request_bypasses_all_classes() {
    let mut fs = fresh();
    assert_eq!(fs.list_index(4096, 1), None);
    let p = fs.allocate(4096, 1).expect("allocation must succeed");
    assert_eq!(p, HEAP_START);
    // No class list was touched: the fallback allocator served it directly.
    for class in &fs.list_heads {
        assert!(class.is_empty());
    }
    fs.deallocate(p, 4096, 1);
    for class in &fs.list_heads {
        assert!(class.is_empty());
    }
}

#[test]
fn class_miss_fetches_one_block_from_the_fallback() {
    let mut fs = fresh();
    // Both requests go to the 64-byte class; each miss costs one fallback
    // block of 64 bytes.
    let p = fs.allocate(33, 1).unwrap();
    let q = fs.allocate(64, 1).unwrap();
    assert_eq!(p, HEAP_START);
    assert_eq!(q, HEAP_START + 64);
}

#[test]
fn failure_surfaces_as_none() {
    let mut fs = FixedSizeAllocator::new();
    fs.init(HEAP_START, 64);
    // Oversized for the classes and too large for the 64-byte region.
    assert_eq!(fs.allocate(4096, 1), None);
    // A class block still fits.
    assert_eq!(fs.allocate(3, 1), Some(HEAP_START));
}

#[test]
fn end_to_end_500_allocations_then_reverse_free() {
    // A fresh 128 KiB heap, 500 allocations of monotonically increasing
    // small sizes, freed in reverse order.
    let mut fs = fresh();
    let mut live: Vec<(usize, usize)> = Vec::new();
    for i in 0..500usize {
        let size = 1 + i / 8;
        let p = fs
            .allocate(size, 8)
            .expect("the region must not be exhausted");
        assert_eq!(p % 8, 0);
        assert!(HEAP_START <= p && p + size <= HEAP_START + HEAP_SIZE);
        live.push((p, size));
    }
    // No two live blocks ever overlap.
    let mut sorted = live.clone();
    sorted.sort();
    for w in sorted.windows(2) {
        assert!(w[0].0 + w[0].1 <= w[1].0, "live blocks overlap");
    }
    for &(p, size) in live.iter().rev() {
        fs.deallocate(p, size, 8);
    }
    // The heap is serviceable after the churn.
    assert!(fs.allocate(2048, 8).is_some());
}
