use text_os::allocator::{align_up, heap_page_range, Dummy, HEAP_SIZE, PAGE_SIZE};
use text_os::interrupts::{InterruptIndex, PIC_1_OFFSET, PIC_2_OFFSET};
use text_os::memory::EmptyFrameAllocator;
use text_os::task::basic_executor::BasicExecutor;
use text_os::task::Task;
use text_os::vga_buffer::{Color, ColorCode};
use text_os::QemuExitCode;

#[test]
fn align_up_rounds_to_the_next_multiple() {
    assert_eq!(align_up(5, 8), 8);
    assert_eq!(align_up(8, 8), 8);
    assert_eq!(align_up(9, 8), 16);
    assert_eq!(align_up(1, 1), 1);
    assert_eq!(align_up(4097, 4096), 8192);
}

#[test]
fn dummy_allocator_refuses_everything() {
    let d = Dummy();
    assert_eq!(d.allocate(1, 1), None);
    assert_eq!(d.allocate(4096, 4096), None);
}

#[test]
fn heap_page_range_covers_the_region() {
    assert_eq!(PAGE_SIZE, 4096);
    assert_eq!(heap_page_range(4096, 8192), (1, 2));
    assert_eq!(heap_page_range(4096, 8193), (1, 3));
    assert_eq!(heap_page_range(5000, 1), (1, 1));
    // The reference configuration spans 32 pages.
    let (first, last) = heap_page_range(0x10_0000, HEAP_SIZE);
    assert_eq!(last - first + 1, 32);
}

#[test]
fn qemu_exit_codes() {
    assert_eq!(QemuExitCode::Success.as_u32(), 0x10);
    assert_eq!(QemuExitCode::Failed.as_u32(), 0x11);
}

#[test]
fn interrupt_indices_follow_the_remap_offset() {
    assert_eq!(PIC_1_OFFSET, 32);
    assert_eq!(PIC_2_OFFSET, 40);
    assert_eq!(InterruptIndex::Timer.as_u8(), 32);
    assert_eq!(InterruptIndex::Keyboard.as_u8(), 33);
    assert_eq!(InterruptIndex::Timer.as_usize(), 32);
    assert_eq!(InterruptIndex::Keyboard.as_usize(), 33);
}

#[test]
fn color_codes_pack_background_and_foreground() {
    assert_eq!(Color::Black.as_u8(), 0);
    assert_eq!(Color::White.as_u8(), 15);
    assert_eq!(ColorCode::new(Color::LightRed, Color::Black).0, 12);
    assert_eq!(ColorCode::new(Color::White, Color::Blue).0, 31);
    assert_eq!(ColorCode::new(Color::Yellow, Color::Green).0, 46);
}

#[test]
fn empty_frame_allocator_never_allocates() {
    let mut f = EmptyFrameAllocator;
    assert_eq!(f.allocate_frame(), None);
    assert_eq!(f.allocate_frame(), None);
}

#[test]
fn executor_runs_round_robin() {
    let mut ex = BasicExecutor::new();
    ex.spawn(Task::new(1));
    ex.spawn(Task::new(2));
    let t1 = ex.next_task().unwrap();
    assert_eq!(t1.id.0, 1);
    // Still pending: back to the end of the queue.
    ex.requeue(t1, true);
    let t2 = ex.next_task().unwrap();
    assert_eq!(t2.id.0, 2);
    // Finished: dropped.
    ex.requeue(t2, false);
    let t1_again = ex.next_task().unwrap();
    assert_eq!(t1_again.id.0, 1);
    ex.requeue(t1_again, false);
    assert!(ex.next_task().is_none());
}
