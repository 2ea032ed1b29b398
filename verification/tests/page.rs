use buddy_heap::page::{section_span, section_span_sized, FrameAllocator, RAM_SIZE};

#[test]
fn ram_is_two_mebibytes() {
    assert_eq!(RAM_SIZE, 2 * 1024 * 1024);
}

#[test]
fn section_span_rounds_outwards() {
    assert_eq!(section_span(0x8000_0123, 0x8000_2001), (0x8000_0000, 0x3000));
    assert_eq!(section_span(0x1000, 0x2000), (0x1000, 0x1000));
    assert_eq!(section_span(0x1000, 0x1000), (0x1000, 0));
    assert_eq!(section_span(0x1fff, 0x2001), (0x1000, 0x2000));
}

#[test]
fn section_span_sized_starts_at_the_page() {
    assert_eq!(section_span_sized(0x8020_0010, 0x400_000), (0x8020_0000, 0x400_000));
    assert_eq!(section_span_sized(0x1010, 1), (0x1000, 0x1000));
    assert_eq!(section_span_sized(0x1010, 0), (0x1000, 0));
}

#[test]
fn frames_come_in_order_until_the_range_ends() {
    let mut a = FrameAllocator::init(0x8000_0000, 3 * 4096);
    assert!(a.can_alloc());
    assert_eq!(a.alloc_frame(), Some(0x8000_0000));
    assert_eq!(a.alloc_frame(), Some(0x8000_1000));
    assert_eq!(a.alloc_frame(), Some(0x8000_2000));
    assert_eq!(a.alloc_frame(), None);
    assert_eq!(a.alloc_frame(), None);
}

#[test]
fn freed_frames_are_not_handed_out_again() {
    let mut a = FrameAllocator::init(0x4000, 2 * 4096);
    let f = a.alloc_frame().unwrap();
    a.dealloc_frame(f);
    assert_eq!(a.alloc_frame(), Some(0x5000));
    assert_eq!(a.alloc_frame(), None);
}

#[test]
fn empty_range_has_no_frame() {
    let mut a = FrameAllocator::init(0x4000, 0);
    assert_eq!(a.alloc_frame(), None);
}

#[test]
fn unaligned_range_cannot_allocate() {
    let a = FrameAllocator::init(0x4001, 4096);
    assert!(!a.can_alloc());
    let b = FrameAllocator::init(0x4000, 100);
    assert!(!b.can_alloc());
}

#[test]
fn physical_addresses_map_to_themselves() {
    assert_eq!(FrameAllocator::phys_to_virt(0x8000_1000), 0x8000_1000);
}

#[test]
fn section_span_up_to_the_last_page_that_can_be_rounded() {
    let end = usize::MAX - 4096;
    let top = (usize::MAX - 4095) & !4095;
    assert_eq!(section_span(0, end), (0, top));
    assert_eq!(section_span(top - 4096, top - 4095), (top - 4096, 4096));
    assert_eq!(section_span_sized(top - 4096 + 5, 1), (top - 4096, 4096));
}
