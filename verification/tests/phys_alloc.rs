use kernel_core::phys::{
    EmptyFrameAllocator, MemoryRegion, MemoryRegionKind, PhysFrameAllocator, BITMAP_VIRT_BASE,
};

fn usable(start: u64, end: u64) -> MemoryRegion {
    MemoryRegion {
        start,
        end,
        kind: MemoryRegionKind::Usable,
    }
}

fn reserved(start: u64, end: u64) -> MemoryRegion {
    MemoryRegion {
        start,
        end,
        kind: MemoryRegionKind::Reserved,
    }
}

#[test]
fn test_init_splits_region() {
    // 32 MiB of usable RAM: the sizing rule reserves (32 MiB >> 24) + 1 = 3
    // bitmap frames at the front.
    let regions = vec![usable(0, 0x200_0000)];
    let a = PhysFrameAllocator::init(&regions).unwrap();
    assert_eq!(a.bit_map_region.start, 0);
    assert_eq!(a.bit_map_region.end, 0x3000);
    assert_eq!(a.usable_memory_region.start, 0x3000);
    assert_eq!(a.usable_memory_region.end, 0x200_0000);
    assert_eq!(a.usable_memory_region.kind, MemoryRegionKind::Usable);
    assert_eq!(a.bytes_available(), 0x200_0000 - 0x3000);
}

#[test]
fn test_init_no_usable_region() {
    assert!(PhysFrameAllocator::init(&vec![]).is_none());
    let regions = vec![reserved(0, 0x100_0000)];
    assert!(PhysFrameAllocator::init(&regions).is_none());
}

#[test]
fn test_init_region_too_small_for_bitmap() {
    // Half a frame of usable RAM cannot hold even its own one-frame bitmap.
    let regions = vec![usable(0, 0x800)];
    assert!(PhysFrameAllocator::init(&regions).is_none());
}

#[test]
fn test_init_picks_last_usable_region() {
    let regions = vec![
        usable(0, 0x200_0000),
        reserved(0x200_0000, 0x1000_0000),
        usable(0x1000_0000, 0x1200_0000),
    ];
    let a = PhysFrameAllocator::init(&regions).unwrap();
    assert_eq!(a.bit_map_region.start, 0x1000_0000);
    assert_eq!(a.bit_map_region.end, 0x1000_3000);
    assert_eq!(a.usable_memory_region.end, 0x1200_0000);
}

#[test]
fn test_allocations_are_consecutive_and_distinct() {
    let regions = vec![usable(0, 0x200_0000)];
    let mut a = PhysFrameAllocator::init(&regions).unwrap();
    let f1 = a.allocate_frame().unwrap();
    let f2 = a.allocate_frame().unwrap();
    assert_eq!(f1.start_address(), 0x3000);
    assert_eq!(f2.start_address(), 0x4000);
    assert_ne!(f1, f2);
}

#[test]
fn test_same_frame_alloc_dealloc() {
    let regions = vec![usable(0, 0x200_0000)];
    let mut frame_allocator = PhysFrameAllocator::init(&regions).unwrap();
    for _ in 0..100 {
        let x = frame_allocator.allocate_frame().unwrap();
        frame_allocator.deallocate_frame(x);
        let y = frame_allocator.allocate_frame().unwrap();
        assert_eq!(x, y);
        frame_allocator.deallocate_frame(y);
    }
}

#[test]
fn test_new_frame_alloc() {
    let regions = vec![usable(0, 0x200_0000)];
    let mut frame_allocator = PhysFrameAllocator::init(&regions).unwrap();
    let first = frame_allocator.allocate_frame();
    let second = frame_allocator.allocate_frame();
    assert_ne!(first, second);
}

#[test]
fn test_exhaustion() {
    // [0, 0x5000) leaves four allocatable frames after the one-frame bitmap.
    let regions = vec![usable(0, 0x5000)];
    let mut a = PhysFrameAllocator::init(&regions).unwrap();
    let f1 = a.allocate_frame().unwrap();
    let f2 = a.allocate_frame().unwrap();
    let f3 = a.allocate_frame().unwrap();
    let f4 = a.allocate_frame().unwrap();
    assert_eq!(f1.start_address(), 0x1000);
    assert_eq!(f2.start_address(), 0x2000);
    assert_eq!(f3.start_address(), 0x3000);
    assert_eq!(f4.start_address(), 0x4000);
    assert!(a.allocate_frame().is_none());
    // Freeing one frame makes exactly that frame allocatable again.
    a.deallocate_frame(f3);
    assert_eq!(a.allocate_frame().unwrap(), f3);
    assert!(a.allocate_frame().is_none());
}

#[test]
fn test_allocate_frame_nth() {
    let regions = vec![usable(0, 0x5000)];
    let mut a = PhysFrameAllocator::init(&regions).unwrap();
    // A free frame is handed out exactly.
    let f = a.allocate_frame_nth(0x2000).unwrap();
    assert_eq!(f.start_address(), 0x2000);
    // The same frame is now unavailable, through any address inside it.
    assert!(a.allocate_frame_nth(0x2000).is_none());
    assert!(a.allocate_frame_nth(0x2ff8).is_none());
    // General allocation never returns it while it stays allocated.
    let g1 = a.allocate_frame().unwrap();
    let g2 = a.allocate_frame().unwrap();
    let g3 = a.allocate_frame().unwrap();
    assert_eq!(g1.start_address(), 0x1000);
    assert_eq!(g2.start_address(), 0x3000);
    assert_eq!(g3.start_address(), 0x4000);
    assert!(a.allocate_frame().is_none());
    // Once freed, it is the next frame handed out.
    a.deallocate_frame(f);
    assert_eq!(a.allocate_frame().unwrap().start_address(), 0x2000);
}

#[test]
fn test_allocate_frame_nth_aligns_down() {
    let regions = vec![usable(0, 0x5000)];
    let mut a = PhysFrameAllocator::init(&regions).unwrap();
    let f = a.allocate_frame_nth(0x3fff).unwrap();
    assert_eq!(f.start_address(), 0x3000);
}

#[test]
fn test_bit_frame_mappings() {
    let regions = vec![usable(0, 0x200_0000)];
    let a = PhysFrameAllocator::init(&regions).unwrap();
    let pairs = a.bit_frame_mappings();
    assert_eq!(pairs.len(), 3);
    for (i, (page, frame)) in pairs.iter().enumerate() {
        assert_eq!(*page, BITMAP_VIRT_BASE + (i as u64) * 4096);
        assert_eq!(*frame, (i as u64) * 4096);
    }
}

#[test]
fn test_empty_frame_allocator() {
    let mut empty = EmptyFrameAllocator;
    assert!(empty.allocate_frame().is_none());
    assert!(empty.allocate_frame().is_none());
}

#[test]
fn test_allocations_cross_word_boundary() {
    // 1 MiB of RAM: one bitmap frame, 255 allocatable frames. Allocating past
    // frame 64 forces the scan to skip the first, fully allocated word.
    let regions = vec![usable(0, 0x10_0000)];
    let mut a = PhysFrameAllocator::init(&regions).unwrap();
    for i in 0..65u64 {
        let f = a.allocate_frame().unwrap();
        assert_eq!(f.start_address(), 0x1000 + i * 0x1000);
    }
}

#[test]
fn test_deallocate_frame_checked() {
    let regions = vec![usable(0, 0x5000)];
    let mut a = PhysFrameAllocator::init(&regions).unwrap();
    let f = a.allocate_frame().unwrap();
    // A tracked, allocated frame is freed.
    assert!(a.deallocate_frame_checked(f));
    // Freeing it again is rejected: the bit is already clear.
    assert!(!a.deallocate_frame_checked(f));
    // Addresses outside the usable region are rejected.
    assert!(!a.deallocate_frame_checked(kernel_core::phys::Frame::containing_address(0x0)));
    assert!(!a.deallocate_frame_checked(kernel_core::phys::Frame::containing_address(0x9000)));
}
