use lumen::mem::allocator::{align_up, Grant, Heap, Stats, MIN_BLOCK};
use lumen::mem::frame::{BootFrameAllocator, MemoryRegion, MemoryRegionKind};
use lumen::mem::heap::{HEAP_SIZE, HEAP_START};

fn heap_of(start: usize, size: usize) -> Heap {
    let mut h = Heap::empty();
    assert!(h.init(start, size));
    h
}

#[test]
fn align_up_rounds_to_the_power_of_two() {
    assert_eq!(align_up(13, 8), 16);
    assert_eq!(align_up(16, 16), 16);
    assert_eq!(align_up(0, 4096), 0);
    assert_eq!(align_up(4097, 4096), 8192);
}

#[test]
fn init_aligns_and_trims_the_region() {
    let h = heap_of(0x1004, 0x1000);
    // Starts at 0x1010; 0x1000 - 12 bytes, rounded down to 16.
    assert_eq!(h.capacity(), 0xFF0);
    assert_eq!(h.stats(), Stats { used: 0, peak: 0, capacity: 0xFF0, free_blocks: 1, largest_free: 0xFF0 });
    let mut tiny = Heap::empty();
    assert!(!tiny.init(0x1001, 20));
    assert_eq!(tiny.capacity(), 0);
    assert!(tiny.allocate(1, 1).is_none());
}

#[test]
fn allocate_carves_from_the_first_fitting_block() {
    let mut h = heap_of(0x1000, 0x1000);
    let g = h.allocate(100, 8).unwrap();
    assert_eq!(g, Grant { payload: 0x1010, block_start: 0x1000, taken: 0x80 });
    assert_eq!(h.used(), 0x80);
    let g2 = h.allocate(16, 64).unwrap();
    assert_eq!(g2, Grant { payload: 0x10C0, block_start: 0x1080, taken: 0x50 });
    assert_eq!(h.used(), 0xD0);
    assert!(h.allocate(0x2000, 16).is_none());
    assert_eq!(h.used(), 0xD0);
}

#[test]
fn small_leftovers_go_with_the_allocation() {
    let mut h = heap_of(0, 64);
    let g = h.allocate(24, 16).unwrap();
    assert_eq!(g, Grant { payload: 16, block_start: 0, taken: 64 });
    assert_eq!(h.stats().free_blocks, 0);
    assert_eq!(h.used(), 64);
    assert!(64 - 48 < MIN_BLOCK);
}

#[test]
fn free_coalesces_with_both_neighbours() {
    let mut h = heap_of(0x1000, 0x1000);
    let a = h.allocate(100, 8).unwrap();
    let b = h.allocate(16, 64).unwrap();
    h.deallocate(a.block_start, a.taken);
    assert_eq!(h.stats().free_blocks, 2);
    assert_eq!(h.used(), b.taken);
    h.deallocate(b.block_start, b.taken);
    let st = h.stats();
    assert_eq!(st, Stats { used: 0, peak: 0xD0, capacity: 0x1000, free_blocks: 1, largest_free: 0x1000 });
}

#[test]
fn freeing_everything_restores_the_heap() {
    let mut h = heap_of(0x8000, 0x4000);
    let before = h.stats();
    let mut grants = Vec::new();
    for i in 0..20usize {
        grants.push(h.allocate(50 + i * 13, if i % 3 == 0 { 64 } else { 8 }).unwrap());
    }
    for g in grants.iter().rev().step_by(2) {
        h.deallocate(g.block_start, g.taken);
    }
    for g in grants.iter().rev().skip(1).step_by(2) {
        h.deallocate(g.block_start, g.taken);
    }
    let after = h.stats();
    assert_eq!(after.used, before.used);
    assert_eq!(after.free_blocks, before.free_blocks);
    assert_eq!(after.largest_free, before.largest_free);
    assert!(after.peak > 0);
}

#[test]
fn payloads_respect_alignment_and_do_not_overlap() {
    let mut h = heap_of(0x10000, 0x2000);
    let mut spans: Vec<(usize, usize)> = Vec::new();
    for (size, align) in [(1usize, 1usize), (33, 32), (200, 128), (7, 4), (64, 256)] {
        let g = h.allocate(size, align).unwrap();
        assert_eq!(g.payload % align.max(16), 0);
        assert!(g.payload >= g.block_start + 16);
        assert!(g.payload + size <= g.block_start + g.taken);
        for &(s, e) in spans.iter() {
            assert!(g.block_start >= e || g.block_start + g.taken <= s);
        }
        spans.push((g.block_start, g.block_start + g.taken));
    }
}

#[test]
fn heap_constants_describe_24_mib() {
    assert_eq!(HEAP_SIZE, 24 * 1024 * 1024);
    assert_eq!(HEAP_START % 4096, 0);
}

fn regions() -> Vec<MemoryRegion> {
    vec![
        MemoryRegion { start: 0x1000, end: 0x3000, kind: MemoryRegionKind::Usable },
        MemoryRegion { start: 0x3000, end: 0x5000, kind: MemoryRegionKind::Bootloader },
        MemoryRegion { start: 0x5800, end: 0x8000, kind: MemoryRegionKind::Usable },
        MemoryRegion { start: 0x9000, end: 0xA000, kind: MemoryRegionKind::UnknownBios(2) },
    ]
}

#[test]
fn frames_come_from_usable_regions_in_order() {
    let rs = regions();
    let mut a = BootFrameAllocator::new(&rs);
    assert_eq!(a.total_frames(), 4);
    let mut got = Vec::new();
    while let Some(f) = a.allocate_frame() {
        got.push(f);
    }
    assert_eq!(got, vec![0x1000, 0x2000, 0x6000, 0x7000]);
    assert_eq!(a.handed_out(), 4);
    assert_eq!(a.allocate_frame(), None);
    assert_eq!(a.handed_out(), 4);
}

#[test]
fn frame_allocator_with_nothing_usable_hands_out_nothing() {
    let rs = vec![MemoryRegion { start: 0, end: 0x800, kind: MemoryRegionKind::Usable }];
    let mut a = BootFrameAllocator::new(&rs);
    assert_eq!(a.total_frames(), 0);
    assert_eq!(a.allocate_frame(), None);
    let empty: Vec<MemoryRegion> = Vec::new();
    let mut b = BootFrameAllocator::new(&empty);
    assert_eq!(b.allocate_frame(), None);
}
