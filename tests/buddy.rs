use solstice::block::{Block, MAX_ORDER};
use solstice::map::{FirmwareRegion, MemoryMap, MemoryRegionKind};
use solstice::pmm::PhysAllocator;
use solstice::sizing::{blocks_in_region, usable_pages, PAGE_INFO_SIZE};
use solstice::zone::{BlockSlab, FrameRange, FreeError, Zone, PAGE_SIZE};

fn zone(addr: u64, pages: u64) -> Zone {
    let blocks = vec![Block::used(); blocks_in_region(pages) as usize];
    Zone::new(addr, pages * PAGE_SIZE, BlockSlab { addr: 0x1000, blocks })
}

fn frames(start: u64, pages: u64) -> FrameRange {
    FrameRange { start, end: start + pages * PAGE_SIZE }
}

#[test]
fn block_repr() {
    assert_eq!(std::mem::size_of::<Block>(), 1);
    assert_eq!(std::mem::align_of::<Block>(), 1);
    let b = Block::from_byte(0).unwrap();
    assert!(b.is_used());
    assert_eq!(b, Block::used());
    assert_eq!(b.largest_free_order(), None);
}

#[test]
fn block_encoding() {
    assert_eq!(Block::from_byte(1).unwrap().largest_free_order(), Some(0));
    assert_eq!(Block::from_byte(12).unwrap().largest_free_order(), Some(11));
    assert_eq!(Block::from_byte(13), None);
    assert_eq!(Block::from_order(3).largest_free_order(), Some(3));
    assert!(Block::from_order(3).larger_than(3));
    assert!(!Block::from_order(3).larger_than(4));
    assert!(!Block::used().larger_than(0));
}

#[test]
fn block_parent_state() {
    let f = Block::from_order;
    let u = Block::used();
    assert_eq!(Block::parent_state(f(2), f(2)), f(3));
    assert_eq!(Block::parent_state(f(1), f(4)), f(4));
    assert_eq!(Block::parent_state(f(5), f(0)), f(5));
    assert_eq!(Block::parent_state(f(2), u), f(2));
    assert_eq!(Block::parent_state(u, f(7)), f(7));
    assert_eq!(Block::parent_state(u, u), u);
}

#[test]
fn sizing_values() {
    assert_eq!(blocks_in_region(0), 0);
    assert_eq!(blocks_in_region(1), 4095);
    assert_eq!(blocks_in_region(2048), 4095);
    assert_eq!(blocks_in_region(2049), 8190);
    assert_eq!(usable_pages(3), 0);
    assert_eq!(usable_pages(5), 1);
    assert_eq!(usable_pages(100), 95);
    assert_eq!(usable_pages(2048), 2013);
    assert_eq!(usable_pages(10000), 9839);
}

#[test]
fn sizing_closure_holds() {
    for t in [3u64, 4, 5, 6, 100, 2047, 2048, 2049, 10000, 1 << 20] {
        let n = usable_pages(t);
        assert!(n * PAGE_INFO_SIZE + blocks_in_region(t) <= (t - n) * 4096);
    }
}

#[test]
fn single_frame_alloc_free() {
    let base = 0x20_0000;
    let mut z = zone(base, 2048);
    let a = z.alloc_block(0).unwrap();
    assert_eq!(a, frames(base, 1));
    let b = z.alloc_block(0).unwrap();
    assert_eq!(b, frames(base + 0x1000, 1));
    z.free(a);
    let c = z.alloc_block(1).unwrap();
    assert_ne!(c.start, base);
    assert_eq!(c, frames(base + 0x2000, 2));
    z.free(b);
    let d = z.alloc_block(1).unwrap();
    assert_eq!(d, frames(base, 2));
}

#[test]
fn higher_order_exhaustion() {
    let base = 0x40_0000;
    let mut z = zone(base, 4);
    let a = z.alloc_block(1).unwrap();
    let b = z.alloc_block(1).unwrap();
    assert_eq!(a, frames(base, 2));
    assert_eq!(b, frames(base + 0x2000, 2));
    assert_eq!(z.alloc_block(1), None);
    assert_eq!(z.alloc_block(0), None);
    z.free(a);
    z.free(b);
    assert_eq!(z.alloc_block(2), Some(frames(base, 4)));
}

#[test]
fn zone_never_hands_out_pages_past_its_end() {
    let base = 0x10_0000;
    let mut z = zone(base, 3);
    assert_eq!(z.alloc_block(2), None);
    assert_eq!(z.alloc_block(1), Some(frames(base, 2)));
    assert_eq!(z.alloc_block(0), Some(frames(base + 0x2000, 1)));
    assert_eq!(z.alloc_block(0), None);
}

#[test]
fn alloc_then_free_restores_tree() {
    for order in 0..=MAX_ORDER as u8 {
        let mut z = zone(0x80_0000, 4096);
        z.alloc_block(0).unwrap();
        let before = z.order_list.clone();
        let r = z.alloc_block(order).unwrap();
        assert_eq!(r.end - r.start, (1u64 << order) * PAGE_SIZE);
        z.free(r);
        assert_eq!(z.order_list, before);
    }
}

#[test]
fn siblings_coalesce() {
    let base = 0x20_0000;
    let mut z = zone(base, 2048);
    let a = z.alloc_block(2).unwrap();
    let b = z.alloc_block(2).unwrap();
    assert_eq!(b, frames(base + 4 * 0x1000, 4));
    z.free(a);
    z.free(b);
    assert_eq!(z.alloc_block(3), Some(frames(base, 8)));
}

#[test]
fn allocations_are_aligned_and_contained() {
    let base = 0x100_0000;
    let mut z = zone(base, 8192);
    let mut taken: Vec<FrameRange> = Vec::new();
    for order in [0u8, 3, 1, 11, 0, 2, 11, 5] {
        let r = z.alloc_block(order).unwrap();
        let size = (1u64 << order) * PAGE_SIZE;
        assert_eq!(r.end - r.start, size);
        assert_eq!((r.start - base) % size, 0);
        assert!(r.start >= base && r.end <= base + 8192 * PAGE_SIZE);
        for t in &taken {
            assert!(r.end <= t.start || t.end <= r.start);
        }
        taken.push(r);
    }
}

#[test]
fn free_errors() {
    let base = 0x20_0000;
    let mut z = zone(base, 16);
    assert_eq!(z.locate_block(frames(base + 16 * 0x1000, 1)), Err(FreeError::NotABlock));
    assert_eq!(z.locate_block(frames(base, 3)), Err(FreeError::NotABlock));
    assert_eq!(z.locate_block(frames(base + 0x1000, 2)), Err(FreeError::NotABlock));
    assert_eq!(z.locate_block(frames(base, 1)), Err(FreeError::NotAllocated));
    let a = z.alloc_block(1).unwrap();
    assert_eq!(z.locate_block(frames(a.start, 1)), Err(FreeError::NotAllocated));
    assert_eq!(z.locate_block(a), Ok((1, 0)));
    z.free(a);
    assert_eq!(z.locate_block(a), Err(FreeError::NotAllocated));
}

#[test]
fn dead_end_goes_on_to_next_top_slot() {
    let base = 0x100_0000;
    let mut z = zone(base, 4096);
    let pages: Vec<FrameRange> = (0..8).map(|_| z.alloc_block(0).unwrap()).collect();
    for i in [0usize, 2, 4, 5] {
        z.free(pages[i]);
    }
    assert_eq!(z.find_slot(1), Some(1024));
    assert_eq!(z.alloc_block(1), Some(frames(base + 2048 * 0x1000, 2)));
}

#[test]
fn zone_keeps_slab_address() {
    let blocks = vec![Block::used(); blocks_in_region(8) as usize];
    let z = Zone::new(0x9000, 8 * PAGE_SIZE, BlockSlab { addr: 0xFFFF_8000_0000_8000, blocks });
    assert_eq!(z.slab_addr, 0xFFFF_8000_0000_8000);
    assert_eq!(z.pages, frames(0x9000, 8));
}

#[test]
fn phys_allocator_zones() {
    let map = MemoryMap::new(&[
        FirmwareRegion { start_addr: 0x10_0000, end_addr: 0x10_0000 + 100 * 0x1000, region_type: MemoryRegionKind::Usable },
        FirmwareRegion { start_addr: 0x100_0000, end_addr: 0x100_0000 + 3 * 0x1000, region_type: MemoryRegionKind::Usable },
    ]);
    let mut pmm = PhysAllocator::init(map);
    assert_eq!(pmm.zones.len(), 1);
    assert_eq!(pmm.zones[0].num_pages, 95);
    assert_eq!(pmm.zones[0].pages, frames(0x10_0000 + 5 * 0x1000, 95));
    assert_eq!(pmm.zones[0].slab_addr, 0x10_0000 + solstice::region::PHYS_OFFSET);
    let a = pmm.alloc_frames(0);
    assert_eq!(a, frames(0x10_5000, 1));
    assert_eq!(pmm.zone_for_order(7), None);
    assert_eq!(pmm.zone_for_order(6), None);
    assert!(!pmm.can_free(frames(0x100_0000, 1)));
    assert!(pmm.can_free(a));
    pmm.free(a);
    assert!(!pmm.can_free(a));
    assert_eq!(pmm.zone_for_order(6), Some(0));
    assert_eq!(pmm.alloc_frames(6), frames(0x10_5000, 64));
}
