use solstice::map::{FirmwareRegion, MemoryMap, MemoryRegionKind};
use solstice::region::{Region, RegionBumpAllocator, PHYS_OFFSET};

fn fw(start: u64, end: u64, kind: MemoryRegionKind) -> FirmwareRegion {
    FirmwareRegion { start_addr: start, end_addr: end, region_type: kind }
}

#[test]
fn allocate() {
    let mut bump = MemoryMap::new(&[
        fw(0x1000, 0x2000, MemoryRegionKind::Usable),
        fw(0x2000, 0x3000, MemoryRegionKind::Reserved),
        fw(0x3000, 0x5000, MemoryRegionKind::Usable),
    ]);
    assert_eq!(bump.num_pages, 3);
    assert_eq!(bump.allocate_frame(), 0x1000);
    assert_eq!(bump.num_pages, 2);
    assert_eq!(bump.allocate_frame(), 0x3000);
    assert_eq!(bump.num_pages, 1);
    assert_eq!(bump.allocate_frame(), 0x4000);
    assert_eq!(bump.num_pages, 0);
}

#[test]
fn allocate_until_exhausted() {
    let mut bump = MemoryMap::new(&[fw(0x1000, 0x2000, MemoryRegionKind::Usable)]);
    assert_eq!(bump.allocate_frame(), 0x1000);
    assert_eq!(bump.num_pages, 0);
    assert_eq!(bump.into_iter().next(), None);
}

#[test]
fn bootloader_regions_are_taken() {
    let map = MemoryMap::new(&[
        fw(0x1000, 0x3000, MemoryRegionKind::Bootloader),
        fw(0x3000, 0x4000, MemoryRegionKind::Kernel),
        fw(0x8000, 0x9000, MemoryRegionKind::Usable),
    ]);
    assert_eq!(map.num_pages, 3);
    let mut it = map.into_iter();
    assert_eq!(it.next(), Some(Region { addr: 0x1000, size: 0x2000 }));
    assert_eq!(it.next(), Some(Region { addr: 0x8000, size: 0x1000 }));
    assert_eq!(it.next(), None);
}

#[test]
fn region() {
    let mut rg_bump = RegionBumpAllocator::from_region(Region { addr: 0x1000, size: 4096 });
    assert_eq!(rg_bump.alloc_bytes(4, 4), Some(PHYS_OFFSET + 0x1000));
    assert_eq!(rg_bump.alloc_bytes(1, 1), Some(PHYS_OFFSET + 0x1004));
    assert_eq!(rg_bump.alloc_bytes(4, 4), Some(PHYS_OFFSET + 0x1008));
    assert_eq!(rg_bump.alloc_bytes(4096, 4), None);

    assert_eq!(
        Region { addr: 0x1000, size: 4096 }.split_at(100),
        (Region { addr: 0x1000, size: 100 }, Region { addr: 0x1000 + 100, size: 4096 - 100 })
    );
}

#[test]
fn bump_failure_takes_nothing() {
    let mut rg_bump = RegionBumpAllocator::from_region(Region { addr: 0x2000, size: 64 });
    assert_eq!(rg_bump.alloc_bytes(65, 1), None);
    assert_eq!(rg_bump.offset, 0);
    assert_eq!(rg_bump.alloc_bytes(64, 8), Some(PHYS_OFFSET + 0x2000));
    assert_eq!(rg_bump.offset, 64);
    assert_eq!(rg_bump.alloc_bytes(0, 1), Some(PHYS_OFFSET + 0x2040));
}

#[test]
fn bump_realigns_cursor() {
    let mut rg_bump = RegionBumpAllocator::from_region(Region { addr: 0x1000, size: 4096 });
    assert_eq!(rg_bump.alloc_bytes(3, 16), Some(PHYS_OFFSET + 0x1000));
    assert_eq!(rg_bump.offset, 16);
    assert_eq!(rg_bump.alloc_bytes(1, 1), Some(PHYS_OFFSET + 0x1010));
    assert_eq!(rg_bump.alloc_bytes(8, 8), Some(PHYS_OFFSET + 0x1018));
}
