//! The physical frame allocator: one buddy zone per usable region of the
//! memory map, each region's bookkeeping carved out of its own front.
use vstd::prelude::*;
use crate::block::{Block, MAX_ORDER};
use arrayvec::ArrayVec;
use crate::map::{MemoryMap, RegionIter, map_region_ok};
use crate::region::{Region, RegionBumpAllocator, PHYS_OFFSET};
use crate::sizing::{
    align_down, align_up_spec, blocks_in_region, blocks_in_region_spec, is_pow2, usable_pages,
    usable_pages_spec, lemma_sizing_closure, MAX_PHYS_PAGES, PAGE_INFO_SIZE,
};
use crate::zone::{zone_page_free, live_taken, lemma_alloc_disjoint_from_live, lemma_free_keeps_live, lemma_free_pages_in_zone, page_in, free_page_count, lemma_alloc_free_count, lemma_free_count, lemma_fresh_free_pages, lemma_alloc_within_zone, pages_of, alloc_post, alloc_slot, block_allocated, free_post, BlockSlab, FrameRange, Zone, PAGE_SIZE};

verus! {

/// Most zones that the allocator manages.
pub const MAX_ZONES: u64 = 64;

impl Block {
    /// The zeroed (all `Used`) block slab of a zone of `usable_pages` pages,
    /// bump-allocated from the head of `region`: it lies at the region's
    /// kernel-half alias, `region.addr + PHYS_OFFSET`.
    pub fn new_blocks_for_region(region: Region, usable_pages: u64) -> (r: BlockSlab)
        requires
            region.wf(),
            usable_pages <= MAX_PHYS_PAGES,
            blocks_in_region_spec(usable_pages as int) <= region.size,
        ensures
            r.addr == region.addr + PHYS_OFFSET,
            r.blocks@.len() == blocks_in_region_spec(usable_pages as int),
            forall|i: int| 0 <= i < r.blocks@.len() ==> #[trigger] r.blocks@[i].byte == 0,
    {
        let block_count = blocks_in_region(usable_pages);
        let mut rg_allocator = RegionBumpAllocator::from_region(region);
        proof {
            assert(is_pow2(1));
            assert(align_up_spec(block_count as int, 1) == block_count) by {
                vstd::arithmetic::div_mod::lemma_mod_multiples_basic(block_count as int, 1);
            }
            assert(align_up_spec(0, 1) == 0);
        }
        let addr = rg_allocator.alloc_bytes(block_count, 1).unwrap();
        let mut v: Vec<Block> = Vec::new();
        let mut i: u64 = 0;
        while i < block_count
            invariant
                i <= block_count,
                v@.len() == i,
                forall|j: int| 0 <= j < v@.len() ==> #[trigger] v@[j].byte == 0,
            decreases block_count - i,
        {
            v.push(Block::used());
            i = i + 1;
        }
        BlockSlab { addr, blocks: v }
    }
}

/// The zone that a region of the memory map becomes: `Some((start, pages))`
/// where `usable_pages` of its whole pages is at least 2, the zone being the
/// last `pages` pages of the region; `None` where the region is skipped.
pub open spec fn region_zone(rg: Region) -> Option<(int, int)> {
    let t = (rg.size / PAGE_SIZE) as int;
    let n = usable_pages_spec(t);
    if n <= 1 {
        None
    } else {
        Some((rg.addr + (t - n) * PAGE_SIZE, n))
    }
}

/// The zones, in order, that the regions `s` become.
pub open spec fn zone_plan(s: Seq<Region>) -> Seq<(int, int)>
    decreases s.len(),
{
    if s.len() == 0 {
        Seq::empty()
    } else {
        let init = zone_plan(s.drop_last());
        match region_zone(s.last()) {
            Some(z) => init.push(z),
            None => init,
        }
    }
}

proof fn lemma_zone_plan_len(s: Seq<Region>)
    ensures
        zone_plan(s).len() <= s.len(),
    decreases s.len(),
{
    if s.len() > 0 {
        lemma_zone_plan_len(s.drop_last());
    }
}

/// Zone `z` was cut from region `rg`: its block slab sits at the head of
/// the region (at the region's kernel-half alias) and ends before the zone's
/// first page, and the zone's pages end within the region.
pub open spec fn zone_in_region(z: Zone, rg: Region) -> bool {
    &&& z.slab_addr == rg.addr + PHYS_OFFSET
    &&& rg.addr + blocks_in_region_spec(z.num_pages as int) <= z.pages.start
    &&& z.pages.end <= rg.addr + rg.size
}

/// No two zones share a page.
pub open spec fn zones_disjoint(zs: Seq<Zone>) -> bool {
    forall|a: int, b: int| 0 <= a < zs.len() && 0 <= b < zs.len() && a != b
        ==> #[trigger] zs[a].pages.end <= #[trigger] zs[b].pages.start || zs[b].pages.end <= zs[a].pages.start
}

/// A fresh zone over `rg` minus its bookkeeping: the front of the region
/// holds the zone's block slab, the rest are the zone's pages.
fn zone_for_region(rg: Region) -> (r: Option<Zone>)
    requires
        map_region_ok(rg),
    ensures
        match region_zone(rg) {
            None => r is None,
            Some((start, n)) => r matches Some(z) && z.wf() && z.is_fresh() && z.pages.start == start
                && z.num_pages == n && zone_in_region(z, rg),
        },
{
    let pages_in_rg = rg.size / PAGE_SIZE;
    proof {
        vstd::arithmetic::div_mod::lemma_div_is_ordered(rg.size as int, crate::region::MAX_PHYS_ADDR as int, PAGE_SIZE as int);
    }
    let usable = usable_pages(pages_in_rg);
    if usable <= 1 {
        return None;
    }
    let ghost t = pages_in_rg as int;
    let ghost n = usable as int;
    proof {
        let b = blocks_in_region_spec(t);
        if t < 3 {
            crate::sizing::lemma_max_order_blocks(t);
            vstd::arithmetic::div_mod::lemma_div_is_ordered(4096 * t - b, 8319, (PAGE_INFO_SIZE + 4096) as int);
        }
        lemma_sizing_closure(t);
        assert(n * PAGE_INFO_SIZE >= 0) by (nonlinear_arith)
            requires n >= 0;
        vstd::arithmetic::div_mod::lemma_fundamental_div_mod(rg.size as int, PAGE_SIZE as int);
    }
    let (reserved, usable_rg) = rg.split_at((pages_in_rg - usable) * PAGE_SIZE);
    let blocks = Block::new_blocks_for_region(reserved, usable);
    proof {
        let rem = rg.size % PAGE_SIZE;
        assert(usable_rg.size == n * PAGE_SIZE + rem);
        vstd::arithmetic::div_mod::lemma_fundamental_div_mod_converse_mod(usable_rg.size as int, PAGE_SIZE as int, n, rem as int);
        vstd::arithmetic::div_mod::lemma_fundamental_div_mod_converse_mod(
            usable_rg.addr as int, PAGE_SIZE as int, rg.addr / PAGE_SIZE + (t - n), 0);
        vstd::arithmetic::div_mod::lemma_fundamental_div_mod(rg.addr as int, PAGE_SIZE as int);
        vstd::arithmetic::div_mod::lemma_div_multiples_vanish(n, PAGE_SIZE as int);
        assert(is_pow2(4096)) by {
            reveal_with_fuel(is_pow2, 13);
        }
    }
    let size = align_down(usable_rg.size, PAGE_SIZE);
    Some(Zone::new(usable_rg.addr, size, blocks))
}

/// Number of zones that the allocator's zone array holds.
pub const ZONE_SLOTS: usize = 64;

/// The zones that an `ArrayVec` of zones holds, in order.
pub uninterp spec fn zone_items(v: ArrayVec<Zone, ZONE_SLOTS>) -> Seq<Zone>;

/// Relies on `ArrayVec::new`: an empty vector.
#[verifier::external_body]
fn zones_new() -> (r: ArrayVec<Zone, ZONE_SLOTS>)
    ensures
        zone_items(r) == Seq::<Zone>::empty(),
{
    ArrayVec::new()
}

/// Relies on `ArrayVec::len`: the number of elements, never above the capacity.
#[verifier::external_body]
fn zones_len(v: &ArrayVec<Zone, ZONE_SLOTS>) -> (r: usize)
    ensures
        r == zone_items(*v).len(),
        r <= ZONE_SLOTS,
{
    v.len()
}

/// Relies on indexing an `ArrayVec` (through its slice): the element at `i`.
#[verifier::external_body]
fn zones_get(v: &ArrayVec<Zone, ZONE_SLOTS>, i: usize) -> (r: &Zone)
    requires
        i < zone_items(*v).len(),
    ensures
        *r == zone_items(*v)[i as int],
{
    &v[i]
}

/// Relies on `ArrayVec::push`: appends `z`; it panics only when the vector
/// is full.
#[verifier::external_body]
fn zones_push(v: &mut ArrayVec<Zone, ZONE_SLOTS>, z: Zone)
    requires
        zone_items(*old(v)).len() < ZONE_SLOTS,
    ensures
        zone_items(*final(v)) == zone_items(*old(v)).push(z),
{
    v.push(z);
}

/// Relies on `ArrayVec::remove`: takes out the element at `i` and shifts the
/// following ones down; it panics only when `i` is out of bounds.
#[verifier::external_body]
fn zones_remove(v: &mut ArrayVec<Zone, ZONE_SLOTS>, i: usize) -> (r: Zone)
    requires
        i < zone_items(*old(v)).len(),
    ensures
        r == zone_items(*old(v))[i as int],
        zone_items(*final(v)) == zone_items(*old(v)).remove(i as int),
{
    v.remove(i)
}

/// Relies on `ArrayVec::insert`: puts `z` at `i` and shifts the following
/// elements up; it panics only when the vector is full or `i` is past its
/// end.
#[verifier::external_body]
fn zones_insert(v: &mut ArrayVec<Zone, ZONE_SLOTS>, i: usize, z: Zone)
    requires
        i <= zone_items(*old(v)).len() < ZONE_SLOTS,
    ensures
        zone_items(*final(v)) == zone_items(*old(v)).insert(i as int, z),
{
    v.insert(i, z);
}

/// The frame allocator: the zones, in the order of the memory map.
pub struct PhysAllocator {
    pub zones: ArrayVec<Zone, ZONE_SLOTS>,
}

/// The first zone at or after `from` whose tree yields a block of `order`.
pub open spec fn first_zone_for(zs: Seq<Zone>, order: int, from: int) -> Option<int>
    decreases zs.len() - from,
{
    if from < 0 || from >= zs.len() {
        None
    } else if alloc_slot(zs[from].tree(), order) is Some {
        Some(from)
    } else {
        first_zone_for(zs, order, from + 1)
    }
}

/// What `PhysAllocator::alloc_frames` does: the first zone that yields a
/// block of `order` hands it out, and no other zone changes.
pub open spec fn pmm_alloc_post(a0: PhysAllocator, order: int, r: FrameRange, a1: PhysAllocator) -> bool {
    let j = first_zone_for(a0.zone_seq(), order, 0)->Some_0;
    &&& a1.zone_seq().len() == a0.zone_seq().len()
    &&& alloc_post(a0.zone_seq()[j], order, Some(r), a1.zone_seq()[j])
    &&& forall|i: int| 0 <= i < a0.zone_seq().len() && i != j ==> #[trigger] a1.zone_seq()[i] == a0.zone_seq()[i]
}

/// A block that `alloc_frames` hands out lies in exactly one zone: within
/// that zone's frames, `2^order` pages long and aligned to its length there,
/// and sharing no frame with any other zone.
pub proof fn lemma_alloc_frames_in_one_zone(a0: PhysAllocator, order: int, r: FrameRange, a1: PhysAllocator)
    requires
        a0.wf(),
        0 <= order <= MAX_ORDER,
        first_zone_for(a0.zone_seq(), order, 0) is Some,
        pmm_alloc_post(a0, order, r, a1),
    ensures
        ({
            let j = first_zone_for(a0.zone_seq(), order, 0)->Some_0;
            let z = a0.zone_seq()[j];
            &&& 0 <= j < a0.zone_seq().len()
            &&& z.pages.start <= r.start < r.end <= z.pages.end
            &&& r.end - r.start == pages_of(order as nat) * PAGE_SIZE
            &&& (r.start - z.pages.start) % (pages_of(order as nat) * PAGE_SIZE) as int == 0
            &&& forall|i: int| 0 <= i < a0.zone_seq().len() && i != j
                ==> r.end <= #[trigger] a0.zone_seq()[i].pages.start || a0.zone_seq()[i].pages.end <= r.start
        }),
{
    lemma_first_zone_for(a0.zone_seq(), order, 0);
    let j = first_zone_for(a0.zone_seq(), order, 0)->Some_0;
    assert(a0.zone_seq()[j].wf());
    lemma_alloc_within_zone(a0.zone_seq()[j], order, r, a1.zone_seq()[j]);
    assert forall|i: int| 0 <= i < a0.zone_seq().len() && i != j
        implies r.end <= #[trigger] a0.zone_seq()[i].pages.start || a0.zone_seq()[i].pages.end <= r.start by {
        assert(a0.zone_seq()[j].pages.end <= a0.zone_seq()[i].pages.start || a0.zone_seq()[i].pages.end <= a0.zone_seq()[j].pages.start);
    }
}

/// What `PhysAllocator::free` does: the first zone whose frames contain
/// `range` frees it, and no other zone changes.
pub open spec fn pmm_free_post(a0: PhysAllocator, range: FrameRange, a1: PhysAllocator) -> bool {
    let j = first_zone_containing(a0.zone_seq(), range, 0)->Some_0;
    &&& a1.zone_seq().len() == a0.zone_seq().len()
    &&& free_post(a0.zone_seq()[j], range, a1.zone_seq()[j])
    &&& forall|i: int| 0 <= i < a0.zone_seq().len() && i != j ==> #[trigger] a1.zone_seq()[i] == a0.zone_seq()[i]
}

/// `range` is an allocated block of the first zone whose frames contain it.
pub open spec fn pmm_block_allocated(a: PhysAllocator, range: FrameRange) -> bool {
    first_zone_containing(a.zone_seq(), range, 0) matches Some(j) && block_allocated(a.zone_seq()[j], range)
}

/// The first zone at or after `from` whose frames contain `range`.
pub open spec fn first_zone_containing(zs: Seq<Zone>, range: FrameRange, from: int) -> Option<int>
    decreases zs.len() - from,
{
    if from < 0 || from >= zs.len() {
        None
    } else if zs[from].pages.start <= range.start && range.end <= zs[from].pages.end {
        Some(from)
    } else {
        first_zone_containing(zs, range, from + 1)
    }
}

proof fn lemma_first_zone_containing(zs: Seq<Zone>, range: FrameRange, from: int)
    requires
        0 <= from,
    ensures
        first_zone_containing(zs, range, from) matches Some(j) ==> from <= j < zs.len(),
    decreases zs.len() - from,
{
    if from < zs.len() && !(zs[from].pages.start <= range.start && range.end <= zs[from].pages.end) {
        lemma_first_zone_containing(zs, range, from + 1);
    }
}

proof fn lemma_first_zone_for(zs: Seq<Zone>, order: int, from: int)
    requires
        0 <= from,
    ensures
        first_zone_for(zs, order, from) matches Some(j) ==> from <= j < zs.len() && alloc_slot(zs[j].tree(), order) is Some,
    decreases zs.len() - from,
{
    if from < zs.len() && !(alloc_slot(zs[from].tree(), order) is Some) {
        lemma_first_zone_for(zs, order, from + 1);
    }
}

impl PhysAllocator {
    pub open spec fn zone_seq(self) -> Seq<Zone> {
        zone_items(self.zones)
    }

    pub open spec fn wf(self) -> bool {
        &&& self.zone_seq().len() <= MAX_ZONES
        &&& forall|j: int| 0 <= j < self.zone_seq().len() ==> #[trigger] self.zone_seq()[j].wf()
        &&& zones_disjoint(self.zone_seq())
    }

    /// Builds a zone from each region of `map`, in order, skipping those
    /// too small to keep two pages once their bookkeeping is set aside.
    pub fn init(map: MemoryMap) -> (r: PhysAllocator)
        requires
            map.wf(),
        ensures
            r.wf(),
            r.zone_seq().len() == zone_plan(map.items()).len(),
            forall|j: int| 0 <= j < r.zone_seq().len() ==> {
                let z = #[trigger] r.zone_seq()[j];
                &&& z.is_fresh()
                &&& z.pages.start == zone_plan(map.items())[j].0
                &&& z.num_pages == zone_plan(map.items())[j].1
                &&& exists|i: int| 0 <= i < map.items().len() && zone_in_region(z, #[trigger] map.items()[i])
            },
    {
        let ghost all = map.items();
        let mut it: RegionIter = map.into_iter();
        let mut zones: ArrayVec<Zone, ZONE_SLOTS> = zones_new();
        let ghost mut k: int = 0;
        let ghost mut src: Seq<int> = Seq::empty();
        proof {
            assert(all.subrange(0, 0) =~= Seq::<Region>::empty());
            assert(all.subrange(0, all.len() as int) =~= all);
        }
        loop
            invariant
                0 <= k <= all.len(),
                all.len() <= crate::map::MAX_REGIONS,
                forall|i: int| 0 <= i < all.len() ==> #[trigger] map_region_ok(all[i]),
                it.items() == all.subrange(k, all.len() as int),
                zone_items(zones).len() == zone_plan(all.subrange(0, k)).len(),
                forall|j: int| 0 <= j < zone_items(zones).len() ==> {
                    let z = #[trigger] zone_items(zones)[j];
                    &&& z.wf()
                    &&& z.is_fresh()
                    &&& z.pages.start == zone_plan(all.subrange(0, k))[j].0
                    &&& z.num_pages == zone_plan(all.subrange(0, k))[j].1
                },
                crate::map::regions_disjoint(all),
                src.len() == zone_items(zones).len(),
                forall|j: int| 0 <= j < src.len() ==> 0 <= #[trigger] src[j] < k,
                forall|a: int, b: int| 0 <= a < b < src.len() ==> #[trigger] src[a] < #[trigger] src[b],
                forall|j: int| 0 <= j < zone_items(zones).len() ==> zone_in_region(#[trigger] zone_items(zones)[j], all[src[j]]),
            ensures
                k == all.len(),
                zone_items(zones).len() == zone_plan(all).len(),
                forall|j: int| 0 <= j < zone_items(zones).len() ==> {
                    let z = #[trigger] zone_items(zones)[j];
                    &&& z.wf()
                    &&& z.is_fresh()
                    &&& z.pages.start == zone_plan(all)[j].0
                    &&& z.num_pages == zone_plan(all)[j].1
                },
                src.len() == zone_items(zones).len(),
                forall|j: int| 0 <= j < src.len() ==> 0 <= #[trigger] src[j] < all.len(),
                forall|a: int, b: int| 0 <= a < b < src.len() ==> #[trigger] src[a] < #[trigger] src[b],
                forall|j: int| 0 <= j < zone_items(zones).len() ==> zone_in_region(#[trigger] zone_items(zones)[j], all[src[j]]),
            decreases all.len() - k,
        {
            match it.next() {
                None => {
                    proof {
                        assert(all.subrange(0, k) =~= all);
                    }
                    break;
                },
                Some(rg) => {
                    let ghost pre = all.subrange(0, k);
                    let ghost next = all.subrange(0, k + 1);
                    proof {
                        assert(rg == all[k]);
                        assert(next.drop_last() =~= pre);
                        assert(next.last() == rg);
                        lemma_zone_plan_len(next);
                    }
                    let z = zone_for_region(rg);
                    match z {
                        Some(z) => {
                            zones_push(&mut zones, z);
                            proof {
                                src = src.push(k);
                            }
                        },
                        None => {},
                    }
                    proof {
                        k = k + 1;
                        assert(it.items() =~= all.subrange(k, all.len() as int));
                    }
                },
            }
        }
        proof {
            lemma_zone_plan_len(all);
            assert forall|a: int, b: int| 0 <= a < zone_items(zones).len() && 0 <= b < zone_items(zones).len() && a != b
                implies #[trigger] zone_items(zones)[a].pages.end <= #[trigger] zone_items(zones)[b].pages.start
                    || zone_items(zones)[b].pages.end <= zone_items(zones)[a].pages.start by {
                assert(zone_in_region(zone_items(zones)[a], all[src[a]]));
                assert(zone_in_region(zone_items(zones)[b], all[src[b]]));
                if a < b {
                    assert(src[a] < src[b]);
                } else {
                    assert(src[b] < src[a]);
                }
                assert(all[src[a]].addr + all[src[a]].size <= all[src[b]].addr
                    || all[src[b]].addr + all[src[b]].size <= all[src[a]].addr);
            }
            assert forall|j: int| 0 <= j < zone_items(zones).len() implies
                exists|i: int| 0 <= i < all.len() && zone_in_region(#[trigger] zone_items(zones)[j], all[i]) by {
                assert(zone_in_region(zone_items(zones)[j], all[src[j]]));
            }
        }
        PhysAllocator { zones }
    }

    /// The first zone that yields a block of `2^order` pages; `None` where
    /// none does (the memory is exhausted for that order).
    pub fn zone_for_order(&self, order: u8) -> (r: Option<usize>)
        requires
            self.wf(),
            order <= MAX_ORDER,
        ensures
            r is None <==> first_zone_for(self.zone_seq(), order as int, 0) is None,
            r matches Some(j) ==> first_zone_for(self.zone_seq(), order as int, 0) == Some(j as int),
    {
        let n = zones_len(&self.zones);
        let mut j: usize = 0;
        while j < n
            invariant
                n == self.zone_seq().len(),
                j <= n,
                self.wf(),
                order <= MAX_ORDER,
                first_zone_for(self.zone_seq(), order as int, j as int) == first_zone_for(self.zone_seq(), order as int, 0),
            decreases n - j,
        {
            if zones_get(&self.zones, j).find_slot(order).is_some() {
                return Some(j);
            }
            j = j + 1;
        }
        None
    }

    /// Takes a block of `2^order` pages from the first zone that yields one;
    /// some zone must (out of memory is not this function's to decide).
    pub fn alloc_frames(&mut self, order: u8) -> (r: FrameRange)
        requires
            old(self).wf(),
            order <= MAX_ORDER,
            first_zone_for(old(self).zone_seq(), order as int, 0) is Some,
        ensures
            final(self).wf(),
            pmm_alloc_post(*old(self), order as int, r, *final(self)),
    {
        proof {
            lemma_first_zone_for(self.zone_seq(), order as int, 0);
        }
        let j = self.zone_for_order(order).unwrap();
        let ghost before = self.zone_seq();
        let mut z = zones_remove(&mut self.zones, j);
        let r = z.alloc_block(order);
        zones_insert(&mut self.zones, j, z);
        proof {
            assert(self.zone_seq() =~= before.update(j as int, z));
            assert forall|i: int| 0 <= i < before.len() implies #[trigger] self.zone_seq()[i].wf() by {
                if i != j {
                    assert(before[i].wf());
                }
            }
        }
        r.unwrap()
    }

    /// The first zone whose frames contain `range`.
    pub fn zone_containing(&self, range: FrameRange) -> (r: Option<usize>)
        ensures
            match first_zone_containing(self.zone_seq(), range, 0) {
                None => r is None,
                Some(j) => r == Some(j as usize),
            },
    {
        let n = zones_len(&self.zones);
        let mut j: usize = 0;
        while j < n
            invariant
                n == self.zone_seq().len(),
                j <= n,
                first_zone_containing(self.zone_seq(), range, j as int) == first_zone_containing(self.zone_seq(), range, 0),
            decreases n - j,
        {
            let z = zones_get(&self.zones, j);
            if z.pages.start <= range.start && range.end <= z.pages.end {
                return Some(j);
            }
            j = j + 1;
        }
        None
    }

    /// Whether `free(range)` is allowed: `range` is an allocated block of
    /// the first zone whose frames contain it.
    pub fn can_free(&self, range: FrameRange) -> (r: bool)
        requires
            self.wf(),
        ensures
            r == pmm_block_allocated(*self, range),
    {
        proof {
            lemma_first_zone_containing(self.zone_seq(), range, 0);
        }
        match self.zone_containing(range) {
            None => false,
            Some(j) => zones_get(&self.zones, j).locate_block(range).is_ok(),
        }
    }

    /// Returns `range`, a block that `alloc_frames` handed out, to the first
    /// zone whose frames contain it; the other zones do not change.
    pub fn free(&mut self, range: FrameRange)
        requires
            old(self).wf(),
            pmm_block_allocated(*old(self), range),
        ensures
            final(self).wf(),
            pmm_free_post(*old(self), range, *final(self)),
    {
        proof {
            lemma_first_zone_containing(self.zone_seq(), range, 0);
        }
        let j = self.zone_containing(range).unwrap();
        let ghost before = self.zone_seq();
        let mut z = zones_remove(&mut self.zones, j);
        z.free(range);
        zones_insert(&mut self.zones, j, z);
        proof {
            assert(self.zone_seq() =~= before.update(j as int, z));
            assert forall|i: int| 0 <= i < before.len() implies #[trigger] self.zone_seq()[i].wf() by {
                if i != j {
                    assert(before[i].wf());
                }
            }
        }
    }
}

/// Free pages over all the zones.
pub open spec fn total_free_pages(zs: Seq<Zone>) -> int
    decreases zs.len(),
{
    if zs.len() == 0 {
        0
    } else {
        total_free_pages(zs.drop_last()) + free_page_count(zs.last())
    }
}

/// Pages over all the zones.
pub open spec fn total_pages(zs: Seq<Zone>) -> int
    decreases zs.len(),
{
    if zs.len() == 0 {
        0
    } else {
        total_pages(zs.drop_last()) + zs.last().num_pages
    }
}

proof fn lemma_total_free_update(zs: Seq<Zone>, j: int, z: Zone)
    requires
        0 <= j < zs.len(),
    ensures
        total_free_pages(zs.update(j, z)) == total_free_pages(zs) - free_page_count(zs[j]) + free_page_count(z),
    decreases zs.len(),
{
    let u = zs.update(j, z);
    if j < zs.len() - 1 {
        assert(u.drop_last() =~= zs.drop_last().update(j, z));
        lemma_total_free_update(zs.drop_last(), j, z);
    } else {
        assert(u.drop_last() =~= zs.drop_last());
    }
}

/// In fresh zones every page is free.
pub proof fn lemma_fresh_zones_free(zs: Seq<Zone>)
    requires
        forall|j: int| 0 <= j < zs.len() ==> (#[trigger] zs[j]).wf() && zs[j].is_fresh(),
    ensures
        total_free_pages(zs) == total_pages(zs),
    decreases zs.len(),
{
    if zs.len() > 0 {
        let d = zs.drop_last();
        assert forall|j: int| 0 <= j < d.len() implies (#[trigger] d[j]).wf() && d[j].is_fresh() by {
            assert(d[j] == zs[j]);
        }
        lemma_fresh_zones_free(d);
        assert(zs[zs.len() - 1].wf());
        lemma_fresh_free_pages(zs.last());
    }
}

/// `alloc_frames` of order `order` leaves `2^order` fewer free pages over
/// all the zones; with `lemma_fresh_zones_free` (every page is free right
/// after `init`) and `lemma_free_frames_count`, the free pages and the pages
/// of the blocks handed out and not yet returned add up to all the zones'
/// pages.
pub proof fn lemma_alloc_frames_count(a0: PhysAllocator, order: int, r: FrameRange, a1: PhysAllocator)
    requires
        a0.wf(),
        0 <= order <= MAX_ORDER,
        first_zone_for(a0.zone_seq(), order, 0) is Some,
        pmm_alloc_post(a0, order, r, a1),
    ensures
        total_free_pages(a1.zone_seq()) + pages_of(order as nat) == total_free_pages(a0.zone_seq()),
{
    lemma_first_zone_for(a0.zone_seq(), order, 0);
    let j = first_zone_for(a0.zone_seq(), order, 0)->Some_0;
    assert(a0.zone_seq()[j].wf());
    lemma_alloc_free_count(a0.zone_seq()[j], order, r, a1.zone_seq()[j]);
    assert(a1.zone_seq() =~= a0.zone_seq().update(j, a1.zone_seq()[j]));
    lemma_total_free_update(a0.zone_seq(), j, a1.zone_seq()[j]);
}

/// `free` of a block gives its pages back to the free pages over all zones.
pub proof fn lemma_free_frames_count(a0: PhysAllocator, range: FrameRange, a1: PhysAllocator)
    requires
        a0.wf(),
        pmm_block_allocated(a0, range),
        pmm_free_post(a0, range, a1),
    ensures
        total_free_pages(a1.zone_seq()) == total_free_pages(a0.zone_seq()) + (range.end - range.start) / PAGE_SIZE as int,
{
    lemma_first_zone_containing(a0.zone_seq(), range, 0);
    let j = first_zone_containing(a0.zone_seq(), range, 0)->Some_0;
    assert(a0.zone_seq()[j].wf());
    lemma_free_count(a0.zone_seq()[j], range, a1.zone_seq()[j]);
    assert(a1.zone_seq() =~= a0.zone_seq().update(j, a1.zone_seq()[j]));
    lemma_total_free_update(a0.zone_seq(), j, a1.zone_seq()[j]);
}

/// Every zone page that a block of `live` covers is taken.
pub open spec fn pmm_live_taken(a: PhysAllocator, live: Seq<FrameRange>) -> bool {
    forall|i: int| 0 <= i < a.zone_seq().len() ==> live_taken(#[trigger] a.zone_seq()[i], live)
}

/// While the blocks still allocated (`live`) cover only taken pages, a block
/// that `alloc_frames` hands out shares no zone page with any of them, and
/// afterwards the blocks allocated, the new one included, still cover only
/// taken pages. With `lemma_free_frames_keeps_live` this keeps the blocks
/// allocated pairwise disjoint over any run of `alloc_frames` and `free`.
pub proof fn lemma_alloc_frames_disjoint(a0: PhysAllocator, order: int, r: FrameRange, a1: PhysAllocator, live: Seq<FrameRange>)
    requires
        a0.wf(),
        0 <= order <= MAX_ORDER,
        first_zone_for(a0.zone_seq(), order, 0) is Some,
        pmm_alloc_post(a0, order, r, a1),
        pmm_live_taken(a0, live),
    ensures
        forall|q: int, i: int, p: int| 0 <= q < live.len() && 0 <= i < a0.zone_seq().len() && 0 <= p < a0.zone_seq()[i].num_pages
            ==> !(#[trigger] page_in(a0.zone_seq()[i], live[q], p) && page_in(a0.zone_seq()[i], r, p)),
        pmm_live_taken(a1, live.push(r)),
{
    let zs = a0.zone_seq();
    lemma_alloc_frames_in_one_zone(a0, order, r, a1);
    lemma_first_zone_for(zs, order, 0);
    let j = first_zone_for(zs, order, 0)->Some_0;
    assert(zs[j].wf());
    assert(live_taken(zs[j], live));
    lemma_alloc_disjoint_from_live(zs[j], order, r, a1.zone_seq()[j], live);
    assert forall|q: int, i: int, p: int| 0 <= q < live.len() && 0 <= i < zs.len() && 0 <= p < zs[i].num_pages
        implies !(#[trigger] page_in(zs[i], live[q], p) && page_in(zs[i], r, p)) by {
        assert(zs[i].wf());
        if i != j && page_in(zs[i], r, p) {
            assert(zs[i].pages.start <= zs[i].pages.start + p * PAGE_SIZE < zs[i].pages.end) by (nonlinear_arith)
                requires 0 <= p < zs[i].num_pages, zs[i].pages.end == zs[i].pages.start + zs[i].num_pages * PAGE_SIZE;
        }
    }
    let l2 = live.push(r);
    assert forall|i: int| 0 <= i < a1.zone_seq().len() implies live_taken(#[trigger] a1.zone_seq()[i], l2) by {
        if i != j {
            let z = zs[i];
            assert(a1.zone_seq()[i] == z);
            assert(z.wf());
            assert(live_taken(z, live));
            assert forall|q: int, p: int| 0 <= q < l2.len() && 0 <= p < z.tree()[0].len() && #[trigger] page_in(z, l2[q], p)
                implies !zone_page_free(z.tree(), p) by {
                if q < live.len() {
                    assert(l2[q] == live[q]);
                } else if zone_page_free(z.tree(), p) {
                    assert(l2[q] == r);
                    lemma_free_pages_in_zone(z, p);
                    assert(z.pages.start <= z.pages.start + p * PAGE_SIZE < z.pages.end) by (nonlinear_arith)
                        requires 0 <= p < z.num_pages, z.pages.end == z.pages.start + z.num_pages * PAGE_SIZE;
                }
            }
        }
    }
}

/// Freeing an allocated block that shares no zone page with the other
/// blocks still allocated (`live`) leaves their pages taken.
pub proof fn lemma_free_frames_keeps_live(a0: PhysAllocator, range: FrameRange, a1: PhysAllocator, live: Seq<FrameRange>)
    requires
        a0.wf(),
        pmm_block_allocated(a0, range),
        pmm_free_post(a0, range, a1),
        pmm_live_taken(a0, live),
        forall|q: int, i: int, p: int| 0 <= q < live.len() && 0 <= i < a0.zone_seq().len() && 0 <= p < a0.zone_seq()[i].tree()[0].len()
            ==> !(#[trigger] page_in(a0.zone_seq()[i], live[q], p) && page_in(a0.zone_seq()[i], range, p)),
    ensures
        pmm_live_taken(a1, live),
{
    let zs = a0.zone_seq();
    lemma_first_zone_containing(zs, range, 0);
    let j = first_zone_containing(zs, range, 0)->Some_0;
    assert(zs[j].wf());
    assert(live_taken(zs[j], live));
    assert forall|q: int, p: int| 0 <= q < live.len() && 0 <= p < zs[j].tree()[0].len()
        implies !(#[trigger] page_in(zs[j], live[q], p) && page_in(zs[j], range, p)) by {
        assert(!(page_in(zs[j], live[q], p) && page_in(zs[j], range, p)));
    }
    lemma_free_keeps_live(zs[j], range, a1.zone_seq()[j], live);
    assert forall|i: int| 0 <= i < a1.zone_seq().len() implies live_taken(#[trigger] a1.zone_seq()[i], live) by {
        if i != j {
            assert(a1.zone_seq()[i] == zs[i]);
        }
    }
}

} // verus!
