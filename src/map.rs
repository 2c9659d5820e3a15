//! The bootstrap memory map: the usable regions of the firmware's map,
//! from which single frames are bump-allocated while paging is set up.
use vstd::prelude::*;
use arrayvec::ArrayVec;
use crate::region::{Region, MAX_PHYS_ADDR};
use crate::zone::PAGE_SIZE;

verus! {

/// Most regions that a memory map holds.
pub const MAX_REGIONS: usize = 64;

#[verifier::external_type_specification]
#[verifier::external_body]
#[verifier::reject_recursive_types(T)]
pub struct ExArrayVec<T, const CAP: usize>(ArrayVec<T, CAP>);

/// The regions that an `ArrayVec` of regions holds, in order.
pub uninterp spec fn region_items(v: ArrayVec<Region, MAX_REGIONS>) -> Seq<Region>;

/// Relies on `ArrayVec::new`: an empty vector.
#[verifier::external_body]
fn regions_new() -> (r: ArrayVec<Region, MAX_REGIONS>)
    ensures
        region_items(r) == Seq::<Region>::empty(),
{
    ArrayVec::new()
}

/// Relies on `ArrayVec::len`: the number of elements, never above the capacity.
#[verifier::external_body]
fn regions_len(v: &ArrayVec<Region, MAX_REGIONS>) -> (r: usize)
    ensures
        r == region_items(*v).len(),
        r <= MAX_REGIONS,
{
    v.len()
}

/// Relies on indexing an `ArrayVec` (through its slice): the element at `i`.
#[verifier::external_body]
fn regions_get(v: &ArrayVec<Region, MAX_REGIONS>, i: usize) -> (r: Region)
    requires
        i < region_items(*v).len(),
    ensures
        r == region_items(*v)[i as int],
{
    v[i]
}

/// Relies on mutable indexing of an `ArrayVec` (through its slice): only the
/// element at `i` is replaced.
#[verifier::external_body]
fn regions_set(v: &mut ArrayVec<Region, MAX_REGIONS>, i: usize, rg: Region)
    requires
        i < region_items(*old(v)).len(),
    ensures
        region_items(*final(v)) == region_items(*old(v)).update(i as int, rg),
{
    v[i] = rg;
}

/// Relies on `ArrayVec::push`: appends `rg`; it panics only when the vector
/// is full.
#[verifier::external_body]
fn regions_push(v: &mut ArrayVec<Region, MAX_REGIONS>, rg: Region)
    requires
        region_items(*old(v)).len() < MAX_REGIONS,
    ensures
        region_items(*final(v)) == region_items(*old(v)).push(rg),
{
    v.push(rg);
}

/// Relies on `ArrayVec::remove`: takes out the element at `i` and shifts the
/// following ones down; it panics only when `i` is out of bounds.
#[verifier::external_body]
fn regions_remove(v: &mut ArrayVec<Region, MAX_REGIONS>, i: usize) -> (r: Region)
    requires
        i < region_items(*old(v)).len(),
    ensures
        r == region_items(*old(v))[i as int],
        region_items(*final(v)) == region_items(*old(v)).remove(i as int),
{
    v.remove(i)
}

/// The kinds of region that the firmware's memory map reports.
#[derive(Clone, Copy, Debug, PartialEq, Eq, Structural)]
pub enum MemoryRegionKind {
    Usable,
    InUse,
    Reserved,
    AcpiReclaimable,
    AcpiNvs,
    BadMemory,
    Kernel,
    KernelStack,
    PageTable,
    Bootloader,
    FrameZero,
    Empty,
    BootInfo,
    Package,
}

/// One entry of the firmware's memory map: the bytes `[start_addr, end_addr)`.
#[derive(Clone, Copy, Debug, PartialEq, Eq, Structural)]
pub struct FirmwareRegion {
    pub start_addr: u64,
    pub end_addr: u64,
    pub region_type: MemoryRegionKind,
}

impl FirmwareRegion {
    pub open spec fn wf(self) -> bool {
        &&& self.start_addr <= self.end_addr <= MAX_PHYS_ADDR
        &&& self.start_addr % PAGE_SIZE == 0
    }

    /// Memory that the kernel may take: usable, or the bootloader's own.
    pub open spec fn is_free_memory(self) -> bool {
        self.region_type == MemoryRegionKind::Usable || self.region_type == MemoryRegionKind::Bootloader
    }

    pub open spec fn region(self) -> Region {
        Region { addr: self.start_addr, size: (self.end_addr - self.start_addr) as u64 }
    }
}

/// The regions of a firmware map that the kernel may take, in order.
pub open spec fn free_regions(s: Seq<FirmwareRegion>) -> Seq<Region>
    decreases s.len(),
{
    if s.len() == 0 {
        Seq::empty()
    } else {
        let init = free_regions(s.drop_last());
        if s.last().is_free_memory() {
            init.push(s.last().region())
        } else {
            init
        }
    }
}

/// Whole pages in the regions of `s`.
pub open spec fn pages_sum(s: Seq<Region>) -> int
    decreases s.len(),
{
    if s.len() == 0 {
        0
    } else {
        pages_sum(s.drop_last()) + (s.last().size / PAGE_SIZE) as int
    }
}

/// The first region at or after `from` that still holds a whole page.
pub open spec fn first_with_page(s: Seq<Region>, from: int) -> Option<int>
    decreases s.len() - from,
{
    if from < 0 || from >= s.len() {
        None
    } else if s[from].size >= PAGE_SIZE {
        Some(from)
    } else {
        first_with_page(s, from + 1)
    }
}

/// No two of the regions overlap.
pub open spec fn regions_disjoint(s: Seq<Region>) -> bool {
    forall|i: int, j: int| 0 <= i < s.len() && 0 <= j < s.len() && i != j
        ==> #[trigger] s[i].addr + s[i].size <= #[trigger] s[j].addr || s[j].addr + s[j].size <= s[i].addr
}

proof fn lemma_pages_sum_zero(s: Seq<Region>)
    requires
        forall|j: int| 0 <= j < s.len() ==> #[trigger] s[j].size < PAGE_SIZE,
    ensures
        pages_sum(s) == 0,
    decreases s.len(),
{
    if s.len() > 0 {
        let d = s.drop_last();
        assert forall|j: int| 0 <= j < d.len() implies #[trigger] d[j].size < PAGE_SIZE by {
            assert(d[j] == s[j]);
        }
        lemma_pages_sum_zero(d);
        assert(s[s.len() - 1].size < PAGE_SIZE);
    }
}

/// A region that the map may hold: page aligned, in addressable memory.
pub open spec fn map_region_ok(r: Region) -> bool {
    r.wf() && r.addr % PAGE_SIZE == 0
}

proof fn lemma_pages_sum_update(s: Seq<Region>, i: int, r: Region)
    requires
        0 <= i < s.len(),
    ensures
        pages_sum(s.update(i, r)) == pages_sum(s) - (s[i].size / PAGE_SIZE) as int + (r.size / PAGE_SIZE) as int,
    decreases s.len(),
{
    let u = s.update(i, r);
    if i < s.len() - 1 {
        assert(u.drop_last() =~= s.drop_last().update(i, r));
        lemma_pages_sum_update(s.drop_last(), i, r);
    } else {
        assert(u.drop_last() =~= s.drop_last());
    }
}

proof fn lemma_pages_sum_remove(s: Seq<Region>, i: int)
    requires
        0 <= i < s.len(),
    ensures
        pages_sum(s.remove(i)) == pages_sum(s) - (s[i].size / PAGE_SIZE) as int,
    decreases s.len(),
{
    let u = s.remove(i);
    if i < s.len() - 1 {
        assert(u.drop_last() =~= s.drop_last().remove(i));
        assert(u.last() == s.last());
        lemma_pages_sum_remove(s.drop_last(), i);
    } else {
        assert(u =~= s.drop_last());
    }
}

proof fn lemma_pages_sum_bounds(s: Seq<Region>)
    requires
        forall|i: int| 0 <= i < s.len() ==> #[trigger] map_region_ok(s[i]),
    ensures
        0 <= pages_sum(s) <= s.len() * (MAX_PHYS_ADDR / PAGE_SIZE) as int,
    decreases s.len(),
{
    if s.len() > 0 {
        assert(map_region_ok(s[s.len() - 1]));
        let d = s.drop_last();
        assert forall|i: int| 0 <= i < d.len() implies #[trigger] map_region_ok(d[i]) by {
            assert(d[i] == s[i]);
        }
        lemma_pages_sum_bounds(d);
        let c = (MAX_PHYS_ADDR / PAGE_SIZE) as int;
        let x = (s.last().size / PAGE_SIZE) as int;
        assert(x <= c) by {
            vstd::arithmetic::div_mod::lemma_div_is_ordered(s.last().size as int, MAX_PHYS_ADDR as int, PAGE_SIZE as int);
        }
        assert(d.len() * c + c == s.len() * c) by (nonlinear_arith)
            requires d.len() + 1 == s.len();
    }
}

proof fn lemma_first_with_page(s: Seq<Region>, from: int)
    requires
        0 <= from,
    ensures
        first_with_page(s, from) matches Some(i) ==> from <= i < s.len() && s[i].size >= PAGE_SIZE,
        first_with_page(s, from) is None ==> forall|j: int| from <= j < s.len() ==> #[trigger] s[j].size < PAGE_SIZE,
    decreases s.len() - from,
{
    if from < s.len() && s[from].size < PAGE_SIZE {
        lemma_first_with_page(s, from + 1);
    }
}

/// The usable regions of the firmware's map and the number of whole pages
/// left in them.
pub struct MemoryMap {
    pub regions: ArrayVec<Region, MAX_REGIONS>,
    pub num_pages: u64,
}

impl MemoryMap {
    pub open spec fn items(self) -> Seq<Region> {
        region_items(self.regions)
    }

    pub open spec fn wf(self) -> bool {
        &&& self.num_pages == pages_sum(self.items())
        &&& self.items().len() <= MAX_REGIONS
        &&& regions_disjoint(self.items())
        &&& forall|i: int| 0 <= i < self.items().len() ==> #[trigger] map_region_ok(self.items()[i])
    }

    /// The map of the regions of `memory_map` that are usable or the
    /// bootloader's, in their order.
    pub fn new(memory_map: &[FirmwareRegion]) -> (r: MemoryMap)
        requires
            forall|i: int| 0 <= i < memory_map@.len() && #[trigger] memory_map@[i].is_free_memory() ==> memory_map@[i].wf(),
            1 <= free_regions(memory_map@).len() <= MAX_REGIONS,
            regions_disjoint(free_regions(memory_map@)),
        ensures
            r.wf(),
            r.items() == free_regions(memory_map@),
    {
        let mut map = MemoryMap { regions: regions_new(), num_pages: 0 };
        let mut i: usize = 0;
        while i < memory_map.len()
            invariant
                i <= memory_map@.len(),
                forall|j: int| 0 <= j < memory_map@.len() && #[trigger] memory_map@[j].is_free_memory() ==> memory_map@[j].wf(),
                free_regions(memory_map@).len() <= MAX_REGIONS,
                regions_disjoint(free_regions(memory_map@)),
                map.wf(),
                map.items() == free_regions(memory_map@.subrange(0, i as int)),
            decreases memory_map@.len() - i,
        {
            let ghost pre = memory_map@.subrange(0, i as int);
            let ghost next = memory_map@.subrange(0, i + 1);
            assert(next.drop_last() =~= pre);
            proof {
                lemma_free_regions_prefix_len(memory_map@, i + 1);
                let f = free_regions(memory_map@);
                let g = free_regions(next);
                assert(g == f.subrange(0, g.len() as int));
                assert forall|a: int, b: int| 0 <= a < g.len() && 0 <= b < g.len() && a != b
                    implies #[trigger] g[a].addr + g[a].size <= #[trigger] g[b].addr || g[b].addr + g[b].size <= g[a].addr by {
                    assert(g[a] == f[a] && g[b] == f[b]);
                }
            }
            let reg = memory_map[i];
            if reg.region_type == MemoryRegionKind::Usable || reg.region_type == MemoryRegionKind::Bootloader {
                map.push(Region { addr: reg.start_addr, size: reg.end_addr - reg.start_addr });
            }
            i = i + 1;
        }
        assert(memory_map@.subrange(0, memory_map@.len() as int) =~= memory_map@);
        map
    }

    fn push(&mut self, rg: Region)
        requires
            old(self).wf(),
            map_region_ok(rg),
            old(self).items().len() < MAX_REGIONS,
            regions_disjoint(old(self).items().push(rg)),
        ensures
            final(self).wf(),
            final(self).items() == old(self).items().push(rg),
    {
        proof {
            lemma_pages_sum_bounds(self.items());
            let c = (MAX_PHYS_ADDR / PAGE_SIZE) as int;
            assert(self.items().len() * c <= 64 * c) by (nonlinear_arith)
                requires self.items().len() <= 64, c >= 0;
            vstd::arithmetic::div_mod::lemma_div_is_ordered(rg.size as int, MAX_PHYS_ADDR as int, PAGE_SIZE as int);
        }
        self.num_pages = self.num_pages + rg.size / PAGE_SIZE;
        regions_push(&mut self.regions, rg);
        proof {
            let s = self.items();
            assert(s.drop_last() =~= old(self).items());
            assert forall|i: int| 0 <= i < s.len() implies #[trigger] map_region_ok(s[i]) by {
                if i < s.len() - 1 {
                    assert(s[i] == old(self).items()[i]);
                }
            }
        }
    }

    /// Takes the first page of the first region that still holds one: that
    /// region then starts a page later, and goes once it is empty. The page
    /// lies in none of the regions left. Some page is left while
    /// `num_pages > 0`.
    pub fn allocate_frame(&mut self) -> (r: u64)
        requires
            old(self).wf(),
            old(self).num_pages > 0,
        ensures
            final(self).wf(),
            forall|j: int| 0 <= j < final(self).items().len() ==>
                #[trigger] final(self).items()[j].addr + final(self).items()[j].size <= r
                    || r + PAGE_SIZE <= final(self).items()[j].addr,
            match first_with_page(old(self).items(), 0) {
                None => false,
                Some(i) => {
                    let rg = old(self).items()[i];
                    &&& r == rg.addr
                    &&& final(self).num_pages == old(self).num_pages - 1
                    &&& final(self).items() == if rg.size == PAGE_SIZE {
                        old(self).items().remove(i)
                    } else {
                        old(self).items().update(i, Region { addr: (rg.addr + PAGE_SIZE) as u64, size: (rg.size - PAGE_SIZE) as u64 })
                    }
                },
            },
    {
        let ghost s = self.items();
        let len = regions_len(&self.regions);
        let mut i: usize = 0;
        while i < len && regions_get(&self.regions, i).size < PAGE_SIZE
            invariant
                self.items() == s,
                len == s.len(),
                i <= len,
                first_with_page(s, i as int) == first_with_page(s, 0),
            decreases len - i,
        {
            i = i + 1;
        }
        proof {
            lemma_first_with_page(s, 0);
            if i == len {
                lemma_pages_sum_zero(s);
            }
        }
        let rg = regions_get(&self.regions, i);
        proof {
            assert(map_region_ok(s[i as int]));
            lemma_pages_sum_update(s, i as int, Region { addr: (rg.addr + PAGE_SIZE) as u64, size: (rg.size - PAGE_SIZE) as u64 });
            lemma_pages_sum_remove(s, i as int);
            lemma_pages_sum_bounds(s.update(i as int, Region { addr: (rg.addr + PAGE_SIZE) as u64, size: (rg.size - PAGE_SIZE) as u64 }));
        }
        let rest = Region { addr: rg.addr + PAGE_SIZE, size: rg.size - PAGE_SIZE };
        self.num_pages = self.num_pages - 1;
        if rest.size == 0 {
            regions_remove(&mut self.regions, i);
        } else {
            regions_set(&mut self.regions, i, rest);
        }
        proof {
            let t = self.items();
            assert forall|j: int| 0 <= j < t.len() implies #[trigger] map_region_ok(t[j]) by {
                if rest.size == 0 {
                    if j < i {
                        assert(t[j] == s[j]);
                    } else {
                        assert(t[j] == s[j + 1]);
                        assert(map_region_ok(s[j + 1]));
                    }
                } else if j != i {
                    assert(t[j] == s[j]);
                }
            }
            assert forall|a: int, b: int| 0 <= a < t.len() && 0 <= b < t.len() && a != b
                implies #[trigger] t[a].addr + t[a].size <= #[trigger] t[b].addr || t[b].addr + t[b].size <= t[a].addr by {
                let oa = if rest.size == 0 && a >= i { a + 1 } else { a };
                let ob = if rest.size == 0 && b >= i { b + 1 } else { b };
                assert(s[oa].addr + s[oa].size <= s[ob].addr || s[ob].addr + s[ob].size <= s[oa].addr);
            }
            assert forall|j: int| 0 <= j < t.len() implies
                #[trigger] t[j].addr + t[j].size <= rg.addr || rg.addr + PAGE_SIZE <= t[j].addr by {
                let oj = if rest.size == 0 && j >= i { j + 1 } else { j };
                if oj != i {
                    assert(s[oj].addr + s[oj].size <= s[i as int].addr || s[i as int].addr + s[i as int].size <= s[oj].addr);
                }
            }
        }
        rg.addr
    }

    /// Hands the regions out one by one, first to last.
    pub fn into_iter(self) -> (r: RegionIter)
        ensures
            r.items() == self.items(),
    {
        RegionIter { regions: self.regions }
    }
}

/// The number of regions of `memory_map` that are usable or the
/// bootloader's: what `MemoryMap::new` would keep.
pub fn free_regions_of(memory_map: &[FirmwareRegion]) -> (r: usize)
    ensures
        r == free_regions(memory_map@).len(),
{
    let mut n: usize = 0;
    let mut i: usize = 0;
    while i < memory_map.len()
        invariant
            i <= memory_map@.len(),
            n == free_regions(memory_map@.subrange(0, i as int)).len(),
            n <= i,
        decreases memory_map@.len() - i,
    {
        let ghost next = memory_map@.subrange(0, i + 1);
        assert(next.drop_last() =~= memory_map@.subrange(0, i as int));
        let reg = memory_map[i];
        if reg.region_type == MemoryRegionKind::Usable || reg.region_type == MemoryRegionKind::Bootloader {
            n = n + 1;
        }
        i = i + 1;
    }
    assert(memory_map@.subrange(0, memory_map@.len() as int) =~= memory_map@);
    n
}

proof fn lemma_free_regions_prefix_len(s: Seq<FirmwareRegion>, n: int)
    requires
        0 <= n <= s.len(),
    ensures
        free_regions(s.subrange(0, n)).len() <= free_regions(s).len(),
        free_regions(s.subrange(0, n)) == free_regions(s).subrange(0, free_regions(s.subrange(0, n)).len() as int),
    decreases s.len(),
{
    if n < s.len() {
        assert(s.drop_last().subrange(0, n) =~= s.subrange(0, n));
        lemma_free_regions_prefix_len(s.drop_last(), n);
        let a = free_regions(s.subrange(0, n));
        let f = free_regions(s.drop_last());
        assert(a =~= free_regions(s).subrange(0, a.len() as int));
    } else {
        assert(s.subrange(0, n) =~= s);
        assert(free_regions(s) =~= free_regions(s).subrange(0, free_regions(s).len() as int));
    }
}

/// The regions of a consumed memory map, taken from the front.
pub struct RegionIter {
    pub regions: ArrayVec<Region, MAX_REGIONS>,
}

impl RegionIter {
    pub open spec fn items(self) -> Seq<Region> {
        region_items(self.regions)
    }

    /// The first region left, which is taken out.
    pub fn next(&mut self) -> (r: Option<Region>)
        ensures
            old(self).items().len() == 0 ==> r is None && final(self).items() == old(self).items(),
            old(self).items().len() > 0 ==> r == Some(old(self).items()[0])
                && final(self).items() == old(self).items().subrange(1, old(self).items().len() as int),
    {
        if regions_len(&self.regions) == 0 {
            None
        } else {
            let r = regions_remove(&mut self.regions, 0);
            assert(old(self).items().remove(0) =~= old(self).items().subrange(1, old(self).items().len() as int));
            Some(r)
        }
    }
}

} // verus!
