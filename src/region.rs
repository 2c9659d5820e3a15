//! Physically contiguous spans of memory and the bump allocator that carves
//! bookkeeping out of one of them.
use vstd::prelude::*;
use crate::sizing::{align_up, align_up_spec, is_pow2};

verus! {

/// Offset of the kernel-half alias of physical memory: the physical address
/// `p` is readable and writable at the virtual address `p + PHYS_OFFSET`.
pub const PHYS_OFFSET: u64 = 0xFFFF_8000_0000_0000;

/// Physical memory that the kernel-half alias covers: `[0, MAX_PHYS_ADDR)`.
pub const MAX_PHYS_ADDR: u64 = 0x4000_0000_0000;

/// A physically contiguous, not necessarily aligned, span of memory.
#[derive(Clone, Copy, Debug, PartialEq, Eq, Structural)]
pub struct Region {
    pub addr: u64,
    pub size: u64,
}

impl Region {
    /// The span lies in the physical memory that the kernel can address.
    pub open spec fn wf(self) -> bool {
        self.addr + self.size <= MAX_PHYS_ADDR
    }

    /// The first `offset` bytes and the rest.
    pub fn split_at(self, offset: u64) -> (r: (Region, Region))
        requires
            self.wf(),
            offset < self.size,
        ensures
            r.0 == (Region { addr: self.addr, size: offset }),
            r.1 == (Region { addr: (self.addr + offset) as u64, size: (self.size - offset) as u64 }),
            r.0.wf() && r.1.wf(),
    {
        (Region { addr: self.addr, size: offset }, Region { addr: self.addr + offset, size: self.size - offset })
    }
}

proof fn lemma_align_up_bounds(x: int, al: int)
    requires
        0 <= x,
        0 < al,
    ensures
        x <= align_up_spec(x, al) < x + al,
        align_up_spec(x, al) % al == 0,
{
    vstd::arithmetic::div_mod::lemma_fundamental_div_mod(x, al);
    let q = x / al;
    if x % al != 0 {
        assert(align_up_spec(x, al) == (q + 1) * al) by (nonlinear_arith)
            requires x == al * q + x % al, align_up_spec(x, al) == x - x % al + al;
        vstd::arithmetic::div_mod::lemma_mod_multiples_basic(q + 1, al);
    }
}

proof fn lemma_align_up_mono(x: int, y: int, al: int)
    requires
        0 <= x <= y,
        0 < al,
    ensures
        align_up_spec(x, al) <= align_up_spec(y, al),
{
    vstd::arithmetic::div_mod::lemma_fundamental_div_mod(x, al);
    vstd::arithmetic::div_mod::lemma_fundamental_div_mod(y, al);
    vstd::arithmetic::div_mod::lemma_div_is_ordered(x, y, al);
    let qx = x / al;
    let qy = y / al;
    if qx < qy {
        assert((qx + 1) * al <= qy * al) by (nonlinear_arith)
            requires qx + 1 <= qy, al > 0;
        assert(align_up_spec(x, al) <= (qx + 1) * al) by (nonlinear_arith)
            requires x == al * qx + x % al, 0 <= x % al < al,
                align_up_spec(x, al) == (if x % al == 0 { x } else { x - x % al + al });
        assert(qy * al <= align_up_spec(y, al)) by (nonlinear_arith)
            requires y == al * qy + y % al, 0 <= y % al < al,
                align_up_spec(y, al) == (if y % al == 0 { y } else { y - y % al + al });
    }
}

/// An aligned bump cursor over one region: `offset` bytes of it are taken.
pub struct RegionBumpAllocator {
    pub start: u64,
    pub size: u64,
    pub offset: u64,
}

impl RegionBumpAllocator {
    pub open spec fn wf(self) -> bool {
        &&& self.offset <= self.size
        &&& self.start + self.size <= MAX_PHYS_ADDR
    }

    /// A cursor at the start of `rg`.
    pub fn from_region(rg: Region) -> (r: RegionBumpAllocator)
        requires
            rg.wf(),
        ensures
            r.wf(),
            r == (RegionBumpAllocator { start: rg.addr, size: rg.size, offset: 0 }),
    {
        RegionBumpAllocator { start: rg.addr, size: rg.size, offset: 0 }
    }

    /// Takes `size` bytes aligned to `align`: the start is `offset` rounded
    /// up to `align` and the cursor moves to `offset + size` rounded up to
    /// `align`; fails, taking nothing, where that passes the end of the
    /// region. The result is the kernel-half virtual address of the bytes.
    pub fn alloc_bytes(&mut self, size: u64, align: u64) -> (r: Option<u64>)
        requires
            old(self).wf(),
            is_pow2(align as int),
            align <= crate::region::MAX_PHYS_ADDR,
        ensures
            final(self).wf(),
            final(self).start == old(self).start,
            final(self).size == old(self).size,
            ({
                let new_off = align_up_spec(old(self).offset + size, align as int);
                if new_off > old(self).size {
                    r is None && final(self).offset == old(self).offset
                } else {
                    &&& r == Some((old(self).start + align_up_spec(old(self).offset as int, align as int) + PHYS_OFFSET) as u64)
                    &&& final(self).offset == new_off
                }
            }),
    {
        proof {
            lemma_align_up_bounds(self.offset + size, align as int);
        }
        if size > self.size - self.offset {
            return None;
        }
        let new_off = align_up(self.offset + size, align);
        if new_off > self.size {
            return None;
        }
        proof {
            lemma_align_up_bounds(self.offset as int, align as int);
            lemma_align_up_mono(self.offset as int, self.offset + size, align as int);
        }
        let aligned = align_up(self.offset, align);
        self.offset = new_off;
        Some(self.start + aligned + PHYS_OFFSET)
    }
}

} // verus!
