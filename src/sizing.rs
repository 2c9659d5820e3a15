//! How much of a region can be handed out once its own bookkeeping (one
//! `PageInfo` per usable page and the buddy tree's blocks) is set aside.
use vstd::prelude::*;
use crate::block::{MAX_ORDER_PAGES};

verus! {

/// Size in bytes of the per-page metadata record.
pub const PAGE_INFO_SIZE: u64 = 64;

/// Largest number of 4 KiB pages below `MAX_PHYS_ADDR`.
pub const MAX_PHYS_PAGES: u64 = 0x4_0000_0000;

/// Number of blocks in a full buddy tree over `2^MAX_ORDER` pages:
/// `2^(MAX_ORDER + 1) - 1`.
pub const BLOCKS_PER_MAX_ORDER_BLOCK: u64 = 4095;

/// `addr` rounded up to a multiple of `align`.
pub open spec fn align_up_spec(addr: int, align: int) -> int {
    if addr % align == 0 {
        addr
    } else {
        addr - addr % align + align
    }
}

/// `addr` rounded down to a multiple of `align`.
pub open spec fn align_down_spec(addr: int, align: int) -> int {
    addr - addr % align
}

pub open spec fn is_pow2(x: int) -> bool
    decreases x,
{
    if x <= 0 {
        false
    } else if x == 1 {
        true
    } else {
        x % 2 == 0 && is_pow2(x / 2)
    }
}

/// Relies on `x86_64::align_up`: for a power-of-two `align` it returns `addr`
/// when `addr` is aligned and `(addr | (align - 1)) + 1` otherwise, that is the
/// smallest multiple of `align` not below `addr`; it panics when that does
/// not fit in a `u64`.
#[verifier::external_body]
pub(crate) fn align_up(addr: u64, align: u64) -> (r: u64)
    requires
        is_pow2(align as int),
        align_up_spec(addr as int, align as int) <= u64::MAX,
    ensures
        r == align_up_spec(addr as int, align as int),
{
    x86_64::align_up(addr, align)
}

/// Relies on `x86_64::align_down`: for a power-of-two `align` it returns
/// `addr & !(align - 1)`, the largest multiple of `align` not above `addr`.
#[verifier::external_body]
pub(crate) fn align_down(addr: u64, align: u64) -> (r: u64)
    requires
        is_pow2(align as int),
    ensures
        r == align_down_spec(addr as int, align as int),
{
    x86_64::align_down(addr, align)
}

/// Number of top-level (`MAX_ORDER`) blocks needed to cover `pages` pages.
pub open spec fn max_order_blocks(pages: int) -> int {
    align_up_spec(pages, MAX_ORDER_PAGES as int) / MAX_ORDER_PAGES as int
}

/// Number of `Block`s in the buddy tree of a zone of `pages` pages.
pub open spec fn blocks_in_region_spec(pages: int) -> int {
    max_order_blocks(pages) * BLOCKS_PER_MAX_ORDER_BLOCK
}

/// Pages of a region of `total` pages that stay usable once the bookkeeping
/// is carved out of it: `(4096 T - blocks_in_region(T)) / (W + 4096) - 2`,
/// and 0 where that is below 0.
pub open spec fn usable_pages_spec(total: int) -> int {
    let q = (4096 * total - blocks_in_region_spec(total)) / (PAGE_INFO_SIZE + 4096);
    if q >= 2 {
        q - 2
    } else {
        0
    }
}

/// Bounds on the number of top-level blocks.
pub proof fn lemma_max_order_blocks(pages: int)
    requires
        0 <= pages,
    ensures
        max_order_blocks(pages) * 2048 >= pages,
        max_order_blocks(pages) * 2048 < pages + 2048,
        pages >= 1 ==> 1 <= max_order_blocks(pages) <= pages,
        pages == 0 ==> max_order_blocks(pages) == 0,
{
    let m = pages % 2048;
    let d = pages / 2048;
    assert(pages == d * 2048 + m) by {
        vstd::arithmetic::div_mod::lemma_fundamental_div_mod(pages, 2048);
    }
    if m == 0 {
        assert((d * 2048) / 2048 == d) by {
            vstd::arithmetic::div_mod::lemma_div_multiples_vanish(d, 2048);
        }
    } else {
        assert((d * 2048 + 2048) / 2048 == d + 1) by {
            vstd::arithmetic::div_mod::lemma_div_multiples_vanish(d + 1, 2048);
        }
    }
}

/// Number of top-level blocks of a zone of `pages` pages.
pub fn max_order_blocks_of(pages: u64) -> (r: u64)
    requires
        pages <= MAX_PHYS_PAGES,
    ensures
        r == max_order_blocks(pages as int),
        r * 2048 >= pages,
        pages >= 1 ==> 1 <= r <= pages,
{
    proof {
        lemma_max_order_blocks(pages as int);
        assert(is_pow2(2048)) by {
            reveal_with_fuel(is_pow2, 12);
        }
    }
    align_up(pages, MAX_ORDER_PAGES) / MAX_ORDER_PAGES
}

/// The number of blocks in the buddy tree of a zone of `pages` pages: a
/// geometric series of `max_order_blocks` times `1 + 2 + ... + 2^MAX_ORDER`.
pub fn blocks_in_region(pages: u64) -> (r: u64)
    requires
        pages <= MAX_PHYS_PAGES,
    ensures
        r == blocks_in_region_spec(pages as int),
{
    max_order_blocks_of(pages) * BLOCKS_PER_MAX_ORDER_BLOCK
}

/// The number of pages of a region of `total_pages` pages that can be handed
/// out once one `PageInfo` per usable page and the region's buddy tree are
/// reserved from it (two pages of slack absorb alignment); 0 where the
/// region is too small to hold anything.
pub fn usable_pages(total_pages: u64) -> (r: u64)
    requires
        total_pages <= MAX_PHYS_PAGES,
    ensures
        r == usable_pages_spec(total_pages as int),
{
    let blocks = blocks_in_region(total_pages);
    proof {
        lemma_max_order_blocks(total_pages as int);
    }
    let q = (4096 * total_pages - blocks) / (PAGE_INFO_SIZE + 4096);
    if q >= 2 {
        q - 2
    } else {
        0
    }
}

/// The bookkeeping of the usable pages of a region of `total` pages (their
/// `PageInfo`s and the region's blocks) fits in the pages left out.
pub proof fn lemma_sizing_closure(total: int)
    requires
        3 <= total <= MAX_PHYS_PAGES,
    ensures
        usable_pages_spec(total) * PAGE_INFO_SIZE + blocks_in_region_spec(total)
            <= (total - usable_pages_spec(total)) * 4096,
{
    lemma_max_order_blocks(total);
    let b = blocks_in_region_spec(total);
    let w = PAGE_INFO_SIZE + 4096;
    let num = 4096 * total - b;
    let q = num / w;
    let n = usable_pages_spec(total);
    assert(0 <= b <= 4095 * total);
    assert(q * w <= num) by {
        vstd::arithmetic::div_mod::lemma_fundamental_div_mod(num, w);
    }
    assert(0 <= n <= q || q < 2);
    if q >= 2 {
        assert(n * w <= num) by (nonlinear_arith)
            requires n == q - 2, q * w <= num, w > 0;
        assert(n * PAGE_INFO_SIZE + b <= (total - n) * 4096) by (nonlinear_arith)
            requires n * w <= num, w == PAGE_INFO_SIZE + 4096, num == 4096 * total - b;
    }
}

} // verus!
