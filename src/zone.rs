//! A zone: one contiguous run of page frames managed by a buddy tree whose
//! levels are flat arrays of one-byte `Block`s.
use vstd::prelude::*;
use crate::block::{Block, MAX_ORDER, parent_byte};
use crate::sizing::{blocks_in_region_spec, max_order_blocks, max_order_blocks_of, MAX_PHYS_PAGES};

verus! {

/// Size of a page frame in bytes.
pub const PAGE_SIZE: u64 = 4096;

/// Number of levels of a buddy tree (orders `0..=MAX_ORDER`).
pub const LEVELS: usize = 12;

/// `2^order`: the number of pages in a block of that order.
pub open spec fn pages_of(order: nat) -> nat
    decreases order,
{
    if order == 0 {
        1
    } else {
        2 * pages_of((order - 1) as nat)
    }
}

/// The index at level `l + d` of the ancestor of slot `i` at level `l`.
pub open spec fn anc(i: int, d: nat) -> int
    decreases d,
{
    if d == 0 {
        i
    } else {
        anc(i / 2, (d - 1) as nat)
    }
}

/// Every level is twice as long as the one above it; the top level has
/// `top` slots.
pub open spec fn tree_shape(t: Seq<Seq<Block>>, top: nat) -> bool {
    &&& t.len() == LEVELS
    &&& top >= 1
    &&& t[MAX_ORDER as int].len() == top
    &&& forall|l: int| 0 <= l < MAX_ORDER ==> #[trigger] t[l].len() == 2 * t[l + 1].len()
}

/// No slot claims a free order larger than its own level.
pub open spec fn tree_bounded(t: Seq<Seq<Block>>) -> bool {
    forall|l: int, i: int| 0 <= l < LEVELS && 0 <= i < t[l].len() ==> #[trigger] t[l][i].byte <= l + 1
}

/// A slot whose whole block is free lies within the first `n` pages.
pub open spec fn tree_in_range(t: Seq<Seq<Block>>, n: nat) -> bool {
    forall|l: int, i: int|
        0 <= l < LEVELS && 0 <= i < t[l].len() && #[trigger] t[l][i].byte == l + 1
            ==> (i + 1) * pages_of(l as nat) <= n
}

/// The parent relation at slot `i` of level `l >= 1`: the slot is the
/// `parent_state` of its children, or it is the root of an allocated block,
/// `Used` above two children whose blocks are wholly free.
pub open spec fn linked_at(t: Seq<Seq<Block>>, l: int, i: int) -> bool {
    let p = parent_byte(t[l - 1][2 * i].byte as int, t[l - 1][2 * i + 1].byte as int);
    t[l][i].byte == p || (t[l][i].byte == 0 && p == l + 1)
}

/// The parent relation holds at every internal slot, but perhaps at the
/// ancestors of slot `i` of level `l` (strictly above it).
pub open spec fn tree_linked_except(t: Seq<Seq<Block>>, l: int, i: int) -> bool {
    forall|l2: int, j: int|
        1 <= l2 < LEVELS && 0 <= j < t[l2].len() && !(l2 > l && j == anc(i, (l2 - l) as nat))
            ==> #[trigger] linked_at(t, l2, j)
}

/// The parent relation holds at every internal slot.
pub open spec fn tree_linked(t: Seq<Seq<Block>>) -> bool {
    forall|l: int, j: int| 1 <= l < LEVELS && 0 <= j < t[l].len() ==> #[trigger] linked_at(t, l, j)
}

/// The value that `update_tree` writes into the parent of slot `i` at level `l`.
pub open spec fn parent_of(t: Seq<Seq<Block>>, l: int, i: int) -> Block {
    let p = i / 2;
    Block { byte: parent_byte(t[l][2 * p].byte as int, t[l][2 * p + 1].byte as int) as u8 }
}

/// Recomputes, bottom up, every ancestor of slot `i` at level `l`.
pub open spec fn fix_up(t: Seq<Seq<Block>>, l: int, i: int) -> Seq<Seq<Block>>
    decreases MAX_ORDER - l,
{
    if l >= MAX_ORDER {
        t
    } else {
        let p = i / 2;
        let t2 = t.update(l + 1, t[l + 1].update(p, parent_of(t, l, i)));
        fix_up(t2, l + 1, p)
    }
}

/// Writes `b` into slot `i` of level `l`, then recomputes its ancestors.
pub open spec fn set_path(t: Seq<Seq<Block>>, l: int, i: int, b: Block) -> Seq<Seq<Block>> {
    fix_up(t.update(l, t[l].update(i, b)), l, i)
}

/// Two trees of the same shape.
pub open spec fn same_shape(s: Seq<Seq<Block>>, t: Seq<Seq<Block>>) -> bool {
    &&& s.len() == t.len()
    &&& forall|l: int| 0 <= l < s.len() ==> #[trigger] s[l].len() == t[l].len()
}

/// Slot `j` of level `l2` is a strict ancestor of slot `i` of level `l`.
pub open spec fn is_ancestor(l: int, i: int, l2: int, j: int) -> bool {
    l2 > l && j == anc(i, (l2 - l) as nat)
}

proof fn lemma_anc_one(i: int)
    ensures
        anc(i, 1) == i / 2,
{
    assert(anc(i, 1) == anc(i / 2, 0));
}

proof fn lemma_anc_step(i: int, l: int, l2: int)
    requires
        l2 > l + 1,
    ensures
        anc(i, (l2 - l) as nat) == anc(i / 2, (l2 - (l + 1)) as nat),
{
}

/// `fix_up` keeps the shape and changes nothing but the ancestors.
proof fn lemma_fix_up_frame(t: Seq<Seq<Block>>, l: int, i: int)
    requires
        0 <= l <= MAX_ORDER,
        tree_shape(t, t[MAX_ORDER as int].len()),
        0 <= i < t[l].len(),
    ensures
        same_shape(fix_up(t, l, i), t),
        forall|l2: int, j: int|
            0 <= l2 < LEVELS && 0 <= j < t[l2].len() && !is_ancestor(l, i, l2, j)
                ==> #[trigger] fix_up(t, l, i)[l2][j] == t[l2][j],
    decreases MAX_ORDER - l,
{
    if l < MAX_ORDER {
        let p = i / 2;
        let t2 = t.update(l + 1, t[l + 1].update(p, parent_of(t, l, i)));
        assert(t[l].len() == 2 * t[l + 1].len());
        lemma_anc_one(i);
        lemma_anc_one(p);
        assert(tree_shape(t2, t2[MAX_ORDER as int].len())) by {
            assert forall|k: int| 0 <= k < MAX_ORDER implies #[trigger] t2[k].len() == 2 * t2[k + 1].len() by {
                assert(t[k].len() == 2 * t[k + 1].len());
            }
        }
        lemma_fix_up_frame(t2, l + 1, p);
        assert forall|l2: int, j: int|
            0 <= l2 < LEVELS && 0 <= j < t[l2].len() && !is_ancestor(l, i, l2, j)
                implies #[trigger] fix_up(t, l, i)[l2][j] == t[l2][j] by {
            if l2 > l + 1 {
                lemma_anc_step(i, l, l2);
            }
            assert(!is_ancestor(l + 1, p, l2, j));
        }
    }
}

/// `fix_up` from a tree whose parent relation fails at most at the ancestors
/// of the slot gives a well-formed tree.
proof fn lemma_fix_up_wf(t: Seq<Seq<Block>>, l: int, i: int, n: nat)
    requires
        0 <= l <= MAX_ORDER,
        tree_shape(t, t[MAX_ORDER as int].len()),
        0 <= i < t[l].len(),
        tree_bounded(t),
        tree_in_range(t, n),
        tree_linked_except(t, l, i),
    ensures
        tree_shape(fix_up(t, l, i), t[MAX_ORDER as int].len()),
        tree_bounded(fix_up(t, l, i)),
        tree_in_range(fix_up(t, l, i), n),
        tree_linked(fix_up(t, l, i)),
    decreases MAX_ORDER - l,
{
    if l < MAX_ORDER {
        let p = i / 2;
        let v = parent_of(t, l, i);
        let t2 = t.update(l + 1, t[l + 1].update(p, v));
        assert(t[l].len() == 2 * t[l + 1].len());
        lemma_anc_one(i);
        lemma_anc_one(p);
        let a = t[l][2 * p].byte;
        let b = t[l][2 * p + 1].byte;
        assert(a <= l + 1 && b <= l + 1);
        assert(tree_shape(t2, t2[MAX_ORDER as int].len())) by {
            assert forall|k: int| 0 <= k < MAX_ORDER implies #[trigger] t2[k].len() == 2 * t2[k + 1].len() by {
                assert(t[k].len() == 2 * t[k + 1].len());
            }
        }
        assert(tree_bounded(t2));
        assert(tree_in_range(t2, n)) by {
            if v.byte == l + 2 {
                assert(a == l + 1 && b == l + 1);
                let x = pages_of(l as nat);
                assert((2 * p + 2) * x <= n);
                assert(pages_of((l + 1) as nat) == 2 * x);
                assert((p + 1) * (2 * x) == (2 * p + 2) * x) by (nonlinear_arith);
            }
        }
        assert(tree_linked_except(t2, l + 1, p)) by {
            assert forall|l2: int, j: int|
                1 <= l2 < LEVELS && 0 <= j < t2[l2].len() && !(l2 > l + 1 && j == anc(p, (l2 - (l + 1)) as nat))
                    implies #[trigger] linked_at(t2, l2, j) by {
                assert(t[l2 - 1].len() == 2 * t[l2].len());
                if l2 == l + 1 && j == p {
                } else {
                    if l2 > l + 1 {
                        lemma_anc_step(i, l, l2);
                    }
                    assert(linked_at(t, l2, j));
                }
            }
        }
        lemma_fix_up_wf(t2, l + 1, p, n);
    } else {
        assert(tree_linked(t)) by {
            assert forall|l2: int, j: int| 1 <= l2 < LEVELS && 0 <= j < t[l2].len() implies #[trigger] linked_at(t, l2, j) by {
                assert(!(l2 > l));
            }
        }
    }
}

/// Recomputing the ancestors of a slot restores a tree that agrees with `s`
/// off those ancestors and whose ancestors are the parents of their children.
proof fn lemma_fix_up_restores(s: Seq<Seq<Block>>, t: Seq<Seq<Block>>, l: int, i: int)
    requires
        0 <= l <= MAX_ORDER,
        tree_shape(t, t[MAX_ORDER as int].len()),
        same_shape(s, t),
        0 <= i < t[l].len(),
        forall|l2: int, j: int|
            0 <= l2 < LEVELS && 0 <= j < t[l2].len() && !is_ancestor(l, i, l2, j)
                ==> #[trigger] s[l2][j] == t[l2][j],
        forall|l2: int| l < l2 < LEVELS ==> #[trigger] t[l2][anc(i, (l2 - l) as nat)]
            == parent_of(t, l2 - 1, 2 * anc(i, (l2 - l) as nat)),
        tree_bounded(t),
    ensures
        fix_up(s, l, i) == t,
    decreases MAX_ORDER - l,
{
    if l < MAX_ORDER {
        let p = i / 2;
        let s2 = s.update(l + 1, s[l + 1].update(p, parent_of(s, l, i)));
        assert(t[l].len() == 2 * t[l + 1].len());
        lemma_anc_one(i);
        lemma_anc_one(p);
        assert(t[l + 1][anc(i, ((l + 1) - l) as nat)] == parent_of(t, (l + 1) - 1, 2 * anc(i, ((l + 1) - l) as nat)));
        assert(t[l + 1][p] == parent_of(t, l, 2 * p));
        assert(parent_of(s, l, i) == parent_of(t, l, 2 * p)) by {
            assert(s[l][2 * p] == t[l][2 * p]);
            assert(s[l][2 * p + 1] == t[l][2 * p + 1]);
        }
        assert(same_shape(s2, t));
        assert forall|l2: int, j: int|
            0 <= l2 < LEVELS && 0 <= j < t[l2].len() && !is_ancestor(l + 1, p, l2, j)
                implies #[trigger] s2[l2][j] == t[l2][j] by {
            if l2 > l + 1 {
                lemma_anc_step(i, l, l2);
            }
        }
        assert forall|l2: int| l + 1 < l2 < LEVELS implies #[trigger] t[l2][anc(p, (l2 - (l + 1)) as nat)]
            == parent_of(t, l2 - 1, 2 * anc(p, (l2 - (l + 1)) as nat)) by {
            lemma_anc_step(i, l, l2);
            assert(t[l2][anc(i, (l2 - l) as nat)] == parent_of(t, l2 - 1, 2 * anc(i, (l2 - l) as nat)));
        }
        lemma_fix_up_restores(s2, t, l + 1, p);
    } else {
        assert(s =~~= t) by {
            assert forall|l2: int| 0 <= l2 < s.len() implies #[trigger] s[l2] =~~= t[l2] by {
                assert forall|j: int| 0 <= j < s[l2].len() implies s[l2][j] == t[l2][j] by {
                    assert(!is_ancestor(l, i, l2, j));
                }
            }
        }
    }
}

/// The descent from slot `i` of level `l` down to level `order`, taking the
/// left child where it holds a block of that order and else the right one;
/// `None` where neither does.
pub open spec fn descend(t: Seq<Seq<Block>>, order: int, l: int, i: int) -> Option<int>
    decreases l,
{
    if l <= order || l <= 0 {
        Some(i)
    } else if t[l - 1][2 * i].byte > order {
        descend(t, order, l - 1, 2 * i)
    } else if t[l - 1][2 * i + 1].byte > order {
        descend(t, order, l - 1, 2 * i + 1)
    } else {
        None
    }
}

/// The slot of level `order` reached from the first top-level slot at or
/// after `top` that claims a block of `order` and whose descent does not
/// end in a dead end.
pub open spec fn fit_from(t: Seq<Seq<Block>>, order: int, top: int) -> Option<int>
    decreases t[MAX_ORDER as int].len() - top,
{
    if top < 0 || top >= t[MAX_ORDER as int].len() {
        None
    } else if t[MAX_ORDER as int][top].byte > order && descend(t, order, MAX_ORDER as int, top) is Some {
        descend(t, order, MAX_ORDER as int, top)
    } else {
        fit_from(t, order, top + 1)
    }
}

/// The slot of level `order` that `Zone::alloc_block` takes.
pub open spec fn alloc_slot(t: Seq<Seq<Block>>, order: int) -> Option<int> {
    fit_from(t, order, 0)
}

/// The top-level slot from which `fit_from` descends.
proof fn lemma_fit_from(t: Seq<Seq<Block>>, order: int, from: int) -> (top: int)
    requires
        0 <= from,
    ensures
        fit_from(t, order, from) is Some ==> from <= top < t[MAX_ORDER as int].len()
            && t[MAX_ORDER as int][top].byte > order
            && descend(t, order, MAX_ORDER as int, top) == fit_from(t, order, from),
    decreases t[MAX_ORDER as int].len() - from,
{
    if from >= t[MAX_ORDER as int].len() {
        from
    } else if t[MAX_ORDER as int][from].byte > order && descend(t, order, MAX_ORDER as int, from) is Some {
        from
    } else {
        lemma_fit_from(t, order, from + 1)
    }
}

/// A run of page frames `[start, end)`, given by physical byte addresses.
#[derive(Clone, Copy, Debug, PartialEq, Eq, Structural)]
pub struct FrameRange {
    pub start: u64,
    pub end: u64,
}

/// The frames of block `idx` of order `order` in a zone that starts at `base`.
pub open spec fn block_range(base: int, order: int, idx: int) -> FrameRange {
    let size = pages_of(order as nat) * PAGE_SIZE;
    FrameRange { start: (base + idx * size) as u64, end: (base + (idx + 1) * size) as u64 }
}

/// The order whose blocks are `len` bytes long, searching from `k` up.
pub open spec fn order_for_len(len: int, k: nat) -> Option<int>
    decreases LEVELS - k,
{
    if k > MAX_ORDER {
        None
    } else if len == pages_of(k) * PAGE_SIZE {
        Some(k as int)
    } else {
        order_for_len(len, k + 1)
    }
}

proof fn lemma_pages_of_le(j: nat, k: nat)
    requires
        j <= k,
    ensures
        1 <= pages_of(j) <= pages_of(k),
    decreases k,
{
    if j < k {
        lemma_pages_of_le(j, (k - 1) as nat);
    } else if k > 0 {
        lemma_pages_of_le(0, (k - 1) as nat);
    }
}

proof fn lemma_pages_of_max()
    ensures
        pages_of(MAX_ORDER as nat) == 2048,
{
    reveal_with_fuel(pages_of, 12);
}

proof fn lemma_pages_of_lt(j: nat, k: nat)
    requires
        j < k,
    ensures
        pages_of(j) < pages_of(k),
    decreases k,
{
    lemma_pages_of_le(j, (k - 1) as nat);
}

proof fn lemma_anc_up(j: int, d: nat)
    ensures
        anc(j, d + 1) == anc(j, d) / 2,
    decreases d,
{
    assert(anc(j, d + 1) == anc(j / 2, d));
    if d > 0 {
        lemma_anc_up(j / 2, (d - 1) as nat);
        assert(anc(j, d) == anc(j / 2, (d - 1) as nat));
    } else {
        assert(anc(j / 2, 0) == j / 2);
    }
}

/// The slot that a descent reaches, and every slot on its way, holds a free
/// block of the order sought.
proof fn lemma_descend(t: Seq<Seq<Block>>, order: int, l: int, i: int)
    requires
        tree_shape(t, t[MAX_ORDER as int].len()),
        0 <= order <= l <= MAX_ORDER,
        0 <= i < t[l].len(),
        t[l][i].byte > order,
        descend(t, order, l, i) is Some,
    ensures
        ({
            let j = descend(t, order, l, i)->Some_0;
            &&& 0 <= j < t[order].len()
            &&& anc(j, (l - order) as nat) == i
            &&& forall|l2: int| order <= l2 <= l ==> 0 <= #[trigger] anc(j, (l2 - order) as nat) < t[l2].len()
            &&& forall|l2: int| order <= l2 <= l ==> #[trigger] t[l2][anc(j, (l2 - order) as nat)].byte > order
        }),
    decreases l,
{
    if l > order {
        assert(t[l - 1].len() == 2 * t[l].len());
        let c = if t[l - 1][2 * i].byte > order { 2 * i } else { 2 * i + 1 };
        lemma_descend(t, order, l - 1, c);
        let j = descend(t, order, l, i)->Some_0;
        lemma_anc_up(j, (l - 1 - order) as nat);
        assert((l - 1 - order) as nat + 1 == (l - order) as nat);
    }
}

/// Why a range is not an allocated block of a zone (see `Zone::locate_block`).
#[derive(Clone, Copy, Debug, PartialEq, Eq, Structural)]
pub enum FreeError {
    /// The range is not a buddy block of this zone: it lies outside the
    /// zone, or its length is not `2^k` pages for an order `k`, or it is not
    /// aligned to its length within the zone.
    NotABlock,
    /// The block is not currently allocated as a whole.
    NotAllocated,
}

/// The order and the index of the block that `r` is within the zone `z`.
pub open spec fn free_slot(z: Zone, r: FrameRange) -> Option<(int, int)> {
    let len = r.end - r.start;
    let off = r.start - z.pages.start;
    if r.start < z.pages.start || r.end > z.pages.end || r.end <= r.start {
        None
    } else {
        match order_for_len(len, 0) {
            None => None,
            Some(k) => {
                let size = pages_of(k as nat) * PAGE_SIZE;
                if off % size == 0 {
                    Some((k, off / size))
                } else {
                    None
                }
            },
        }
    }
}

/// Slot `idx` of level `k` is the root of an allocated block: `Used`, with
/// two wholly free children.
pub open spec fn freeable(t: Seq<Seq<Block>>, k: int, idx: int) -> bool {
    &&& t[k][idx].byte == 0
    &&& (k == 0 || parent_byte(t[k - 1][2 * idx].byte as int, t[k - 1][2 * idx + 1].byte as int) == k + 1)
}

/// The range is a block of the zone that is allocated as a whole.
pub open spec fn block_allocated(z: Zone, range: FrameRange) -> bool {
    free_slot(z, range) matches Some((k, idx)) && freeable(z.tree(), k, idx)
}

/// What `Zone::free` does: the block that the range stands for becomes
/// `LargestFreeOrder(k)` again and its ancestors are recomputed.
pub open spec fn free_post(z0: Zone, range: FrameRange, z1: Zone) -> bool {
    let (k, idx) = free_slot(z0, range)->Some_0;
    &&& z1.pages == z0.pages
    &&& z1.slab_addr == z0.slab_addr
    &&& z1.num_pages == z0.num_pages
    &&& z1.tree() == set_path(z0.tree(), k, idx, Block { byte: (k + 1) as u8 })
}

proof fn lemma_level_len(t: Seq<Seq<Block>>, k: int)
    requires
        tree_shape(t, t[MAX_ORDER as int].len()),
        0 <= k <= MAX_ORDER,
    ensures
        t[0].len() as int == t[k].len() as int * pages_of(k as nat) as int,
    decreases k,
{
    if k > 0 {
        lemma_level_len(t, k - 1);
        assert(t[k - 1].len() == 2 * t[k].len());
        let a = t[k].len() as int;
        let p = pages_of((k - 1) as nat) as int;
        assert(pages_of(k as nat) == 2 * p);
        let b = t[k - 1].len() as int;
        let z = t[0].len() as int;
        assert(z == a * (2 * p)) by (nonlinear_arith)
            requires z == b * p, b == 2 * a;
        assert(z == a * pages_of(k as nat));
    } else {
        assert(pages_of(0) == 1);
        assert(t[0].len() as int == t[k].len() as int * 1);
    }
}

proof fn lemma_order_for_len(k: nat, j: nat)
    requires
        j <= k <= MAX_ORDER,
    ensures
        order_for_len(pages_of(k) * PAGE_SIZE, j) == Some(k as int),
    decreases k - j,
{
    if j < k {
        lemma_pages_of_lt(j, k);
        lemma_order_for_len(k, j + 1);
    }
}

/// A zone's block slab: the blocks and the kernel-half virtual address of
/// the memory that holds them.
pub struct BlockSlab {
    pub addr: u64,
    pub blocks: Vec<Block>,
}

/// A contiguous run of page frames and the buddy tree over it. Level `l`
/// of the tree has one slot per block of `2^l` pages; slot `i` stands for
/// the pages `[i * 2^l, (i + 1) * 2^l)` of the zone.
pub struct Zone {
    pub pages: FrameRange,
    /// Kernel-half virtual address of the zone's block slab.
    pub slab_addr: u64,
    pub num_pages: u64,
    pub order_list: Vec<Vec<Block>>,
}

/// What `Zone::alloc_block` does: it takes the slot of `alloc_slot`, marks it
/// `Used`, recomputes its ancestors and returns its frames; where there is
/// no such slot it fails and changes nothing.
pub open spec fn alloc_post(z0: Zone, order: int, r: Option<FrameRange>, z1: Zone) -> bool {
    &&& z1.pages == z0.pages
    &&& z1.slab_addr == z0.slab_addr
    &&& z1.num_pages == z0.num_pages
    &&& match alloc_slot(z0.tree(), order) {
        None => r is None && z1.tree() == z0.tree(),
        Some(idx) => {
            &&& r == Some(block_range(z0.pages.start as int, order, idx))
            &&& z1.tree() == set_path(z0.tree(), order, idx, Block { byte: 0 })
        },
    }
}

impl Zone {
    /// The tree, level by level (level 0 first).
    pub open spec fn tree(self) -> Seq<Seq<Block>> {
        levels_view(self.order_list@)
    }

    /// Number of slots in the top level.
    pub open spec fn top_len(self) -> nat {
        self.tree()[MAX_ORDER as int].len()
    }

    /// Nothing is allocated: the first `num_pages` slots of level 0 are free,
    /// the rest `Used`, and every slot above is the `parent_state` of its
    /// children.
    pub open spec fn is_fresh(self) -> bool {
        &&& forall|i: int| 0 <= i < self.tree()[0].len()
            ==> #[trigger] self.tree()[0][i].byte == (if i < self.num_pages { 1int } else { 0int })
        &&& forall|l: int, i: int| 1 <= l < LEVELS && 0 <= i < self.tree()[l].len()
            ==> #[trigger] self.tree()[l][i] == parent_of(self.tree(), l - 1, 2 * i)
    }

    pub open spec fn wf(self) -> bool {
        let t = self.tree();
        &&& tree_shape(t, self.top_len())
        &&& tree_bounded(t)
        &&& tree_in_range(t, self.num_pages as nat)
        &&& tree_linked(t)
        &&& self.num_pages <= t[0].len()
        &&& self.pages.start % PAGE_SIZE == 0
        &&& self.pages.end == self.pages.start + self.num_pages * PAGE_SIZE
    }

    /// The frames of block `idx` of order `order`, with `pages_of(order)`.
    fn block_frames(&self, order: u8, idx: usize, pages: u64) -> (r: FrameRange)
        requires
            self.wf(),
            order <= MAX_ORDER,
            pages == pages_of(order as nat),
            (idx + 1) * pages_of(order as nat) <= self.num_pages,
        ensures
            r == block_range(self.pages.start as int, order as int, idx as int),
    {
        proof {
            lemma_pages_of_le(order as nat, MAX_ORDER as nat);
            lemma_pages_of_max();
        }
        let size: u64 = pages * PAGE_SIZE;
        proof {
            let n = self.num_pages as int;
            assert((idx + 1) * pages * PAGE_SIZE <= n * PAGE_SIZE) by (nonlinear_arith)
                requires (idx + 1) * pages <= n;
            assert((idx + 1) * pages * PAGE_SIZE == idx * size + size) by (nonlinear_arith)
                requires size == pages * PAGE_SIZE;
            assert(idx * size <= (idx + 1) * pages * PAGE_SIZE) by (nonlinear_arith)
                requires size == pages * PAGE_SIZE;
            assert((idx + 1) * size == idx * size + size) by (nonlinear_arith);
        }
        let start: u64 = self.pages.start + idx as u64 * size;
        FrameRange { start, end: start + size }
    }

    fn update_tree(&mut self, start_order: u8, idx: usize)
        requires
            start_order <= MAX_ORDER,
            tree_shape(old(self).tree(), old(self).tree()[MAX_ORDER as int].len()),
            tree_bounded(old(self).tree()),
            idx < old(self).tree()[start_order as int].len(),
        ensures
            final(self).tree() == fix_up(old(self).tree(), start_order as int, idx as int),
            final(self).pages == old(self).pages,
            final(self).slab_addr == old(self).slab_addr,
            final(self).num_pages == old(self).num_pages,
    {
        let ghost goal = fix_up(self.tree(), start_order as int, idx as int);
        let mut cur: usize = start_order as usize;
        let mut i: usize = idx;
        while cur < MAX_ORDER as usize
            invariant
                start_order <= cur <= MAX_ORDER,
                i < self.tree()[cur as int].len(),
                fix_up(self.tree(), cur as int, i as int) == goal,
                tree_shape(self.tree(), old(self).tree()[MAX_ORDER as int].len()),
                tree_bounded(self.tree()),
                self.pages == old(self).pages,
                self.slab_addr == old(self).slab_addr,
                self.num_pages == old(self).num_pages,
            decreases MAX_ORDER - cur,
        {
            let ghost t = self.tree();
            let left_idx: usize = (i / 2) * 2;
            assert(t[cur as int].len() == 2 * t[cur + 1].len());
            let left = self.order_list[cur][left_idx];
            let right = self.order_list[cur][left_idx + 1];
            let parent = Block::parent_state(left, right);
            self.order_list[cur + 1][i / 2] = parent;
            assert(self.tree() =~~= t.update(cur + 1, t[cur + 1].update((i / 2) as int, parent_of(t, cur as int, i as int))));
            i = i / 2;
            cur = cur + 1;
        }
    }
    /// The slot of level `order` below top-level slot `top` that the descent
    /// reaches, left child first; `None` at a dead end.
    fn descend_from(&self, order: u8, top: usize) -> (r: Option<usize>)
        requires
            self.wf(),
            order <= MAX_ORDER,
            top < self.tree()[MAX_ORDER as int].len(),
        ensures
            r is None <==> descend(self.tree(), order as int, MAX_ORDER as int, top as int) is None,
            r matches Some(x) ==> descend(self.tree(), order as int, MAX_ORDER as int, top as int) == Some(x as int),
    {
        let ghost t = self.tree();
        let mut cur: usize = MAX_ORDER as usize;
        let mut idx: usize = top;
        while cur > order as usize
            invariant
                self.wf(),
                t == self.tree(),
                order <= cur <= MAX_ORDER,
                idx < t[cur as int].len(),
                descend(t, order as int, cur as int, idx as int) == descend(t, order as int, MAX_ORDER as int, top as int),
            decreases cur,
        {
            assert(t[cur - 1].len() == 2 * t[cur as int].len());
            assert(t[cur - 1] == self.order_list@[cur - 1]@);
            let below = self.order_list[cur - 1].len();
            assert(idx * 2 + 1 < below);
            let left: usize = idx * 2;
            if self.order_list[cur - 1][left].larger_than(order) {
                idx = left;
            } else if self.order_list[cur - 1][left + 1].larger_than(order) {
                idx = left + 1;
            } else {
                return None;
            }
            cur = cur - 1;
        }
        Some(idx)
    }

    /// The slot that `alloc_block` takes: from the first top-level slot,
    /// in order, whose descent reaches a block of `order`.
    pub fn find_slot(&self, order: u8) -> (r: Option<usize>)
        requires
            self.wf(),
            order <= MAX_ORDER,
        ensures
            r is None <==> alloc_slot(self.tree(), order as int) is None,
            r matches Some(x) ==> alloc_slot(self.tree(), order as int) == Some(x as int),
    {
        let ghost t = self.tree();
        let top_len = self.order_list[MAX_ORDER as usize].len();
        let mut top: usize = 0;
        while top < top_len
            invariant
                self.wf(),
                t == self.tree(),
                order <= MAX_ORDER,
                top_len == t[MAX_ORDER as int].len(),
                top <= top_len,
                fit_from(t, order as int, top as int) == fit_from(t, order as int, 0),
            decreases top_len - top,
        {
            if self.order_list[MAX_ORDER as usize][top].larger_than(order) {
                let d = self.descend_from(order, top);
                if d.is_some() {
                    return d;
                }
            }
            top = top + 1;
        }
        None
    }

    /// Takes a block of `2^order` pages: from the first top-level slot whose
    /// descent, left child first, reaches one.
    pub fn alloc_block(&mut self, order: u8) -> (r: Option<FrameRange>)
        requires
            old(self).wf(),
            order <= MAX_ORDER,
        ensures
            final(self).wf(),
            alloc_post(*old(self), order as int, r, *final(self)),
    {
        let ghost t = self.tree();
        let found = self.find_slot(order);
        let idx = match found {
            None => { return None; },
            Some(i) => i,
        };
        let ghost top = lemma_fit_from(t, order as int, 0);
        let ghost k = order as int;
        proof {
            assert(alloc_slot(t, k) == Some(idx as int));
            assert(descend(t, k, MAX_ORDER as int, top) == Some(idx as int));
            lemma_descend(t, k, MAX_ORDER as int, top);
            assert(anc(idx as int, 0) == idx);
            assert(t[k][anc(idx as int, (k - k) as nat)].byte > k);
            lemma_pages_of_le(order as nat, MAX_ORDER as nat);
            lemma_pages_of_max();
        }
        let pages = pages_in_order(order);
        let r = self.block_frames(order, idx, pages);
        assert(t[k] == self.order_list@[k]@);
        self.order_list[order as usize][idx] = Block::used();
        proof {
            let s = self.tree();
            assert(s =~~= t.update(k, t[k].update(idx as int, Block { byte: 0 })));
            assert(tree_linked_except(s, k, idx as int)) by {
                lemma_anc_one(idx as int);
                assert forall|l2: int, j: int|
                    1 <= l2 < LEVELS && 0 <= j < s[l2].len() && !(l2 > k && j == anc(idx as int, (l2 - k) as nat))
                        implies #[trigger] linked_at(s, l2, j) by {
                    assert(linked_at(t, l2, j));
                    assert(t[l2 - 1].len() == 2 * t[l2].len());
                }
            }
            assert(tree_in_range(s, self.num_pages as nat));
            lemma_fix_up_wf(s, k, idx as int, self.num_pages as nat);
        }
        self.update_tree(order, idx);
        Some(r)
    }

    /// The order and the index of the block that `range` stands for, where
    /// it is a block of the zone that is allocated as a whole; otherwise why
    /// it is not.
    pub fn locate_block(&self, range: FrameRange) -> (r: Result<(u8, usize), FreeError>)
        requires
            self.wf(),
        ensures
            match free_slot(*self, range) {
                None => r == Err::<(u8, usize), FreeError>(FreeError::NotABlock),
                Some((k, idx)) => if freeable(self.tree(), k, idx) {
                    &&& r matches Ok((a, b)) && a == k && b == idx
                    &&& 0 <= idx < self.tree()[k].len()
                    &&& 0 <= k <= MAX_ORDER
                    &&& (idx + 1) * pages_of(k as nat) <= self.num_pages
                } else {
                    r == Err::<(u8, usize), FreeError>(FreeError::NotAllocated)
                },
            },
    {
        let ghost t = self.tree();
        if range.start < self.pages.start || range.end > self.pages.end || range.end <= range.start {
            return Err(FreeError::NotABlock);
        }
        let len = range.end - range.start;
        let mut k: u8 = 0;
        let mut size: u64 = PAGE_SIZE;
        while k as u64 <= MAX_ORDER && len != size
            invariant
                k <= MAX_ORDER + 1,
                k <= MAX_ORDER ==> size == pages_of(k as nat) * PAGE_SIZE,
                order_for_len(len as int, k as nat) == order_for_len(len as int, 0),
            decreases MAX_ORDER + 1 - k,
        {
            k = k + 1;
            if k as u64 <= MAX_ORDER {
                proof {
                    lemma_pages_of_le(k as nat, MAX_ORDER as nat);
                    lemma_pages_of_max();
                }
                size = size * 2;
            }
        }
        if k as u64 > MAX_ORDER {
            return Err(FreeError::NotABlock);
        }
        let off = range.start - self.pages.start;
        if off % size != 0 {
            return Err(FreeError::NotABlock);
        }
        let ghost kk = k as int;
        let ghost n = self.num_pages as int;
        let ghost pk = pages_of(k as nat) as int;
        proof {
            lemma_pages_of_le(0, k as nat);
            lemma_level_len(t, kk);
            assert(off + size <= n * PAGE_SIZE);
            let q = off / size;
            assert(off == q * size) by {
                vstd::arithmetic::div_mod::lemma_fundamental_div_mod(off as int, size as int);
            }
            assert((q + 1) * pk <= n) by (nonlinear_arith)
                requires off == q * size, size == pk * PAGE_SIZE, off + size <= n * PAGE_SIZE, pk >= 1;
            assert(q < t[kk].len()) by (nonlinear_arith)
                requires (q + 1) * pk <= n, n <= t[0].len(), t[0].len() == t[kk].len() * pk, pk >= 1;
        }
        assert(t[kk] == self.order_list@[kk]@);
        let level_len = self.order_list[k as usize].len();
        let idx: usize = (off / size) as usize;
        if !self.order_list[k as usize][idx].is_used() {
            return Err(FreeError::NotAllocated);
        }
        if k > 0 {
            assert(t[kk - 1].len() == 2 * t[kk].len());
            assert(t[kk - 1] == self.order_list@[kk - 1]@);
            let below = self.order_list[k as usize - 1].len();
            assert(2 * idx + 1 < below);
            let left = self.order_list[k as usize - 1][2 * idx];
            let right = self.order_list[k as usize - 1][2 * idx + 1];
            if Block::parent_state(left, right).byte != k + 1 {
                return Err(FreeError::NotAllocated);
            }
        }
        Ok((k, idx))
    }

    /// Returns a block that `alloc_block` handed out.
    pub fn free(&mut self, range: FrameRange)
        requires
            old(self).wf(),
            block_allocated(*old(self), range),
        ensures
            final(self).wf(),
            free_post(*old(self), range, *final(self)),
    {
        let ghost t = self.tree();
        let (k, idx) = self.locate_block(range).unwrap();
        let ghost kk = k as int;
        assert(t[kk] == self.order_list@[kk]@);
        self.order_list[k as usize][idx] = Block::from_order(k);
        proof {
            let s = self.tree();
            assert(s =~~= t.update(kk, t[kk].update(idx as int, Block { byte: (kk + 1) as u8 })));
            assert(tree_linked_except(s, kk, idx as int)) by {
                lemma_anc_one(idx as int);
                assert forall|l2: int, j: int|
                    1 <= l2 < LEVELS && 0 <= j < s[l2].len() && !(l2 > kk && j == anc(idx as int, (l2 - kk) as nat))
                        implies #[trigger] linked_at(s, l2, j) by {
                    assert(t[l2 - 1].len() == 2 * t[l2].len());
                    if !(l2 == kk && j == idx) {
                        assert(linked_at(t, l2, j));
                    }
                }
            }
            assert(tree_in_range(s, self.num_pages as nat));
            lemma_fix_up_wf(s, kk, idx as int, self.num_pages as nat);
        }
        self.update_tree(k, idx);
    }
}

/// Cuts the block slab of a zone of `num_pages` pages into its levels, top
/// level first in the slab: level `MAX_ORDER` takes `max_order_blocks`
/// slots and each level below twice as many as the one above.
fn split_region(num_pages: u64, blocks: Vec<Block>) -> (r: Vec<Vec<Block>>)
    requires
        1 <= num_pages <= MAX_PHYS_PAGES,
        blocks@.len() == blocks_in_region_spec(num_pages as int),
    ensures
        tree_shape(levels_view(r@), max_order_blocks(num_pages as int) as nat),
        forall|l: int| 0 <= l < LEVELS ==> #[trigger] r@[l]@ == blocks@.subrange(
            level_start(max_order_blocks(num_pages as int), l),
            level_start(max_order_blocks(num_pages as int), l - 1),
        ),
{
    let mob = max_order_blocks_of(num_pages);
    let ghost m = mob as int;
    let ghost orig = blocks@;
    let total = blocks.len();
    let mut rest = blocks;
    let mut rev: Vec<Vec<Block>> = Vec::new();
    let mut len: usize = mob as usize;
    let mut j: usize = 0;
    assert(pages_of(0) == 1);
    while j < LEVELS
        invariant
            j <= LEVELS,
            m >= 1,
            m * 2048 <= MAX_PHYS_PAGES + 2048,
            total == m * 4095,
            orig.len() == total,
            rev@.len() == j,
            forall|q: int| 0 <= q < j ==> #[trigger] rev@[q]@ == orig.subrange(
                m * (pages_of(q as nat) - 1), m * (2 * pages_of(q as nat) - 1)),
            forall|q: int| 0 <= q < j ==> #[trigger] rev@[q]@.len() == m * pages_of(q as nat),
            j < LEVELS ==> len == m * pages_of(j as nat),
            j < LEVELS ==> rest@.len() == m * (4096 - pages_of(j as nat)),
            j < LEVELS ==> rest@ == orig.subrange(m * (pages_of(j as nat) - 1), total as int),
        decreases LEVELS - j,
    {
        let ghost p = pages_of(j as nat) as int;
        proof {
            lemma_pages_of_le(j as nat, MAX_ORDER as nat);
            lemma_pages_of_le(0, j as nat);
            lemma_pages_of_max();
            assert(m * p <= m * (4096 - p)) by (nonlinear_arith)
                requires p <= 2048, m >= 1;
            assert(m * (4096 - p) - m * p == m * (4096 - 2 * p)) by (nonlinear_arith);
            assert(m * (2 * p) <= m * 4096) by (nonlinear_arith)
                requires p <= 2048, m >= 1;
            assert(m * 4096 <= 2 * MAX_PHYS_PAGES + 4096);
            assert(m * (p - 1) + m * p == m * (2 * p - 1)) by (nonlinear_arith);
            assert(0 <= m * (p - 1)) by (nonlinear_arith)
                requires p >= 1, m >= 1;
        }
        let ghost old_rest = rest@;
        let tail = rest.split_off(len);
        proof {
            assert(m * (2 * p - 1) <= m * 4095) by (nonlinear_arith)
                requires p <= 2048, m >= 1;
            assert(len == m * p);
            assert(old_rest == orig.subrange(m * (p - 1), total as int));
            assert(rest@ == old_rest.subrange(0, len as int));
            assert(rest@ =~= orig.subrange(m * (p - 1), m * (2 * p - 1)));
            assert(tail@ =~= orig.subrange(m * (2 * p - 1), total as int));
        }
        rev.push(rest);
        rest = tail;
        j = j + 1;
        if j < LEVELS {
            proof {
                assert(pages_of(j as nat) == 2 * p);
                assert(len * 2 == m * (2 * p)) by (nonlinear_arith)
                    requires len == m * p;
                lemma_pages_of_le(j as nat, MAX_ORDER as nat);
                assert(m * (2 * p) <= m * 4095) by (nonlinear_arith)
                    requires 2 * p <= 2048, m >= 1;
            }
            len = len * 2;
        }
    }
    let mut levels: Vec<Vec<Block>> = Vec::new();
    while rev.len() > 0
        invariant
            levels@.len() + rev@.len() == LEVELS,
            forall|q: int| 0 <= q < rev@.len() ==> #[trigger] rev@[q]@.len() == m * pages_of(q as nat),
            forall|q: int| 0 <= q < rev@.len() ==> #[trigger] rev@[q]@ == orig.subrange(
                m * (pages_of(q as nat) - 1), m * (2 * pages_of(q as nat) - 1)),
            forall|l: int| 0 <= l < levels@.len() ==> #[trigger] levels@[l]@.len() == m * pages_of((MAX_ORDER - l) as nat),
            forall|l: int| 0 <= l < levels@.len() ==> #[trigger] levels@[l]@ == orig.subrange(
                m * (pages_of((MAX_ORDER - l) as nat) - 1), m * (2 * pages_of((MAX_ORDER - l) as nat) - 1)),
        decreases rev@.len(),
    {
        let v = rev.pop().unwrap();
        levels.push(v);
    }
    proof {
        let t = levels_view(levels@);
        assert(t[MAX_ORDER as int].len() == m * pages_of(0));
        assert forall|l: int| 0 <= l < MAX_ORDER implies #[trigger] t[l].len() == 2 * t[l + 1].len() by {
            let p = pages_of((MAX_ORDER - (l + 1)) as nat) as int;
            assert(pages_of((MAX_ORDER - l) as nat) == 2 * p);
            assert(m * (2 * p) == 2 * (m * p)) by (nonlinear_arith);
        }
        assert forall|l: int| 0 <= l < LEVELS implies #[trigger] levels@[l]@ == orig.subrange(
            level_start(m, l), level_start(m, l - 1)) by {
            assert(pages_of((MAX_ORDER - (l - 1)) as nat) == 2 * pages_of((MAX_ORDER - l) as nat));
        }
    }
    levels
}

/// Where level `l` begins in a zone's block slab with `m` top-level blocks:
/// the levels lie top level first, level `l` taking `m * 2^(MAX_ORDER - l)`
/// slots, so that siblings sit side by side.
pub open spec fn level_start(m: int, l: int) -> int {
    m * (pages_of((MAX_ORDER - l) as nat) - 1)
}

/// The tree that a vector of levels holds.
pub open spec fn levels_view(v: Seq<Vec<Block>>) -> Seq<Seq<Block>> {
    v.map_values(|x: Vec<Block>| x@)
}

/// Every slot of level `l` is the `parent_state` of its two children.
pub open spec fn level_linked(t: Seq<Seq<Block>>, l: int) -> bool {
    forall|q: int| 0 <= q < t[l].len() ==> #[trigger] t[l][q] == parent_of(t, l - 1, 2 * q)
}

/// The first `n` slots of level 0 are free pages and the others `Used`.
pub open spec fn leaves_free_below(t: Seq<Seq<Block>>, n: int) -> bool {
    forall|q: int| 0 <= q < t[0].len() ==> #[trigger] t[0][q].byte == (if q < n { 1int } else { 0int })
}

pub open spec fn level_bounded(t: Seq<Seq<Block>>, l: int) -> bool {
    forall|q: int| 0 <= q < t[l].len() ==> #[trigger] t[l][q].byte <= l + 1
}

pub open spec fn level_in_range(t: Seq<Seq<Block>>, l: int, n: nat) -> bool {
    forall|q: int| 0 <= q < t[l].len() && #[trigger] t[l][q].byte == l + 1 ==> (q + 1) * pages_of(l as nat) <= n
}

/// Marks the first `num_pages` slots of level 0 free and the rest `Used`.
fn fill_leaves(order_list: &mut Vec<Vec<Block>>, num_pages: u64, top: Ghost<nat>)
    requires
        tree_shape(levels_view(old(order_list)@), top@),
        num_pages <= old(order_list)@[0]@.len(),
    ensures
        tree_shape(levels_view(final(order_list)@), top@),
        forall|l: int| 1 <= l < LEVELS ==> #[trigger] final(order_list)@[l]@ == old(order_list)@[l]@,
        forall|q: int| 0 <= q < final(order_list)@[0]@.len()
            ==> #[trigger] final(order_list)@[0]@[q].byte == (if q < num_pages { 1int } else { 0int }),
{
    let len0 = order_list[0].len();
    let mut i: usize = 0;
    while i < len0
        invariant
            tree_shape(levels_view(order_list@), top@),
            len0 == order_list@[0]@.len(),
            i <= len0,
            forall|l: int| 1 <= l < LEVELS ==> #[trigger] order_list@[l]@ == old(order_list)@[l]@,
            forall|q: int| 0 <= q < i ==> #[trigger] order_list@[0]@[q].byte == (if q < num_pages { 1int } else { 0int }),
        decreases len0 - i,
    {
        let ghost before = levels_view(order_list@);
        order_list[0][i] = if (i as u64) < num_pages { Block::from_order(0) } else { Block::used() };
        proof {
            let after = levels_view(order_list@);
            assert(after =~~= before.update(0, before[0].update(i as int, order_list@[0]@[i as int])));
        }
        i = i + 1;
    }
}

/// Sets every slot of level `l` to the `parent_state` of its two children.
fn fill_level(order_list: &mut Vec<Vec<Block>>, l: usize, top: Ghost<nat>, n: Ghost<nat>)
    requires
        1 <= l < LEVELS,
        tree_shape(levels_view(old(order_list)@), top@),
        level_bounded(levels_view(old(order_list)@), l - 1),
        level_in_range(levels_view(old(order_list)@), l - 1, n@),
    ensures
        tree_shape(levels_view(final(order_list)@), top@),
        forall|l2: int| 0 <= l2 < LEVELS && l2 != l ==> #[trigger] final(order_list)@[l2]@ == old(order_list)@[l2]@,
        level_linked(levels_view(final(order_list)@), l as int),
        level_bounded(levels_view(final(order_list)@), l as int),
        level_in_range(levels_view(final(order_list)@), l as int, n@),
{
    let ghost tl = levels_view(order_list@);
    let len = order_list[l].len();
    assert(tl[l - 1].len() == 2 * tl[l as int].len());
    let mut i: usize = 0;
    while i < len
        invariant
            1 <= l < LEVELS,
            i <= len,
            len == order_list@[l as int]@.len(),
            tl[l - 1].len() == 2 * len,
            tree_shape(levels_view(order_list@), top@),
            level_bounded(tl, l - 1),
            level_in_range(tl, l - 1, n@),
            forall|l2: int| 0 <= l2 < LEVELS && l2 != l ==> #[trigger] order_list@[l2]@ == tl[l2],
            forall|q: int| 0 <= q < i ==> #[trigger] order_list@[l as int]@[q] == parent_of(tl, l - 1, 2 * q),
            forall|q: int| 0 <= q < i ==> #[trigger] order_list@[l as int]@[q].byte <= l + 1,
            forall|q: int| 0 <= q < i && #[trigger] order_list@[l as int]@[q].byte == l + 1
                ==> (q + 1) * pages_of(l as nat) <= n@,
        decreases len - i,
    {
        let ghost before = levels_view(order_list@);
        assert(order_list@[l - 1]@ == tl[l - 1]);
        let below = order_list[l - 1].len();
        let left = order_list[l - 1][2 * i];
        let right = order_list[l - 1][2 * i + 1];
        assert(left.byte <= l);
        let v = Block::parent_state(left, right);
        order_list[l][i] = v;
        proof {
            let after = levels_view(order_list@);
            assert(after =~~= before.update(l as int, before[l as int].update(i as int, v)));
            assert(v == parent_of(tl, l - 1, 2 * i));
            if v.byte == l + 1 {
                let x = pages_of((l - 1) as nat) as int;
                assert(left.byte == l && right.byte == l);
                assert((2 * i + 2) * x <= n@);
                assert(pages_of(l as nat) == 2 * x);
                assert((i + 1) * (2 * x) == (2 * i + 2) * x) by (nonlinear_arith);
            }
        }
        i = i + 1;
    }
    proof {
        let t = levels_view(order_list@);
        assert(t[l - 1] == tl[l - 1]);
        assert forall|q: int| 0 <= q < t[l as int].len() implies #[trigger] t[l as int][q] == parent_of(t, l - 1, 2 * q) by {
            assert(t[l as int][q] == order_list@[l as int]@[q]);
        }
    }
}

impl Zone {
    /// A zone over the `size / PAGE_SIZE` pages at `addr`, with its buddy
    /// tree cut from `blocks`: the first `num_pages` slots of level 0 are
    /// free pages, the others `Used`, and every slot above is the
    /// `parent_state` of its two children, so that the free blocks are
    /// exactly the buddy blocks of `[0, num_pages)`.
    pub fn new(addr: u64, size: u64, slab: BlockSlab) -> (z: Zone)
        requires
            addr % PAGE_SIZE == 0,
            size % PAGE_SIZE == 0,
            addr + size <= u64::MAX,
            PAGE_SIZE <= size <= MAX_PHYS_PAGES * PAGE_SIZE,
            slab.blocks@.len() == blocks_in_region_spec((size / PAGE_SIZE) as int),
        ensures
            z.wf(),
            z.slab_addr == slab.addr,
            z.num_pages == size / PAGE_SIZE,
            z.pages == (FrameRange { start: addr, end: (addr + z.num_pages * PAGE_SIZE) as u64 }),
            z.top_len() == max_order_blocks(z.num_pages as int),
            z.is_fresh(),
    {
        let num_pages = size / PAGE_SIZE;
        let mut order_list = split_region(num_pages, slab.blocks);
        let ghost top = max_order_blocks(num_pages as int) as nat;
        let ghost n = num_pages as nat;
        proof {
            lemma_level_len(levels_view(order_list@), MAX_ORDER as int);
            lemma_pages_of_max();
            crate::sizing::lemma_max_order_blocks(num_pages as int);
        }
        fill_leaves(&mut order_list, num_pages, Ghost(top));
        proof {
            let t = levels_view(order_list@);
            assert(pages_of(0) == 1);
            assert(t[0] == order_list@[0]@);
            assert forall|q: int| 0 <= q < t[0].len() implies #[trigger] t[0][q].byte == (if q < n { 1int } else { 0int }) by {
                assert(t[0][q] == order_list@[0]@[q]);
            }
            assert(leaves_free_below(t, n as int));
            assert(level_bounded(t, 0));
            assert forall|q: int| 0 <= q < t[0].len() && #[trigger] t[0][q].byte == 0 + 1
                implies (q + 1) * pages_of(0) <= n by {
                assert(q < n);
            }
            assert(level_in_range(t, 0, n));
        }
        let mut l: usize = 1;
        while l < LEVELS
            invariant
                1 <= l <= LEVELS,
                tree_shape(levels_view(order_list@), top),
                num_pages <= levels_view(order_list@)[0].len(),
                leaves_free_below(levels_view(order_list@), n as int),
                forall|l2: int| 1 <= l2 < l ==> #[trigger] level_linked(levels_view(order_list@), l2),
                forall|l2: int| 0 <= l2 < l ==> #[trigger] level_bounded(levels_view(order_list@), l2),
                forall|l2: int| 0 <= l2 < l ==> #[trigger] level_in_range(levels_view(order_list@), l2, n),
            decreases LEVELS - l,
        {
            let ghost before = levels_view(order_list@);
            assert(level_bounded(before, l - 1));
            assert(level_in_range(before, l - 1, n));
            fill_level(&mut order_list, l, Ghost(top), Ghost(n));
            proof {
                let t = levels_view(order_list@);
                assert(t[0] == before[0]);
                assert forall|l2: int| 1 <= l2 < l + 1 implies #[trigger] level_linked(t, l2) by {
                    if l2 < l {
                        assert(t[l2] == before[l2]);
                        assert(t[l2 - 1] == before[l2 - 1]);
                        assert(level_linked(before, l2));
                    }
                }
                assert forall|l2: int| 0 <= l2 < l + 1 implies #[trigger] level_bounded(t, l2) by {
                    if l2 < l {
                        assert(t[l2] == before[l2]);
                        assert(level_bounded(before, l2));
                    }
                }
                assert forall|l2: int| 0 <= l2 < l + 1 implies #[trigger] level_in_range(t, l2, n) by {
                    if l2 < l {
                        assert(t[l2] == before[l2]);
                        assert(level_in_range(before, l2, n));
                    }
                }
            }
            l = l + 1;
        }
        let z = Zone {
            pages: FrameRange { start: addr, end: addr + num_pages * PAGE_SIZE },
            slab_addr: slab.addr,
            num_pages,
            order_list,
        };
        proof {
            let t = z.tree();
            assert(t == levels_view(z.order_list@));
            assert(tree_bounded(t)) by {
                assert forall|l2: int, q: int| 0 <= l2 < LEVELS && 0 <= q < t[l2].len() implies #[trigger] t[l2][q].byte <= l2 + 1 by {
                    assert(level_bounded(t, l2));
                }
            }
            assert(tree_in_range(t, n)) by {
                assert forall|l2: int, q: int| 0 <= l2 < LEVELS && 0 <= q < t[l2].len() && #[trigger] t[l2][q].byte == l2 + 1
                    implies (q + 1) * pages_of(l2 as nat) <= n by {
                    assert(level_in_range(t, l2, n));
                }
            }
            assert(tree_linked(t)) by {
                assert forall|l2: int, q: int| 1 <= l2 < LEVELS && 0 <= q < t[l2].len() implies #[trigger] linked_at(t, l2, q) by {
                    assert(level_linked(t, l2));
                    assert(t[l2 - 1].len() == 2 * t[l2].len());
                }
            }
            assert forall|l2: int, i: int| 1 <= l2 < LEVELS && 0 <= i < t[l2].len()
                implies #[trigger] t[l2][i] == parent_of(t, l2 - 1, 2 * i) by {
                assert(level_linked(t, l2));
            }
            assert forall|i: int| 0 <= i < t[0].len() implies #[trigger] t[0][i].byte == (if i < n { 1int } else { 0int }) by {
                assert(leaves_free_below(t, n as int));
            }
        }
        z
    }
}

/// `2^order`.
fn pages_in_order(order: u8) -> (r: u64)
    requires
        order <= MAX_ORDER,
    ensures
        r == pages_of(order as nat),
{
    let mut r: u64 = 1;
    let mut k: u8 = 0;
    while k < order
        invariant
            k <= order <= MAX_ORDER,
            r == pages_of(k as nat),
        decreases order - k,
    {
        proof {
            lemma_pages_of_le((k + 1) as nat, MAX_ORDER as nat);
            lemma_pages_of_max();
            assert(pages_of((k + 1) as nat) == 2 * pages_of(k as nat));
            assert(pages_of((k + 1) as nat) <= 2048);
            assert(r * 2 <= 2048);
        }
        r = r * 2;
        k = k + 1;
    }
    r
}

} // verus!

verus! {

/// Allocating a block of any order and then freeing the range that came
/// back is allowed (the range is an allocated block) and leaves the buddy
/// tree exactly as it was before.
pub proof fn lemma_alloc_free_round_trip(
    z0: Zone,
    order: int,
    range: FrameRange,
    z1: Zone,
    z2: Zone,
)
    requires
        z0.wf(),
        0 <= order <= MAX_ORDER,
        alloc_post(z0, order, Some(range), z1),
        free_post(z1, range, z2),
    ensures
        block_allocated(z1, range),
        z2.tree() == z0.tree(),
{
    let t = z0.tree();
    let top = lemma_fit_from(t, order, 0);
    lemma_descend(t, order, MAX_ORDER as int, top);
    let idx = alloc_slot(t, order)->Some_0;
    assert(anc(idx, 0) == idx);
    assert(t[order][anc(idx, (order - order) as nat)].byte > order);
    assert(t[order][idx].byte == order + 1);
    let n = z0.num_pages as int;
    assert((idx + 1) * pages_of(order as nat) <= n);
    let u = t.update(order, t[order].update(idx, Block { byte: 0 }));
    let t1 = z1.tree();
    assert(t[order].len() == u[order].len());
    assert(tree_shape(u, u[MAX_ORDER as int].len())) by {
        assert forall|k: int| 0 <= k < MAX_ORDER implies #[trigger] u[k].len() == 2 * u[k + 1].len() by {
            assert(t[k].len() == 2 * t[k + 1].len());
        }
    }
    lemma_fix_up_frame(u, order, idx);
    // The range is the block of slot `idx` of level `order`.
    let size = pages_of(order as nat) * PAGE_SIZE;
    lemma_pages_of_le(0, order as nat);
    let start = z0.pages.start as int;
    assert(idx * size + size <= n * PAGE_SIZE) by (nonlinear_arith)
        requires (idx + 1) * pages_of(order as nat) <= n, size == pages_of(order as nat) * PAGE_SIZE;
    assert(0 <= idx * size) by (nonlinear_arith)
        requires idx >= 0, size >= 0;
    assert((idx + 1) * size == idx * size + size) by (nonlinear_arith);
    assert(range.start == start + idx * size);
    assert(range.end == start + idx * size + size);
    lemma_order_for_len(order as nat, 0);
    assert((idx * size) % size == 0) by {
        vstd::arithmetic::div_mod::lemma_mod_multiples_basic(idx, size);
    }
    assert((idx * size) / size == idx) by {
        vstd::arithmetic::div_mod::lemma_div_multiples_vanish(idx, size);
        assert(idx * size == size * idx) by (nonlinear_arith);
    }
    assert(free_slot(z1, range) == Some((order, idx)));
    // The slot is the root of an allocated block.
    assert(t1[order][idx] == u[order][idx]);
    if order > 0 {
        assert(t[order - 1].len() == 2 * t[order].len());
        assert(t1[order - 1][2 * idx] == t[order - 1][2 * idx]);
        assert(t1[order - 1][2 * idx + 1] == t[order - 1][2 * idx + 1]);
        assert(linked_at(t, order, idx));
    }
    assert(freeable(t1, order, idx));
    // Freeing restores the slot, and recomputing its ancestors restores them.
    let s = t1.update(order, t1[order].update(idx, Block { byte: (order + 1) as u8 }));
    assert(same_shape(s, t));
    assert forall|l2: int, j: int|
        0 <= l2 < LEVELS && 0 <= j < t[l2].len() && !is_ancestor(order, idx, l2, j)
            implies #[trigger] s[l2][j] == t[l2][j] by {
        if !(l2 == order && j == idx) {
            assert(t1[l2][j] == u[l2][j]);
        }
    }
    assert forall|l2: int| order < l2 < LEVELS implies #[trigger] t[l2][anc(idx, (l2 - order) as nat)]
        == parent_of(t, l2 - 1, 2 * anc(idx, (l2 - order) as nat)) by {
        let a = anc(idx, (l2 - order) as nat);
        assert(0 <= a < t[l2].len());
        assert(t[l2][a].byte > order);
        assert(linked_at(t, l2, a));
        assert((2 * a) / 2 == a);
    }
    lemma_fix_up_restores(s, t, order, idx);
}


/// In a well-formed zone (as `new`, `alloc_block` and `free` leave it),
/// every internal slot is the `parent_state` of its two children, but for
/// the root of an allocated block: that slot is `Used` while its children
/// still show its whole block free.
pub proof fn lemma_tree_consistency(z: Zone)
    requires
        z.wf(),
    ensures
        forall|l: int, i: int| 1 <= l < LEVELS && 0 <= i < z.tree()[l].len() ==> {
            let p = #[trigger] parent_of(z.tree(), l - 1, 2 * i);
            z.tree()[l][i] == p || (z.tree()[l][i].byte == 0 && p.byte == l + 1)
        },
{
    let t = z.tree();
    assert forall|l: int, i: int| 1 <= l < LEVELS && 0 <= i < t[l].len() implies {
        let p = #[trigger] parent_of(t, l - 1, 2 * i);
        t[l][i] == p || (t[l][i].byte == 0 && p.byte == l + 1)
    } by {
        assert(linked_at(t, l, i));
        assert(t[l - 1].len() == 2 * t[l].len());
        assert((2 * i) / 2 == i);
        assert(t[l - 1][2 * i].byte <= l && t[l - 1][2 * i + 1].byte <= l);
    }
}

/// A block that `alloc_block` hands out lies within the zone's frames, is
/// `2^order` pages long and is aligned to its length within the zone.
pub proof fn lemma_alloc_within_zone(z0: Zone, order: int, range: FrameRange, z1: Zone)
    requires
        z0.wf(),
        0 <= order <= MAX_ORDER,
        alloc_post(z0, order, Some(range), z1),
    ensures
        z0.pages.start <= range.start < range.end <= z0.pages.end,
        range.end - range.start == pages_of(order as nat) * PAGE_SIZE,
        (range.start - z0.pages.start) % (pages_of(order as nat) * PAGE_SIZE) as int == 0,
{
    let t = z0.tree();
    let top = lemma_fit_from(t, order, 0);
    lemma_descend(t, order, MAX_ORDER as int, top);
    let idx = alloc_slot(t, order)->Some_0;
    assert(anc(idx, 0) == idx);
    assert(t[order][anc(idx, (order - order) as nat)].byte > order);
    let n = z0.num_pages as int;
    let size = pages_of(order as nat) * PAGE_SIZE;
    lemma_pages_of_le(0, order as nat);
    assert(idx * size + size <= n * PAGE_SIZE) by (nonlinear_arith)
        requires (idx + 1) * pages_of(order as nat) <= n, size == pages_of(order as nat) * PAGE_SIZE;
    assert(0 <= idx * size) by (nonlinear_arith)
        requires idx >= 0, size >= 0;
    assert((idx + 1) * size == idx * size + size) by (nonlinear_arith);
    vstd::arithmetic::div_mod::lemma_mod_multiples_basic(idx, size as int);
}

/// The slot of level `l` whose block holds page `p`.
pub open spec fn slot_of(p: int, l: int) -> int {
    p / pages_of(l as nat) as int
}

/// Page `p` is free as seen from level `l` down: the slot above it at
/// level `l` is wholly free, or it is neither that nor the root of an
/// allocated block and the page is free one level down.
pub open spec fn page_free(t: Seq<Seq<Block>>, l: int, p: int) -> bool
    decreases l,
{
    let i = slot_of(p, l);
    if l <= 0 {
        t[0][i].byte == 1
    } else if t[l][i].byte == l + 1 {
        true
    } else if t[l][i].byte == 0 && parent_byte(t[l - 1][2 * i].byte as int, t[l - 1][2 * i + 1].byte as int) == l + 1 {
        false
    } else {
        page_free(t, l - 1, p)
    }
}

/// Page `p` of the zone (counted from the zone's start) is free.
pub open spec fn zone_page_free(t: Seq<Seq<Block>>, p: int) -> bool {
    page_free(t, MAX_ORDER as int, p)
}

proof fn lemma_slot_up(p: int, l: int)
    requires
        0 <= p,
        1 <= l,
    ensures
        slot_of(p, l - 1) / 2 == slot_of(p, l),
        slot_of(p, l - 1) == 2 * slot_of(p, l) || slot_of(p, l - 1) == 2 * slot_of(p, l) + 1,
{
    let a = pages_of((l - 1) as nat) as int;
    lemma_pages_of_pos((l - 1) as nat);
    assert(pages_of(l as nat) == a * 2);
    vstd::arithmetic::div_mod::lemma_div_denominator(p, a, 2);
}

proof fn lemma_pages_of_pos(k: nat)
    ensures
        pages_of(k) >= 1,
    decreases k,
{
    if k > 0 {
        lemma_pages_of_pos((k - 1) as nat);
    }
}

/// The slots above page `p` are the ancestors of its slot at level `k`.
proof fn lemma_slot_anc(p: int, k: int, d: nat)
    requires
        0 <= p,
        0 <= k,
    ensures
        slot_of(p, k + d) == anc(slot_of(p, k), d),
    decreases d,
{
    if d > 0 {
        lemma_slot_anc(p, k, (d - 1) as nat);
        lemma_slot_up(p, k + d);
        lemma_anc_up(slot_of(p, k), (d - 1) as nat);
        assert((d - 1) as nat + 1 == d);
    }
}

/// The slot of a page at every level lies within the tree.
proof fn lemma_slot_in_tree(t: Seq<Seq<Block>>, p: int, l: int)
    requires
        tree_shape(t, t[MAX_ORDER as int].len()),
        0 <= l <= MAX_ORDER,
        0 <= p < t[0].len(),
    ensures
        0 <= slot_of(p, l) < t[l].len(),
{
    lemma_level_len(t, l);
    lemma_pages_of_pos(l as nat);
    let a = pages_of(l as nat) as int;
    vstd::arithmetic::div_mod::lemma_div_pos_is_pos(p, a);
    vstd::arithmetic::div_mod::lemma_div_is_ordered(p, t[l].len() * a - 1, a);
    assert(t[l].len() * a - 1 == (t[l].len() - 1) * a + (a - 1)) by (nonlinear_arith);
    vstd::arithmetic::div_mod::lemma_fundamental_div_mod_converse_div(t[l].len() * a - 1, a, t[l].len() - 1, a - 1);
}

/// After `fix_up`, every ancestor of the slot is the `parent_state` of its
/// children.
proof fn lemma_fix_up_strict(t: Seq<Seq<Block>>, l: int, i: int)
    requires
        0 <= l <= MAX_ORDER,
        tree_shape(t, t[MAX_ORDER as int].len()),
        0 <= i < t[l].len(),
    ensures
        forall|l2: int| l < l2 < LEVELS ==> #[trigger] fix_up(t, l, i)[l2][anc(i, (l2 - l) as nat)]
            == parent_of(fix_up(t, l, i), l2 - 1, 2 * anc(i, (l2 - l) as nat)),
    decreases MAX_ORDER - l,
{
    if l < MAX_ORDER {
        let p = i / 2;
        let t2 = t.update(l + 1, t[l + 1].update(p, parent_of(t, l, i)));
        assert(t[l].len() == 2 * t[l + 1].len());
        lemma_anc_one(i);
        assert(tree_shape(t2, t2[MAX_ORDER as int].len())) by {
            assert forall|k: int| 0 <= k < MAX_ORDER implies #[trigger] t2[k].len() == 2 * t2[k + 1].len() by {
                assert(t[k].len() == 2 * t[k + 1].len());
            }
        }
        lemma_fix_up_strict(t2, l + 1, p);
        lemma_fix_up_frame(t2, l + 1, p);
        let r = fix_up(t, l, i);
        assert forall|l2: int| l < l2 < LEVELS implies #[trigger] r[l2][anc(i, (l2 - l) as nat)]
            == parent_of(r, l2 - 1, 2 * anc(i, (l2 - l) as nat)) by {
            if l2 == l + 1 {
                assert(anc(i, (l2 - l) as nat) == p);
                assert(!is_ancestor(l + 1, p, l + 1, p));
                assert(r[l + 1][p] == t2[l + 1][p]);
                assert((2 * p) / 2 == p);
                assert(!is_ancestor(l + 1, p, l, 2 * p));
                assert(!is_ancestor(l + 1, p, l, 2 * p + 1));
                assert(r[l][2 * p] == t2[l][2 * p]);
                assert(r[l][2 * p + 1] == t2[l][2 * p + 1]);
            } else {
                lemma_anc_step(i, l, l2);
            }
        }
    }
}

/// At a slot that is the `parent_state` of its children, whether a page is
/// free is decided one level down.
proof fn lemma_page_free_down(t: Seq<Seq<Block>>, l: int, p: int)
    requires
        tree_shape(t, t[MAX_ORDER as int].len()),
        tree_bounded(t),
        1 <= l <= MAX_ORDER,
        0 <= p < t[0].len(),
        t[l][slot_of(p, l)] == parent_of(t, l - 1, 2 * slot_of(p, l)),
    ensures
        page_free(t, l, p) == page_free(t, l - 1, p),
{
    let i = slot_of(p, l);
    lemma_slot_in_tree(t, p, l);
    lemma_slot_up(p, l);
    assert(t[l - 1].len() == 2 * t[l].len());
    assert((2 * i) / 2 == i);
    let a = t[l - 1][2 * i].byte;
    let b = t[l - 1][2 * i + 1].byte;
    assert(a <= l && b <= l);
    if t[l][i].byte == l + 1 {
        assert(a == l && b == l);
        assert(t[l - 1][slot_of(p, l - 1)].byte == l);
    }
}

/// Off the path of a slot, a page's state depends on nothing that changes
/// on that path.
proof fn lemma_page_free_frame(t: Seq<Seq<Block>>, s: Seq<Seq<Block>>, k: int, idx: int, l: int, p: int)
    requires
        tree_shape(t, t[MAX_ORDER as int].len()),
        same_shape(s, t),
        0 <= k <= MAX_ORDER,
        0 <= l <= MAX_ORDER,
        0 <= p < t[0].len(),
        forall|l2: int, j: int|
            0 <= l2 < LEVELS && 0 <= j < t[l2].len() && !(l2 >= k && j == anc(idx, (l2 - k) as nat))
                ==> #[trigger] s[l2][j] == t[l2][j],
        l >= k ==> slot_of(p, l) != anc(idx, (l - k) as nat),
    ensures
        page_free(s, l, p) == page_free(t, l, p),
    decreases l,
{
    let i = slot_of(p, l);
    lemma_slot_in_tree(t, p, l);
    if l > 0 {
        lemma_slot_up(p, l);
        assert(t[l - 1].len() == 2 * t[l].len());
        if l - 1 >= k {
            lemma_anc_up(idx, (l - 1 - k) as nat);
            assert((l - 1 - k) as nat + 1 == (l - k) as nat);
            assert((2 * i) / 2 == i && (2 * i + 1) / 2 == i);
            assert(s[l - 1][2 * i] == t[l - 1][2 * i]);
            assert(s[l - 1][2 * i + 1] == t[l - 1][2 * i + 1]);
        } else {
            assert(s[l - 1][2 * i] == t[l - 1][2 * i]);
            assert(s[l - 1][2 * i + 1] == t[l - 1][2 * i + 1]);
        }
        assert(s[l][i] == t[l][i]);
        lemma_page_free_frame(t, s, k, idx, l - 1, p);
    } else {
        assert(s[0][i] == t[0][i]);
    }
}

/// Along the path of an allocated slot, a page is free after the
/// allocation exactly when it was free before and lies outside the block;
/// the block's own pages were all free.
proof fn lemma_alloc_path(t: Seq<Seq<Block>>, n: nat, k: int, idx: int, l: int, p: int)
    requires
        tree_shape(t, t[MAX_ORDER as int].len()),
        tree_bounded(t),
        tree_in_range(t, n),
        tree_linked(t),
        0 <= k <= l <= MAX_ORDER,
        0 <= idx < t[k].len(),
        t[k][idx].byte == k + 1,
        forall|l2: int| k <= l2 <= MAX_ORDER ==> 0 <= #[trigger] anc(idx, (l2 - k) as nat) < t[l2].len(),
        forall|l2: int| k <= l2 <= MAX_ORDER ==> #[trigger] t[l2][anc(idx, (l2 - k) as nat)].byte > k,
        0 <= p < t[0].len(),
        slot_of(p, l) == anc(idx, (l - k) as nat),
    ensures
        page_free(set_path(t, k, idx, Block { byte: 0 }), l, p) == (page_free(t, l, p) && slot_of(p, k) != idx),
        slot_of(p, k) == idx ==> page_free(t, l, p),
    decreases l,
{
    let u = t.update(k, t[k].update(idx, Block { byte: 0 }));
    let t1 = set_path(t, k, idx, Block { byte: 0 });
    assert(tree_shape(u, u[MAX_ORDER as int].len())) by {
        assert forall|q: int| 0 <= q < MAX_ORDER implies #[trigger] u[q].len() == 2 * u[q + 1].len() by {
            assert(t[q].len() == 2 * t[q + 1].len());
        }
    }
    lemma_fix_up_frame(u, k, idx);
    lemma_slot_in_tree(t, p, l);
    assert(anc(idx, 0) == idx);
    if l == k {
        assert(!is_ancestor(k, idx, k, idx));
        assert(t1[k][idx] == u[k][idx]);
        if k > 0 {
            assert(t[k - 1].len() == 2 * t[k].len());
            assert(!is_ancestor(k, idx, k - 1, 2 * idx));
            assert(!is_ancestor(k, idx, k - 1, 2 * idx + 1));
            assert(t1[k - 1][2 * idx] == t[k - 1][2 * idx]);
            assert(t1[k - 1][2 * idx + 1] == t[k - 1][2 * idx + 1]);
            assert(linked_at(t, k, idx));
        }
    } else {
        let i = anc(idx, (l - k) as nat);
        assert(t[l][i].byte > k);
        assert(linked_at(t, l, i));
        assert(t[l - 1].len() == 2 * t[l].len());
        assert((2 * i) / 2 == i);
        assert(t[l - 1][2 * i].byte <= l && t[l - 1][2 * i + 1].byte <= l);
        assert(t[l][i] == parent_of(t, l - 1, 2 * i));
        lemma_fix_up_strict(u, k, idx);
        assert(t1[l][anc(idx, (l - k) as nat)] == parent_of(t1, l - 1, 2 * anc(idx, (l - k) as nat)));
        assert(tree_linked_except(u, k, idx)) by {
            assert forall|l2: int, j: int|
                1 <= l2 < LEVELS && 0 <= j < u[l2].len() && !(l2 > k && j == anc(idx, (l2 - k) as nat))
                    implies #[trigger] linked_at(u, l2, j) by {
                lemma_anc_one(idx);
                assert(linked_at(t, l2, j));
                assert(t[l2 - 1].len() == 2 * t[l2].len());
                if l2 == k && j == idx && k > 0 {
                    assert(t[k][idx].byte != 0);
                }
            }
        }
        lemma_fix_up_wf(u, k, idx, n);
        lemma_page_free_down(t, l, p);
        lemma_page_free_down(t1, l, p);
        lemma_slot_up(p, l);
        let c = slot_of(p, l - 1);
        lemma_anc_up(idx, (l - 1 - k) as nat);
        assert((l - 1 - k) as nat + 1 == (l - k) as nat);
        if c == anc(idx, (l - 1 - k) as nat) {
            lemma_alloc_path(t, n, k, idx, l - 1, p);
        } else {
            assert forall|l2: int, j: int|
                0 <= l2 < LEVELS && 0 <= j < t[l2].len() && !(l2 >= k && j == anc(idx, (l2 - k) as nat))
                    implies #[trigger] t1[l2][j] == t[l2][j] by {
                assert(!is_ancestor(k, idx, l2, j));
            }
            lemma_page_free_frame(t, t1, k, idx, l - 1, p);
            if slot_of(p, k) == idx {
                lemma_slot_anc(p, k, (l - 1 - k) as nat);
                assert(k + (l - 1 - k) as nat == l - 1);
            }
        }
    }
}

/// Page `p` of zone `z` lies in `range`.
pub open spec fn page_in(z: Zone, range: FrameRange, p: int) -> bool {
    range.start <= z.pages.start + p * PAGE_SIZE < range.end
}

/// An allocation takes exactly the pages of the block it returns out of
/// the zone's free pages: each of them was free before and none is after,
/// and every other page stays as it was. So a block handed out never
/// overlaps a block that is still allocated, and the free pages and the
/// allocated ones together stay the zone's pages.
pub proof fn lemma_alloc_takes_free_pages(z0: Zone, order: int, range: FrameRange, z1: Zone)
    requires
        z0.wf(),
        0 <= order <= MAX_ORDER,
        alloc_post(z0, order, Some(range), z1),
    ensures
        forall|p: int| 0 <= p < z0.tree()[0].len() ==>
            #[trigger] zone_page_free(z1.tree(), p) == (zone_page_free(z0.tree(), p) && !page_in(z0, range, p)),
        forall|p: int| 0 <= p < z0.tree()[0].len() && page_in(z0, range, p) ==> #[trigger] zone_page_free(z0.tree(), p),
        same_shape(z1.tree(), z0.tree()),
{
    let t = z0.tree();
    let top = lemma_fit_from(t, order, 0);
    lemma_descend(t, order, MAX_ORDER as int, top);
    let idx = alloc_slot(t, order)->Some_0;
    assert(anc(idx, 0) == idx);
    assert(t[order][anc(idx, (order - order) as nat)].byte > order);
    assert(t[order][idx].byte == order + 1);
    let n = z0.num_pages as nat;
    let size = pages_of(order as nat) * PAGE_SIZE;
    lemma_pages_of_pos(order as nat);
    let start = z0.pages.start as int;
    assert((idx + 1) * pages_of(order as nat) <= n);
    assert(idx * size + size <= n * PAGE_SIZE) by (nonlinear_arith)
        requires (idx + 1) * pages_of(order as nat) <= n, size == pages_of(order as nat) * PAGE_SIZE;
    assert(0 <= idx * size) by (nonlinear_arith)
        requires idx >= 0, size >= 0;
    assert((idx + 1) * size == idx * size + size) by (nonlinear_arith);
    assert(range.start == start + idx * size);
    assert(range.end == start + idx * size + size);
    let u0 = t.update(order, t[order].update(idx, Block { byte: 0 }));
    assert(tree_shape(u0, u0[MAX_ORDER as int].len())) by {
        assert forall|q: int| 0 <= q < MAX_ORDER implies #[trigger] u0[q].len() == 2 * u0[q + 1].len() by {
            assert(t[q].len() == 2 * t[q + 1].len());
        }
    }
    lemma_fix_up_frame(u0, order, idx);
    assert forall|l: int| 0 <= l < z1.tree().len() implies #[trigger] z1.tree()[l].len() == t[l].len() by {
        assert(u0[l].len() == t[l].len());
    }
    assert forall|p: int| 0 <= p < t[0].len() implies
        (zone_page_free(z1.tree(), p) == (#[trigger] zone_page_free(t, p) && !page_in(z0, range, p)))
        && (page_in(z0, range, p) ==> zone_page_free(t, p)) by {
        let pk = pages_of(order as nat) as int;
        lemma_block_pages(p, pk, idx);
        assert(page_in(z0, range, p) == (idx * pk <= p < (idx + 1) * pk)) by (nonlinear_arith)
            requires size == pk * PAGE_SIZE, range.start == start + idx * size, range.end == start + idx * size + size,
                page_in(z0, range, p) == (range.start <= start + p * PAGE_SIZE < range.end);
        lemma_slot_in_tree(t, p, MAX_ORDER as int);
        if slot_of(p, MAX_ORDER as int) == anc(idx, (MAX_ORDER - order) as nat) {
            lemma_alloc_path(t, n, order, idx, MAX_ORDER as int, p);
        } else {
            let u = t.update(order, t[order].update(idx, Block { byte: 0 }));
            assert(tree_shape(u, u[MAX_ORDER as int].len())) by {
                assert forall|q: int| 0 <= q < MAX_ORDER implies #[trigger] u[q].len() == 2 * u[q + 1].len() by {
                    assert(t[q].len() == 2 * t[q + 1].len());
                }
            }
            lemma_fix_up_frame(u, order, idx);
            let t1 = z1.tree();
            assert forall|l2: int, j: int|
                0 <= l2 < LEVELS && 0 <= j < t[l2].len() && !(l2 >= order && j == anc(idx, (l2 - order) as nat))
                    implies #[trigger] t1[l2][j] == t[l2][j] by {
                assert(!is_ancestor(order, idx, l2, j));
            }
            lemma_page_free_frame(t, t1, order, idx, MAX_ORDER as int, p);
            if slot_of(p, order) == idx {
                lemma_slot_anc(p, order, (MAX_ORDER - order) as nat);
                assert(order + (MAX_ORDER - order) as nat == MAX_ORDER);
            }
        }
    }
}

/// Page `p` lies in block `idx` of `pk` pages exactly when `p / pk == idx`.
proof fn lemma_block_pages(p: int, pk: int, idx: int)
    requires
        0 <= p,
        pk >= 1,
        0 <= idx,
    ensures
        (idx * pk <= p < (idx + 1) * pk) == (p / pk == idx),
{
    vstd::arithmetic::div_mod::lemma_fundamental_div_mod(p, pk);
    if idx * pk <= p < (idx + 1) * pk {
        assert((idx + 1) * pk == idx * pk + pk) by (nonlinear_arith);
        assert(p == idx * pk + (p - idx * pk));
        vstd::arithmetic::div_mod::lemma_fundamental_div_mod_converse_div(p, pk, idx, p - idx * pk);
    } else if p / pk == idx {
        assert(idx * pk <= p < (idx + 1) * pk) by (nonlinear_arith)
            requires p == pk * idx + p % pk, 0 <= p % pk < pk;
    }
}

/// Beneath a wholly free slot every slot is wholly free.
proof fn lemma_full_down(t: Seq<Seq<Block>>, l: int, i: int, k: int, j: int)
    requires
        tree_shape(t, t[MAX_ORDER as int].len()),
        tree_bounded(t),
        tree_linked(t),
        0 <= k <= l <= MAX_ORDER,
        0 <= i < t[l].len(),
        0 <= j < t[k].len(),
        t[l][i].byte == l + 1,
        anc(j, (l - k) as nat) == i,
    ensures
        t[k][j].byte == k + 1,
    decreases l,
{
    assert(anc(j, 0) == j);
    if l > k {
        assert(linked_at(t, l, i));
        assert(t[l - 1].len() == 2 * t[l].len());
        assert(t[l - 1][2 * i].byte <= l && t[l - 1][2 * i + 1].byte <= l);
        lemma_anc_up(j, (l - 1 - k) as nat);
        assert((l - 1 - k) as nat + 1 == (l - k) as nat);
        let c = anc(j, (l - 1 - k) as nat);
        lemma_anc_bound(t, k, j, (l - 1 - k) as nat);
        assert(c == 2 * i || c == 2 * i + 1);
        lemma_full_down(t, l - 1, c, k, j);
    }
}

proof fn lemma_anc_bound(t: Seq<Seq<Block>>, k: int, j: int, d: nat)
    requires
        tree_shape(t, t[MAX_ORDER as int].len()),
        0 <= k,
        k + d <= MAX_ORDER,
        0 <= j < t[k].len(),
    ensures
        0 <= anc(j, d) < t[k + d].len(),
    decreases d,
{
    if d > 0 {
        lemma_anc_bound(t, k, j, (d - 1) as nat);
        lemma_anc_up(j, (d - 1) as nat);
        assert((d - 1) as nat + 1 == d);
        assert(t[k + d - 1].len() == 2 * t[k + d].len());
    } else {
        assert(anc(j, 0) == j);
    }
}

/// Along the path of a freed slot, a page is free after the free exactly
/// when it was free before or lies in the block.
proof fn lemma_free_path(t: Seq<Seq<Block>>, n: nat, k: int, idx: int, l: int, p: int)
    requires
        tree_shape(t, t[MAX_ORDER as int].len()),
        tree_bounded(t),
        tree_in_range(t, n),
        tree_linked(t),
        0 <= k <= l <= MAX_ORDER,
        0 <= idx < t[k].len(),
        (idx + 1) * pages_of(k as nat) <= n,
        freeable(t, k, idx),
        0 <= p < t[0].len(),
        slot_of(p, l) == anc(idx, (l - k) as nat),
    ensures
        page_free(set_path(t, k, idx, Block { byte: (k + 1) as u8 }), l, p) == (page_free(t, l, p) || slot_of(p, k) == idx),
    decreases l,
{
    let b = Block { byte: (k + 1) as u8 };
    let u = t.update(k, t[k].update(idx, b));
    let t1 = set_path(t, k, idx, b);
    assert(tree_shape(u, u[MAX_ORDER as int].len())) by {
        assert forall|q: int| 0 <= q < MAX_ORDER implies #[trigger] u[q].len() == 2 * u[q + 1].len() by {
            assert(t[q].len() == 2 * t[q + 1].len());
        }
    }
    lemma_fix_up_frame(u, k, idx);
    lemma_slot_in_tree(t, p, l);
    assert(anc(idx, 0) == idx);
    if l == k {
        assert(!is_ancestor(k, idx, k, idx));
        assert(t1[k][idx] == u[k][idx]);
    } else {
        let i = anc(idx, (l - k) as nat);
        lemma_anc_bound(t, k, idx, (l - k) as nat);
        assert(k + (l - k) as nat == l);
        assert(linked_at(t, l, i));
        assert(t[l - 1].len() == 2 * t[l].len());
        assert((2 * i) / 2 == i);
        assert(t[l - 1][2 * i].byte <= l && t[l - 1][2 * i + 1].byte <= l);
        lemma_anc_up(idx, (l - 1 - k) as nat);
        assert((l - 1 - k) as nat + 1 == (l - k) as nat);
        let c0 = anc(idx, (l - 1 - k) as nat);
        lemma_anc_bound(t, k, idx, (l - 1 - k) as nat);
        assert(k + (l - 1 - k) as nat == l - 1);
        if t[l][i].byte == 0 && parent_byte(t[l - 1][2 * i].byte as int, t[l - 1][2 * i + 1].byte as int) == l + 1 {
            assert(c0 == 2 * i || c0 == 2 * i + 1);
            assert(t[l - 1][c0].byte == l);
            lemma_full_down(t, l - 1, c0, k, idx);
            assert(false);
        }
        assert(t[l][i] == parent_of(t, l - 1, 2 * i));
        lemma_fix_up_strict(u, k, idx);
        assert(t1[l][anc(idx, (l - k) as nat)] == parent_of(t1, l - 1, 2 * anc(idx, (l - k) as nat)));
        assert(tree_linked_except(u, k, idx)) by {
            assert forall|l2: int, j: int|
                1 <= l2 < LEVELS && 0 <= j < u[l2].len() && !(l2 > k && j == anc(idx, (l2 - k) as nat))
                    implies #[trigger] linked_at(u, l2, j) by {
                lemma_anc_one(idx);
                assert(t[l2 - 1].len() == 2 * t[l2].len());
                if !(l2 == k && j == idx) {
                    assert(linked_at(t, l2, j));
                }
            }
        }
        assert(tree_in_range(u, n));
        lemma_fix_up_wf(u, k, idx, n);
        lemma_page_free_down(t, l, p);
        lemma_page_free_down(t1, l, p);
        lemma_slot_up(p, l);
        if slot_of(p, l - 1) == c0 {
            lemma_free_path(t, n, k, idx, l - 1, p);
        } else {
            assert forall|l2: int, j: int|
                0 <= l2 < LEVELS && 0 <= j < t[l2].len() && !(l2 >= k && j == anc(idx, (l2 - k) as nat))
                    implies #[trigger] t1[l2][j] == t[l2][j] by {
                assert(!is_ancestor(k, idx, l2, j));
            }
            lemma_page_free_frame(t, t1, k, idx, l - 1, p);
            if slot_of(p, k) == idx {
                lemma_slot_anc(p, k, (l - 1 - k) as nat);
            }
        }
    }
}

proof fn lemma_order_for_len_some(len: int, j: nat)
    requires
        order_for_len(len, j) is Some,
    ensures
        ({
            let k = order_for_len(len, j)->Some_0;
            &&& 0 <= k <= MAX_ORDER
            &&& len == pages_of(k as nat) * PAGE_SIZE
        }),
    decreases LEVELS - j,
{
    if j <= MAX_ORDER && len != pages_of(j) * PAGE_SIZE {
        lemma_order_for_len_some(len, j + 1);
    }
}

/// A free puts exactly the pages of its block back among the
/// zone's free pages and leaves every other page as it was.
pub proof fn lemma_free_returns_pages(z1: Zone, range: FrameRange, z2: Zone)
    requires
        z1.wf(),
        block_allocated(z1, range),
        free_post(z1, range, z2),
    ensures
        forall|p: int| 0 <= p < z1.tree()[0].len() ==>
            zone_page_free(z2.tree(), p) == (#[trigger] zone_page_free(z1.tree(), p) || page_in(z1, range, p)),
{
    let t = z1.tree();
    let (k, idx) = free_slot(z1, range)->Some_0;
    let len = range.end - range.start;
    let off = range.start - z1.pages.start;
    lemma_order_for_len_some(len, 0);
    let pk = pages_of(k as nat) as int;
    let size = pk * PAGE_SIZE;
    lemma_pages_of_pos(k as nat);
    let n = z1.num_pages as int;
    lemma_level_len(t, k);
    assert(off % size == 0 && idx == off / size);
    assert(off == idx * size) by {
        vstd::arithmetic::div_mod::lemma_fundamental_div_mod(off, size);
        assert(size * (off / size) == (off / size) * size) by (nonlinear_arith);
    }
    assert(off >= 0);
    assert(idx >= 0) by {
        vstd::arithmetic::div_mod::lemma_div_pos_is_pos(off, size);
    }
    assert(off + size <= n * PAGE_SIZE);
    assert((idx + 1) * pk <= n) by (nonlinear_arith)
        requires off == idx * size, size == pk * PAGE_SIZE, off + size <= n * PAGE_SIZE, pk >= 1;
    assert(idx < t[k].len()) by (nonlinear_arith)
        requires (idx + 1) * pk <= n, n <= t[0].len(), t[0].len() == t[k].len() * pk, pk >= 1;
    assert forall|p: int| 0 <= p < t[0].len() implies
        zone_page_free(z2.tree(), p) == (#[trigger] zone_page_free(t, p) || page_in(z1, range, p)) by {
        lemma_block_pages(p, pk, idx);
        let start = z1.pages.start as int;
        assert(page_in(z1, range, p) == (idx * pk <= p < (idx + 1) * pk)) by (nonlinear_arith)
            requires size == pk * PAGE_SIZE, range.start == start + idx * size, range.end == range.start + size,
                page_in(z1, range, p) == (range.start <= start + p * PAGE_SIZE < range.end);
        lemma_slot_in_tree(t, p, MAX_ORDER as int);
        if slot_of(p, MAX_ORDER as int) == anc(idx, (MAX_ORDER - k) as nat) {
            lemma_free_path(t, n as nat, k, idx, MAX_ORDER as int, p);
        } else {
            let b = Block { byte: (k + 1) as u8 };
            let u = t.update(k, t[k].update(idx, b));
            assert(tree_shape(u, u[MAX_ORDER as int].len())) by {
                assert forall|q: int| 0 <= q < MAX_ORDER implies #[trigger] u[q].len() == 2 * u[q + 1].len() by {
                    assert(t[q].len() == 2 * t[q + 1].len());
                }
            }
            lemma_fix_up_frame(u, k, idx);
            let t2 = z2.tree();
            assert forall|l2: int, j: int|
                0 <= l2 < LEVELS && 0 <= j < t[l2].len() && !(l2 >= k && j == anc(idx, (l2 - k) as nat))
                    implies #[trigger] t2[l2][j] == t[l2][j] by {
                assert(!is_ancestor(k, idx, l2, j));
                assert(anc(idx, 0) == idx);
            }
            lemma_page_free_frame(t, t2, k, idx, MAX_ORDER as int, p);
            if slot_of(p, k) == idx {
                lemma_slot_anc(p, k, (MAX_ORDER - k) as nat);
                assert(k + (MAX_ORDER - k) as nat == MAX_ORDER);
            }
        }
    }
}

proof fn lemma_fresh_down(z: Zone, l: int, p: int)
    requires
        z.wf(),
        z.is_fresh(),
        0 <= l <= MAX_ORDER,
        0 <= p < z.tree()[0].len(),
    ensures
        page_free(z.tree(), l, p) == (p < z.num_pages),
    decreases l,
{
    let t = z.tree();
    if l > 0 {
        lemma_slot_in_tree(t, p, l);
        lemma_page_free_down(t, l, p);
        lemma_fresh_down(z, l - 1, p);
    } else {
        assert(pages_of(0) == 1);
        assert(p / 1 == p) by (nonlinear_arith);
        assert(slot_of(p, 0) == p);
    }
}

/// In a zone that `Zone::new` just built, the free pages are exactly the
/// zone's `num_pages` pages.
pub proof fn lemma_fresh_free_pages(z: Zone)
    requires
        z.wf(),
        z.is_fresh(),
    ensures
        forall|p: int| 0 <= p < z.tree()[0].len() ==> #[trigger] zone_page_free(z.tree(), p) == (p < z.num_pages),
        free_page_count(z) == z.num_pages,
{
    assert forall|p: int| 0 <= p < z.tree()[0].len() implies #[trigger] zone_page_free(z.tree(), p) == (p < z.num_pages) by {
        lemma_fresh_down(z, MAX_ORDER as int, p);
    }
    let f = |p: int| zone_page_free(z.tree(), p);
    assert forall|p: int| 0 <= p < z.tree()[0].len() implies #[trigger] f(p) == (0 <= p < 0 + z.num_pages) by {}
    lemma_count_interval(f, 0, z.num_pages as int, z.tree()[0].len() as int);
}

/// Two blocks handed out one after the other, with no free between them,
/// share no page.
pub proof fn lemma_successive_allocs_disjoint(
    z0: Zone,
    k1: int,
    r1: FrameRange,
    z1: Zone,
    k2: int,
    r2: FrameRange,
    z2: Zone,
)
    requires
        z0.wf(),
        z1.wf(),
        0 <= k1 <= MAX_ORDER,
        0 <= k2 <= MAX_ORDER,
        alloc_post(z0, k1, Some(r1), z1),
        alloc_post(z1, k2, Some(r2), z2),
    ensures
        forall|p: int| 0 <= p < z0.tree()[0].len() ==> !(#[trigger] page_in(z0, r1, p) && page_in(z0, r2, p)),
{
    lemma_alloc_takes_free_pages(z0, k1, r1, z1);
    lemma_alloc_takes_free_pages(z1, k2, r2, z2);
    assert forall|p: int| 0 <= p < z0.tree()[0].len() implies !(#[trigger] page_in(z0, r1, p) && page_in(z0, r2, p)) by {
        if page_in(z0, r1, p) && page_in(z0, r2, p) {
            assert(!zone_page_free(z1.tree(), p));
            assert(page_in(z1, r2, p));
            assert(z1.tree()[0].len() == z0.tree()[0].len());
            assert(zone_page_free(z1.tree(), p));
        }
    }
}

/// Every page of the zone that one of `live` covers is taken (not free).
pub open spec fn live_taken(z: Zone, live: Seq<FrameRange>) -> bool {
    forall|q: int, p: int| 0 <= q < live.len() && 0 <= p < z.tree()[0].len() && #[trigger] page_in(z, live[q], p)
        ==> !zone_page_free(z.tree(), p)
}

/// While the blocks that are still allocated (`live`) cover only taken
/// pages, an allocation shares no page with any of them, and afterwards the
/// blocks allocated, the new one included, still cover only taken pages.
/// With `lemma_free_keeps_live` this keeps the allocated blocks pairwise
/// disjoint over any run of allocations and frees.
pub proof fn lemma_alloc_disjoint_from_live(z0: Zone, order: int, range: FrameRange, z1: Zone, live: Seq<FrameRange>)
    requires
        z0.wf(),
        0 <= order <= MAX_ORDER,
        alloc_post(z0, order, Some(range), z1),
        live_taken(z0, live),
    ensures
        forall|q: int, p: int| 0 <= q < live.len() && 0 <= p < z0.tree()[0].len()
            ==> !(#[trigger] page_in(z0, live[q], p) && page_in(z0, range, p)),
        live_taken(z1, live.push(range)),
{
    lemma_alloc_takes_free_pages(z0, order, range, z1);
    let l2 = live.push(range);
    assert forall|q: int, p: int| 0 <= q < l2.len() && 0 <= p < z1.tree()[0].len() && #[trigger] page_in(z1, l2[q], p)
        implies !zone_page_free(z1.tree(), p) by {
        assert(z1.tree()[0].len() == z0.tree()[0].len());
        if q < live.len() {
            assert(l2[q] == live[q]);
            assert(page_in(z0, live[q], p));
            assert(zone_page_free(z1.tree(), p) == (zone_page_free(z0.tree(), p) && !page_in(z0, range, p)));
        } else {
            assert(l2[q] == range);
            assert(page_in(z0, range, p));
            assert(zone_page_free(z1.tree(), p) == (zone_page_free(z0.tree(), p) && !page_in(z0, range, p)));
        }
    }
    assert forall|q: int, p: int| 0 <= q < live.len() && 0 <= p < z0.tree()[0].len()
        implies !(#[trigger] page_in(z0, live[q], p) && page_in(z0, range, p)) by {
        if page_in(z0, live[q], p) && page_in(z0, range, p) {
            assert(zone_page_free(z0.tree(), p));
        }
    }
}

/// Freeing an allocated block that shares no page with the other blocks
/// still allocated (`live`) leaves their pages taken.
pub proof fn lemma_free_keeps_live(z1: Zone, range: FrameRange, z2: Zone, live: Seq<FrameRange>)
    requires
        z1.wf(),
        block_allocated(z1, range),
        free_post(z1, range, z2),
        live_taken(z1, live),
        forall|q: int, p: int| 0 <= q < live.len() && 0 <= p < z1.tree()[0].len()
            ==> !(#[trigger] page_in(z1, live[q], p) && page_in(z1, range, p)),
    ensures
        live_taken(z2, live),
{
    lemma_free_returns_pages(z1, range, z2);
    let (k, idx) = free_slot(z1, range)->Some_0;
    assert(0 <= k <= MAX_ORDER && 0 <= idx < z1.tree()[k].len()) by {
        let t = z1.tree();
        let len = range.end - range.start;
        let off = range.start - z1.pages.start;
        lemma_order_for_len_some(len, 0);
        let pk = pages_of(k as nat) as int;
        let size = pk * PAGE_SIZE;
        lemma_pages_of_pos(k as nat);
        let n = z1.num_pages as int;
        lemma_level_len(t, k);
        assert(off == idx * size) by {
            vstd::arithmetic::div_mod::lemma_fundamental_div_mod(off, size);
            assert(size * (off / size) == (off / size) * size) by (nonlinear_arith);
        }
        vstd::arithmetic::div_mod::lemma_div_pos_is_pos(off, size);
        assert((idx + 1) * pk <= n) by (nonlinear_arith)
            requires off == idx * size, size == pk * PAGE_SIZE, off + size <= n * PAGE_SIZE, pk >= 1;
        assert(idx < t[k].len()) by (nonlinear_arith)
            requires (idx + 1) * pk <= n, n <= t[0].len(), t[0].len() == t[k].len() * pk, pk >= 1;
    }
    let u = z1.tree().update(k, z1.tree()[k].update(idx, Block { byte: (k + 1) as u8 }));
    assert(tree_shape(u, u[MAX_ORDER as int].len())) by {
        assert forall|q: int| 0 <= q < MAX_ORDER implies #[trigger] u[q].len() == 2 * u[q + 1].len() by {
            assert(z1.tree()[q].len() == 2 * z1.tree()[q + 1].len());
        }
    }
    lemma_fix_up_frame(u, k, idx);
    assert forall|q: int, p: int| 0 <= q < live.len() && 0 <= p < z2.tree()[0].len() && #[trigger] page_in(z2, live[q], p)
        implies !zone_page_free(z2.tree(), p) by {
        assert(z2.tree()[0].len() == z1.tree()[0].len());
        assert(page_in(z1, live[q], p));
        assert(!page_in(z1, range, p));
    }
}

/// How many of the pages `0..m` satisfy `f`.
pub open spec fn count_pages(f: spec_fn(int) -> bool, m: int) -> int
    decreases m,
{
    if m <= 0 {
        0
    } else {
        count_pages(f, m - 1) + if f(m - 1) { 1int } else { 0int }
    }
}

/// The number of free pages of a zone's tree.
pub open spec fn free_page_count(z: Zone) -> int {
    count_pages(|p: int| zone_page_free(z.tree(), p), z.tree()[0].len() as int)
}

proof fn lemma_count_split(f0: spec_fn(int) -> bool, f1: spec_fn(int) -> bool, g: spec_fn(int) -> bool, m: int)
    requires
        forall|p: int| 0 <= p < m ==> #[trigger] f0(p) == (f1(p) || g(p)),
        forall|p: int| 0 <= p < m ==> !(#[trigger] f1(p) && g(p)),
    ensures
        count_pages(f0, m) == count_pages(f1, m) + count_pages(g, m),
    decreases m,
{
    if m > 0 {
        lemma_count_split(f0, f1, g, m - 1);
        assert(f0(m - 1) == (f1(m - 1) || g(m - 1)));
        assert(!(f1(m - 1) && g(m - 1)));
    }
}

proof fn lemma_count_interval(g: spec_fn(int) -> bool, lo: int, len: int, m: int)
    requires
        0 <= lo,
        0 <= len,
        forall|p: int| 0 <= p < m ==> #[trigger] g(p) == (lo <= p < lo + len),
        0 <= m,
    ensures
        count_pages(g, m) == if m <= lo { 0 } else if m >= lo + len { len } else { m - lo },
    decreases m,
{
    if m > 0 {
        lemma_count_interval(g, lo, len, m - 1);
        assert(g(m - 1) == (lo <= m - 1 < lo + len));
    }
}

/// Page `p` lies in the block `range` of zone `z` that starts at page
/// `idx * 2^k` and is `2^k` pages long.
proof fn lemma_page_in_block(z: Zone, range: FrameRange, k: int, idx: int, p: int)
    requires
        0 <= k <= MAX_ORDER,
        0 <= idx,
        range.start == z.pages.start + idx * (pages_of(k as nat) * PAGE_SIZE),
        range.end == range.start + pages_of(k as nat) * PAGE_SIZE,
    ensures
        page_in(z, range, p) == (idx * pages_of(k as nat) <= p < idx * pages_of(k as nat) + pages_of(k as nat)),
{
    let pk = pages_of(k as nat) as int;
    let start = z.pages.start as int;
    assert(page_in(z, range, p) == (idx * pk <= p < idx * pk + pk)) by (nonlinear_arith)
        requires range.start == start + idx * (pk * PAGE_SIZE), range.end == range.start + pk * PAGE_SIZE,
            page_in(z, range, p) == (range.start <= start + p * PAGE_SIZE < range.end);
}

/// An allocation of order `order` leaves `2^order` fewer free pages, and
/// freeing a block of order `k` gives `2^k` back: with
/// `lemma_fresh_free_pages` the free pages and the pages of the blocks
/// handed out and not yet returned always add up to the zone's pages.
pub proof fn lemma_alloc_free_count(z0: Zone, order: int, range: FrameRange, z1: Zone)
    requires
        z0.wf(),
        0 <= order <= MAX_ORDER,
        alloc_post(z0, order, Some(range), z1),
    ensures
        free_page_count(z1) + pages_of(order as nat) == free_page_count(z0),
{
    lemma_alloc_takes_free_pages(z0, order, range, z1);
    lemma_alloc_within_zone(z0, order, range, z1);
    let t = z0.tree();
    let m = t[0].len() as int;
    let pk = pages_of(order as nat) as int;
    let size = pk * PAGE_SIZE;
    lemma_pages_of_pos(order as nat);
    let off = range.start - z0.pages.start;
    let idx = off / size;
    assert(off == idx * size) by {
        vstd::arithmetic::div_mod::lemma_fundamental_div_mod(off, size);
        assert(size * (off / size) == (off / size) * size) by (nonlinear_arith);
    }
    vstd::arithmetic::div_mod::lemma_div_pos_is_pos(off, size);
    assert(range.end <= z0.pages.start + z0.num_pages * PAGE_SIZE);
    assert(idx * pk + pk <= z0.num_pages) by (nonlinear_arith)
        requires off == idx * size, size == pk * PAGE_SIZE, off + size <= z0.num_pages * PAGE_SIZE, pk >= 1;
    let f0 = |p: int| zone_page_free(z0.tree(), p);
    let f1 = |p: int| zone_page_free(z1.tree(), p);
    let g = |p: int| page_in(z0, range, p);
    assert forall|p: int| 0 <= p implies #[trigger] g(p) == (idx * pk <= p < idx * pk + pk) by {
        lemma_page_in_block(z0, range, order, idx, p);
    }
    assert forall|p: int| 0 <= p < m implies #[trigger] f0(p) == (f1(p) || g(p)) by {}
    assert forall|p: int| 0 <= p < m implies !(#[trigger] f1(p) && g(p)) by {}
    lemma_count_split(f0, f1, g, m);
    lemma_count_interval(g, idx * pk, pk, m);
    assert(idx * pk >= 0) by (nonlinear_arith)
        requires idx >= 0, pk >= 1;
    assert(z1.tree()[0].len() == m);
}

/// A free of a block of order `k` gives `2^k` pages back.
pub proof fn lemma_free_count(z1: Zone, range: FrameRange, z2: Zone)
    requires
        z1.wf(),
        block_allocated(z1, range),
        free_post(z1, range, z2),
    ensures
        free_page_count(z2) == free_page_count(z1) + (range.end - range.start) / PAGE_SIZE as int,
{
    lemma_free_returns_pages(z1, range, z2);
    let (k, idx) = free_slot(z1, range)->Some_0;
    let t = z1.tree();
    let m = t[0].len() as int;
    let len = range.end - range.start;
    let off = range.start - z1.pages.start;
    lemma_order_for_len_some(len, 0);
    let pk = pages_of(k as nat) as int;
    let size = pk * PAGE_SIZE;
    lemma_pages_of_pos(k as nat);
    let n = z1.num_pages as int;
    lemma_level_len(t, k);
    assert(off == idx * size) by {
        vstd::arithmetic::div_mod::lemma_fundamental_div_mod(off, size);
        assert(size * (off / size) == (off / size) * size) by (nonlinear_arith);
    }
    vstd::arithmetic::div_mod::lemma_div_pos_is_pos(off, size);
    assert(idx * pk + pk <= n) by (nonlinear_arith)
        requires off == idx * size, size == pk * PAGE_SIZE, off + size <= n * PAGE_SIZE, pk >= 1;
    assert(n <= m);
    // The tree keeps its shape.
    let u = t.update(k, t[k].update(idx, Block { byte: (k + 1) as u8 }));
    assert(idx < t[k].len()) by (nonlinear_arith)
        requires idx * pk + pk <= n, n <= t[0].len(), t[0].len() == t[k].len() * pk, pk >= 1;
    assert(tree_shape(u, u[MAX_ORDER as int].len())) by {
        assert forall|q: int| 0 <= q < MAX_ORDER implies #[trigger] u[q].len() == 2 * u[q + 1].len() by {
            assert(t[q].len() == 2 * t[q + 1].len());
        }
    }
    lemma_fix_up_frame(u, k, idx);
    assert(z2.tree()[0].len() == m);
    let f1 = |p: int| zone_page_free(z1.tree(), p);
    let f2 = |p: int| zone_page_free(z2.tree(), p);
    let g0 = |p: int| page_in(z1, range, p) && !zone_page_free(z1.tree(), p);
    let g = |p: int| page_in(z1, range, p);
    assert forall|p: int| 0 <= p implies #[trigger] g(p) == (idx * pk <= p < idx * pk + pk) by {
        lemma_page_in_block(z1, range, k, idx, p);
    }
    // The block's pages were all taken: it was allocated as a whole.
    assert forall|p: int| 0 <= p < m && #[trigger] g(p) implies !f1(p) by {
        lemma_block_taken(z1, k, idx, p);
        lemma_page_in_block(z1, range, k, idx, p);
        lemma_block_pages(p, pk, idx);
    }
    assert forall|p: int| 0 <= p < m implies #[trigger] f2(p) == (f1(p) || g(p)) by {}
    assert forall|p: int| 0 <= p < m implies !(#[trigger] f1(p) && g(p)) by {}
    lemma_count_split(f2, f1, g, m);
    lemma_count_interval(g, idx * pk, pk, m);
    assert(idx * pk >= 0) by (nonlinear_arith)
        requires idx >= 0, pk >= 1;
    assert(len / PAGE_SIZE as int == pk) by {
        vstd::arithmetic::div_mod::lemma_div_multiples_vanish(pk, PAGE_SIZE as int);
        assert(pk * PAGE_SIZE == PAGE_SIZE * pk) by (nonlinear_arith);
    }
}

/// Below an allocated block's root, along the path from level `l`, its
/// pages are taken.
proof fn lemma_taken_path(t: Seq<Seq<Block>>, k: int, idx: int, l: int, p: int)
    requires
        tree_shape(t, t[MAX_ORDER as int].len()),
        tree_bounded(t),
        tree_linked(t),
        0 <= k <= l <= MAX_ORDER,
        0 <= idx < t[k].len(),
        freeable(t, k, idx),
        0 <= p < t[0].len(),
        slot_of(p, k) == idx,
        slot_of(p, l) == anc(idx, (l - k) as nat),
    ensures
        !page_free(t, l, p),
    decreases l,
{
    lemma_slot_in_tree(t, p, l);
    assert(anc(idx, 0) == idx);
    if l > k {
        let i = anc(idx, (l - k) as nat);
        lemma_anc_bound(t, k, idx, (l - k) as nat);
        assert(k + (l - k) as nat == l);
        assert(linked_at(t, l, i));
        assert(t[l - 1].len() == 2 * t[l].len());
        assert((2 * i) / 2 == i);
        assert(t[l - 1][2 * i].byte <= l && t[l - 1][2 * i + 1].byte <= l);
        lemma_anc_up(idx, (l - 1 - k) as nat);
        assert((l - 1 - k) as nat + 1 == (l - k) as nat);
        let c0 = anc(idx, (l - 1 - k) as nat);
        lemma_anc_bound(t, k, idx, (l - 1 - k) as nat);
        assert(k + (l - 1 - k) as nat == l - 1);
        if t[l][i].byte == 0 && parent_byte(t[l - 1][2 * i].byte as int, t[l - 1][2 * i + 1].byte as int) == l + 1 {
            assert(c0 == 2 * i || c0 == 2 * i + 1);
            assert(t[l - 1][c0].byte == l);
            lemma_full_down(t, l - 1, c0, k, idx);
            assert(false);
        }
        if t[l][i].byte == l + 1 {
            lemma_full_down(t, l, i, k, idx);
            assert(false);
        }
        assert(t[l][i] == parent_of(t, l - 1, 2 * i));
        lemma_page_free_down(t, l, p);
        lemma_slot_anc(p, k, (l - 1 - k) as nat);
        lemma_taken_path(t, k, idx, l - 1, p);
    }
}

proof fn lemma_block_taken(z: Zone, k: int, idx: int, p: int)
    requires
        z.wf(),
        0 <= k <= MAX_ORDER,
        0 <= idx < z.tree()[k].len(),
        freeable(z.tree(), k, idx),
        0 <= p < z.tree()[0].len(),
        idx * pages_of(k as nat) <= p < idx * pages_of(k as nat) + pages_of(k as nat),
    ensures
        !zone_page_free(z.tree(), p),
{
    lemma_pages_of_pos(k as nat);
    lemma_block_pages(p, pages_of(k as nat) as int, idx);
    assert((idx + 1) * pages_of(k as nat) == idx * pages_of(k as nat) + pages_of(k as nat)) by (nonlinear_arith);
    lemma_slot_anc(p, k, (MAX_ORDER - k) as nat);
    assert(k + (MAX_ORDER - k) as nat == MAX_ORDER);
    lemma_taken_path(z.tree(), k, idx, MAX_ORDER as int, p);
}

proof fn lemma_free_page_below(t: Seq<Seq<Block>>, n: nat, l: int, p: int)
    requires
        tree_shape(t, t[MAX_ORDER as int].len()),
        tree_in_range(t, n),
        0 <= l <= MAX_ORDER,
        0 <= p < t[0].len(),
        page_free(t, l, p),
    ensures
        p < n,
    decreases l,
{
    let i = slot_of(p, l);
    lemma_slot_in_tree(t, p, l);
    let a = pages_of(l as nat) as int;
    lemma_pages_of_pos(l as nat);
    vstd::arithmetic::div_mod::lemma_fundamental_div_mod(p, a);
    if t[l][i].byte == l + 1 {
        assert((i + 1) * a <= n);
        assert(p < (i + 1) * a) by (nonlinear_arith)
            requires p == a * i + p % a, p % a < a;
    } else if l > 0 {
        lemma_free_page_below(t, n, l - 1, p);
    } else {
        assert(t[0][i].byte == 1);
        assert((i + 1) * a <= n);
        assert(p < (i + 1) * a) by (nonlinear_arith)
            requires p == a * i + p % a, p % a < a;
    }
}

/// Only the zone's own pages are ever free.
pub proof fn lemma_free_pages_in_zone(z: Zone, p: int)
    requires
        z.wf(),
        0 <= p < z.tree()[0].len(),
        zone_page_free(z.tree(), p),
    ensures
        p < z.num_pages,
{
    lemma_free_page_below(z.tree(), z.num_pages as nat, MAX_ORDER as int, p);
}

} // verus!
