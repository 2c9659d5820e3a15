//! One-byte buddy tree entries.
use vstd::prelude::*;

verus! {

/// The largest buddy order: blocks of `2^MAX_ORDER` pages.
pub const MAX_ORDER: u64 = 11;

/// Number of pages in a block of the largest order.
pub const MAX_ORDER_PAGES: u64 = 2048;

/// A buddy tree slot. The byte 0 means `Used` (the slot is allocated or lies
/// beneath a used ancestor); the byte `k + 1` means that the largest free
/// order in the slot's subtree is `k`.
#[derive(Clone, Copy, Debug, PartialEq, Eq, Structural)]
pub struct Block {
    pub byte: u8,
}

/// The encoded value that `Block::parent_state` gives for two children.
pub open spec fn parent_byte(l: int, r: int) -> int {
    if l == r && l > 0 {
        l + 1
    } else if l >= r {
        l
    } else {
        r
    }
}

impl Block {
    pub open spec fn is_used_spec(self) -> bool {
        self.byte == 0
    }

    /// The slot in which nothing is free.
    pub fn used() -> (r: Block)
        ensures
            r.byte == 0,
    {
        Block { byte: 0 }
    }

    /// `LargestFreeOrder(order)`.
    pub fn from_order(order: u8) -> (r: Block)
        requires
            order <= MAX_ORDER,
        ensures
            r.byte == order + 1,
    {
        Block { byte: order + 1 }
    }

    /// Decodes a byte: 0 is `Used`, `k + 1` is `LargestFreeOrder(k)` for
    /// `k <= MAX_ORDER`; any other byte is no block.
    pub fn from_byte(byte: u8) -> (r: Option<Block>)
        ensures
            r == (if byte <= MAX_ORDER + 1 { Some(Block { byte }) } else { None::<Block> }),
    {
        if byte as u64 <= MAX_ORDER + 1 {
            Some(Block { byte })
        } else {
            None
        }
    }

    pub fn is_used(self) -> (r: bool)
        ensures
            r == self.is_used_spec(),
    {
        self.byte == 0
    }

    /// The largest free order of the subtree, `None` for `Used`.
    pub fn largest_free_order(self) -> (r: Option<u8>)
        ensures
            r == (if self.byte == 0 { None::<u8> } else { Some((self.byte - 1) as u8) }),
    {
        if self.byte == 0 {
            None
        } else {
            Some(self.byte - 1)
        }
    }

    /// Whether the subtree holds a free block of order `order` or more
    /// (a "greater than or equal" test).
    pub fn larger_than(self, order: u8) -> (r: bool)
        ensures
            r == (self.byte > order),
    {
        self.byte > order
    }

    /// The value of a parent slot from its two children: equal free orders
    /// coalesce into the next order, unequal ones give the larger, a free
    /// order beside `Used` is kept, and two `Used` give `Used`.
    pub fn parent_state(left: Block, right: Block) -> (r: Block)
        requires
            left.byte < 255,
        ensures
            r.byte == parent_byte(left.byte as int, right.byte as int),
    {
        if left.byte == right.byte && left.byte > 0 {
            Block { byte: left.byte + 1 }
        } else if left.byte >= right.byte {
            left
        } else {
            right
        }
    }
}

} // verus!
