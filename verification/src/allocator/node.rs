//! Block headers and the address arithmetic between a block, its buddy and
//! its parent. Addresses here are byte offsets from the start of the heap,
//! so that alignment does not depend on where the heap was placed.

use vstd::prelude::*;
use crate::allocator::layout::{
    block_bytes, block_size, header_offset, header_offset_spec, lemma_bit_halves, lemma_bit_parent, lemma_bit_top,
    lemma_block_size_bounds, lemma_half_position, lemma_halves_aligned, LEVELS,
};

verus! {

/// What the slot at the start of a granule says of the memory behind it.
#[derive(Clone, Copy, Debug, PartialEq, Eq, Structural)]
pub enum Flag {
    /// A block starts here and is linked into the free list of its level.
    Free,
    /// A block starts here and is held by a caller.
    Taken,
    /// No block starts here: the granule lies inside a block or was never
    /// handed to the allocator.
    Inner,
}

/// The header at the start of a block.
#[derive(Clone, Copy, Debug)]
pub struct ListNode {
    pub flag: Flag,
    pub level: u8,
    pub next: Option<usize>,
    pub prev: Option<usize>,
}

impl ListNode {
    /// The header of a granule that heads no block.
    pub fn inner() -> (n: ListNode)
        ensures
            n == (ListNode { flag: Flag::Inner, level: 0, next: None, prev: None }),
    {
        ListNode { flag: Flag::Inner, level: 0, next: None, prev: None }
    }

    /// The other half of the parent of the block of `level` at `off`:
    /// `off` with the bit of the block's size flipped.
    pub fn buddy(off: usize, level: u8) -> (b: usize)
        requires
            level < LEVELS,
            off as int % block_size(level as int) == 0,
            off + block_size(level as int) <= usize::MAX,
        ensures
            b as u64 == (off as u64) ^ (block_size(level as int) as u64),
            off as int % (2 * block_size(level as int)) == 0 ==> b == off + block_size(level as int),
            off as int % (2 * block_size(level as int)) != 0 ==> b == off - block_size(level as int),
            b as int % block_size(level as int) == 0,
    {
        let mask = block_bytes(level);
        proof {
            lemma_block_size_bounds(level as int);
            lemma_half_position(off as int, mask as int);
            if off % ((2 * mask) as usize) == 0 {
                lemma_bit_halves(off as u64, mask as u64);
                lemma_halves_aligned(off as int, mask as int);
            } else {
                lemma_bit_halves((off - mask) as u64, mask as u64);
                lemma_halves_aligned(off - mask, mask as int);
            }
        }
        ((off as u64) ^ (mask as u64)) as usize
    }

    /// The upper half made by splitting the block of `level` at `off`: `off`
    /// with the bit of the half's size set. The lower half keeps `off`.
    pub fn split(off: usize, level: u8) -> (b: usize)
        requires
            1 <= level < LEVELS,
            off as int % block_size(level as int) == 0,
            off + block_size(level as int) <= usize::MAX,
        ensures
            b as u64 == (off as u64) | (block_size(level - 1) as u64),
            b == off + block_size(level - 1),
            (b as u64) ^ (off as u64) == block_size(level - 1),
            off as int % block_size(level - 1) == 0,
            b as int % block_size(level - 1) == 0,
    {
        let mask = block_bytes(level - 1);
        proof {
            lemma_block_size_bounds(level - 1);
            lemma_bit_halves(off as u64, mask as u64);
            lemma_halves_aligned(off as int, mask as int);
        }
        ((off as u64) | (mask as u64)) as usize
    }

    /// The start of the block of `level` that holds the half at `off`:
    /// `off` with the bits below the block's size cleared.
    pub fn primary(off: usize, level: u8) -> (p: usize)
        requires
            1 <= level < LEVELS,
            off as int % block_size(level - 1) == 0,
        ensures
            p as u64 == (off as u64) & !((block_size(level as int) - 1) as u64),
            p == off - off as int % block_size(level as int),
            p as int % block_size(level as int) == 0,
            p == off || p == off - block_size(level - 1),
    {
        let half = block_bytes(level - 1);
        proof {
            lemma_block_size_bounds(level - 1);
            lemma_half_position(off as int, half as int);
            if off % ((2 * half) as usize) == 0 {
                lemma_bit_top(off as u64, half as u64);
            } else {
                lemma_bit_parent((off - half) as u64, half as u64);
            }
        }
        ((off as u64) & !(2 * (half as u64) - 1)) as usize
    }

    /// The address handed to the user of the block at `addr`: past the
    /// header, or past the alignment where that is larger.
    pub fn conceal(addr: usize, align: usize) -> (mem: usize)
        requires
            addr + header_offset_spec(align as int) <= usize::MAX,
        ensures
            mem == addr + header_offset_spec(align as int),
    {
        addr + header_offset(align)
    }

    /// The address of the block whose user memory starts at `mem`.
    pub fn magic(mem: usize, align: usize) -> (addr: usize)
        requires
            mem >= header_offset_spec(align as int),
        ensures
            addr == mem - header_offset_spec(align as int),
    {
        mem - header_offset(align)
    }
}

} // verus!
