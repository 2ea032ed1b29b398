//! Size classes and the arithmetic of power-of-two blocks.

use vstd::prelude::*;

verus! {

/// log2 of the smallest block size.
pub const MIN: u8 = 5;

/// Number of size classes.
pub const LEVELS: u8 = 10;

/// Bytes in a block of level 0.
pub const MIN_BYTES: usize = 32;

/// Bytes in a block of the highest level.
pub const MAX_BYTES: usize = 16384;

/// Bytes reserved at the start of every block for its header.
pub const HEADER_BYTES: usize = 24;

/// Bytes in a block of the given level: `MIN_BYTES * 2^level`.
pub open spec fn block_size(level: int) -> int
    decreases level,
{
    if level <= 0 {
        32
    } else {
        2 * block_size(level - 1)
    }
}

/// A value with exactly one bit set.
pub open spec fn one_bit(b: u64) -> bool {
    b != 0 && b & ((b - 1) as u64) == 0
}

/// Block sizes grow with the level and stay within the largest class.
pub proof fn lemma_block_size_bounds(level: int)
    requires
        0 <= level < LEVELS,
    ensures
        32 <= block_size(level) <= 16384,
        block_size(level) % 32 == 0,
        level < LEVELS - 1 ==> block_size(level + 1) == 2 * block_size(level),
        level < LEVELS - 1 ==> block_size(level + 1) <= 16384,
        one_bit(block_size(level) as u64),
    decreases level,
{
    if level > 0 {
        lemma_block_size_bounds(level - 1);
        let h = block_size(level - 1) as u64;
        let b = block_size(level) as u64;
        reveal_with_fuel(block_size, 11);
        assert(b == 2 * h);
        assert(h <= 16384 && one_bit(h) && b == 2 * h ==> one_bit(b)) by (bit_vector);
    } else {
        assert(one_bit(32u64)) by (bit_vector);
    }
    reveal_with_fuel(block_size, 11);
}

/// The size of a block of `level` is the bit `level + MIN` alone.
pub proof fn lemma_block_size_shift(level: u64)
    requires
        level < LEVELS,
    ensures
        block_size(level as int) == 1u64 << ((level + 5) as u64),
    decreases level,
{
    if level == 0 {
        assert(1u64 << 5u64 == 32) by (bit_vector);
    } else {
        lemma_block_size_shift((level - 1) as u64);
        let k = (level - 1) as u64;
        assert(1u64 << ((k + 6) as u64) == 2 * (1u64 << ((k + 5) as u64))) by (bit_vector)
            requires
                k < 10,
        ;
    }
}

/// Bit arithmetic on the halves of a block: with `o` aligned to `2 * b`,
/// setting or flipping bit `b` adds `b`, and flipping it again takes it away.
pub proof fn lemma_bit_halves(o: u64, b: u64)
    requires
        one_bit(b),
        b <= 16384,
        o % ((2 * b) as u64) == 0,
        o <= u64::MAX - b,
    ensures
        o | b == o + b,
        o ^ b == o + b,
        ((o + b) as u64) ^ b == o,
        ((o + b) as u64) ^ o == b,
        o & b == 0,
{
    assert(o | b == o + b && o ^ b == o + b && ((o + b) as u64) ^ b == o && ((o + b) as u64) ^ o == b && o & b
        == 0) by (bit_vector)
        requires
            one_bit(b),
            b <= 16384,
            o % ((2 * b) as u64) == 0,
            o <= (u64::MAX - b) as u64,
    ;
}

/// Clearing the bits below `2 * h` takes either half of a block aligned to
/// `2 * h` back to the block's start.
pub proof fn lemma_bit_parent(p: u64, h: u64)
    requires
        one_bit(h),
        h <= 16384,
        p % ((2 * h) as u64) == 0,
        p <= u64::MAX - h,
    ensures
        p & !((2 * h - 1) as u64) == p,
        ((p + h) as u64) & !((2 * h - 1) as u64) == p,
{
    assert(p & !((2 * h - 1) as u64) == p && ((p + h) as u64) & !((2 * h - 1) as u64) == p) by (bit_vector)
        requires
            one_bit(h),
            h <= 16384,
            p % ((2 * h) as u64) == 0,
            p <= (u64::MAX - h) as u64,
    ;
}

/// Masking a value already aligned to `2 * h`, close to the top of the word.
pub proof fn lemma_bit_top(o: u64, h: u64)
    requires
        one_bit(h),
        h <= 16384,
        o % ((2 * h) as u64) == 0,
    ensures
        o & !((2 * h - 1) as u64) == o,
{
    assert(o & !((2 * h - 1) as u64) == o) by (bit_vector)
        requires
            one_bit(h),
            h <= 16384,
            o % ((2 * h) as u64) == 0,
    ;
}

/// The two halves of a block aligned to `2 * b` are each aligned to `b`.
pub proof fn lemma_halves_aligned(o: int, b: int)
    requires
        b > 0,
        o >= 0,
        o % (2 * b) == 0,
    ensures
        o % b == 0,
        (o + b) % b == 0,
        (o + b) % (2 * b) == b,
{
    assert(o % b == 0 && (o + b) % b == 0 && (o + b) % (2 * b) == b) by (nonlinear_arith)
        requires
            b > 0,
            o >= 0,
            o % (2 * b) == 0,
    {
        let q = o / (2 * b);
        assert(o == (2 * b) * q);
        assert(o == b * (2 * q));
        vstd::arithmetic::div_mod::lemma_fundamental_div_mod_converse(o, b, 2 * q, 0);
        vstd::arithmetic::div_mod::lemma_fundamental_div_mod_converse(o + b, b, 2 * q + 1, 0);
        vstd::arithmetic::div_mod::lemma_fundamental_div_mod_converse(o + b, 2 * b, q, b);
    }
}

/// A block aligned to `b` is the lower or the upper half of its parent.
pub proof fn lemma_half_position(o: int, b: int)
    requires
        b > 0,
        o >= 0,
        o % b == 0,
    ensures
        o % (2 * b) == 0 || o % (2 * b) == b,
        o % (2 * b) == b ==> o >= b && (o - b) % (2 * b) == 0,
{
    assert((o % (2 * b) == 0 || o % (2 * b) == b) && (o % (2 * b) == b ==> o >= b && (o - b) % (2 * b)
        == 0)) by (nonlinear_arith)
        requires
            b > 0,
            o >= 0,
            o % b == 0,
    {
        let k = o / b;
        assert(o == b * k);
        let q = k / 2;
        if k % 2 == 0 {
            assert(k == 2 * q);
            assert(o == (2 * b) * q);
            vstd::arithmetic::div_mod::lemma_fundamental_div_mod_converse(o, 2 * b, q, 0);
        } else {
            assert(k == 2 * q + 1);
            assert(o == (2 * b) * q + b);
            assert(q >= 0);
            vstd::arithmetic::div_mod::lemma_fundamental_div_mod_converse(o, 2 * b, q, b);
            assert(o - b == (2 * b) * q);
            vstd::arithmetic::div_mod::lemma_fundamental_div_mod_converse(o - b, 2 * b, q, 0);
        }
    }
}

/// Rounding down to a multiple of `b` and then of `2 * b` is rounding down
/// to a multiple of `2 * b`.
pub proof fn lemma_round_down_twice(x: int, b: int)
    requires
        b > 0,
        x >= 0,
    ensures
        (x - x % b) % b == 0,
        (x - x % b) - (x - x % b) % (2 * b) == x - x % (2 * b),
        x - x % b >= 0,
{
    let q = x / (2 * b);
    let r = x % (2 * b);
    assert(x == (2 * b) * q + r && 0 <= r < 2 * b && q >= 0) by (nonlinear_arith)
        requires
            b > 0,
            x >= 0,
            q == x / (2 * b),
            r == x % (2 * b),
    ;
    if r < b {
        assert(x == b * (2 * q) + r) by (nonlinear_arith)
            requires
                x == (2 * b) * q + r,
        ;
        vstd::arithmetic::div_mod::lemma_fundamental_div_mod_converse(x, b, 2 * q, r);
        assert(x - r == b * (2 * q) + 0);
        vstd::arithmetic::div_mod::lemma_fundamental_div_mod_converse(x - r, b, 2 * q, 0);
        assert(x - r == q * (2 * b) + 0) by (nonlinear_arith)
            requires
                x == (2 * b) * q + r,
        ;
        vstd::arithmetic::div_mod::lemma_fundamental_div_mod_converse(x - r, 2 * b, q, 0);
    } else {
        assert(x == b * (2 * q + 1) + (r - b)) by (nonlinear_arith)
            requires
                x == (2 * b) * q + r,
        ;
        vstd::arithmetic::div_mod::lemma_fundamental_div_mod_converse(x, b, 2 * q + 1, r - b);
        assert(x - (r - b) == b * (2 * q + 1) + 0);
        vstd::arithmetic::div_mod::lemma_fundamental_div_mod_converse(x - (r - b), b, 2 * q + 1, 0);
        assert(x - (r - b) == q * (2 * b) + b) by (nonlinear_arith)
            requires
                x == (2 * b) * q + r,
        ;
        vstd::arithmetic::div_mod::lemma_fundamental_div_mod_converse(x - (r - b), 2 * b, q, b);
    }
}

/// The block of `level` that holds the byte at offset `off`.
pub open spec fn ancestor(off: int, level: int) -> int {
    off - off % block_size(level)
}

/// The other half of the parent of the block of `level` at `off`.
pub open spec fn buddy_of(off: int, level: int) -> int {
    if off % (2 * block_size(level)) == 0 {
        off + block_size(level)
    } else {
        off - block_size(level)
    }
}

/// An offset aligned to the block size of a level is aligned to that of
/// every level below.
pub proof fn lemma_aligned_down(off: int, high: int, low: int)
    requires
        0 <= low <= high,
        off >= 0,
        off % block_size(high) == 0,
    ensures
        off % block_size(low) == 0,
    decreases high - low,
{
    if low < high {
        lemma_block_size_monotonic(0, high - 1);
        lemma_halves_aligned(off, block_size(high - 1));
        lemma_aligned_down(off, high - 1, low);
    }
}

/// The buddy of a block's buddy is the block itself.
pub proof fn lemma_buddy_symmetric(off: int, level: int)
    requires
        0 <= level,
        off >= 0,
        off % block_size(level) == 0,
    ensures
        buddy_of(off, level) >= 0,
        buddy_of(off, level) != off,
        buddy_of(off, level) % block_size(level) == 0,
        buddy_of(buddy_of(off, level), level) == off,
{
    lemma_block_size_monotonic(0, level);
    let b = block_size(level);
    lemma_half_position(off, b);
    if off % (2 * b) == 0 {
        lemma_halves_aligned(off, b);
    } else {
        lemma_halves_aligned(off - b, b);
    }
}

/// Two multiples of `b` that differ are at least `b` apart.
pub proof fn lemma_multiples_gap(a: int, c: int, b: int)
    requires
        b > 0,
        a >= 0,
        a < c,
        a % b == 0,
        c % b == 0,
    ensures
        a + b <= c,
{
    vstd::arithmetic::div_mod::lemma_fundamental_div_mod(a, b);
    vstd::arithmetic::div_mod::lemma_fundamental_div_mod(c, b);
    assert(a + b <= c) by (nonlinear_arith)
        requires
            b > 0,
            a < c,
            a == b * (a / b),
            c == b * (c / b),
    ;
}

/// Block sizes never shrink as the level grows.
pub proof fn lemma_block_size_monotonic(i: int, j: int)
    requires
        0 <= i <= j,
    ensures
        0 < block_size(i) <= block_size(j),
    decreases j,
{
    if i < j {
        lemma_block_size_monotonic(i, j - 1);
    } else if j > 0 {
        lemma_block_size_monotonic(0, j - 1);
    }
}

/// The level's block size as a machine word, doubled up from the smallest.
pub fn block_bytes(level: u8) -> (b: usize)
    requires
        level < LEVELS,
    ensures
        b == block_size(level as int),
        32 <= b <= 16384,
{
    let mut b: usize = MIN_BYTES;
    let mut i: u8 = 0;
    while i < level
        invariant
            i <= level < LEVELS,
            b == block_size(i as int),
        decreases level - i,
    {
        proof {
            lemma_block_size_bounds(i as int);
        }
        b = 2 * b;
        i = i + 1;
    }
    proof {
        lemma_block_size_bounds(level as int);
    }
    b
}

/// Bytes between the start of a block and the memory handed to its user:
/// room for the header, or the alignment where that is larger.
pub open spec fn header_offset_spec(align: int) -> int {
    if align > 24 {
        align
    } else {
        24
    }
}

/// The header reservation for a request at alignment `align`.
pub fn header_offset(align: usize) -> (off: usize)
    ensures
        off == header_offset_spec(align as int),
{
    if align > HEADER_BYTES {
        align
    } else {
        HEADER_BYTES
    }
}

/// `level` is the smallest size class whose block holds `total` bytes.
pub open spec fn is_level_for(total: int, level: int) -> bool {
    &&& 0 <= level
    &&& total <= block_size(level)
    &&& level > 0 ==> block_size(level - 1) < total
}

/// The smallest size class whose block holds `req` bytes and a header,
/// found by doubling from the smallest block size.
pub fn level(req: usize) -> (i: usize)
    ensures
        is_level_for(req + HEADER_BYTES, i as int),
{
    let total: u128 = req as u128 + 24;
    let mut i: usize = 0;
    let mut size: u128 = 32;
    while total > size
        invariant
            total == req + 24,
            size == block_size(i as int),
            32 * (i + 1) <= size,
            i > 0 ==> block_size(i - 1) < total,
        decreases 2 * total - size,
    {
        size = 2 * size;
        i = i + 1;
    }
    i
}

/// The size class for a request of `size` bytes at alignment `align`, where
/// one exists.
pub fn request_level(size: usize, align: usize) -> (r: Option<usize>)
    ensures
        match r {
            Some(l) => l < LEVELS && is_level_for(size + header_offset_spec(align as int), l as int),
            None => size + header_offset_spec(align as int) > MAX_BYTES,
        },
{
    let off = header_offset(align);
    if off > MAX_BYTES || size > MAX_BYTES - off {
        return None;
    }
    let l = level(size + (off - HEADER_BYTES));
    proof {
        if l >= 10 {
            lemma_block_size_monotonic(9, l - 1);
            reveal_with_fuel(block_size, 11);
            assert(block_size(9) == 16384);
        }
    }
    Some(l)
}

/// The size mapping never decreases as the request grows.
pub proof fn lemma_level_monotonic(small: int, large: int, l_small: int, l_large: int)
    requires
        small <= large,
        is_level_for(small, l_small),
        is_level_for(large, l_large),
    ensures
        l_small <= l_large,
{
    if l_small > l_large {
        lemma_block_size_monotonic(l_large, l_small - 1);
    }
}

/// A request has one size class only.
pub proof fn lemma_level_unique(total: int, a: int, b: int)
    requires
        is_level_for(total, a),
        is_level_for(total, b),
    ensures
        a == b,
{
    lemma_level_monotonic(total, total, a, b);
    lemma_level_monotonic(total, total, b, a);
}

} // verus!
