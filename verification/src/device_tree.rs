//! Decoding the `reg` property of a device-tree node: an address and a
//! size, each one or two big-endian 32-bit cells wide.

use vstd::prelude::*;

verus! {

/// The four bytes of `b` from `at` on, read as a big-endian number.
pub open spec fn be32(b: Seq<u8>, at: int) -> int {
    b[at] * 16777216 + b[at + 1] * 65536 + b[at + 2] * 256 + b[at + 3]
}

/// The eight bytes of `b` from `at` on, read as a big-endian number.
pub open spec fn be64(b: Seq<u8>, at: int) -> int {
    be32(b, at) * 4294967296 + be32(b, at + 4)
}

/// The value of a field of `cells` cells that starts at byte `at`; `None`
/// where the width is neither one cell nor two.
pub open spec fn cell_value(b: Seq<u8>, at: int, cells: int) -> Option<int> {
    if cells == 1 {
        Some(be32(b, at))
    } else if cells == 2 {
        Some(be64(b, at))
    } else {
        None
    }
}

/// What `read_reg_from_cells` returns: nothing where the property has
/// fewer bytes than the two fields have cells, or a width is unsupported,
/// or a value does not fit a machine word; else the address and the size.
pub open spec fn reg_value(b: Seq<u8>, address_cells: int, size_cells: int) -> Option<(usize, usize)> {
    if b.len() < address_cells + size_cells {
        None
    } else {
        match (cell_value(b, 0, address_cells), cell_value(b, address_cells * 4, size_cells)) {
            (Some(a), Some(s)) => if a <= usize::MAX && s <= usize::MAX {
                Some((a as usize, s as usize))
            } else {
                None
            },
            _ => None,
        }
    }
}

/// The property is long enough for every byte that decoding it reads.
pub open spec fn reg_readable(len: int, address_cells: int, size_cells: int) -> bool {
    len >= address_cells + size_cells && 1 <= address_cells <= 2 ==> {
        &&& len >= address_cells * 4
        &&& 1 <= size_cells <= 2 ==> len >= address_cells * 4 + size_cells * 4
    }
}

fn read_be32(b: &[u8], at: usize) -> (v: u32)
    requires
        at + 4 <= b@.len(),
    ensures
        v == be32(b@, at as int),
{
    let b0: u32 = b[at] as u32;
    let b1: u32 = b[at + 1] as u32;
    let b2: u32 = b[at + 2] as u32;
    let b3: u32 = b[at + 3] as u32;
    b0 * 16777216 + b1 * 65536 + b2 * 256 + b3
}

/// The number of cells that a `#address-cells` or `#size-cells` property
/// gives: its value read as one big-endian cell, or 0 where the value is
/// not four bytes long.
pub fn cell_count(value: &[u8]) -> (n: u32)
    ensures
        n == (if value@.len() == 4 {
            be32(value@, 0)
        } else {
            0
        }),
{
    if value.len() == 4 {
        read_be32(value, 0)
    } else {
        0
    }
}

fn read_cells(b: &[u8], at: usize, cells: u32) -> (v: Option<u64>)
    requires
        1 <= cells <= 2 ==> at + cells * 4 <= b@.len(),
        b@.len() <= usize::MAX,
    ensures
        match v {
            Some(x) => cell_value(b@, at as int, cells as int) == Some(x as int),
            None => cell_value(b@, at as int, cells as int) is None,
        },
{
    if cells == 1 {
        Some(read_be32(b, at) as u64)
    } else if cells == 2 {
        let hi: u64 = read_be32(b, at) as u64;
        let lo: u64 = read_be32(b, at + 4) as u64;
        Some(hi * 4294967296 + lo)
    } else {
        None
    }
}

fn to_word(v: u64) -> (r: Option<usize>)
    ensures
        v <= usize::MAX ==> r == Some(v as usize),
        v > usize::MAX ==> r is None,
{
    if v <= usize::MAX as u64 {
        Some(v as usize)
    } else {
        None
    }
}

/// Reads the `reg` property by the widths that the parent node gives for
/// addresses and sizes.
pub fn read_reg_from_cells(reg: &[u8], address_cells: u32, size_cells: u32) -> (r: Option<(usize, usize)>)
    requires
        reg_readable(reg@.len() as int, address_cells as int, size_cells as int),
    ensures
        r == reg_value(reg@, address_cells as int, size_cells as int),
{
    if (reg.len() as u64) < address_cells as u64 + size_cells as u64 {
        return None;
    }
    let address = match read_cells(reg, 0, address_cells) {
        Some(a) => a,
        None => {
            return None;
        },
    };
    let size = match read_cells(reg, address_cells as usize * 4, size_cells) {
        Some(s) => s,
        None => {
            return None;
        },
    };
    match (to_word(address), to_word(size)) {
        (Some(a), Some(s)) => Some((a, s)),
        _ => None,
    }
}

/// Whether `read_reg_from_cells` may be called on a property of `len`
/// bytes with these widths.
pub fn reg_is_readable(len: usize, address_cells: u32, size_cells: u32) -> (r: bool)
    ensures
        r == reg_readable(len as int, address_cells as int, size_cells as int),
{
    if (len as u64) < address_cells as u64 + size_cells as u64 || address_cells < 1 || address_cells > 2 {
        return true;
    }
    if len < address_cells as usize * 4 {
        return false;
    }
    if size_cells < 1 || size_cells > 2 {
        return true;
    }
    len >= address_cells as usize * 4 + size_cells as usize * 4
}

} // verus!
