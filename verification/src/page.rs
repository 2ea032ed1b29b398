//! Page-granular address arithmetic, and the bump allocator that hands out
//! the frames for the page tables.

use vstd::prelude::*;
use memory_addr::{align_down_4k, align_up_4k, PageIter, PhysAddr, PAGE_SIZE_4K};

verus! {

/// Size of the RAM in bytes (2 MiB).
pub const RAM_SIZE: usize = 2097152;

/// The largest multiple of 4096 that is not above `addr`.
pub open spec fn page_floor(addr: int) -> int {
    addr - addr % 4096
}

/// The smallest multiple of 4096 that is not below `addr`.
pub open spec fn page_ceil(addr: int) -> int {
    page_floor(addr + 4095)
}

/// `memory_addr::align_down_4k` masks off the low twelve bits of the
/// address, which rounds it down to a multiple of 4096.
pub assume_specification[ memory_addr::align_down_4k ](addr: usize) -> (r: usize)
    ensures
        r == page_floor(addr as int),
;

/// `memory_addr::align_up_4k` adds 4096 to the address, takes 1 away and
/// masks off the low twelve bits, which rounds the address up to a multiple
/// of 4096. The sum of the address and 4096 must fit a machine word: the
/// addition comes first and overflows otherwise.
pub assume_specification[ memory_addr::align_up_4k ](addr: usize) -> (r: usize)
    requires
        addr + 4096 <= usize::MAX,
    ensures
        r == page_ceil(addr as int),
;

/// The `n`-th page of the range from `start` to `end`, as
/// `memory_addr::PageIter` walks it: the iterator starts at `start`, steps
/// by 4096 and stops before `end`. Both bounds must be multiples of 4096,
/// or the iterator cannot be made.
#[verifier::external_body]
fn nth_page(start: usize, end: usize, n: usize) -> (r: Option<usize>)
    requires
        start % 4096 == 0,
        end % 4096 == 0,
    ensures
        r == nth_page_spec(start as int, end as int, n as int),
{
    let mut pages = PageIter::<PAGE_SIZE_4K, PhysAddr>::new(
        PhysAddr::from_usize(start),
        PhysAddr::from_usize(end),
    ).unwrap();
    match pages.nth(n) {
        Some(page) => Some(page.as_usize()),
        None => None,
    }
}

/// The `n`-th page from `start`, where it begins before `end`.
pub open spec fn nth_page_spec(start: int, end: int, n: int) -> Option<usize> {
    if start + n * 4096 < end {
        Some((start + n * 4096) as usize)
    } else {
        None
    }
}

/// The page-aligned range that covers the bytes from `start` to `end`:
/// its first address and its length.
pub fn section_span(start: usize, end: usize) -> (r: (usize, usize))
    requires
        end + 4096 <= usize::MAX,
        page_floor(start as int) <= page_ceil(end as int),
    ensures
        r.0 == page_floor(start as int),
        r.1 == page_ceil(end as int) - page_floor(start as int),
{
    let first = align_down_4k(start);
    let last = align_up_4k(end);
    (first, last - first)
}

/// The page-aligned range that covers `size` bytes from the page that
/// holds `start`: its first address and its length.
pub fn section_span_sized(start: usize, size: usize) -> (r: (usize, usize))
    requires
        page_floor(start as int) + size + 4096 <= usize::MAX,
    ensures
        r.0 == page_floor(start as int),
        r.1 == page_ceil(page_floor(start as int) + size) - page_floor(start as int),
{
    let first = align_down_4k(start);
    let last = align_up_4k(first + size);
    (first, last - first)
}

/// A bump allocator over the frames of a physical range: it hands out the
/// pages of the range in order and never takes one back.
pub struct FrameAllocator {
    start: usize,
    end: usize,
    next: usize,
}

impl FrameAllocator {
    /// First address of the range.
    pub closed spec fn start(&self) -> int {
        self.start as int
    }

    /// One past the last address of the range.
    pub closed spec fn end(&self) -> int {
        self.end as int
    }

    /// How many frames were asked for so far.
    pub closed spec fn handed_out(&self) -> int {
        self.next as int
    }

    /// An allocator over the `size` bytes from `start`, with no frame
    /// handed out yet.
    pub fn init(start: usize, size: usize) -> (a: Self)
        requires
            start + size <= usize::MAX,
        ensures
            a.start() == start,
            a.end() == start + size,
            a.handed_out() == 0,
    {
        FrameAllocator { start: start, end: start + size, next: 0 }
    }

    /// Hands out the next frame of the range, or `None` once the range is
    /// used up. Every call counts, also one that fails.
    pub fn alloc_frame(&mut self) -> (r: Option<usize>)
        requires
            old(self).start() % 4096 == 0,
            old(self).end() % 4096 == 0,
            old(self).handed_out() < usize::MAX,
        ensures
            r == nth_page_spec(old(self).start(), old(self).end(), old(self).handed_out()),
            final(self).start() == old(self).start(),
            final(self).end() == old(self).end(),
            final(self).handed_out() == old(self).handed_out() + 1,
    {
        let frame = nth_page(self.start, self.end, self.next);
        self.next = self.next + 1;
        frame
    }

    /// Frames are never taken back: this does nothing.
    pub fn dealloc_frame(&mut self, paddr: usize)
        ensures
            *final(self) == *old(self),
    {
    }

    /// Physical memory is mapped at its own addresses.
    pub fn phys_to_virt(paddr: usize) -> (vaddr: usize)
        ensures
            vaddr == paddr,
    {
        paddr
    }

    /// Whether `alloc_frame` may be called: both bounds are page-aligned
    /// and the count of calls can still grow.
    pub fn can_alloc(&self) -> (r: bool)
        ensures
            r == (self.start() % 4096 == 0 && self.end() % 4096 == 0 && self.handed_out() < usize::MAX),
    {
        self.start % 4096 == 0 && self.end % 4096 == 0 && self.next < usize::MAX
    }
}

} // verus!
