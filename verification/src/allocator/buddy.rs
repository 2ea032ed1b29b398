//! The buddy allocator: a table of free lists, one per size class, threaded
//! through the headers of the free blocks themselves.
//!
//! The heap is modelled as an arena of 32-byte granules, each with a header
//! slot. Links between headers are byte offsets from the start of the heap.

use vstd::prelude::*;
use crate::allocator::layout::{
    ancestor, block_bytes, block_size, buddy_of, header_offset, header_offset_spec, is_level_for,
    lemma_aligned_down, lemma_block_size_bounds, lemma_block_size_monotonic, lemma_buddy_symmetric, lemma_half_position, lemma_halves_aligned,
    lemma_level_unique, lemma_multiples_gap, lemma_round_down_twice, request_level, LEVELS, MAX_BYTES,
};
use crate::allocator::node::{Flag, ListNode};

verus! {

/// A buddy allocator over one contiguous heap.
pub struct BuddyAllocator {
    /// Address of the first byte of the heap.
    heap_start: usize,
    /// Bytes in the heap.
    heap_size: usize,
    /// The table of free lists: for each level the offset of the block at
    /// the head of its list.
    list_heads: Vec<Option<usize>>,
    /// The header slots, one for each granule of 32 bytes.
    nodes: Vec<ListNode>,
    /// The free lists as sequences of offsets, head first.
    lists: Ghost<Seq<Seq<usize>>>,
}

impl BuddyAllocator {
    /// Address of the first byte of the heap.
    pub closed spec fn start(&self) -> int {
        self.heap_start as int
    }

    /// Bytes handed to the allocator.
    pub closed spec fn size(&self) -> int {
        self.heap_size as int
    }

    /// Bytes covered by whole granules: the heap size rounded down to 32.
    pub closed spec fn extent(&self) -> int {
        32 * (self.nodes@.len() as int)
    }

    /// The header slot of the granule at byte offset `off`.
    pub closed spec fn hdr(&self, off: int) -> ListNode {
        self.nodes@[off / 32]
    }

    /// The offsets of the free blocks of `level`, head of the list first.
    pub closed spec fn free_list(&self, level: int) -> Seq<usize> {
        self.lists@[level]
    }

    /// `off` is the offset of a granule of the heap.
    pub open spec fn valid_off(&self, off: int) -> bool {
        0 <= off < self.extent() && off % 32 == 0
    }

    /// A block, free or taken, starts at `off`.
    pub open spec fn is_block(&self, off: int) -> bool {
        self.valid_off(off) && self.hdr(off).flag != Flag::Inner
    }

    /// A free block starts at `off`.
    pub open spec fn is_free(&self, off: int) -> bool {
        self.valid_off(off) && self.hdr(off).flag == Flag::Free
    }

    /// A block held by a caller starts at `off`.
    pub open spec fn is_taken(&self, off: int) -> bool {
        self.valid_off(off) && self.hdr(off).flag == Flag::Taken
    }

    /// The size class recorded in the header at `off`.
    pub open spec fn level_at(&self, off: int) -> int {
        self.hdr(off).level as int
    }

    /// One past the last byte of the block that starts at `off`.
    pub open spec fn block_end(&self, off: int) -> int {
        off + block_size(self.level_at(off))
    }

    /// Every list of the table is empty.
    pub open spec fn all_lists_empty(&self) -> bool {
        forall|l: int| 0 <= l < LEVELS ==> (#[trigger] self.free_list(l)).len() == 0
    }

    /// No list of a level from `from` up holds a block.
    pub open spec fn exhausted_from(&self, from: int) -> bool {
        forall|l: int| from <= l < LEVELS ==> (#[trigger] self.free_list(l)).len() == 0
    }

    spec fn shape_ok(&self) -> bool {
        &&& self.list_heads@.len() == LEVELS
        &&& self.lists@.len() == LEVELS
        &&& self.nodes@.len() == self.heap_size / 32
        &&& self.heap_start + self.heap_size <= usize::MAX
    }

    /// The block at `off` has a level of the table, is aligned to its size
    /// and ends inside the heap.
    spec fn block_ok(&self, off: int) -> bool {
        &&& self.level_at(off) < LEVELS
        &&& off % block_size(self.level_at(off)) == 0
        &&& self.block_end(off) <= self.extent()
    }

    /// The header of the `i`-th block of the list of level `l` is marked
    /// free at that level and linked to its neighbours.
    spec fn link_ok(&self, l: int, i: int) -> bool {
        let list = self.lists@[l];
        let off = list[i] as int;
        let n = self.hdr(off);
        &&& self.valid_off(off)
        &&& n.flag == Flag::Free
        &&& n.level == l
        &&& n.next == (if i + 1 < list.len() {
            Some(list[i + 1])
        } else {
            None
        })
        &&& n.prev == (if i > 0 {
            Some(list[i - 1])
        } else {
            None
        })
    }

    spec fn head_ok(&self, l: int) -> bool {
        self.list_heads@[l] == (if self.lists@[l].len() > 0 {
            Some(self.lists@[l][0])
        } else {
            None
        })
    }

    spec fn blocks_ok(&self) -> bool {
        forall|off: int| self.valid_off(off) && (#[trigger] self.hdr(off)).flag != Flag::Inner ==> self.block_ok(off)
    }

    spec fn disjoint_ok(&self) -> bool {
        forall|a: int, b: int|
            self.valid_off(a) && self.valid_off(b) && (#[trigger] self.hdr(a)).flag != Flag::Inner && (
            #[trigger] self.hdr(b)).flag != Flag::Inner && a < b ==> self.block_end(a) <= b
    }

    spec fn links_ok(&self) -> bool {
        forall|l: int, i: int| 0 <= l < LEVELS && 0 <= i < self.lists@[l].len() ==> #[trigger] self.link_ok(l, i)
    }

    spec fn heads_ok(&self) -> bool {
        forall|l: int| 0 <= l < LEVELS ==> #[trigger] self.head_ok(l)
    }

    spec fn listed_ok(&self) -> bool {
        forall|off: int|
            self.valid_off(off) && (#[trigger] self.hdr(off)).flag == Flag::Free ==> self.lists@[self.level_at(
                off,
            )].contains(off as usize)
    }

    spec fn distinct_ok(&self) -> bool {
        forall|l: int| 0 <= l < LEVELS ==> (#[trigger] self.lists@[l]).no_duplicates()
    }

    /// The block of `level` at `off` can merge: its buddy is a free block
    /// of the same level, and a level above exists.
    pub open spec fn mergeable(&self, off: int, level: int) -> bool {
        &&& 0 <= level < LEVELS - 1
        &&& self.is_free(buddy_of(off, level))
        &&& self.level_at(buddy_of(off, level)) == level
    }

    spec fn merged_ok(&self) -> bool {
        forall|off: int|
            self.valid_off(off) && (#[trigger] self.hdr(off)).flag == Flag::Free ==> !self.mergeable(
                off,
                self.level_at(off),
            )
    }

    /// The allocator's invariant: every block is aligned to its size and
    /// lies in the heap, no two blocks overlap, the free blocks of each
    /// level are exactly the blocks linked into that level's list, and no
    /// free block has a free buddy of its own level left to merge with.
    pub closed spec fn wf(&self) -> bool {
        &&& self.shape_ok()
        &&& self.blocks_ok()
        &&& self.disjoint_ok()
        &&& self.links_ok()
        &&& self.heads_ok()
        &&& self.listed_ok()
        &&& self.distinct_ok()
        &&& self.merged_ok()
    }

    /// A state whose free blocks are free blocks of another, at the same
    /// levels, has no mergeable pair where the other has none.
    proof fn lemma_merged_subset(pre: Self, post: Self)
        requires
            pre.merged_ok(),
            post.extent() == pre.extent(),
            forall|o: int|
                pre.valid_off(o) && (#[trigger] post.hdr(o)).flag == Flag::Free ==> pre.hdr(o).flag
                    == Flag::Free && post.hdr(o).level == pre.hdr(o).level,
        ensures
            post.merged_ok(),
    {
        assert forall|o: int| post.valid_off(o) && (#[trigger] post.hdr(o)).flag == Flag::Free implies !post.mergeable(
            o,
            post.level_at(o),
        ) by {
            let l = post.level_at(o);
            let b = buddy_of(o, l);
            assert(pre.hdr(o).flag == Flag::Free);
            if post.mergeable(o, l) {
                assert(post.hdr(b).flag == Flag::Free);
                assert(pre.hdr(b).flag == Flag::Free);
                assert(pre.mergeable(o, l));
            }
        }
    }

    /// Creates an allocator that manages no memory yet.
    pub fn new() -> (a: Self)
        ensures
            a.wf(),
            a.extent() == 0,
            a.size() == 0,
            a.all_lists_empty(),
    {
        let mut heads: Vec<Option<usize>> = Vec::new();
        let mut l: u8 = 0;
        while l < LEVELS
            invariant
                l <= LEVELS,
                heads@.len() == l,
                forall|j: int| 0 <= j < l ==> heads@[j] == None::<usize>,
            decreases LEVELS - l,
        {
            heads.push(None);
            l = l + 1;
        }
        let a = BuddyAllocator {
            heap_start: 0,
            heap_size: 0,
            list_heads: heads,
            nodes: Vec::new(),
            lists: Ghost(Seq::new(10, |l: int| Seq::<usize>::empty())),
        };
        proof {
            assert forall|l: int| 0 <= l < LEVELS implies #[trigger] a.head_ok(l) by {}
            assert forall|l: int| 0 <= l < LEVELS implies (#[trigger] a.lists@[l]).no_duplicates() by {}
        }
        a
    }

    /// Two states with the same granules whose blocks start at the same
    /// places with the same levels are both free of overlap.
    proof fn lemma_same_blocks(pre: Self, post: Self)
        requires
            pre.blocks_ok(),
            pre.disjoint_ok(),
            post.extent() == pre.extent(),
            forall|o: int|
                pre.valid_off(o) && (#[trigger] post.hdr(o)).flag != Flag::Inner ==> pre.hdr(o).flag
                    != Flag::Inner && post.hdr(o).level == pre.hdr(o).level,
        ensures
            post.blocks_ok(),
            post.disjoint_ok(),
    {
        assert forall|o: int| post.valid_off(o) && (#[trigger] post.hdr(o)).flag != Flag::Inner implies post.block_ok(
            o,
        ) by {
            assert(pre.block_ok(o));
        }
        assert forall|a: int, b: int|
            post.valid_off(a) && post.valid_off(b) && (#[trigger] post.hdr(a)).flag != Flag::Inner && (
            #[trigger] post.hdr(b)).flag != Flag::Inner && a < b implies post.block_end(a) <= b by {
            assert(pre.hdr(a).flag != Flag::Inner && pre.hdr(b).flag != Flag::Inner);
            assert(pre.block_end(a) <= b);
        }
    }

    /// What `unlink` leaves: the header at `off` taken, its neighbours
    /// joined, the list without its `i`-th block.
    spec fn unlinked(pre: Self, post: Self, off: usize, i: int) -> bool {
        let l = pre.level_at(off as int);
        let n = pre.hdr(off as int);
        &&& post.heap_start == pre.heap_start
        &&& post.heap_size == pre.heap_size
        &&& post.nodes@.len() == pre.nodes@.len()
        &&& post.lists@ == pre.lists@.update(l, pre.lists@[l].remove(i))
        &&& post.list_heads@ == (if n.prev is None {
            pre.list_heads@.update(l, n.next)
        } else {
            pre.list_heads@
        })
        &&& forall|o: int|
            pre.valid_off(o) ==> #[trigger] post.hdr(o) == (if o == off {
                ListNode { flag: Flag::Taken, level: n.level, next: None, prev: None }
            } else if n.prev == Some(o as usize) {
                ListNode { next: n.next, ..pre.hdr(o) }
            } else if n.next == Some(o as usize) {
                ListNode { prev: n.prev, ..pre.hdr(o) }
            } else {
                pre.hdr(o)
            })
    }

    proof fn lemma_unlink_links(pre: Self, post: Self, off: usize, i: int)
        requires
            0 <= pre.level_at(off as int) < LEVELS,
            pre.shape_ok(),
            pre.is_free(off as int),
            0 <= i < pre.lists@[pre.level_at(off as int)].len(),
            pre.lists@[pre.level_at(off as int)][i] == off,
            Self::unlinked(pre, post, off, i),
            pre.links_ok(),
            pre.distinct_ok(),
        ensures
            post.links_ok(),
    {
        let l = pre.level_at(off as int);
        let list = pre.lists@[l];
        let new_list = list.remove(i);
        assert(pre.link_ok(l, i));
        assert(list.no_duplicates());
        if i > 0 {
            assert(pre.link_ok(l, i - 1));
        }
        if i + 1 < list.len() {
            assert(pre.link_ok(l, i + 1));
        }
        assert forall|k: int, j: int| 0 <= k < LEVELS && 0 <= j < post.lists@[k].len() implies #[trigger] post.link_ok(
            k,
            j,
        ) by {
            if k == l {
                if j < i {
                    assert(pre.link_ok(k, j));
                    assert(new_list[j] == list[j]);
                    assert(list[j] != list[i]);
                    if i + 1 < list.len() {
                        assert(list[j] != list[i + 1]);
                    }
                    if j != i - 1 {
                        assert(list[j] != list[i - 1]);
                    }
                    if j > 0 {
                        assert(new_list[j - 1] == list[j - 1]);
                    }
                    if j + 1 < i {
                        assert(new_list[j + 1] == list[j + 1]);
                    } else if j + 1 < new_list.len() {
                        assert(new_list[j + 1] == list[j + 2]);
                    }
                } else {
                    assert(pre.link_ok(k, j + 1));
                    assert(new_list[j] == list[j + 1]);
                    assert(list[j + 1] != list[i]);
                    if i > 0 {
                        assert(list[j + 1] != list[i - 1]);
                    }
                    if j != i {
                        assert(list[j + 1] != list[i + 1]);
                    }
                    if j + 1 < new_list.len() {
                        assert(new_list[j + 1] == list[j + 2]);
                    }
                    if j > i {
                        assert(new_list[j - 1] == list[j]);
                    } else if j > 0 {
                        assert(new_list[j - 1] == list[j - 1]);
                    }
                }
            } else {
                assert(pre.link_ok(k, j));
            }
        }
    }

    proof fn lemma_unlink_heads(pre: Self, post: Self, off: usize, i: int)
        requires
            0 <= pre.level_at(off as int) < LEVELS,
            pre.shape_ok(),
            pre.is_free(off as int),
            0 <= i < pre.lists@[pre.level_at(off as int)].len(),
            pre.lists@[pre.level_at(off as int)][i] == off,
            Self::unlinked(pre, post, off, i),
            pre.links_ok(),
            pre.heads_ok(),
            pre.distinct_ok(),
        ensures
            post.heads_ok(),
            post.distinct_ok(),
    {
        let l = pre.level_at(off as int);
        let list = pre.lists@[l];
        let new_list = list.remove(i);
        assert(pre.link_ok(l, i));
        assert(pre.head_ok(l));
        assert forall|k: int| 0 <= k < LEVELS implies #[trigger] post.head_ok(k) by {
            assert(pre.head_ok(k));
            if k == l && new_list.len() > 0 {
                if i == 0 {
                    assert(new_list[0] == list[1]);
                } else {
                    assert(new_list[0] == list[0]);
                }
            }
        }
        assert forall|k: int| 0 <= k < LEVELS implies (#[trigger] post.lists@[k]).no_duplicates() by {
            assert(pre.lists@[k].no_duplicates());
            if k == l {
                assert forall|x: int, y: int|
                    0 <= x < new_list.len() && 0 <= y < new_list.len() && x != y implies new_list[x]
                    != new_list[y] by {
                    let xx = if x < i { x } else { x + 1 };
                    let yy = if y < i { y } else { y + 1 };
                    assert(list[xx] != list[yy]);
                }
            }
        }
    }

    proof fn lemma_unlink_listed(pre: Self, post: Self, off: usize, i: int)
        requires
            0 <= pre.level_at(off as int) < LEVELS,
            pre.shape_ok(),
            pre.is_free(off as int),
            0 <= i < pre.lists@[pre.level_at(off as int)].len(),
            pre.lists@[pre.level_at(off as int)][i] == off,
            Self::unlinked(pre, post, off, i),
            pre.blocks_ok(),
            pre.listed_ok(),
        ensures
            post.listed_ok(),
    {
        let l = pre.level_at(off as int);
        let list = pre.lists@[l];
        let new_list = list.remove(i);
        assert forall|o: int| post.valid_off(o) && (#[trigger] post.hdr(o)).flag == Flag::Free implies post.lists@[post.level_at(
            o,
        )].contains(o as usize) by {
            assert(pre.hdr(o).flag == Flag::Free);
            assert(pre.block_ok(o));
            let k = pre.level_at(o);
            assert(pre.lists@[k].contains(o as usize));
            let j = choose|j: int| 0 <= j < pre.lists@[k].len() && pre.lists@[k][j] == o as usize;
            if k == l {
                if j < i {
                    assert(new_list[j] == o as usize);
                } else {
                    assert(new_list[j - 1] == o as usize);
                }
            } else {
                assert(post.lists@[k][j] == o as usize);
            }
        }
    }

    proof fn lemma_unlink_wf(pre: Self, post: Self, off: usize, i: int)
        requires
            pre.wf(),
            pre.is_free(off as int),
            0 <= i < pre.lists@[pre.level_at(off as int)].len(),
            pre.lists@[pre.level_at(off as int)][i] == off,
            Self::unlinked(pre, post, off, i),
        ensures
            post.wf(),
    {
        assert(pre.block_ok(off as int));
        Self::lemma_same_blocks(pre, post);
        Self::lemma_merged_subset(pre, post);
        Self::lemma_unlink_links(pre, post, off, i);
        Self::lemma_unlink_heads(pre, post, off, i);
        Self::lemma_unlink_listed(pre, post, off, i);
    }

    /// Takes the free block at `off` out of the list of its level and marks
    /// it taken. Returns its place in the list.
    #[verifier::rlimit(50)]
    fn unlink(&mut self, off: usize) -> (i: Ghost<int>)
        requires
            old(self).wf(),
            old(self).is_free(off as int),
        ensures
            final(self).wf(),
            final(self).start() == old(self).start(),
            final(self).size() == old(self).size(),
            final(self).extent() == old(self).extent(),
            0 <= i@ < old(self).free_list(old(self).level_at(off as int)).len(),
            old(self).free_list(old(self).level_at(off as int))[i@] == off,
            final(self).free_list(old(self).level_at(off as int)) == old(self).free_list(
                old(self).level_at(off as int),
            ).remove(i@),
            forall|l: int|
                0 <= l < LEVELS && l != old(self).level_at(off as int) ==> final(self).free_list(l) == old(
                    self,
                ).free_list(l),
            final(self).hdr(off as int).flag == Flag::Taken,
            final(self).hdr(off as int).next is None,
            final(self).hdr(off as int).prev is None,
            final(self).hdr(off as int).level == old(self).hdr(off as int).level,
            forall|o: int|
                old(self).valid_off(o) && o != off ==> (#[trigger] final(self).hdr(o)).flag == old(self).hdr(
                    o,
                ).flag && final(self).hdr(o).level == old(self).hdr(o).level,
    {
        let idx = off / 32;
        let n = self.nodes[idx];
        let l = n.level as usize;
        let ghost list = self.lists@[l as int];
        let ghost i = choose|i: int| 0 <= i < list.len() && list[i] == off;
        proof {
            assert(self.hdr(off as int).flag == Flag::Free);
            assert(self.block_ok(off as int));
            assert(list.contains(off));
            assert(self.link_ok(l as int, i));
            assert(list.no_duplicates());
            if i > 0 {
                assert(self.link_ok(l as int, i - 1));
                assert(n.prev == Some(list[i - 1]));
                assert(list[i - 1] != off);
                assert(list[i - 1] as int / 32 != off as int / 32);
            }
            if i + 1 < list.len() {
                assert(self.link_ok(l as int, i + 1));
                assert(n.next == Some(list[i + 1]));
                assert(list[i + 1] != off);
                assert(list[i + 1] as int / 32 != off as int / 32);
                if i > 0 {
                    assert(list[i - 1] != list[i + 1]);
                    assert(list[i - 1] as int / 32 != list[i + 1] as int / 32);
                }
            }
        }
        match n.prev {
            Some(p) => {
                let mut pn = self.nodes[p / 32];
                pn.next = n.next;
                self.nodes.set(p / 32, pn);
            },
            None => {
                self.list_heads.set(l, n.next);
            },
        }
        match n.next {
            Some(q) => {
                let mut qn = self.nodes[q / 32];
                qn.prev = n.prev;
                self.nodes.set(q / 32, qn);
            },
            None => {},
        }
        self.nodes.set(idx, ListNode { flag: Flag::Taken, level: n.level, next: None, prev: None });
        self.lists = Ghost(self.lists@.update(l as int, list.remove(i)));
        proof {
            assert(Self::unlinked(*old(self), *self, off, i));
            Self::lemma_unlink_wf(*old(self), *self, off, i);
        }
        Ghost(i)
    }

    /// A state that differs from another in the block at `off` alone, where
    /// that block is aligned, in the heap and clear of the others, is free
    /// of overlap too.
    proof fn lemma_set_block(pre: Self, post: Self, off: int)
        requires
            pre.blocks_ok(),
            pre.disjoint_ok(),
            post.extent() == pre.extent(),
            pre.valid_off(off),
            forall|o: int|
                pre.valid_off(o) && o != off && (#[trigger] post.hdr(o)).flag != Flag::Inner ==> pre.hdr(o).flag
                    != Flag::Inner && post.hdr(o).level == pre.hdr(o).level,
            post.hdr(off).flag != Flag::Inner ==> post.block_ok(off),
            post.hdr(off).flag != Flag::Inner ==> forall|p: int|
                pre.valid_off(p) && p != off && (#[trigger] post.hdr(p)).flag != Flag::Inner ==> (p < off
                    ==> pre.block_end(p) <= off) && (p > off ==> post.block_end(off) <= p),
        ensures
            post.blocks_ok(),
            post.disjoint_ok(),
    {
        assert forall|o: int| post.valid_off(o) && (#[trigger] post.hdr(o)).flag != Flag::Inner implies post.block_ok(
            o,
        ) by {
            if o != off {
                assert(pre.block_ok(o));
            }
        }
        assert forall|a: int, b: int|
            post.valid_off(a) && post.valid_off(b) && (#[trigger] post.hdr(a)).flag != Flag::Inner && (
            #[trigger] post.hdr(b)).flag != Flag::Inner && a < b implies post.block_end(a) <= b by {
            if a != off && b != off {
                assert(pre.hdr(a).flag != Flag::Inner && pre.hdr(b).flag != Flag::Inner);
                assert(pre.block_end(a) <= b);
            }
        }
    }

    /// What `push_free` leaves: the header at `off` free at `level` and at
    /// the head of that level's list, the old head linked back to it.
    spec fn pushed(pre: Self, post: Self, level: int, off: usize) -> bool {
        let head = pre.list_heads@[level];
        &&& post.heap_start == pre.heap_start
        &&& post.heap_size == pre.heap_size
        &&& post.nodes@.len() == pre.nodes@.len()
        &&& post.lists@ == pre.lists@.update(level, seq![off] + pre.lists@[level])
        &&& post.list_heads@ == pre.list_heads@.update(level, Some(off))
        &&& forall|o: int|
            pre.valid_off(o) ==> #[trigger] post.hdr(o) == (if o == off {
                ListNode { flag: Flag::Free, level: level as u8, next: head, prev: None }
            } else if head == Some(o as usize) {
                ListNode { prev: Some(off), ..pre.hdr(o) }
            } else {
                pre.hdr(o)
            })
    }

    proof fn lemma_push_links(pre: Self, post: Self, level: int, off: usize)
        requires
            0 <= level < LEVELS,
            pre.shape_ok(),
            pre.valid_off(off as int),
            pre.hdr(off as int).flag != Flag::Free,
            Self::pushed(pre, post, level, off),
            pre.links_ok(),
            pre.heads_ok(),
            pre.distinct_ok(),
        ensures
            post.links_ok(),
            post.heads_ok(),
            post.distinct_ok(),
    {
        let list = pre.lists@[level];
        let new_list = seq![off] + list;
        assert(pre.head_ok(level));
        if list.len() > 0 {
            assert(pre.link_ok(level, 0));
        }
        assert forall|k: int, j: int| 0 <= k < LEVELS && 0 <= j < post.lists@[k].len() implies #[trigger] post.link_ok(
            k,
            j,
        ) by {
            if k == level {
                if j > 0 {
                    assert(pre.link_ok(k, j - 1));
                    assert(new_list[j] == list[j - 1]);
                    assert(list.no_duplicates());
                    if j > 1 {
                        assert(list[j - 1] != list[0]);
                        assert(new_list[j - 1] == list[j - 2]);
                    }
                    if j + 1 < new_list.len() {
                        assert(new_list[j + 1] == list[j]);
                    }
                } else {
                    assert(new_list[0] == off);
                    if list.len() > 0 {
                        assert(new_list[1] == list[0]);
                    }
                }
            } else {
                assert(pre.link_ok(k, j));
            }
        }
        assert forall|k: int| 0 <= k < LEVELS implies #[trigger] post.head_ok(k) by {
            assert(pre.head_ok(k));
            if k == level {
                assert(new_list[0] == off);
            }
        }
        assert forall|k: int| 0 <= k < LEVELS implies (#[trigger] post.lists@[k]).no_duplicates() by {
            assert(pre.lists@[k].no_duplicates());
            if k == level {
                assert forall|x: int, y: int|
                    0 <= x < new_list.len() && 0 <= y < new_list.len() && x != y implies new_list[x]
                    != new_list[y] by {
                    if x > 0 {
                        assert(pre.link_ok(k, x - 1));
                        assert(new_list[x] == list[x - 1]);
                    }
                    if y > 0 {
                        assert(pre.link_ok(k, y - 1));
                        assert(new_list[y] == list[y - 1]);
                    }
                }
            }
        }
    }

    proof fn lemma_push_listed(pre: Self, post: Self, level: int, off: usize)
        requires
            0 <= level < LEVELS,
            pre.shape_ok(),
            pre.valid_off(off as int),
            Self::pushed(pre, post, level, off),
            pre.blocks_ok(),
            pre.listed_ok(),
        ensures
            post.listed_ok(),
    {
        let list = pre.lists@[level];
        let new_list = seq![off] + list;
        assert forall|o: int| post.valid_off(o) && (#[trigger] post.hdr(o)).flag == Flag::Free implies post.lists@[post.level_at(
            o,
        )].contains(o as usize) by {
            if o == off {
                assert(new_list[0] == off);
            } else {
                assert(pre.hdr(o).flag == Flag::Free);
                assert(pre.block_ok(o));
                let k = pre.level_at(o);
                assert(pre.lists@[k].contains(o as usize));
                let j = choose|j: int| 0 <= j < pre.lists@[k].len() && pre.lists@[k][j] == o as usize;
                if k == level {
                    assert(new_list[j + 1] == o as usize);
                } else {
                    assert(post.lists@[k][j] == o as usize);
                }
            }
        }
    }

    proof fn lemma_push_merged(pre: Self, post: Self, level: int, off: usize)
        requires
            0 <= level < LEVELS,
            pre.shape_ok(),
            pre.valid_off(off as int),
            pre.hdr(off as int).flag != Flag::Free,
            off as int % block_size(level) == 0,
            Self::pushed(pre, post, level, off),
            pre.blocks_ok(),
            pre.merged_ok(),
            !pre.mergeable(off as int, level),
        ensures
            post.merged_ok(),
    {
        assert forall|o: int| post.valid_off(o) && (#[trigger] post.hdr(o)).flag == Flag::Free implies !post.mergeable(
            o,
            post.level_at(o),
        ) by {
            let l = post.level_at(o);
            let b = buddy_of(o, l);
            if post.mergeable(o, l) {
                assert(post.hdr(b).flag == Flag::Free);
                if o == off {
                    lemma_buddy_symmetric(o, l);
                    assert(pre.hdr(b).flag == Flag::Free);
                    assert(pre.mergeable(off as int, level));
                } else {
                    assert(pre.hdr(o).flag == Flag::Free);
                    assert(pre.block_ok(o));
                    if b == off {
                        lemma_buddy_symmetric(o, l);
                        assert(pre.mergeable(off as int, level));
                    } else {
                        assert(pre.hdr(b).flag == Flag::Free);
                        assert(pre.mergeable(o, l));
                    }
                }
            }
        }
    }

    /// No block but the one at `off` reaches into the `len` bytes from `off`.
    pub open spec fn clear_of_others(&self, off: int, len: int) -> bool {
        forall|p: int|
            self.valid_off(p) && p != off && (#[trigger] self.hdr(p)).flag != Flag::Inner ==> (p < off
                ==> self.block_end(p) <= off) && (p > off ==> off + len <= p)
    }

    /// Marks the granule at `off` as a free block of `level` and links it in
    /// as the new head of that level's list.
    fn push_free(&mut self, level: u8, off: usize)
        requires
            old(self).wf(),
            level < LEVELS,
            old(self).valid_off(off as int),
            old(self).hdr(off as int).flag != Flag::Free,
            off as int % block_size(level as int) == 0,
            off + block_size(level as int) <= old(self).extent(),
            old(self).clear_of_others(off as int, block_size(level as int)),
            !old(self).mergeable(off as int, level as int),
        ensures
            final(self).wf(),
            final(self).start() == old(self).start(),
            final(self).size() == old(self).size(),
            final(self).extent() == old(self).extent(),
            final(self).free_list(level as int) == seq![off] + old(self).free_list(level as int),
            forall|l: int|
                0 <= l < LEVELS && l != level ==> final(self).free_list(l) == old(self).free_list(l),
            final(self).hdr(off as int).flag == Flag::Free,
            final(self).hdr(off as int).level == level,
            forall|o: int|
                old(self).valid_off(o) && o != off && old(self).hdr(o).flag != Flag::Free ==> (
                #[trigger] final(self).hdr(o)).next == old(self).hdr(o).next && final(self).hdr(o).prev == old(
                    self,
                ).hdr(o).prev,
            forall|o: int|
                old(self).valid_off(o) && o != off ==> (#[trigger] final(self).hdr(o)).flag == old(self).hdr(
                    o,
                ).flag && final(self).hdr(o).level == old(self).hdr(o).level,
    {
        let head = self.list_heads[level as usize];
        proof {
            assert(self.head_ok(level as int));
            if self.lists@[level as int].len() > 0 {
                assert(self.link_ok(level as int, 0));
            }
        }
        match head {
            Some(h) => {
                let mut hn = self.nodes[h / 32];
                hn.prev = Some(off);
                self.nodes.set(h / 32, hn);
            },
            None => {},
        }
        self.nodes.set(off / 32, ListNode { flag: Flag::Free, level: level, next: head, prev: None });
        self.list_heads.set(level as usize, Some(off));
        self.lists = Ghost(self.lists@.update(level as int, seq![off] + self.lists@[level as int]));
        proof {
            let pre = *old(self);
            let post = *self;
            assert(Self::pushed(pre, post, level as int, off));
            Self::lemma_set_block(pre, post, off as int);
            Self::lemma_push_links(pre, post, level as int, off);
            Self::lemma_push_listed(pre, post, level as int, off);
            Self::lemma_push_merged(pre, post, level as int, off);
        }
    }

    /// Rewrites the flag and the level of a header that is in no list.
    fn retag(&mut self, off: usize, flag: Flag, level: u8)
        requires
            old(self).wf(),
            old(self).valid_off(off as int),
            old(self).hdr(off as int).flag != Flag::Free,
            flag != Flag::Free,
            flag != Flag::Inner ==> level < LEVELS && off as int % block_size(level as int) == 0 && off
                + block_size(level as int) <= old(self).extent() && old(self).clear_of_others(
                off as int,
                block_size(level as int),
            ),
        ensures
            final(self).wf(),
            final(self).start() == old(self).start(),
            final(self).size() == old(self).size(),
            final(self).extent() == old(self).extent(),
            forall|l: int| 0 <= l < LEVELS ==> final(self).free_list(l) == old(self).free_list(l),
            final(self).hdr(off as int).flag == flag,
            final(self).hdr(off as int).level == level,
            final(self).hdr(off as int).next == old(self).hdr(off as int).next,
            final(self).hdr(off as int).prev == old(self).hdr(off as int).prev,
            forall|o: int|
                old(self).valid_off(o) && o != off ==> (#[trigger] final(self).hdr(o)).flag == old(self).hdr(
                    o,
                ).flag && final(self).hdr(o).level == old(self).hdr(o).level,
    {
        let n = self.nodes[off / 32];
        self.nodes.set(off / 32, ListNode { flag: flag, level: level, next: n.next, prev: n.prev });
        proof {
            let pre = *old(self);
            let post = *self;
            assert forall|o: int| pre.valid_off(o) && o != off implies #[trigger] post.hdr(o) == pre.hdr(o) by {}
            if flag != Flag::Inner {
                assert forall|p: int|
                    pre.valid_off(p) && p != off && (#[trigger] post.hdr(p)).flag != Flag::Inner implies (p < off
                    ==> pre.block_end(p) <= off) && (p > off ==> post.block_end(off as int) <= p) by {
                    assert(pre.hdr(p).flag != Flag::Inner);
                }
            }
            Self::lemma_set_block(pre, post, off as int);
            Self::lemma_retag_lists(pre, post, off as int);
            Self::lemma_merged_subset(pre, post);
        }
    }

    proof fn lemma_retag_lists(pre: Self, post: Self, off: int)
        requires
            pre.shape_ok(),
            pre.blocks_ok(),
            pre.links_ok(),
            pre.heads_ok(),
            pre.listed_ok(),
            pre.distinct_ok(),
            pre.valid_off(off),
            pre.hdr(off).flag != Flag::Free,
            post.hdr(off).flag != Flag::Free,
            post.heap_start == pre.heap_start,
            post.heap_size == pre.heap_size,
            post.nodes@.len() == pre.nodes@.len(),
            post.lists@ == pre.lists@,
            post.list_heads@ == pre.list_heads@,
            forall|o: int| pre.valid_off(o) && o != off ==> #[trigger] post.hdr(o) == pre.hdr(o),
        ensures
            post.shape_ok(),
            post.links_ok(),
            post.heads_ok(),
            post.listed_ok(),
            post.distinct_ok(),
    {
        assert forall|k: int, j: int| 0 <= k < LEVELS && 0 <= j < post.lists@[k].len() implies #[trigger] post.link_ok(
            k,
            j,
        ) by {
            assert(pre.link_ok(k, j));
        }
        assert forall|k: int| 0 <= k < LEVELS implies #[trigger] post.head_ok(k) by {
            assert(pre.head_ok(k));
        }
        assert forall|o: int| post.valid_off(o) && (#[trigger] post.hdr(o)).flag == Flag::Free implies post.lists@[post.level_at(
            o,
        )].contains(o as usize) by {
            assert(pre.hdr(o).flag == Flag::Free);
        }
    }

    /// A block of a well-formed allocator has a level of the table, is
    /// aligned to its size relative to the start of the heap, and lies in
    /// the heap.
    pub proof fn lemma_block_in_heap(&self, off: int)
        requires
            self.wf(),
            self.is_block(off),
        ensures
            0 <= self.level_at(off) < LEVELS,
            off % block_size(self.level_at(off)) == 0,
            0 <= off,
            self.block_end(off) <= self.extent() <= self.size(),
            self.start() + self.size() <= usize::MAX,
    {
        assert(self.block_ok(off));
    }

    /// No two blocks of a well-formed allocator overlap, whether free or
    /// taken.
    pub proof fn lemma_blocks_disjoint(&self, a: int, b: int)
        requires
            self.wf(),
            self.is_block(a),
            self.is_block(b),
            a != b,
        ensures
            self.block_end(a) <= b || self.block_end(b) <= a,
    {
        if a < b {
            assert(self.block_end(a) <= b);
        } else {
            assert(self.block_end(b) <= a);
        }
    }

    /// The free blocks of a level are the blocks in that level's list, each
    /// once.
    pub proof fn lemma_free_listed(&self, off: int)
        requires
            self.wf(),
            self.valid_off(off),
        ensures
            self.is_free(off) <==> 0 <= self.level_at(off) < LEVELS && self.free_list(self.level_at(off)).contains(
                off as usize,
            ),
            forall|l: int| 0 <= l < LEVELS ==> (#[trigger] self.free_list(l)).no_duplicates(),
    {
        let l = self.level_at(off);
        if self.is_free(off) {
            assert(self.block_ok(off));
        }
        if 0 <= l < LEVELS && self.free_list(l).contains(off as usize) {
            let j = choose|j: int| 0 <= j < self.lists@[l].len() && self.lists@[l][j] == off as usize;
            assert(self.link_ok(l, j));
        }
        assert forall|l: int| 0 <= l < LEVELS implies (#[trigger] self.free_list(l)).no_duplicates() by {
            assert(self.lists@[l].no_duplicates());
        }
    }

    /// No free block of a well-formed allocator has a free buddy of its own
    /// level: whatever can merge has merged.
    pub proof fn lemma_no_free_buddies(&self, off: int)
        requires
            self.wf(),
            self.is_free(off),
        ensures
            !self.mergeable(off, self.level_at(off)),
    {
    }

    /// Every block in a free list is a free block of that list's level.
    pub proof fn lemma_list_entry(&self, l: int, i: int)
        requires
            self.wf(),
            0 <= l < LEVELS,
            0 <= i < self.free_list(l).len(),
        ensures
            self.is_free(self.free_list(l)[i] as int),
            self.level_at(self.free_list(l)[i] as int) == l,
    {
        assert(self.link_ok(l, i));
    }

    /// Splits the taken block at `off` in two: the lower half stays taken,
    /// one level down; the upper half becomes the head of that level's
    /// free list. Returns the offset of the upper half.
    fn split_block(&mut self, off: usize) -> (buddy: usize)
        requires
            old(self).wf(),
            old(self).is_taken(off as int),
            old(self).level_at(off as int) >= 1,
        ensures
            final(self).wf(),
            final(self).start() == old(self).start(),
            final(self).size() == old(self).size(),
            final(self).extent() == old(self).extent(),
            buddy == off + block_size(old(self).level_at(off as int) - 1),
            final(self).is_taken(off as int),
            final(self).level_at(off as int) == old(self).level_at(off as int) - 1,
            final(self).hdr(off as int).next == old(self).hdr(off as int).next,
            final(self).hdr(off as int).prev == old(self).hdr(off as int).prev,
            final(self).is_free(buddy as int),
            final(self).level_at(buddy as int) == old(self).level_at(off as int) - 1,
            final(self).free_list(old(self).level_at(off as int) - 1) == seq![buddy] + old(self).free_list(
                old(self).level_at(off as int) - 1,
            ),
            forall|l: int|
                0 <= l < LEVELS && l != old(self).level_at(off as int) - 1 ==> final(self).free_list(l) == old(
                    self,
                ).free_list(l),
            forall|o: int|
                old(self).valid_off(o) && o != off && o != buddy ==> (#[trigger] final(self).hdr(o)).flag
                    == old(self).hdr(o).flag && final(self).hdr(o).level == old(self).hdr(o).level,
    {
        let level = self.nodes[off / 32].level;
        proof {
            assert(self.block_ok(off as int));
            lemma_block_size_bounds(level - 1);
        }
        let buddy = ListNode::split(off, level);
        let ghost pre = *self;
        proof {
            assert forall|p: int|
                pre.valid_off(p) && p != off && (#[trigger] pre.hdr(p)).flag != Flag::Inner implies (p < off
                ==> pre.block_end(p) <= off) && (p > off ==> off + block_size(level as int) <= p) by {
                if p > off {
                    assert(pre.block_end(off as int) <= p);
                }
            }
            assert(pre.hdr(buddy as int).flag == Flag::Inner) by {
                if pre.hdr(buddy as int).flag != Flag::Inner {
                    assert(pre.block_end(off as int) <= buddy);
                }
            }
        }
        self.retag(off, Flag::Taken, level - 1);
        proof {
            let mid = *self;
            assert forall|p: int|
                mid.valid_off(p) && p != buddy && (#[trigger] mid.hdr(p)).flag != Flag::Inner implies (p < buddy
                ==> mid.block_end(p) <= buddy) && (p > buddy ==> buddy + block_size(level - 1) <= p) by {
                if p != off {
                    assert(pre.hdr(p).flag != Flag::Inner);
                    if p < off {
                        assert(pre.block_end(p) <= off);
                    }
                }
            }
        }
        proof {
            lemma_buddy_symmetric(off as int, level - 1);
            assert(buddy_of(buddy as int, level - 1) == off);
        }
        self.push_free(level - 1, buddy);
        buddy
    }

    /// `k` is the lowest level from `level` up whose free list holds a block.
    pub open spec fn lowest_free(&self, level: int, k: int) -> bool {
        &&& 0 <= level <= k < LEVELS
        &&& self.free_list(k).len() > 0
        &&& forall|j: int| level <= j < k ==> (#[trigger] self.free_list(j)).len() == 0
    }

    /// What `find` leaves when it takes a block of `level` out of the head
    /// of the list of level `k`: that block taken at `level` with its links
    /// cleared, the upper half
    /// of each split at the head of the list one level down, and all else as
    /// it was.
    pub open spec fn carved_from(&self, old_self: &Self, level: int, k: int, off: int) -> bool {
        &&& off == old_self.free_list(k)[0]
        &&& self.is_taken(off)
        &&& self.level_at(off) == level
        &&& self.hdr(off).next is None
        &&& self.hdr(off).prev is None
        &&& off % block_size(level) == 0
        &&& off + block_size(level) <= self.extent()
        &&& self.free_list(k) == old_self.free_list(k).drop_first()
        &&& forall|j: int|
            level <= j < k ==> #[trigger] self.free_list(j) == seq![(off + block_size(j)) as usize]
        &&& forall|j: int|
            0 <= j < LEVELS && (j < level || j > k) ==> #[trigger] self.free_list(j) == old_self.free_list(j)
        &&& forall|o: int|
            old_self.valid_off(o) && (o < off || o >= off + block_size(k)) ==> (#[trigger] self.hdr(o)).flag
                == old_self.hdr(o).flag && self.hdr(o).level == old_self.hdr(o).level
    }

    /// Reserves a block of `level`: the head of that level's free list, or
    /// else the head of the lowest non-empty list above it, split down to
    /// `level`. Returns the block's address, or `None` where `level` is no
    /// level of the table or no list from `level` up holds a block; the
    /// allocator is then unchanged.
    pub fn find(&mut self, level: usize) -> (r: Option<usize>)
        requires
            old(self).wf(),
        ensures
            final(self).wf(),
            final(self).start() == old(self).start(),
            final(self).size() == old(self).size(),
            final(self).extent() == old(self).extent(),
            r is None <==> level >= LEVELS || old(self).exhausted_from(level as int),
            r is None ==> *final(self) == *old(self),
            r is Some ==> exists|k: int|
                #[trigger] old(self).lowest_free(level as int, k) && final(self).carved_from(
                    old(self),
                    level as int,
                    k,
                    r.unwrap() - old(self).start(),
                ),
            r is Some ==> final(self).found(old(self), level as int, r.unwrap() - old(self).start()),
    {
        if level >= LEVELS as usize {
            return None;
        }
        let mut k: usize = level;
        while k < LEVELS as usize && self.list_heads[k].is_none()
            invariant
                *self == *old(self),
                self.wf(),
                level <= k <= LEVELS,
                forall|j: int| level <= j < k ==> (#[trigger] self.free_list(j)).len() == 0,
            decreases LEVELS - k,
        {
            proof {
                assert(self.head_ok(k as int));
            }
            k = k + 1;
        }
        if k >= LEVELS as usize {
            return None;
        }
        proof {
            assert(self.head_ok(k as int));
            assert(self.link_ok(k as int, 0));
            assert(self.lists@[k as int].no_duplicates());
        }
        let off = self.list_heads[k].unwrap();
        let i = self.unlink(off);
        proof {
            assert(i@ == 0);
            assert(old(self).free_list(k as int).remove(0) =~= old(self).free_list(k as int).drop_first());
            assert(self.block_ok(off as int));
            lemma_block_size_bounds(k as int);
        }
        let mut cur: usize = k;
        while cur > level
            invariant
                self.wf(),
                self.start() == old(self).start(),
                self.size() == old(self).size(),
                self.extent() == old(self).extent(),
                level <= cur <= k < LEVELS,
                old(self).lowest_free(level as int, k as int),
                off == old(self).free_list(k as int)[0],
                self.is_taken(off as int),
                self.level_at(off as int) == cur,
                self.hdr(off as int).next is None,
                self.hdr(off as int).prev is None,
                self.free_list(k as int) == old(self).free_list(k as int).drop_first(),
                forall|j: int|
                    cur <= j < k ==> #[trigger] self.free_list(j) == seq![(off + block_size(j)) as usize],
                forall|j: int| level <= j < cur ==> (#[trigger] self.free_list(j)).len() == 0,
                forall|j: int|
                    0 <= j < LEVELS && (j < level || j > k) ==> #[trigger] self.free_list(j) == old(self).free_list(
                        j,
                    ),
                forall|o: int|
                    old(self).valid_off(o) && (o < off || o >= off + block_size(k as int)) ==> (
                    #[trigger] self.hdr(o)).flag == old(self).hdr(o).flag && self.hdr(o).level == old(self).hdr(
                        o,
                    ).level,
            decreases cur,
        {
            proof {
                assert(self.block_ok(off as int));
                lemma_block_size_monotonic(cur as int, k as int);
                lemma_block_size_bounds(cur - 1);
            }
            let ghost before = *self;
            let buddy = self.split_block(off);
            cur = cur - 1;
            proof {
                assert(self.free_list(cur as int) =~= seq![(off + block_size(cur as int)) as usize]);
                assert forall|o: int|
                    old(self).valid_off(o) && (o < off || o >= off + block_size(k as int)) implies (
                #[trigger] self.hdr(o)).flag == old(self).hdr(o).flag && self.hdr(o).level == old(self).hdr(
                    o,
                ).level by {
                    assert(before.hdr(o).flag == old(self).hdr(o).flag);
                }
            }
        }
        let addr = self.heap_start + off;
        proof {
            assert(self.block_ok(off as int));
            assert(addr - old(self).start() == off);
            assert(self.carved_from(old(self), level as int, k as int, addr - old(self).start()));
            assert(old(self).lowest_free(level as int, k as int));
        }
        Some(addr)
    }

    /// Folds the taken block at `off` and its free buddy into their parent,
    /// which stays taken. Returns the parent's offset.
    fn merge_step(&mut self, off: usize, buddy: usize) -> (parent: usize)
        requires
            old(self).wf(),
            old(self).is_taken(off as int),
            old(self).mergeable(off as int, old(self).level_at(off as int)),
            buddy == buddy_of(off as int, old(self).level_at(off as int)),
        ensures
            final(self).wf(),
            final(self).start() == old(self).start(),
            final(self).size() == old(self).size(),
            final(self).extent() == old(self).extent(),
            parent == off || parent == buddy,
            parent <= off,
            parent <= buddy,
            parent as int % block_size(old(self).level_at(off as int) + 1) == 0,
            final(self).is_taken(parent as int),
            final(self).level_at(parent as int) == old(self).level_at(off as int) + 1,
            final(self).free_list(old(self).level_at(off as int)) == old(self).free_list(
                old(self).level_at(off as int),
            ).remove(old(self).free_list(old(self).level_at(off as int)).index_of(buddy)),
            forall|l: int|
                0 <= l < LEVELS && l != old(self).level_at(off as int) ==> final(self).free_list(l) == old(
                    self,
                ).free_list(l),
            forall|o: int|
                old(self).valid_off(o) && o != off && o != buddy ==> (#[trigger] final(self).hdr(o)).flag
                    == old(self).hdr(o).flag && final(self).hdr(o).level == old(self).hdr(o).level,
    {
        let level = self.nodes[off / 32].level;
        let ghost pre = *self;
        proof {
            assert(pre.block_ok(off as int));
            assert(pre.block_ok(buddy as int));
            lemma_block_size_bounds(level as int);
            lemma_half_position(off as int, block_size(level as int));
            lemma_halves_aligned(
                if off < buddy {
                    off as int
                } else {
                    buddy as int
                },
                block_size(level as int),
            );
            assert(pre.lists@[level as int].no_duplicates());
        }
        let i = self.unlink(buddy);
        let ghost mid = *self;
        let parent = ListNode::primary(off, level + 1);
        let other = if parent == off {
            buddy
        } else {
            off
        };
        proof {
            assert(parent == off || parent == buddy);
            assert(parent < other);
            assert(pre.lists@[level as int].index_of(buddy) == i@);
            assert(mid.block_ok(off as int));
            assert(mid.block_ok(buddy as int));
            assert(mid.block_end(parent as int) <= other);
        }
        self.retag(other, Flag::Inner, 0);
        proof {
            let late = *self;
            assert forall|p: int|
                late.valid_off(p) && p != parent && (#[trigger] late.hdr(p)).flag != Flag::Inner implies (p
                < parent ==> late.block_end(p) <= parent) && (p > parent ==> parent + block_size(level + 1)
                <= p) by {
                assert(p != other);
                assert(mid.hdr(p).flag != Flag::Inner);
                if p > parent {
                    assert(mid.block_end(parent as int) <= p);
                    assert(mid.block_end(other as int) <= p);
                } else {
                    assert(mid.block_end(p) <= parent);
                }
            }
        }
        self.retag(parent, Flag::Taken, level + 1);
        parent
    }

    /// The block of level `from` at `off` merges with its buddy at each
    /// level from `from` up to `to`, and no further.
    pub open spec fn merges_up(&self, off: int, from: int, to: int) -> bool {
        &&& 0 <= from <= to < LEVELS
        &&& forall|j: int| from <= j < to ==> #[trigger] self.mergeable(ancestor(off, j), j)
        &&& !self.mergeable(ancestor(off, to), to)
    }

    /// What `insert` leaves when the block of level `from` at `off` merges
    /// up to level `to`: the merged block free at the head of the list of
    /// level `to`, each buddy it took in gone from the list of its level,
    /// and all outside the merged block as it was.
    pub open spec fn merged_from(&self, old_self: &Self, off: int, from: int, to: int) -> bool {
        let p = ancestor(off, to);
        &&& self.is_free(p)
        &&& self.level_at(p) == to
        &&& self.free_list(to) == seq![p as usize] + old_self.free_list(to)
        &&& forall|j: int|
            from <= j < to ==> #[trigger] self.free_list(j) == old_self.free_list(j).remove(
                old_self.free_list(j).index_of(buddy_of(ancestor(off, j), j) as usize),
            )
        &&& forall|j: int|
            0 <= j < LEVELS && (j < from || j > to) ==> #[trigger] self.free_list(j) == old_self.free_list(j)
        &&& forall|o: int|
            old_self.valid_off(o) && (o < p || o >= p + block_size(to)) ==> (#[trigger] self.hdr(o)).flag
                == old_self.hdr(o).flag && self.hdr(o).level == old_self.hdr(o).level
    }

    /// Returns the taken block at `addr` to the free lists. While the
    /// block's buddy is free at the block's own level, the buddy is
    /// unlinked and the two are folded into their parent; the block that
    /// results becomes the head of the list of its level.
    pub fn insert(&mut self, addr: usize)
        requires
            old(self).wf(),
            addr >= old(self).start(),
            old(self).is_taken(addr - old(self).start()),
        ensures
            final(self).wf(),
            final(self).start() == old(self).start(),
            final(self).size() == old(self).size(),
            final(self).extent() == old(self).extent(),
            exists|to: int|
                #[trigger] old(self).merges_up(
                    addr - old(self).start(),
                    old(self).level_at(addr - old(self).start()),
                    to,
                ) && final(self).merged_from(
                    old(self),
                    addr - old(self).start(),
                    old(self).level_at(addr - old(self).start()),
                    to,
                ),
            final(self).inserted(old(self), addr - old(self).start()),
    {
        let first = addr - self.heap_start;
        let from = self.nodes[first / 32].level;
        let mut off = first;
        let mut level = from;
        let mut merging = true;
        proof {
            assert(self.block_ok(first as int));
            lemma_block_size_bounds(from as int);
        }
        while merging && level < LEVELS - 1
            invariant
                self.wf(),
                self.start() == old(self).start(),
                self.size() == old(self).size(),
                self.extent() == old(self).extent(),
                first == addr - old(self).start(),
                old(self).valid_off(first as int),
                from <= level < LEVELS,
                self.is_taken(off as int),
                self.level_at(off as int) == level,
                off == ancestor(first as int, level as int),
                !merging ==> !self.mergeable(off as int, level as int),
                forall|j: int| from <= j < level ==> #[trigger] old(self).mergeable(ancestor(first as int, j), j),
                forall|j: int|
                    from <= j < level ==> #[trigger] self.free_list(j) == old(self).free_list(j).remove(
                        old(self).free_list(j).index_of(buddy_of(ancestor(first as int, j), j) as usize),
                    ),
                forall|j: int|
                    0 <= j < LEVELS && (j < from || j >= level) ==> #[trigger] self.free_list(j) == old(
                        self,
                    ).free_list(j),
                forall|o: int|
                    old(self).valid_off(o) && (o < off || o >= off + block_size(level as int)) ==> (
                    #[trigger] self.hdr(o)).flag == old(self).hdr(o).flag && self.hdr(o).level == old(self).hdr(
                        o,
                    ).level,
            decreases LEVELS - level, (if merging { 1int } else { 0int }),
        {
            proof {
                assert(self.block_ok(off as int));
                lemma_block_size_bounds(level as int);
                lemma_half_position(off as int, block_size(level as int));
            }
            let buddy = ListNode::buddy(off, level);
            let mut can = false;
            if buddy / 32 < self.nodes.len() {
                let bn = self.nodes[buddy / 32];
                can = bn.level == level && match bn.flag {
                    Flag::Free => true,
                    _ => false,
                };
            }
            proof {
                assert(buddy == buddy_of(off as int, level as int));
                assert(buddy as int % 32 == 0) by {
                    lemma_block_size_bounds(level as int);
                    assert(block_size(level as int) % 32 == 0);
                    assert(off as int % 32 == 0);
                }
                if buddy / 32 < self.nodes@.len() {
                    assert(old(self).valid_off(buddy as int));
                    assert(self.hdr(buddy as int).flag == old(self).hdr(buddy as int).flag);
                    assert(self.hdr(buddy as int).level == old(self).hdr(buddy as int).level);
                    assert(self.hdr(buddy as int) == self.nodes@[buddy as int / 32]);
                } else {
                    assert(!old(self).valid_off(buddy as int));
                }
                assert(can == old(self).mergeable(off as int, level as int));
                assert(can == self.mergeable(off as int, level as int));
            }
            if can {
                let ghost before = *self;
                let parent = self.merge_step(off, buddy);
                proof {
                    lemma_round_down_twice(first as int, block_size(level as int));
                    assert(parent == ancestor(first as int, level + 1));
                    assert forall|o: int|
                        old(self).valid_off(o) && (o < parent || o >= parent + block_size(level + 1)) implies (
                    #[trigger] self.hdr(o)).flag == old(self).hdr(o).flag && self.hdr(o).level == old(self).hdr(
                        o,
                    ).level by {
                        assert(before.hdr(o).flag == old(self).hdr(o).flag);
                    }
                }
                off = parent;
                level = level + 1;
            } else {
                merging = false;
            }
        }
        proof {
            assert(self.block_ok(off as int));
            assert forall|p: int|
                self.valid_off(p) && p != off && (#[trigger] self.hdr(p)).flag != Flag::Inner implies (p < off
                ==> self.block_end(p) <= off) && (p > off ==> off + block_size(level as int) <= p) by {
                if p > off {
                    assert(self.block_end(off as int) <= p);
                }
            }
        }
        let ghost before = *self;
        self.push_free(level, off);
        proof {
            lemma_block_size_bounds(level as int);
            assert forall|o: int|
                old(self).valid_off(o) && (o < off || o >= off + block_size(level as int)) implies (
            #[trigger] self.hdr(o)).flag == old(self).hdr(o).flag && self.hdr(o).level == old(self).hdr(o).level by {
                assert(before.hdr(o).flag == old(self).hdr(o).flag);
            }
            assert(!old(self).mergeable(off as int, level as int)) by {
                if level < LEVELS - 1 {
                    let b = buddy_of(off as int, level as int);
                    lemma_buddy_symmetric(off as int, level as int);
                    lemma_half_position(off as int, block_size(level as int));
                    if old(self).valid_off(b) {
                        assert(before.hdr(b).flag == old(self).hdr(b).flag);
                    }
                }
            }
            assert(old(self).merges_up(first as int, from as int, level as int));
            assert(self.merged_from(old(self), first as int, from as int, level as int));
        }
    }

    /// The allocator manages no memory yet: every list is empty and no
    /// granule exists.
    pub open spec fn is_fresh(&self) -> bool {
        &&& self.wf()
        &&& self.extent() == 0
        &&& self.all_lists_empty()
    }

    /// How many blocks of `level` the bring-up carves out of a heap of
    /// `size` bytes: all that fit at the highest level, and at each level
    /// below it what fits into the rest left by the level above.
    pub open spec fn initial_count(size: int, level: int) -> int {
        if level >= LEVELS - 1 {
            size / block_size(level)
        } else {
            (size % block_size(level + 1)) / block_size(level)
        }
    }

    /// Offset of the first block of `level` that the bring-up carves.
    pub open spec fn initial_base(size: int, level: int) -> int {
        if level >= LEVELS - 1 {
            0
        } else {
            size - size % block_size(level + 1)
        }
    }

    /// The free list of `level` after bring-up: the carved blocks, the one
    /// carved last at the head.
    pub open spec fn initial_list(size: int, level: int) -> Seq<usize> {
        Self::run(Self::initial_base(size, level), block_size(level), Self::initial_count(size, level))
    }

    /// `count` blocks of `len` bytes from `base` up, the highest first.
    pub open spec fn run(base: int, len: int, count: int) -> Seq<usize> {
        Seq::new(
            if count >= 0 {
                count as nat
            } else {
                0
            },
            |i: int| (base + (count - 1 - i) * len) as usize,
        )
    }

    /// Every block lies below `ptr` and is free.
    spec fn carved_below(&self, ptr: int) -> bool {
        forall|o: int|
            self.valid_off(o) && (#[trigger] self.hdr(o)).flag != Flag::Inner ==> self.block_end(o) <= ptr
                && self.hdr(o).flag == Flag::Free
    }

    /// Carves one free block of `level` at `ptr`, above all blocks so far.
    fn carve(&mut self, level: u8, ptr: usize)
        requires
            old(self).wf(),
            old(self).carved_below(ptr as int),
            level < LEVELS,
            ptr % 32 == 0,
            ptr as int % block_size(level as int) == 0,
            ptr + block_size(level as int) <= old(self).extent(),
            level < LEVELS - 1 ==> ptr as int % (2 * block_size(level as int)) == 0,
        ensures
            final(self).wf(),
            final(self).start() == old(self).start(),
            final(self).size() == old(self).size(),
            final(self).extent() == old(self).extent(),
            final(self).carved_below(ptr + block_size(level as int)),
            final(self).free_list(level as int) == seq![ptr] + old(self).free_list(level as int),
            forall|l: int|
                0 <= l < LEVELS && l != level ==> final(self).free_list(l) == old(self).free_list(l),
    {
        let ghost before = *self;
        proof {
            lemma_block_size_bounds(level as int);
            assert(before.hdr(ptr as int).flag == Flag::Inner) by {
                if before.hdr(ptr as int).flag != Flag::Inner {
                    assert(before.block_ok(ptr as int));
                    lemma_block_size_bounds(before.level_at(ptr as int));
                }
            }
            assert forall|p: int|
                before.valid_off(p) && p != ptr && (#[trigger] before.hdr(p)).flag != Flag::Inner implies (p < ptr
                ==> before.block_end(p) <= ptr) && (p > ptr ==> ptr + block_size(level as int) <= p) by {
                assert(before.block_ok(p));
                lemma_block_size_bounds(before.level_at(p));
            }
            if level < LEVELS - 1 {
                let b = buddy_of(ptr as int, level as int);
                if before.valid_off(b) && before.hdr(b).flag != Flag::Inner {
                    assert(before.block_ok(b));
                    lemma_block_size_bounds(before.level_at(b));
                }
            }
        }
        self.push_free(level, ptr);
        proof {
            assert forall|o: int|
                self.valid_off(o) && (#[trigger] self.hdr(o)).flag != Flag::Inner implies self.block_end(o) <= ptr
                + block_size(level as int) && self.hdr(o).flag == Flag::Free by {
                if o != ptr {
                    assert(before.hdr(o).flag != Flag::Inner);
                }
            }
        }
    }

    /// A run grows at its head.
    proof fn lemma_run_push(base: int, len: int, count: int)
        requires
            count >= 0,
        ensures
            (count + 1) * len == count * len + len,
            seq![(base + count * len) as usize] + Self::run(base, len, count) == Self::run(base, len, count + 1),
    {
        assert((count + 1) * len == count * len + len) by (nonlinear_arith);
        let a = seq![(base + count * len) as usize] + Self::run(base, len, count);
        let b = Self::run(base, len, count + 1);
        assert(a.len() == b.len());
        assert forall|i: int| 0 <= i < a.len() implies a[i] == b[i] by {
            if i > 0 {
                assert(a[i] == Self::run(base, len, count)[i - 1]);
                assert(count - 1 - (i - 1) == count + 1 - 1 - i);
            } else {
                assert(count + 1 - 1 - 0 == count);
            }
        }
        assert(a =~= b);
    }

    /// Hands the heap of `heap_size` bytes at `heap_start` to the allocator:
    /// walks the levels from the highest down and carves blocks of each out
    /// of what is left while one still fits. Meant to be called once, on an
    /// allocator that manages nothing yet.
    pub fn init(&mut self, heap_start: usize, heap_size: usize)
        requires
            old(self).is_fresh(),
            heap_start + heap_size <= usize::MAX,
        ensures
            final(self).wf(),
            final(self).start() == heap_start,
            final(self).size() == heap_size,
            final(self).extent() == heap_size - heap_size % 32,
            forall|l: int|
                0 <= l < LEVELS ==> #[trigger] final(self).free_list(l) == Self::initial_list(heap_size as int, l),
            forall|o: int| final(self).valid_off(o) ==> !final(self).is_taken(o),
            final(self).none_taken(),
    {
        let slots = heap_size / 32;
        let mut nodes: Vec<ListNode> = Vec::new();
        let mut filled: usize = 0;
        while filled < slots
            invariant
                filled <= slots,
                nodes@.len() == filled,
                forall|g: int| 0 <= g < filled ==> (#[trigger] nodes@[g]).flag == Flag::Inner,
            decreases slots - filled,
        {
            nodes.push(ListNode::inner());
            filled = filled + 1;
        }
        self.heap_start = heap_start;
        self.heap_size = heap_size;
        self.nodes = nodes;
        proof {
            let s = *self;
            assert forall|k: int| 0 <= k < LEVELS implies #[trigger] s.head_ok(k) by {
                assert(old(self).head_ok(k));
                assert(old(self).free_list(k).len() == 0);
            }
            assert forall|k: int, j: int| 0 <= k < LEVELS && 0 <= j < s.lists@[k].len() implies #[trigger] s.link_ok(
                k,
                j,
            ) by {
                assert(old(self).free_list(k).len() == 0);
            }
            assert forall|k: int| 0 <= k < LEVELS implies (#[trigger] s.lists@[k]).no_duplicates() by {
                assert(old(self).lists@[k].no_duplicates());
            }
            assert(s.wf());
            assert forall|l: int| 0 <= l < LEVELS implies (#[trigger] s.free_list(l)).len() == 0 by {
                assert(s.free_list(l) == old(self).free_list(l));
            }
        }
        let mut ptr: usize = 0;
        let mut left: usize = heap_size;
        let mut level: u8 = LEVELS;
        while level > 0
            invariant
                self.wf(),
                self.start() == heap_start,
                self.size() == heap_size,
                self.extent() == heap_size - heap_size % 32,
                heap_start + heap_size <= usize::MAX,
                level <= LEVELS,
                ptr + left == heap_size,
                ptr % 32 == 0,
                level == LEVELS ==> ptr == 0,
                level < LEVELS ==> left < block_size(level as int) && ptr as int % block_size(level as int) == 0,
                self.carved_below(ptr as int),
                forall|l: int|
                    level <= l < LEVELS ==> #[trigger] self.free_list(l) == Self::initial_list(heap_size as int, l),
                forall|l: int| 0 <= l < level ==> (#[trigger] self.free_list(l)).len() == 0,
            decreases level,
        {
            level = level - 1;
            let len = block_bytes(level);
            let ghost base = ptr as int;
            let ghost rest = left as int;
            let ghost mut count: int = 0;
            proof {
                lemma_block_size_bounds(level as int);
                if level < LEVELS - 1 {
                    lemma_halves_aligned(ptr as int, len as int);
                    vstd::arithmetic::div_mod::lemma_fundamental_div_mod(ptr as int, 2 * len);
                    vstd::arithmetic::div_mod::lemma_fundamental_div_mod_converse(
                        heap_size as int,
                        2 * len,
                        ptr as int / (2 * len),
                        left as int,
                    );
                } else {
                    assert(ptr as int % (len as int) == 0);
                }
                assert(base == Self::initial_base(heap_size as int, level as int));
                assert(self.free_list(level as int) =~= Self::run(base, len as int, 0));
            }
            while left >= len
                invariant
                    self.wf(),
                    self.start() == heap_start,
                    self.size() == heap_size,
                    self.extent() == heap_size - heap_size % 32,
                    heap_start + heap_size <= usize::MAX,
                    level < LEVELS,
                    len == block_size(level as int),
                    32 <= len <= 16384,
                    len % 32 == 0,
                    level < LEVELS - 1 ==> base % (2 * len) == 0 && rest < 2 * len,
                    ptr + left == heap_size,
                    ptr % 32 == 0,
                    ptr as int % (len as int) == 0,
                    count >= 0,
                    ptr == base + count * len,
                    left == rest - count * len,
                    self.carved_below(ptr as int),
                    self.free_list(level as int) == Self::run(base, len as int, count),
                    forall|l: int|
                        level < l < LEVELS ==> #[trigger] self.free_list(l) == Self::initial_list(
                            heap_size as int,
                            l,
                        ),
                    forall|l: int| 0 <= l < level ==> (#[trigger] self.free_list(l)).len() == 0,
                decreases left,
            {
                proof {
                    if level < LEVELS - 1 {
                        assert(count == 0) by (nonlinear_arith)
                            requires
                                count >= 0,
                                len > 0,
                                left >= len,
                                left == rest - count * len,
                                rest < 2 * len,
                        ;
                    }
                }
                self.carve(level, ptr);
                proof {
                    Self::lemma_run_push(base, len as int, count);
                    vstd::arithmetic::div_mod::lemma_mod_add_multiples_vanish(ptr as int, len as int);
                    count = count + 1;
                }
                ptr = ptr + len;
                left = left - len;
            }
            proof {
                assert(rest == count * len + left);
                vstd::arithmetic::div_mod::lemma_fundamental_div_mod_converse(rest, len as int, count, left as int);
                assert(count == Self::initial_count(heap_size as int, level as int));
            }
        }
        proof {
            assert forall|o: int| self.valid_off(o) implies !self.is_taken(o) by {
                if self.hdr(o).flag != Flag::Inner {
                    assert(self.hdr(o).flag == Flag::Free);
                }
            }
        }
    }

    /// Some list can serve a request of `total` bytes, header included: the
    /// request has a level of the table, and a list from that level up
    /// holds a block.
    pub open spec fn can_serve(&self, total: int) -> bool {
        exists|l: int, k: int| is_level_for(total, l) && #[trigger] self.lowest_free(l, k)
    }

    /// Allocates `size` bytes at alignment `align`. The block reserved is
    /// of the smallest level that holds the request and its header; the
    /// address returned lies past the header. Returns `None`, and changes
    /// nothing, where the request is larger than the largest block or no
    /// block large enough is free.
    pub fn allocate(&mut self, size: usize, align: usize) -> (r: Option<usize>)
        requires
            old(self).wf(),
        ensures
            final(self).wf(),
            final(self).start() == old(self).start(),
            final(self).size() == old(self).size(),
            final(self).extent() == old(self).extent(),
            r is Some <==> old(self).can_serve(size + header_offset_spec(align as int)),
            r is None ==> *final(self) == *old(self),
            r is Some ==> exists|l: int, k: int|
                is_level_for(size + header_offset_spec(align as int), l) && #[trigger] old(self).lowest_free(l, k)
                    && final(self).carved_from(
                    old(self),
                    l,
                    k,
                    r.unwrap() - header_offset_spec(align as int) - old(self).start(),
                ) && Self::placed(
                    old(self).start(),
                    old(self).size(),
                    r.unwrap() - header_offset_spec(align as int),
                    l,
                ),
            r is Some ==> is_level_for(
                size + header_offset_spec(align as int),
                final(self).level_at(r.unwrap() - header_offset_spec(align as int) - old(self).start()),
            ),
            r is Some ==> final(self).found(
                old(self),
                final(self).level_at(r.unwrap() - header_offset_spec(align as int) - old(self).start()),
                r.unwrap() - header_offset_spec(align as int) - old(self).start(),
            ),
    {
        let ghost total = size + header_offset_spec(align as int);
        let level = match request_level(size, align) {
            Some(l) => l,
            None => {
                proof {
                    assert forall|l: int, k: int| is_level_for(total, l) implies !#[trigger] self.lowest_free(
                        l,
                        k,
                    ) by {
                        if 0 <= l < LEVELS {
                            lemma_block_size_bounds(l);
                        }
                    }
                }
                return None;
            },
        };
        match self.find(level) {
            Some(block) => {
                proof {
                    let k = choose|k: int|
                        #[trigger] old(self).lowest_free(level as int, k) && self.carved_from(
                            old(self),
                            level as int,
                            k,
                            block - old(self).start(),
                        );
                    assert(old(self).lowest_free(level as int, k));
                    let off = block - old(self).start();
                    self.lemma_block_in_heap(off);
                    lemma_block_size_bounds(level as int);
                    if old(self).start() % block_size(level as int) == 0 {
                        vstd::arithmetic::div_mod::lemma_mod_adds(
                            old(self).start(),
                            off,
                            block_size(level as int),
                        );
                    }
                    assert(Self::placed(old(self).start(), old(self).size(), block as int, level as int));
                }
                let mem = ListNode::conceal(block, align);
                proof {
                    assert(self.found(
                        old(self),
                        level as int,
                        mem - header_offset_spec(align as int) - old(self).start(),
                    ));
                    assert(self.level_at(mem - header_offset_spec(align as int) - old(self).start()) == level);
                }
                Some(mem)
            },
            None => {
                proof {
                    assert forall|l: int, k: int| is_level_for(total, l) implies !#[trigger] self.lowest_free(
                        l,
                        k,
                    ) by {
                        lemma_level_unique(total, l, level as int);
                        if self.lowest_free(l, k) {
                            assert(self.free_list(k).len() == 0);
                        }
                    }
                }
                None
            },
        }
    }

    /// The block of `level` at address `block` lies in the heap of `size`
    /// bytes at `start` and is aligned to its size from the start of the
    /// heap; where the heap itself starts on a multiple of that size, so
    /// does the block.
    pub open spec fn placed(start: int, size: int, block: int, level: int) -> bool {
        &&& start <= block
        &&& block + block_size(level) <= start + size
        &&& (block - start) % block_size(level) == 0
        &&& start % block_size(level) == 0 ==> block % block_size(level) == 0
    }

    /// `mem` is memory handed out for a request of `size` bytes at
    /// alignment `align` and not freed since, as far as the allocator keeps
    /// track: a taken block starts the header's width below `mem`, and its
    /// level is the level of such a request.
    pub open spec fn allocated_as(&self, mem: int, size: int, align: int) -> bool {
        let off = mem - header_offset_spec(align) - self.start();
        &&& off >= 0
        &&& self.is_taken(off)
        &&& is_level_for(size + header_offset_spec(align), self.level_at(off))
    }

    /// Frees the memory at `mem`, which `allocate` returned for a request of
    /// this `size` and `align`: returns the block that holds it to the free
    /// lists, as `insert` does.
    pub fn dealloc(&mut self, mem: usize, size: usize, align: usize)
        requires
            old(self).wf(),
            old(self).allocated_as(mem as int, size as int, align as int),
        ensures
            final(self).wf(),
            final(self).start() == old(self).start(),
            final(self).size() == old(self).size(),
            final(self).extent() == old(self).extent(),
            exists|to: int|
                #[trigger] old(self).merges_up(
                    mem - header_offset_spec(align as int) - old(self).start(),
                    old(self).level_at(mem - header_offset_spec(align as int) - old(self).start()),
                    to,
                ) && final(self).merged_from(
                    old(self),
                    mem - header_offset_spec(align as int) - old(self).start(),
                    old(self).level_at(mem - header_offset_spec(align as int) - old(self).start()),
                    to,
                ),
            final(self).inserted(old(self), mem - header_offset_spec(align as int) - old(self).start()),
    {
        let block = ListNode::magic(mem, align);
        self.insert(block);
    }

    /// Whether a block held by a caller starts at `addr`: whether `insert`
    /// may be called with it.
    pub fn is_taken_at(&self, addr: usize) -> (r: bool)
        requires
            self.wf(),
        ensures
            r == (addr >= self.start() && self.is_taken(addr - self.start())),
    {
        if addr < self.heap_start {
            return false;
        }
        let off = addr - self.heap_start;
        if off % 32 != 0 || off / 32 >= self.nodes.len() {
            return false;
        }
        match self.nodes[off / 32].flag {
            Flag::Taken => true,
            _ => false,
        }
    }

    /// Whether `mem` is memory that `allocate` handed out for a request with
    /// this `align` and that was not freed since: whether `dealloc` may be
    /// called with it.
    pub fn is_allocated(&self, mem: usize, align: usize) -> (r: bool)
        requires
            self.wf(),
        ensures
            r == (mem - header_offset_spec(align as int) >= self.start() && self.is_taken(
                mem - header_offset_spec(align as int) - self.start(),
            )),
    {
        let shift = header_offset(align);
        if mem < shift {
            return false;
        }
        self.is_taken_at(mem - shift)
    }

    /// Whether `dealloc` may be called with `mem`, `size` and `align`.
    pub fn may_dealloc(&self, mem: usize, size: usize, align: usize) -> (r: bool)
        requires
            self.wf(),
        ensures
            r == self.allocated_as(mem as int, size as int, align as int),
    {
        if !self.is_allocated(mem, align) {
            return false;
        }
        let block = mem - header_offset(align);
        proof {
            let off = block - self.start();
            self.lemma_block_in_heap(off);
            lemma_block_size_bounds(self.level_at(off));
        }
        match (request_level(size, align), self.block_level(block)) {
            (Some(l), Some(b)) => {
                proof {
                    if l == b {
                    } else if is_level_for(size + header_offset_spec(align as int), b as int) {
                        lemma_level_unique(size + header_offset_spec(align as int), l as int, b as int);
                    }
                }
                l == b as usize
            },
            _ => false,
        }
    }

    /// Address of the first byte of the heap.
    pub fn heap_start(&self) -> (a: usize)
        ensures
            a == self.start(),
    {
        self.heap_start
    }

    /// Bytes handed to the allocator.
    pub fn heap_size(&self) -> (n: usize)
        ensures
            n == self.size(),
    {
        self.heap_size
    }

    /// The addresses of the free blocks of `level`, in list order; none
    /// where `level` is no level of the table.
    pub fn free_blocks(&self, level: usize) -> (v: Vec<usize>)
        requires
            self.wf(),
        ensures
            level >= LEVELS ==> v@.len() == 0,
            level < LEVELS ==> v@.len() == self.free_list(level as int).len(),
            level < LEVELS ==> forall|i: int|
                0 <= i < v@.len() ==> #[trigger] v@[i] == self.start() + self.free_list(level as int)[i],
    {
        let mut v: Vec<usize> = Vec::new();
        if level >= LEVELS as usize {
            return v;
        }
        let ghost list = self.lists@[level as int];
        let mut cur = self.list_heads[level];
        proof {
            assert(self.head_ok(level as int));
        }
        while cur.is_some()
            invariant
                self.wf(),
                level < LEVELS,
                list == self.lists@[level as int],
                v@.len() <= list.len(),
                cur == (if v@.len() < list.len() {
                    Some(list[v@.len() as int])
                } else {
                    None
                }),
                forall|i: int| 0 <= i < v@.len() ==> #[trigger] v@[i] == self.heap_start + list[i],
            decreases list.len() - v@.len(),
        {
            let off = cur.unwrap();
            proof {
                assert(self.link_ok(level as int, v@.len() as int));
                assert(self.block_ok(off as int));
            }
            v.push(self.heap_start + off);
            cur = self.nodes[off / 32].next;
        }
        v
    }

    /// The level of the block that starts at `addr`, free or taken; `None`
    /// where no block starts there.
    pub fn block_level(&self, addr: usize) -> (r: Option<u8>)
        requires
            self.wf(),
        ensures
            r is Some <==> addr >= self.start() && self.is_block(addr - self.start()),
            r is Some ==> r.unwrap() == self.level_at(addr - self.start()),
    {
        if addr < self.heap_start {
            return None;
        }
        let off = addr - self.heap_start;
        if off % 32 != 0 || off / 32 >= self.nodes.len() {
            return None;
        }
        let n = self.nodes[off / 32];
        match n.flag {
            Flag::Inner => None,
            _ => Some(n.level),
        }
    }

    /// Reserving a block and returning it at once leaves every free list as
    /// it was: the splits that `find` made are undone by the merges of
    /// `insert`, level by level, up to the block that `find` took.
    pub proof fn lemma_round_trip(s0: Self, s1: Self, s2: Self, level: int, k: int, off: int, to: int)
        requires
            s0.wf(),
            s1.wf(),
            s1.extent() == s0.extent(),
            s0.lowest_free(level, k),
            s1.carved_from(&s0, level, k, off),
            s1.merges_up(off, level, to),
            s2.merged_from(&s1, off, level, to),
        ensures
            to == k,
            forall|j: int| 0 <= j < LEVELS ==> #[trigger] s2.free_list(j) == s0.free_list(j),
    {
        s0.lemma_list_entry(k, 0);
        s0.lemma_block_in_heap(off);
        assert(!s0.mergeable(off, k));
        assert forall|j: int| level <= j <= k implies ancestor(off, j) == off by {
            lemma_aligned_down(off, k, j);
        }
        assert forall|j: int| level <= j < k implies buddy_of(off, j) == off + block_size(j) && s1.mergeable(
            off,
            j,
        ) by {
            lemma_aligned_down(off, k, j + 1);
            lemma_block_size_monotonic(j, k);
            lemma_block_size_bounds(j);
            assert(block_size(j + 1) == 2 * block_size(j));
            assert(0 <= off + block_size(j) <= usize::MAX);
            assert(s1.free_list(j) == seq![(off + block_size(j)) as usize]);
            assert(s1.free_list(j)[0] == (off + block_size(j)) as usize);
            s1.lemma_list_entry(j, 0);
        }
        if to < k {
            assert(s1.mergeable(off, to));
        }
        if to > k {
            assert(s1.mergeable(ancestor(off, k), k));
            let b = buddy_of(off, k);
            lemma_block_size_bounds(k);
            lemma_half_position(off, block_size(k));
            assert(s0.hdr(b).flag == s1.hdr(b).flag);
        }
        assert forall|j: int| 0 <= j < LEVELS implies #[trigger] s2.free_list(j) == s0.free_list(j) by {
            if level <= j < k {
                lemma_block_size_monotonic(j, k);
                let list = s1.free_list(j);
                let b = (off + block_size(j)) as usize;
                assert(list == seq![b]);
                assert(list[0] == b);
                assert(list.index_of(b) == 0);
                assert(s2.free_list(j) =~= s0.free_list(j));
            } else if j == k {
                assert(s2.free_list(k) =~= s0.free_list(k));
            }
        }
    }

    /// `find` takes the bytes of the block it returns and no others: every
    /// other free block stays free at its level, and what is left of the
    /// block that was split is free again, as one block of each level from
    /// the level asked for up to the level below the block's own, each
    /// ending where the next begins.
    pub proof fn lemma_find_keeps_free(s0: Self, s1: Self, level: int, k: int, off: int)
        requires
            s0.wf(),
            s1.wf(),
            s1.extent() == s0.extent(),
            s0.lowest_free(level, k),
            s1.carved_from(&s0, level, k, off),
        ensures
            forall|o: int|
                s0.is_free(o) && o != off ==> #[trigger] s1.is_free(o) && s1.level_at(o) == s0.level_at(o),
            forall|j: int|
                level <= j < k ==> s1.is_free(off + #[trigger] block_size(j)) && s1.level_at(off + block_size(j))
                    == j && s1.block_end(off + block_size(j)) == off + block_size(j + 1),
    {
        s0.lemma_list_entry(k, 0);
        s0.lemma_block_in_heap(off);
        assert forall|o: int| s0.is_free(o) && o != off implies #[trigger] s1.is_free(o) && s1.level_at(o)
            == s0.level_at(o) by {
            s0.lemma_blocks_disjoint(o, off);
            s0.lemma_block_in_heap(o);
            lemma_block_size_bounds(s0.level_at(o));
            assert(s1.hdr(o).flag == s0.hdr(o).flag);
        }
        assert forall|j: int| level <= j < k implies s1.is_free(off + #[trigger] block_size(j)) && s1.level_at(
            off + block_size(j),
        ) == j && s1.block_end(off + block_size(j)) == off + block_size(j + 1) by {
            lemma_block_size_monotonic(j, k);
            lemma_block_size_bounds(j);
            assert(s1.free_list(j) == seq![(off + block_size(j)) as usize]);
            assert(s1.free_list(j)[0] == (off + block_size(j)) as usize);
            s1.lemma_list_entry(j, 0);
        }
    }

    /// The block that was free at `off` in `old_self` is still free at its
    /// level, or lies inside the block of level `to` at `merged`.
    pub open spec fn kept_free(&self, old_self: &Self, off: int, merged: int, to: int) -> bool {
        ||| self.is_free(off) && self.level_at(off) == old_self.level_at(off)
        ||| merged <= off && old_self.block_end(off) <= merged + block_size(to)
    }

    /// `insert` frees the bytes of the block it is given and loses none:
    /// the merged block that it links in is free and holds the block, and
    /// every block that was free before is still free at its level or lies
    /// inside the merged block.
    pub proof fn lemma_insert_keeps_free(s1: Self, s2: Self, off: int, from: int, to: int)
        requires
            s1.wf(),
            s2.wf(),
            s2.extent() == s1.extent(),
            s1.is_taken(off),
            s1.level_at(off) == from,
            s1.merges_up(off, from, to),
            s2.merged_from(&s1, off, from, to),
        ensures
            s2.is_free(ancestor(off, to)),
            s2.level_at(ancestor(off, to)) == to,
            ancestor(off, to) <= off,
            off + block_size(from) <= ancestor(off, to) + block_size(to),
            forall|o: int| s1.is_free(o) ==> #[trigger] s2.kept_free(&s1, o, ancestor(off, to), to),
    {
        let p = ancestor(off, to);
        let big = block_size(to);
        s1.lemma_block_in_heap(off);
        lemma_block_size_monotonic(0, to);
        lemma_block_size_monotonic(from, to);
        lemma_round_down_twice(off, big);
        assert(p % big == 0);
        assert(p <= off < p + big) by {
            vstd::arithmetic::div_mod::lemma_mod_bound(off, big);
        }
        assert((p + big) % big == 0) by {
            vstd::arithmetic::div_mod::lemma_mod_add_multiples_vanish(p, big);
        }
        lemma_aligned_down(p + big, to, from);
        lemma_multiples_gap(off, p + big, block_size(from));
        assert forall|o: int| s1.is_free(o) implies #[trigger] s2.kept_free(&s1, o, ancestor(off, to), to) by {
            if o < p || o >= p + big {
                assert(s1.valid_off(o));
                assert(s2.hdr(o).flag == s1.hdr(o).flag);
                assert(s2.hdr(o).level == s1.hdr(o).level);
                assert(s2.is_free(o) && s2.level_at(o) == s1.level_at(o));
            } else {
                let lo = s1.level_at(o);
                s1.lemma_block_in_heap(o);
                lemma_block_size_monotonic(0, lo);
                if lo >= to {
                    lemma_aligned_down(o, lo, to);
                    if p < o {
                        lemma_multiples_gap(p, o, big);
                    }
                    assert(o == p);
                    lemma_block_size_monotonic(to, lo);
                    s1.lemma_blocks_disjoint(o, off);
                } else {
                    lemma_aligned_down(p + big, to, lo);
                    lemma_multiples_gap(o, p + big, block_size(lo));
                    assert(p <= o && s1.block_end(o) <= p + big);
                }
            }
        }
    }

    /// `find` frees nothing that was not free: a block that is free after
    /// it was free before, at the same level, or is a part of the block
    /// that was split.
    pub proof fn lemma_find_frees_nothing(s0: Self, s1: Self, level: int, k: int, off: int)
        requires
            s0.wf(),
            s1.wf(),
            s1.extent() == s0.extent(),
            s0.lowest_free(level, k),
            s1.carved_from(&s0, level, k, off),
        ensures
            forall|o: int|
                #[trigger] s1.is_free(o) ==> (s0.is_free(o) && s0.level_at(o) == s1.level_at(o)) || (off < o
                    && s1.block_end(o) <= off + block_size(k)),
    {
        s0.lemma_list_entry(k, 0);
        s0.lemma_block_in_heap(off);
        let big = block_size(k);
        lemma_block_size_monotonic(0, k);
        assert((off + big) % big == 0) by {
            vstd::arithmetic::div_mod::lemma_mod_add_multiples_vanish(off, big);
        }
        assert forall|o: int| #[trigger] s1.is_free(o) implies (s0.is_free(o) && s0.level_at(o) == s1.level_at(o))
            || (off < o && s1.block_end(o) <= off + big) by {
            if o < off || o >= off + big {
                assert(s0.valid_off(o));
                assert(s1.hdr(o).flag == s0.hdr(o).flag);
                assert(s1.hdr(o).level == s0.hdr(o).level);
            } else {
                let lo = s1.level_at(o);
                s1.lemma_block_in_heap(o);
                lemma_block_size_monotonic(0, lo);
                assert(o != off);
                if lo >= k {
                    lemma_aligned_down(o, lo, k);
                    lemma_multiples_gap(off, o, big);
                } else {
                    lemma_aligned_down(off + big, k, lo);
                    lemma_multiples_gap(o, off + big, block_size(lo));
                    assert(off < o && s1.block_end(o) <= off + big);
                }
            }
        }
    }

    /// `insert` frees nothing but the block it links in: a block that is
    /// free after it was free before, at the same level, or is the merged
    /// block.
    pub proof fn lemma_insert_frees_one(s1: Self, s2: Self, off: int, from: int, to: int)
        requires
            s1.wf(),
            s2.wf(),
            s2.extent() == s1.extent(),
            s1.is_taken(off),
            s1.level_at(off) == from,
            s1.merges_up(off, from, to),
            s2.merged_from(&s1, off, from, to),
        ensures
            forall|o: int|
                #[trigger] s2.is_free(o) ==> (s1.is_free(o) && s1.level_at(o) == s2.level_at(o)) || o == ancestor(
                    off,
                    to,
                ),
    {
        let p = ancestor(off, to);
        let big = block_size(to);
        assert forall|o: int| #[trigger] s2.is_free(o) implies (s1.is_free(o) && s1.level_at(o) == s2.level_at(o))
            || o == p by {
            if o < p || o >= p + big {
                assert(s1.valid_off(o));
                assert(s2.hdr(o).flag == s1.hdr(o).flag);
                assert(s2.hdr(o).level == s1.hdr(o).level);
            } else if o != p {
                s2.lemma_blocks_disjoint(o, p);
            }
        }
    }
}

impl Default for BuddyAllocator {
    fn default() -> (a: Self)
        ensures
            a.is_fresh(),
    {
        Self::new()
    }
}

} // verus!
