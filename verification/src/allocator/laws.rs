//! What holds of the allocator over whole runs of reservations and
//! returns: which blocks are taken, and that no free byte is ever lost.

use vstd::prelude::*;
use crate::allocator::buddy::BuddyAllocator;
use crate::allocator::layout::{
    ancestor, block_size, buddy_of, lemma_block_size_monotonic, lemma_half_position, lemma_round_down_twice,
};

verus! {

/// One operation on the allocator, by the offset of the block it is about.
pub enum Op {
    /// `find` reserved the block at `off` for a request of `level`.
    Find { level: int, off: int },
    /// `insert` returned the block at `off`.
    Insert { off: int },
}

impl BuddyAllocator {
    /// The byte at offset `x` lies in a free block.
    pub open spec fn free_byte(&self, x: int) -> bool {
        exists|o: int| #[trigger] self.is_free(o) && o <= x < self.block_end(o)
    }

    /// The byte at offset `x` lies in a block held by a caller.
    pub open spec fn taken_byte(&self, x: int) -> bool {
        exists|o: int| #[trigger] self.is_taken(o) && o <= x < self.block_end(o)
    }

    /// The offsets of all bytes that lie in free blocks.
    pub open spec fn free_bytes(&self) -> Set<int> {
        Set::new(|x: int| self.free_byte(x))
    }

    /// No block is held by a caller.
    pub open spec fn none_taken(&self) -> bool {
        forall|o: int| !#[trigger] self.is_taken(o)
    }

    /// `self` is what a successful `find(level)` makes of `pre`, with the
    /// block at `off` returned.
    pub open spec fn found(&self, pre: &Self, level: int, off: int) -> bool {
        &&& pre.wf()
        &&& self.wf()
        &&& self.extent() == pre.extent()
        &&& exists|k: int| #[trigger] pre.lowest_free(level, k) && self.carved_from(pre, level, k, off)
    }

    /// `self` is what `insert` makes of `pre`, given the taken block at
    /// `off`.
    pub open spec fn inserted(&self, pre: &Self, off: int) -> bool {
        &&& pre.wf()
        &&& self.wf()
        &&& self.extent() == pre.extent()
        &&& pre.is_taken(off)
        &&& exists|to: int| #[trigger]
            pre.merges_up(off, pre.level_at(off), to) && self.merged_from(pre, off, pre.level_at(off), to)
    }

    /// `self` is what the operation `op` makes of `pre`.
    pub open spec fn step(&self, pre: &Self, op: Op) -> bool {
        match op {
            Op::Find { level, off } => self.found(pre, level, off),
            Op::Insert { off } => self.inserted(pre, off),
        }
    }
}

/// `states` is a run of the allocator: each state comes from the one
/// before it by the operation of the same index.
pub open spec fn is_run(states: Seq<BuddyAllocator>, ops: Seq<Op>) -> bool {
    &&& states.len() == ops.len() + 1
    &&& forall|i: int| 0 <= i < ops.len() ==> (#[trigger] states[i + 1]).step(&states[i], ops[i])
}

/// The blocks that the operations reserved and did not return since.
pub open spec fn live(ops: Seq<Op>) -> Set<int>
    decreases ops.len(),
{
    if ops.len() == 0 {
        Set::empty()
    } else {
        match ops.last() {
            Op::Find { level, off } => live(ops.drop_last()).insert(off),
            Op::Insert { off } => live(ops.drop_last()).remove(off),
        }
    }
}

/// A byte of a block that was split down from level `k` to `level`, past
/// the half that stays, lies in the upper half made at some level between.
pub proof fn lemma_split_tiling(off: int, level: int, k: int, x: int) -> (j: int)
    requires
        0 <= level <= k,
        off + block_size(level) <= x < off + block_size(k),
    ensures
        level <= j < k,
        off + block_size(j) <= x < off + block_size(j + 1),
    decreases k,
{
    if x >= off + block_size(k - 1) {
        k - 1
    } else {
        lemma_split_tiling(off, level, k - 1, x)
    }
}

/// A byte of the block that the block of level `from` at `off` merges
/// into at level `to` lies in that block itself or in the buddy taken in
/// at some level between.
pub proof fn lemma_merge_tiling(off: int, from: int, to: int, x: int) -> (j: int)
    requires
        0 <= from <= to,
        off >= 0,
        off % block_size(from) == 0,
        ancestor(off, to) <= x < ancestor(off, to) + block_size(to),
    ensures
        from - 1 <= j < to,
        j == from - 1 ==> off <= x < off + block_size(from),
        j >= from ==> buddy_of(ancestor(off, j), j) <= x < buddy_of(ancestor(off, j), j) + block_size(j),
    decreases to,
{
    if to == from {
        from - 1
    } else {
        let b = block_size(to - 1);
        let a = ancestor(off, to - 1);
        lemma_block_size_monotonic(0, to - 1);
        lemma_round_down_twice(off, b);
        lemma_half_position(a, b);
        if a % (2 * b) == 0 {
            if x < a + b {
                lemma_merge_tiling(off, from, to - 1, x)
            } else {
                to - 1
            }
        } else {
            if x < a {
                to - 1
            } else {
                lemma_merge_tiling(off, from, to - 1, x)
            }
        }
    }
}

/// `find` takes one block and no other: after it the taken blocks are
/// those taken before and the block returned, each at its level.
pub proof fn lemma_find_step(pre: BuddyAllocator, post: BuddyAllocator, level: int, off: int)
    requires
        post.found(&pre, level, off),
    ensures
        forall|o: int| #[trigger] post.is_taken(o) <==> pre.is_taken(o) || o == off,
        forall|o: int| #[trigger] pre.is_taken(o) ==> post.level_at(o) == pre.level_at(o),
        post.level_at(off) == level,
        !pre.is_taken(off),
{
    let k = choose|k: int| #[trigger] pre.lowest_free(level, k) && post.carved_from(&pre, level, k, off);
    pre.lemma_list_entry(k, 0);
    pre.lemma_block_in_heap(off);
    BuddyAllocator::lemma_find_keeps_free(pre, post, level, k, off);
    lemma_block_size_monotonic(0, level);
    assert forall|o: int| #[trigger] post.is_taken(o) <==> pre.is_taken(o) || o == off by {
        if o < off || o >= off + block_size(k) {
            if post.is_taken(o) || pre.is_taken(o) {
                assert(pre.valid_off(o));
                assert(post.hdr(o).flag == pre.hdr(o).flag);
            }
        } else if o != off {
            if pre.is_taken(o) {
                pre.lemma_blocks_disjoint(o, off);
                pre.lemma_block_in_heap(o);
                lemma_block_size_monotonic(0, pre.level_at(o));
            }
            if post.is_taken(o) {
                post.lemma_block_in_heap(o);
                lemma_block_size_monotonic(0, post.level_at(o));
                post.lemma_blocks_disjoint(o, off);
                let j = lemma_split_tiling(off, level, k, o);
                let b = off + block_size(j);
                assert(post.is_free(b));
                post.lemma_blocks_disjoint(o, b);
            }
        }
    }
    assert forall|o: int| #[trigger] pre.is_taken(o) implies post.level_at(o) == pre.level_at(o) by {
        pre.lemma_blocks_disjoint(o, off);
        pre.lemma_block_in_heap(o);
        lemma_block_size_monotonic(0, pre.level_at(o));
        assert(post.hdr(o).level == pre.hdr(o).level);
    }
}

/// `find` leaves every byte where it was, free or taken, but for the bytes
/// of the block it returns, which pass from free to taken.
pub proof fn lemma_find_bytes(pre: BuddyAllocator, post: BuddyAllocator, level: int, off: int, x: int)
    requires
        post.found(&pre, level, off),
    ensures
        pre.free_byte(x) && !(off <= x < off + block_size(level)) ==> post.free_byte(x),
        pre.free_byte(x) && off <= x < off + block_size(level) ==> post.taken_byte(x),
        pre.taken_byte(x) ==> post.taken_byte(x),
{
    let k = choose|k: int| #[trigger] pre.lowest_free(level, k) && post.carved_from(&pre, level, k, off);
    pre.lemma_list_entry(k, 0);
    BuddyAllocator::lemma_find_keeps_free(pre, post, level, k, off);
    lemma_find_step(pre, post, level, off);
    if pre.free_byte(x) {
        let o = choose|o: int| #[trigger] pre.is_free(o) && o <= x < pre.block_end(o);
        if o != off {
            pre.lemma_blocks_disjoint(o, off);
            pre.lemma_block_in_heap(o);
            lemma_block_size_monotonic(0, pre.level_at(o));
            lemma_block_size_monotonic(level, k);
            assert(post.hdr(o).flag == pre.hdr(o).flag);
            assert(post.hdr(o).level == pre.hdr(o).level);
            assert(post.is_free(o) && o <= x < post.block_end(o));
        } else if x < off + block_size(level) {
            assert(post.is_taken(off) && off <= x < post.block_end(off));
        } else {
            let j = lemma_split_tiling(off, level, k, x);
            let b = off + block_size(j);
            assert(post.is_free(b) && b <= x < post.block_end(b));
        }
    }
    if pre.taken_byte(x) {
        let t = choose|t: int| #[trigger] pre.is_taken(t) && t <= x < pre.block_end(t);
        assert(post.is_taken(t) && t <= x < post.block_end(t));
    }
}

/// `find` makes no byte free or taken that was neither: a byte that is free
/// after it was free before, and a byte that is taken after it was taken
/// before or was free.
pub proof fn lemma_find_bytes_back(pre: BuddyAllocator, post: BuddyAllocator, level: int, off: int, x: int)
    requires
        post.found(&pre, level, off),
    ensures
        post.free_byte(x) ==> pre.free_byte(x),
        post.taken_byte(x) ==> pre.taken_byte(x) || pre.free_byte(x),
{
    let k = choose|k: int| #[trigger] pre.lowest_free(level, k) && post.carved_from(&pre, level, k, off);
    pre.lemma_list_entry(k, 0);
    BuddyAllocator::lemma_find_frees_nothing(pre, post, level, k, off);
    lemma_find_step(pre, post, level, off);
    lemma_block_size_monotonic(level, k);
    if post.free_byte(x) {
        let o = choose|o: int| #[trigger] post.is_free(o) && o <= x < post.block_end(o);
        if pre.is_free(o) && pre.level_at(o) == post.level_at(o) {
            assert(pre.is_free(o) && o <= x < pre.block_end(o));
        } else {
            assert(pre.is_free(off) && off <= x < pre.block_end(off));
        }
    }
    if post.taken_byte(x) {
        let t = choose|t: int| #[trigger] post.is_taken(t) && t <= x < post.block_end(t);
        if t == off {
            assert(pre.is_free(off) && off <= x < pre.block_end(off));
        } else {
            assert(pre.is_taken(t) && t <= x < pre.block_end(t));
        }
    }
}

/// `insert` returns one block and no other: after it the taken blocks are
/// those taken before but for the block given, each at its level.
pub proof fn lemma_insert_step(pre: BuddyAllocator, post: BuddyAllocator, off: int)
    requires
        post.inserted(&pre, off),
    ensures
        forall|o: int| #[trigger] post.is_taken(o) <==> pre.is_taken(o) && o != off,
        forall|o: int| #[trigger] pre.is_taken(o) && o != off ==> post.level_at(o) == pre.level_at(o),
{
    let from = pre.level_at(off);
    let to = choose|to: int| #[trigger] pre.merges_up(off, from, to) && post.merged_from(&pre, off, from, to);
    let p = ancestor(off, to);
    let big = block_size(to);
    pre.lemma_block_in_heap(off);
    BuddyAllocator::lemma_insert_keeps_free(pre, post, off, from, to);
    lemma_block_size_monotonic(0, to);
    lemma_block_size_monotonic(0, from);
    assert forall|o: int| #[trigger] post.is_taken(o) <==> pre.is_taken(o) && o != off by {
        if o < p || o >= p + big {
            if post.is_taken(o) || pre.is_taken(o) {
                assert(pre.valid_off(o));
                assert(post.hdr(o).flag == pre.hdr(o).flag);
            }
        } else {
            if post.is_taken(o) {
                post.lemma_block_in_heap(o);
                lemma_block_size_monotonic(0, post.level_at(o));
                post.lemma_blocks_disjoint(o, p);
            }
            if pre.is_taken(o) && o != off {
                pre.lemma_block_in_heap(o);
                lemma_block_size_monotonic(0, pre.level_at(o));
                let j = lemma_merge_tiling(off, from, to, o);
                if j == from - 1 {
                    pre.lemma_blocks_disjoint(o, off);
                } else {
                    let b = buddy_of(ancestor(off, j), j);
                    assert(pre.mergeable(ancestor(off, j), j));
                    pre.lemma_blocks_disjoint(o, b);
                }
            }
        }
    }
    assert forall|o: int| #[trigger] pre.is_taken(o) && o != off implies post.level_at(o) == pre.level_at(o) by {
        assert(post.is_taken(o));
        if !(o < p || o >= p + big) {
            post.lemma_block_in_heap(o);
            lemma_block_size_monotonic(0, post.level_at(o));
            post.lemma_blocks_disjoint(o, p);
        }
        assert(post.hdr(o).level == pre.hdr(o).level);
    }
}

/// `insert` keeps every free byte free and frees the bytes of the block it
/// is given; the bytes of the other taken blocks stay taken.
pub proof fn lemma_insert_bytes(pre: BuddyAllocator, post: BuddyAllocator, off: int, x: int)
    requires
        post.inserted(&pre, off),
    ensures
        pre.free_byte(x) ==> post.free_byte(x),
        off <= x < pre.block_end(off) ==> post.free_byte(x),
        pre.taken_byte(x) ==> post.taken_byte(x) || post.free_byte(x),
{
    let from = pre.level_at(off);
    let to = choose|to: int| #[trigger] pre.merges_up(off, from, to) && post.merged_from(&pre, off, from, to);
    let p = ancestor(off, to);
    BuddyAllocator::lemma_insert_keeps_free(pre, post, off, from, to);
    lemma_insert_step(pre, post, off);
    if off <= x < pre.block_end(off) {
        assert(post.is_free(p) && p <= x < post.block_end(p));
    }
    if pre.free_byte(x) {
        let o = choose|o: int| #[trigger] pre.is_free(o) && o <= x < pre.block_end(o);
        assert(post.kept_free(&pre, o, p, to));
        if post.is_free(o) && post.level_at(o) == pre.level_at(o) {
            assert(post.is_free(o) && o <= x < post.block_end(o));
        } else {
            assert(post.is_free(p) && p <= x < post.block_end(p));
        }
    }
    if pre.taken_byte(x) {
        let t = choose|t: int| #[trigger] pre.is_taken(t) && t <= x < pre.block_end(t);
        if t != off {
            assert(post.is_taken(t) && t <= x < post.block_end(t));
        }
    }
}

/// `insert` frees no byte but those of the block it is given: a byte that
/// is free after it was free before or lay in that block, and a byte that
/// is taken after it was taken before.
pub proof fn lemma_insert_bytes_back(pre: BuddyAllocator, post: BuddyAllocator, off: int, x: int)
    requires
        post.inserted(&pre, off),
    ensures
        post.free_byte(x) ==> pre.free_byte(x) || off <= x < pre.block_end(off),
        post.taken_byte(x) ==> pre.taken_byte(x),
{
    let from = pre.level_at(off);
    let to = choose|to: int| #[trigger] pre.merges_up(off, from, to) && post.merged_from(&pre, off, from, to);
    let p = ancestor(off, to);
    pre.lemma_block_in_heap(off);
    BuddyAllocator::lemma_insert_frees_one(pre, post, off, from, to);
    lemma_insert_step(pre, post, off);
    if post.free_byte(x) {
        let o = choose|o: int| #[trigger] post.is_free(o) && o <= x < post.block_end(o);
        if pre.is_free(o) && pre.level_at(o) == post.level_at(o) {
            assert(pre.is_free(o) && o <= x < pre.block_end(o));
        } else {
            let j = lemma_merge_tiling(off, from, to, x);
            if j >= from {
                let b = buddy_of(ancestor(off, j), j);
                assert(pre.mergeable(ancestor(off, j), j));
                assert(pre.is_free(b) && b <= x < pre.block_end(b));
            }
        }
    }
    if post.taken_byte(x) {
        let t = choose|t: int| #[trigger] post.is_taken(t) && t <= x < post.block_end(t);
        assert(pre.is_taken(t) && t <= x < pre.block_end(t));
    }
}

/// Over any run that starts with no block taken, in whatever order blocks
/// are reserved and returned: the taken blocks are at every point exactly
/// those reserved and not returned since, and the bytes that were free at
/// the start are exactly the bytes that are free or lie in a taken block.
pub proof fn lemma_run(states: Seq<BuddyAllocator>, ops: Seq<Op>, x: int)
    requires
        is_run(states, ops),
        states[0].none_taken(),
    ensures
        forall|o: int| #[trigger] states.last().is_taken(o) <==> live(ops).contains(o),
        states[0].free_byte(x) <==> states.last().free_byte(x) || states.last().taken_byte(x),
    decreases ops.len(),
{
    if ops.len() > 0 {
        let n = ops.len() - 1;
        let before = states.drop_last();
        let earlier = ops.drop_last();
        assert(is_run(before, earlier)) by {
            assert forall|i: int| 0 <= i < earlier.len() implies (#[trigger] before[i + 1]).step(
                &before[i],
                earlier[i],
            ) by {
                assert(states[i + 1].step(&states[i], ops[i]));
            }
        }
        lemma_run(before, earlier, x);
        let pre = states[n];
        let post = states[n + 1];
        assert(before.last() == pre);
        assert(states.last() == post);
        assert(post.step(&pre, ops[n]));
        match ops[n] {
            Op::Find { level, off } => {
                lemma_find_step(pre, post, level, off);
                lemma_find_bytes(pre, post, level, off, x);
                lemma_find_bytes_back(pre, post, level, off, x);
            },
            Op::Insert { off } => {
                lemma_insert_step(pre, post, off);
                lemma_insert_bytes(pre, post, off, x);
                lemma_insert_bytes_back(pre, post, off, x);
                if off <= x < pre.block_end(off) {
                    assert(pre.is_taken(off) && off <= x < pre.block_end(off));
                }
            },
        }
    }
}

/// The round trip: when every block that a run reserved has been returned,
/// in any order, no block is taken and the free bytes are exactly the
/// bytes that were free at the start: none is lost and none is gained.
pub proof fn lemma_all_returned(states: Seq<BuddyAllocator>, ops: Seq<Op>, x: int)
    requires
        is_run(states, ops),
        states[0].none_taken(),
        live(ops) == Set::<int>::empty(),
    ensures
        states.last().none_taken(),
        states[0].free_byte(x) <==> states.last().free_byte(x),
{
    lemma_run(states, ops, x);
    let last = states.last();
    if last.taken_byte(x) {
        let t = choose|t: int| #[trigger] last.is_taken(t) && t <= x < last.block_end(t);
        assert(live(ops).contains(t));
    }
}

/// The round trip in total: when every block that a run reserved has been
/// returned, the set of free bytes is the set it was at the start, and so
/// is their number.
pub proof fn lemma_free_total_restored(states: Seq<BuddyAllocator>, ops: Seq<Op>)
    requires
        is_run(states, ops),
        states[0].none_taken(),
        live(ops) == Set::<int>::empty(),
    ensures
        states.last().none_taken(),
        states.last().free_bytes() == states[0].free_bytes(),
        states.last().free_bytes().len() == states[0].free_bytes().len(),
{
    lemma_all_returned(states, ops, 0);
    assert forall|x: int| states.last().free_bytes().contains(x) <==> states[0].free_bytes().contains(x) by {
        lemma_all_returned(states, ops, x);
    }
    assert(states.last().free_bytes() =~= states[0].free_bytes());
}

} // verus!
