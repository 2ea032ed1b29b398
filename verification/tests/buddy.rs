use buddy_heap::allocator::buddy::BuddyAllocator;
use buddy_heap::allocator::layout::{
    block_bytes, header_offset, level, request_level, HEADER_BYTES, LEVELS, MAX_BYTES, MIN, MIN_BYTES,
};
use buddy_heap::allocator::node::{Flag, ListNode};

const START: usize = 0x1000;

fn one_block_heap() -> BuddyAllocator {
    let mut a = BuddyAllocator::new();
    a.init(START, MAX_BYTES);
    a
}

#[test]
fn constants_agree() {
    assert_eq!(MIN_BYTES, 1usize << MIN);
    assert_eq!(MAX_BYTES, MIN_BYTES << (LEVELS - 1));
    assert_eq!(HEADER_BYTES, 24);
}

#[test]
fn block_bytes_doubles_per_level() {
    assert_eq!(block_bytes(0), 32);
    assert_eq!(block_bytes(1), 64);
    assert_eq!(block_bytes(5), 1024);
    assert_eq!(block_bytes(9), 16384);
}

#[test]
fn level_exact_values() {
    assert_eq!(level(0), 0);
    assert_eq!(level(8), 0);
    assert_eq!(level(9), 1);
    assert_eq!(level(40), 1);
    assert_eq!(level(41), 2);
    assert_eq!(level(16360), 9);
    assert_eq!(level(16361), 10);
}

#[test]
fn level_of_largest_request_does_not_overflow() {
    let l = level(usize::MAX);
    assert_eq!(l, usize::BITS as usize - 5 + 1);
}

#[test]
fn level_is_monotonic_in_size() {
    let mut last = 0;
    for s in 0..20000usize {
        let l = level(s);
        assert!(l >= last);
        last = l;
    }
}

#[test]
fn header_offset_is_header_or_alignment() {
    assert_eq!(header_offset(1), 24);
    assert_eq!(header_offset(8), 24);
    assert_eq!(header_offset(24), 24);
    assert_eq!(header_offset(32), 32);
    assert_eq!(header_offset(4096), 4096);
}

#[test]
fn request_level_counts_alignment() {
    assert_eq!(request_level(8, 8), Some(0));
    assert_eq!(request_level(8, 64), Some(2));
    assert_eq!(request_level(16360, 8), Some(9));
    assert_eq!(request_level(16361, 8), None);
    assert_eq!(request_level(usize::MAX, 8), None);
    assert_eq!(request_level(8, usize::MAX), None);
}

#[test]
fn buddy_flips_the_size_bit() {
    assert_eq!(ListNode::buddy(0, 0), 32);
    assert_eq!(ListNode::buddy(32, 0), 0);
    assert_eq!(ListNode::buddy(64, 1), 0);
    assert_eq!(ListNode::buddy(0, 1), 64);
    assert_eq!(ListNode::buddy(8192, 8), 0);
    assert_eq!(ListNode::buddy(96, 0), 64);
}

#[test]
fn split_halves_are_buddies() {
    for l in 1..LEVELS {
        let half = block_bytes(l - 1);
        let off = 3 * block_bytes(l);
        let upper = ListNode::split(off, l);
        assert_eq!(upper - off, half);
        assert_eq!(upper ^ off, half);
        assert_eq!(ListNode::buddy(off, l - 1), upper);
        assert_eq!(ListNode::buddy(upper, l - 1), off);
    }
    assert_eq!(ListNode::split(0, 9), 8192);
}

#[test]
fn primary_rounds_down_to_the_parent() {
    assert_eq!(ListNode::primary(32, 1), 0);
    assert_eq!(ListNode::primary(0, 1), 0);
    assert_eq!(ListNode::primary(64, 2), 0);
    assert_eq!(ListNode::primary(128, 2), 128);
    assert_eq!(ListNode::primary(8192, 9), 0);
}

#[test]
fn conceal_and_magic_are_inverse() {
    assert_eq!(ListNode::conceal(0x1000, 8), 0x1018);
    assert_eq!(ListNode::conceal(0x1000, 64), 0x1040);
    assert_eq!(ListNode::magic(0x1018, 8), 0x1000);
    assert_eq!(ListNode::magic(ListNode::conceal(0x2000, 128), 128), 0x2000);
}

#[test]
fn inner_header_heads_no_block() {
    let n = ListNode::inner();
    assert_eq!(n.flag, Flag::Inner);
    assert_eq!(n.next, None);
    assert_eq!(n.prev, None);
}

#[test]
fn new_allocator_manages_nothing() {
    let mut a = BuddyAllocator::new();
    assert_eq!(a.heap_size(), 0);
    for l in 0..LEVELS as usize {
        assert!(a.free_blocks(l).is_empty());
    }
    assert_eq!(a.allocate(8, 8), None);
    assert_eq!(a.find(0), None);
    let mut d = BuddyAllocator::default();
    assert_eq!(d.allocate(1, 1), None);
}

#[test]
fn init_with_one_maximal_block() {
    let a = one_block_heap();
    assert_eq!(a.heap_start(), START);
    assert_eq!(a.heap_size(), MAX_BYTES);
    assert_eq!(a.free_blocks(9), vec![START]);
    for l in 0..9 {
        assert!(a.free_blocks(l).is_empty());
    }
    assert!(a.free_blocks(10).is_empty());
}

#[test]
fn init_carves_largest_blocks_first() {
    let mut a = BuddyAllocator::new();
    a.init(START, 2 * 16384 + 8192 + 32 + 7);
    assert_eq!(a.free_blocks(9), vec![START + 16384, START]);
    assert_eq!(a.free_blocks(8), vec![START + 32768]);
    assert_eq!(a.free_blocks(0), vec![START + 40960]);
    for l in 1..8 {
        assert!(a.free_blocks(l).is_empty());
    }
}

#[test]
fn init_with_less_than_one_block() {
    let mut a = BuddyAllocator::new();
    a.init(START, 31);
    for l in 0..LEVELS as usize {
        assert!(a.free_blocks(l).is_empty());
    }
    assert_eq!(a.allocate(1, 1), None);
}

#[test]
fn smallest_request_splits_down_from_the_top() {
    let mut a = one_block_heap();
    let p = a.allocate(8, 8);
    assert_eq!(p, Some(START + header_offset(8)));
    for l in 0..9u8 {
        assert_eq!(a.free_blocks(l as usize), vec![START + block_bytes(l)]);
    }
    assert!(a.free_blocks(9).is_empty());
    assert_eq!(a.block_level(START), Some(0));
    assert_eq!(a.block_level(START + 32), Some(0));
    assert_eq!(a.block_level(START + 16), None);
}

#[test]
fn find_takes_the_smallest_sufficient_level() {
    let mut a = one_block_heap();
    assert_eq!(a.find(0), Some(START));
    assert_eq!(a.find(3), Some(START + 256));
    assert!(a.free_blocks(3).is_empty());
    assert_eq!(a.find(0), Some(START + 32));
    assert_eq!(a.find(0), Some(START + 64));
    assert_eq!(a.free_blocks(0), vec![START + 96]);
    assert!(a.free_blocks(1).is_empty());
}

#[test]
fn find_rejects_levels_outside_the_table() {
    let mut a = one_block_heap();
    assert_eq!(a.find(10), None);
    assert_eq!(a.find(usize::MAX), None);
    assert_eq!(a.free_blocks(9), vec![START]);
}

#[test]
fn two_buddies_freed_merge_into_their_parent() {
    let mut a = one_block_heap();
    let first = a.allocate(8, 8).unwrap();
    let second = a.allocate(8, 8).unwrap();
    let third = a.allocate(8, 8).unwrap();
    assert_eq!(first, START + 24);
    assert_eq!(second, START + 32 + 24);
    assert_eq!(third, START + 64 + 24);
    a.dealloc(first, 8, 8);
    assert_eq!(a.free_blocks(0), vec![START, START + 96]);
    a.dealloc(second, 8, 8);
    assert_eq!(a.free_blocks(1), vec![START]);
    assert_eq!(a.free_blocks(0), vec![START + 96]);
    assert_eq!(a.block_level(START), Some(1));
    assert_eq!(a.block_level(START + 32), None);
}

#[test]
fn freeing_everything_restores_the_maximal_block() {
    let mut a = one_block_heap();
    let p = a.allocate(8, 8).unwrap();
    let q = a.allocate(100, 8).unwrap();
    let r = a.allocate(8, 8).unwrap();
    a.dealloc(q, 100, 8);
    a.dealloc(p, 8, 8);
    a.dealloc(r, 8, 8);
    assert_eq!(a.free_blocks(9), vec![START]);
    for l in 0..9 {
        assert!(a.free_blocks(l).is_empty());
    }
}

#[test]
fn round_trip_in_any_order() {
    let orders: [[usize; 4]; 4] = [[0, 1, 2, 3], [3, 2, 1, 0], [1, 3, 0, 2], [2, 0, 3, 1]];
    for order in orders.iter() {
        let mut a = BuddyAllocator::new();
        a.init(START, 2 * MAX_BYTES + 4096);
        let before: Vec<Vec<usize>> = (0..LEVELS as usize).map(|l| a.free_blocks(l)).collect();
        let sizes = [8usize, 500, 40, 9000];
        let ptrs: Vec<usize> = sizes.iter().map(|s| a.allocate(*s, 8).unwrap()).collect();
        for i in order.iter() {
            a.dealloc(ptrs[*i], sizes[*i], 8);
        }
        for l in 0..LEVELS as usize {
            let mut now = a.free_blocks(l);
            let mut then = before[l].clone();
            now.sort();
            then.sort();
            assert_eq!(now, then);
        }
    }
}

#[test]
fn buddy_is_unlinked_from_the_middle_of_its_list() {
    let mut a = one_block_heap();
    let p: Vec<usize> = (0..6).map(|_| a.find(0).unwrap()).collect();
    assert_eq!(p, vec![START, START + 32, START + 64, START + 96, START + 128, START + 160]);
    a.insert(p[0]);
    a.insert(p[2]);
    a.insert(p[4]);
    assert_eq!(a.free_blocks(0), vec![START + 128, START + 64, START]);
    a.insert(p[3]);
    assert_eq!(a.free_blocks(0), vec![START + 128, START]);
    assert_eq!(a.free_blocks(1), vec![START + 64, START + 192]);
    a.insert(p[1]);
    assert_eq!(a.free_blocks(0), vec![START + 128]);
    assert_eq!(a.free_blocks(1), vec![START + 192]);
    assert_eq!(a.free_blocks(2), vec![START]);
}

#[test]
fn oversized_request_fails() {
    let mut a = one_block_heap();
    assert_eq!(a.allocate(MAX_BYTES, 8), None);
    assert_eq!(a.allocate(MAX_BYTES - 23, 8), None);
    assert_eq!(a.free_blocks(9), vec![START]);
    assert_eq!(a.allocate(MAX_BYTES - 24, 8), Some(START + 24));
}

#[test]
fn exhausted_heap_fails() {
    let mut a = one_block_heap();
    assert_eq!(a.allocate(9000, 8), Some(START + 24));
    assert_eq!(a.allocate(9000, 8), None);
    assert_eq!(a.allocate(8, 8), None);
}

#[test]
fn taken_blocks_lie_in_the_heap_and_do_not_overlap() {
    let mut a = BuddyAllocator::new();
    a.init(START, 3 * MAX_BYTES);
    let sizes = [8usize, 100, 8, 1000, 40, 4000, 8, 8, 300];
    let mut blocks: Vec<(usize, usize)> = Vec::new();
    for s in sizes.iter() {
        let p = a.allocate(*s, 8).unwrap();
        let block = p - header_offset(8);
        let l = a.block_level(block).unwrap();
        assert_eq!(l as usize, level(*s));
        let len = block_bytes(l);
        assert!(block >= START && block + len <= START + 3 * MAX_BYTES);
        assert_eq!((block - START) % len, 0);
        blocks.push((block, block + len));
    }
    for i in 0..blocks.len() {
        for j in 0..i {
            assert!(blocks[i].1 <= blocks[j].0 || blocks[j].1 <= blocks[i].0);
        }
    }
    for l in 0..LEVELS {
        for f in a.free_blocks(l as usize) {
            for b in blocks.iter() {
                assert!(f + block_bytes(l) <= b.0 || b.1 <= f);
            }
        }
    }
}

#[test]
fn aligned_heap_gives_aligned_blocks() {
    let mut a = BuddyAllocator::new();
    a.init(0x10000, MAX_BYTES);
    let p = a.allocate(1000, 8).unwrap();
    let block = p - 24;
    assert_eq!(block % 1024, 0);
    let q = a.allocate(2000, 64).unwrap();
    assert_eq!((q - 64) % 4096, 0);
}

#[test]
fn is_allocated_tells_live_memory() {
    let mut a = one_block_heap();
    let p = a.allocate(8, 8).unwrap();
    assert!(a.is_allocated(p, 8));
    assert!(!a.is_allocated(p + 32, 8));
    assert!(!a.is_allocated(p + 1, 8));
    assert!(!a.is_allocated(0, 8));
    assert!(!a.is_allocated(START + MAX_BYTES + 24, 8));
    a.dealloc(p, 8, 8);
    assert!(!a.is_allocated(p, 8));
}

fn assert_fully_merged(a: &BuddyAllocator) {
    let start = a.heap_start();
    for l in 0..(LEVELS - 1) {
        let list = a.free_blocks(l as usize);
        for f in list.iter() {
            let buddy = start + ListNode::buddy(*f - start, l);
            assert!(!list.contains(&buddy));
        }
        let mut sorted = list.clone();
        sorted.sort();
        sorted.dedup();
        assert_eq!(sorted.len(), list.len());
    }
}

#[test]
fn no_free_block_keeps_a_free_buddy() {
    let mut a = BuddyAllocator::new();
    a.init(START, 2 * MAX_BYTES + 1024 + 96);
    assert_fully_merged(&a);
    let sizes = [8usize, 8, 40, 200, 8, 1000, 8, 3000, 40, 8, 8, 500];
    let mut live: Vec<(usize, usize)> = Vec::new();
    for (i, s) in sizes.iter().enumerate() {
        let p = a.allocate(*s, 8).unwrap();
        live.push((p, *s));
        assert_fully_merged(&a);
        if i % 3 == 2 {
            let (q, t) = live.remove(i % live.len());
            a.dealloc(q, t, 8);
            assert_fully_merged(&a);
        }
    }
    while let Some((q, t)) = live.pop() {
        a.dealloc(q, t, 8);
        assert_fully_merged(&a);
    }
    assert_eq!(a.free_blocks(9), vec![START + MAX_BYTES, START]);
    assert_eq!(a.free_blocks(5), vec![START + 2 * MAX_BYTES]);
    assert_eq!(a.free_blocks(1), vec![START + 2 * MAX_BYTES + 1024]);
    assert_eq!(a.free_blocks(0), vec![START + 2 * MAX_BYTES + 1024 + 64]);
}

#[test]
fn find_then_insert_restores_every_list() {
    let mut a = BuddyAllocator::new();
    a.init(START, MAX_BYTES + 4096);
    let p = a.find(0).unwrap();
    let q = a.find(2).unwrap();
    let before: Vec<Vec<usize>> = (0..LEVELS as usize).map(|l| a.free_blocks(l)).collect();
    for l in 0..LEVELS as usize {
        let r = a.find(l);
        if let Some(block) = r {
            a.insert(block);
        }
        let after: Vec<Vec<usize>> = (0..LEVELS as usize).map(|l| a.free_blocks(l)).collect();
        assert_eq!(before, after);
    }
    a.insert(q);
    a.insert(p);
}

#[test]
fn alignment_larger_than_the_header_moves_the_user_pointer() {
    let mut a = one_block_heap();
    let p = a.allocate(8, 64).unwrap();
    assert_eq!(p, START + 64);
    assert_eq!(a.block_level(START), Some(2));
    assert!(a.is_allocated(p, 64));
    assert!(!a.is_allocated(p, 8));
    a.dealloc(p, 8, 64);
    assert_eq!(a.free_blocks(9), vec![START]);
}

#[test]
fn is_taken_at_tells_blocks_held_by_callers() {
    let mut a = one_block_heap();
    assert!(!a.is_taken_at(START));
    let block = a.find(1).unwrap();
    assert_eq!(block, START);
    assert!(a.is_taken_at(START));
    assert!(!a.is_taken_at(START + 64));
    assert!(!a.is_taken_at(START + 32));
    assert!(!a.is_taken_at(START - 32));
    assert!(!a.is_taken_at(START + MAX_BYTES));
    a.insert(block);
    assert!(!a.is_taken_at(START));
    assert_eq!(a.free_blocks(9), vec![START]);
}

#[test]
fn block_size_is_one_shifted_bit() {
    for l in 0..LEVELS {
        assert_eq!(block_bytes(l), 1usize << (l + MIN));
    }
}

#[test]
fn everything_returned_leaves_nothing_taken_and_every_byte_free() {
    let size = 3 * MAX_BYTES + 2048 + 160;
    let orders: [[usize; 5]; 3] = [[0, 1, 2, 3, 4], [4, 2, 0, 3, 1], [3, 4, 1, 0, 2]];
    for order in orders.iter() {
        let mut a = BuddyAllocator::new();
        a.init(START, size);
        let sizes = [8usize, 700, 8, 5000, 90];
        let ptrs: Vec<usize> = sizes.iter().map(|s| a.allocate(*s, 8).unwrap()).collect();
        for i in order.iter() {
            a.dealloc(ptrs[*i], sizes[*i], 8);
        }
        let mut free = vec![false; size / 32];
        for l in 0..LEVELS {
            for f in a.free_blocks(l as usize) {
                for g in 0..block_bytes(l) / 32 {
                    let slot = (f - START) / 32 + g;
                    assert!(!free[slot]);
                    free[slot] = true;
                }
            }
        }
        assert!(free.iter().all(|b| *b));
        for g in 0..size / 32 {
            assert!(!a.is_taken_at(START + 32 * g));
        }
    }
}

#[test]
fn may_dealloc_asks_for_the_size_and_alignment_of_the_request() {
    let mut a = one_block_heap();
    let p = a.allocate(100, 8).unwrap();
    assert!(a.may_dealloc(p, 100, 8));
    assert!(a.may_dealloc(p, 41, 8));
    assert!(a.may_dealloc(p, 104, 8));
    assert!(!a.may_dealloc(p, 40, 8));
    assert!(!a.may_dealloc(p, 105, 8));
    assert!(!a.may_dealloc(p, 100, 64));
    assert!(!a.may_dealloc(p + 32, 100, 8));
    assert!(!a.may_dealloc(p, MAX_BYTES, 8));
    assert!(!a.may_dealloc(0, 100, 8));
    a.dealloc(p, 100, 8);
    assert!(!a.may_dealloc(p, 100, 8));
}
