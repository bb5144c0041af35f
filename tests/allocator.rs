use nextfit::free_list::{FreeList, NfAllocator, DEFAULT_MIN_EXPANSION_WOSIZE};
use nextfit::globals::HEAD;
use nextfit::pool::Pool;
use nextfit::utils::{get_layout_and_actual_expansion_size, whsize_wosize};
use nextfit::value::Value;
use nextfit::word::Wsize;

/// Number of blocks on the free list.
fn node_count(a: &NfAllocator) -> usize {
    FreeList::new(a).nf_iter().len()
}

/// Sum of the whsizes of the free blocks.
fn free_whsize(a: &NfAllocator) -> usize {
    FreeList::new(a)
        .nf_iter()
        .iter()
        .map(|v| *whsize_wosize(a.get_header(v.get_cur()).get_wosize()).get_val())
        .sum()
}

/// Sum of the wosizes of the free blocks.
fn free_wosize(a: &NfAllocator) -> Wsize {
    Wsize::new(
        FreeList::new(a)
            .nf_iter()
            .iter()
            .map(|v| a.get_header(v.get_cur()).get_wosize().0)
            .sum(),
    )
}

/// The free blocks in address order, as (address, wosize).
fn blocks_in_order(a: &NfAllocator) -> Vec<(usize, usize)> {
    let items = FreeList::new(a).nf_iter();
    let mut out = vec![];
    let mut link = 0usize;
    for _ in 0..items.len() {
        let next = items
            .iter()
            .find(|v| v.get_prev().0 == link)
            .expect("every block has a predecessor in the sweep");
        let cur = next.get_cur();
        out.push((cur.0, a.get_header(cur).get_wosize().0));
        link = cur.0;
    }
    out
}

fn pool_block_wosize() -> usize {
    Pool::get_header_size_from_pool_wo_sz(Wsize::new(DEFAULT_MIN_EXPANSION_WOSIZE)).0
}

#[test]
fn mod_test() {
    let mut allocator = NfAllocator::new();

    // nothing present in freelist
    assert!(FreeList::new(&allocator).nf_iter().len() == 0);

    let intended_expansion_size = Wsize::new(1024 * 1024);

    let (layout, _actual_expansion_size) = get_layout_and_actual_expansion_size(
        intended_expansion_size,
        Wsize::new(DEFAULT_MIN_EXPANSION_WOSIZE),
    );

    let actual_expansion_size = Wsize::from_bytesize(layout.size());

    // only the sentinel pool is there
    assert_eq!(allocator.count_pools(), 0);

    assert!(allocator.nf_expand_heap(intended_expansion_size));

    let pool_leader_wsz =
        whsize_wosize(Pool::get_header_size_from_pool_wo_sz(actual_expansion_size));
    assert_eq!(allocator.get_globals().cur_wsz, pool_leader_wsz);

    // 1 chunk is present in freelist after expansion
    assert_eq!(FreeList::new(&allocator).nf_iter().len(), 1);

    // 1 pool block has been added as well
    assert_eq!(allocator.count_pools(), 1);
    assert!(allocator.verify_nf_last_invariant());

    let mut allocations = vec![
        Some(allocator.nf_allocate(Wsize::new(1024))),
        Some(allocator.nf_allocate(Wsize::new(1024))),
    ];

    // initial size -(1024 + 1 word allocated twice)
    let cur_wsz = Wsize::new(pool_leader_wsz.0 - whsize_wosize(Wsize::new(1024)).0 * 2);

    assert_eq!(allocator.get_globals().cur_wsz, cur_wsz);

    let to_be_freed = allocations.get_mut(0).unwrap().take().unwrap();
    assert!(allocations.get(0).unwrap().is_none());

    let allocatable_memory_left = free_wosize(&allocator);

    // The following allocation forces the empty block case
    let hp = allocator.nf_allocate(Wsize::new(allocatable_memory_left.0 - 1));

    assert_eq!(
        allocator.get_header(Value(hp.0 + 8)).get_wosize(),
        Wsize::new(allocatable_memory_left.0 - 1)
    );
    // The size of the empty block that lies 1 word before hp
    assert_eq!(allocator.get_header(hp).get_wosize(), Wsize::new(0));
    allocations.push(Some(hp));

    // This must've made the free list empty
    assert_eq!(allocator.get_globals().cur_wsz, Wsize::new(0));
    assert_eq!(free_wosize(&allocator), Wsize::new(0));
    assert_eq!(FreeList::new(&allocator).nf_iter().len(), 0);

    // Freeing the first allocation
    let to_be_freed_header = allocator.get_header(Value(to_be_freed.0 + 8));
    allocator.nf_deallocate(Value(to_be_freed.0 + 8));

    assert_eq!(
        allocator.get_globals().cur_wsz,
        Wsize::new(to_be_freed_header.get_wosize().0 + 1)
    );

    let allocatable_memory_left = to_be_freed_header.get_wosize();

    // Allocating exactly allocatable_memory_left will again empty the freelist
    let hp = allocator.nf_allocate(allocatable_memory_left);

    assert_ne!(hp.0, 0);
    assert_eq!(allocator.get_globals().cur_wsz, Wsize::new(0));
    assert_eq!(free_wosize(&allocator), Wsize::new(0));

    // Expanding one more time: one pool block is there and the free list is empty
    assert!(allocator.nf_expand_heap(intended_expansion_size));

    assert_eq!(FreeList::new(&allocator).nf_iter().len(), 1);
    assert_eq!(allocator.get_globals().cur_wsz, pool_leader_wsz);

    assert_eq!(allocator.count_pools(), 2);
    assert!(allocator.verify_nf_last_invariant());

    let mut pool_block_count = 2;
    let mut freelist_node_count = 1;
    for i in 1..=10 {
        pool_block_count += 1;
        freelist_node_count += 1;
        assert!(allocator.nf_expand_heap(intended_expansion_size));
        assert_eq!(
            FreeList::new(&allocator).nf_iter().len(),
            freelist_node_count
        );
        assert_eq!(
            allocator.get_globals().cur_wsz,
            Wsize::new(pool_leader_wsz.0 * (i + 1))
        );

        assert_eq!(allocator.count_pools(), pool_block_count);
        assert!(allocator.verify_nf_last_invariant());
    }
}

#[test]
fn tests() {
    let mut a = NfAllocator::new();
    // 1st allocation
    let req1: usize = 1024 * 8;
    let allocd_mem1 = a.allocate(Wsize::new(req1));
    assert_ne!(allocd_mem1.0, 0);
    assert_eq!(node_count(&a), 1);

    let total_sz_after_1_alloc: usize = free_whsize(&a);

    // Still 1, because we caused a split in free list
    assert_eq!(node_count(&a), 1);
    assert_eq!(free_whsize(&a), total_sz_after_1_alloc);

    // 2nd allocation
    let req2 = 1024;
    let allocd_mem2 = a.allocate(Wsize::new(req2));
    assert_ne!(allocd_mem2.0, 0);

    assert_eq!(free_whsize(&a), total_sz_after_1_alloc - (req2 + 1));

    // Freeing both
    a.deallocate(allocd_mem1);

    // The allocd_mem2 is missing for the merge to happen
    assert_eq!(node_count(&a), 2);

    a.deallocate(allocd_mem2);

    // Should be 1 now, due to merge
    assert_eq!(node_count(&a), 1);
}

#[test]
fn fresh_allocator_single_small_allocation() {
    let mut a = NfAllocator::new();
    assert_eq!(node_count(&a), 0);
    assert_eq!(a.get_globals().nf_last, a.get_globals().nf_head);
    assert_eq!(a.get_globals().nf_head, HEAD);
    let p = a.allocate(Wsize::new(1024 * 8));
    assert_ne!(p.0, 0);
    assert_ne!(p.0, 8);
    assert_eq!(a.get_num_of_expansions(), 1);
    assert_eq!(a.count_pools(), 1);
    let blocks = blocks_in_order(&a);
    assert_eq!(blocks.len(), 1);
    // The pool's payload is its words after the four-word record head; its block's
    // wosize is one less, and the allocation took 1024 * 8 + 1 of it.
    let pool_payload = DEFAULT_MIN_EXPANSION_WOSIZE - 4;
    assert_eq!(blocks[0].1, pool_payload - 1 - (1024 * 8 + 1));
    assert_eq!(a.get_header(p).get_wosize(), Wsize::new(1024 * 8));
    assert!(a.verify_nf_last_invariant());
}

#[test]
fn split_free_merge() {
    let mut a = NfAllocator::new();
    let p = a.allocate(Wsize::new(1024 * 8));
    a.deallocate(p);
    assert_eq!(node_count(&a), 1);
    let after_expansion = pool_block_wosize() + 1;
    assert_eq!(a.get_globals().cur_wsz, Wsize::new(after_expansion));
    assert_eq!(blocks_in_order(&a)[0].1, pool_block_wosize());
    assert!(a.verify_nf_last_invariant());
}

#[test]
fn two_allocation_fragmented_free_then_merge() {
    let mut a = NfAllocator::new();
    let p1 = a.allocate(Wsize::new(1024 * 8));
    let p2 = a.allocate(Wsize::new(1024));
    a.deallocate(p1);
    assert_eq!(node_count(&a), 2);
    assert!(a.verify_nf_last_invariant());
    a.deallocate(p2);
    assert_eq!(node_count(&a), 1);
    assert_eq!(a.get_globals().cur_wsz, Wsize::new(pool_block_wosize() + 1));
    assert!(a.verify_nf_last_invariant());
}

#[test]
fn exact_fit_consumption() {
    let mut a = NfAllocator::new();
    assert!(a.nf_expand_heap(Wsize::new(16)));
    let free = free_wosize(&a).0;
    let p = a.allocate(Wsize::new(free - 1));
    assert_eq!(node_count(&a), 0);
    assert_eq!(a.get_globals().cur_wsz, Wsize::new(0));
    assert_eq!(a.get_header(p).get_wosize(), Wsize::new(free - 1));
    // The placeholder is the header one word before the block's own header.
    assert_eq!(a.get_header(Value(p.0 - 8)).get_wosize(), Wsize::new(0));
    assert_eq!(a.get_header(Value(p.0 - 8)).get_color(), nextfit::colors::CAML_BLUE);
    assert_eq!(a.get_globals().nf_last, HEAD);
    assert!(a.verify_nf_last_invariant());
}

#[test]
fn exact_fit_without_placeholder() {
    let mut a = NfAllocator::new();
    assert!(a.nf_expand_heap(Wsize::new(16)));
    let free = free_wosize(&a).0;
    let p = a.allocate(Wsize::new(free));
    assert_eq!(node_count(&a), 0);
    assert_eq!(a.get_globals().cur_wsz, Wsize::new(0));
    assert_eq!(a.get_header(p).get_wosize(), Wsize::new(free));
    assert_eq!(a.get_header(p).get_color(), nextfit::colors::CAML_BLACK);
    a.deallocate(p);
    assert_eq!(blocks_in_order(&a), vec![(p.0, free)]);
}

#[test]
fn repeated_expansion() {
    let mut a = NfAllocator::new();
    let wo = 100_000;
    for k in 1..=4 {
        let p = a.allocate(Wsize::new(wo));
        assert_ne!(p.0, 8);
        assert_eq!(a.count_pools(), k);
        assert_eq!(node_count(&a), k);
        assert!(a.verify_nf_last_invariant());
    }
    let blocks = blocks_in_order(&a);
    for b in blocks.iter() {
        assert_eq!(b.1, pool_block_wosize() - (wo + 1));
    }
}

#[test]
fn address_ordered_insertion() {
    let mut a = NfAllocator::new();
    let ps: Vec<Value> = (0..6).map(|_| a.allocate(Wsize::new(10))).collect();
    // Allocation carves from the top of the block: each one lies below the last.
    for k in 1..6 {
        assert!(ps[k].0 < ps[k - 1].0);
    }
    a.deallocate(ps[4]);
    a.deallocate(ps[2]);
    a.deallocate(ps[0]);
    let blocks = blocks_in_order(&a);
    assert_eq!(blocks.len(), 4);
    for k in 1..blocks.len() {
        assert!(blocks[k - 1].0 < blocks[k].0);
    }
    assert_eq!(blocks[1].0, ps[4].0);
    assert_eq!(blocks[2].0, ps[2].0);
    assert_eq!(blocks[3].0, ps[0].0);
    assert!(a.verify_nf_last_invariant());
    assert_eq!(a.get_globals().nf_last * 8, ps[0].0);
}

#[test]
fn round_trip_restores_the_free_list() {
    let mut a = NfAllocator::new();
    let p0 = a.allocate(Wsize::new(50));
    let p1 = a.allocate(Wsize::new(50));
    let p2 = a.allocate(Wsize::new(50));
    a.deallocate(p1);
    let before = blocks_in_order(&a);
    let wsz_before = a.get_globals().cur_wsz;
    // A split of the first block the sweep meets, undone.
    let hp = a.nf_allocate(Wsize::new(20));
    assert_ne!(hp.0, 0);
    a.nf_deallocate(Value(hp.0 + 8));
    assert_eq!(blocks_in_order(&a), before);
    assert_eq!(a.get_globals().cur_wsz, wsz_before);
    a.deallocate(p0);
    a.deallocate(p2);
    assert_eq!(node_count(&a), 1);
}

#[test]
fn round_trip_of_an_exact_fit() {
    let mut a = NfAllocator::new();
    assert!(a.nf_expand_heap(Wsize::new(16)));
    let before = blocks_in_order(&a);
    let wsz_before = a.get_globals().cur_wsz;
    let hp = a.nf_allocate(Wsize::new(before[0].1));
    assert_eq!(Value(hp.0 + 8).0, before[0].0);
    assert_eq!(node_count(&a), 0);
    a.nf_deallocate(Value(hp.0 + 8));
    assert_eq!(blocks_in_order(&a), before);
    assert_eq!(a.get_globals().cur_wsz, wsz_before);
}

#[test]
fn round_trip_with_placeholder_loses_one_word() {
    let mut a = NfAllocator::new();
    assert!(a.nf_expand_heap(Wsize::new(16)));
    let before = blocks_in_order(&a);
    let wsz_before = a.get_globals().cur_wsz;
    let (addr, wosize) = before[0];
    let hp = a.nf_allocate(Wsize::new(wosize - 1));
    assert_eq!(hp.0, addr);
    a.nf_deallocate(Value(hp.0 + 8));
    // The block comes back one word higher and one word shorter: the placeholder stays.
    assert_eq!(blocks_in_order(&a), vec![(addr + 8, wosize - 1)]);
    assert_eq!(a.get_globals().cur_wsz, Wsize::new(wsz_before.0 - 1));
    assert_eq!(a.get_header(Value(addr)).get_wosize(), Wsize::new(0));
}

#[test]
fn freeing_next_to_a_free_block_does_not_grow_the_list() {
    let mut a = NfAllocator::new();
    let p0 = a.allocate(Wsize::new(10));
    let p1 = a.allocate(Wsize::new(10));
    let p2 = a.allocate(Wsize::new(10));
    a.deallocate(p0);
    let n = node_count(&a);
    // p1 touches p0's free block above it.
    a.deallocate(p1);
    assert!(node_count(&a) <= n);
    let n = node_count(&a);
    // p2 touches the remainder below it and the merged block above it.
    a.deallocate(p2);
    assert!(node_count(&a) < n);
    assert_eq!(node_count(&a), 1);
}

#[test]
fn expansion_adds_one_block() {
    let mut a = NfAllocator::new();
    let _ = a.allocate(Wsize::new(100));
    let n = node_count(&a);
    let pools = a.count_pools();
    assert!(a.nf_expand_heap(Wsize::new(300_000)));
    assert_eq!(node_count(&a), n + 1);
    assert_eq!(a.count_pools(), pools + 1);
    let (layout, words) = get_layout_and_actual_expansion_size(
        Wsize::new(300_000),
        Wsize::new(DEFAULT_MIN_EXPANSION_WOSIZE),
    );
    assert_eq!(words.0, layout.size() / 8);
    let pool_payload = words.0 - 4;
    let last = *blocks_in_order(&a).last().unwrap();
    assert_eq!(last.1, pool_payload - 1);
    let (start, end) = a.get_start_end_after_heap_expand();
    assert_eq!(start, last.0 - 8);
    assert_eq!(end - start, last.1 * 8);
    assert_eq!(a.get_num_of_expansions(), 2);
}

#[test]
fn small_minimum_expansion() {
    let mut a = NfAllocator::with_min_expansion(Wsize::new(64));
    let p = a.allocate(Wsize::new(3));
    assert_ne!(p.0, 8);
    // 3 + 5 words asked for is below 64: the pool has 64 words.
    assert_eq!(free_whsize(&a), 64 - 4 - 4);
    let q = a.allocate(Wsize::new(100));
    assert_ne!(q.0, 8);
    assert_eq!(a.count_pools(), 2);
}

#[test]
fn expansion_too_small_for_a_pool_is_refused() {
    let mut a = NfAllocator::with_min_expansion(Wsize::new(0));
    assert!(!a.nf_expand_heap(Wsize::new(1)));
    assert_eq!(a.count_pools(), 0);
    assert_eq!(node_count(&a), 0);
    assert!(a.nf_expand_heap(Wsize::new(3)));
    assert_eq!(a.count_pools(), 1);
}

#[test]
fn oversized_allocation_fails_cleanly() {
    let mut a = NfAllocator::new();
    let p = a.allocate(Wsize::new(usize::MAX / 4));
    assert_eq!(p, Value(8));
    assert_eq!(a.count_pools(), 0);
    assert_eq!(node_count(&a), 0);
    // Freeing what a failed allocation returned does nothing.
    a.deallocate(p);
    assert_eq!(node_count(&a), 0);
    assert!(!a.nf_expand_heap(Wsize::new(usize::MAX / 2)));
}

#[test]
fn nf_allocate_without_room_returns_null() {
    let mut a = NfAllocator::new();
    assert_eq!(a.nf_allocate(Wsize::new(1)), Value(0));
    assert!(a.nf_expand_heap(Wsize::new(16)));
    let free = free_wosize(&a).0;
    assert_eq!(a.nf_allocate(Wsize::new(free + 1)), Value(0));
    assert_eq!(free_wosize(&a).0, free);
}

#[test]
fn sweep_starts_at_the_cursor() {
    // A 64-word pool holds one 59-word block; four 12-word blocks leave 7 words.
    let mut a = NfAllocator::with_min_expansion(Wsize::new(64));
    let ps: Vec<Value> = (0..4).map(|_| a.allocate(Wsize::new(12))).collect();
    assert_eq!(a.count_pools(), 1);
    a.deallocate(ps[2]);
    a.deallocate(ps[0]);
    let blocks = blocks_in_order(&a);
    assert_eq!(blocks.len(), 3);
    assert_eq!(blocks[0].1, 7);
    // The 7-word remainder is too small: the block at ps[2] is split, and the cursor
    // moves to the remainder, the block before it.
    let hp = a.nf_allocate(Wsize::new(10));
    assert_eq!(hp.0 + 8, ps[2].0 + 2 * 8);
    assert_eq!(a.get_globals().nf_prev * 8, blocks[0].0);
    let sweep = FreeList::new(&a).nf_iter();
    assert_eq!(sweep.len(), 3);
    assert_eq!(sweep[0].get_actual_prev().0, blocks[0].0);
    assert_eq!(sweep[0].get_cur(), ps[2]);
    assert_eq!(sweep[1].get_cur(), ps[0]);
    assert_eq!(sweep[2].get_prev(), Value(0));
    assert_eq!(sweep[2].get_actual_prev().0, HEAD * 8);
    assert_eq!(sweep[2].get_cur().0, blocks[0].0);
}

#[test]
fn links_lead_through_the_list_in_address_order() {
    let mut a = NfAllocator::new();
    let ps: Vec<Value> = (0..5).map(|_| a.allocate(Wsize::new(10))).collect();
    a.deallocate(ps[1]);
    a.deallocate(ps[3]);
    let blocks = blocks_in_order(&a);
    assert_eq!(blocks.len(), 3);
    let mut v = Value(blocks[0].0);
    let mut seen = vec![v.0];
    loop {
        let next = a.get_next(v);
        if next == Value(0) {
            break;
        }
        assert!(next.0 > v.0);
        seen.push(next.0);
        v = next;
    }
    assert_eq!(seen, blocks.iter().map(|b| b.0).collect::<Vec<_>>());
    assert_eq!(v.0, a.get_globals().nf_last * 8);
}
