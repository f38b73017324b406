use batch_scheduler::block_allocator::{blocks_for, BlockAllocator, BlockSet};

fn held(set: &BlockSet) -> Vec<u64> {
    set.indices().clone()
}

#[test]
fn inventory_is_the_budget_divided_by_the_span_rounded_down() {
    let pool = BlockAllocator::new(100, 16);
    assert_eq!(pool.total_blocks(), 6);
    assert_eq!(pool.free_count(), 6);
    assert_eq!(pool.block_span(), 16);
}

#[test]
fn inventory_of_an_exact_multiple() {
    let pool = BlockAllocator::new(16000, 16);
    assert_eq!(pool.total_blocks(), 1000);
    assert_eq!(pool.free_count(), 1000);
}

#[test]
fn budget_below_one_block_gives_an_empty_inventory() {
    let mut pool = BlockAllocator::new(15, 16);
    assert_eq!(pool.total_blocks(), 0);
    assert_eq!(pool.free_count(), 0);
    assert!(pool.try_reserve(1).is_none());
    assert!(pool.try_reserve(0).is_some());
}

#[test]
fn reservation_takes_the_tail_of_the_free_list() {
    let mut pool = BlockAllocator::new(96, 16);
    let grant = pool.try_reserve(2).expect("two of six blocks are free");
    assert_eq!(held(&grant), vec![4, 5]);
    assert_eq!(grant.len(), 2);
    assert_eq!(pool.free_count(), 4);
    let next = pool.try_reserve(3).expect("three of four blocks are free");
    assert_eq!(held(&next), vec![1, 2, 3]);
    assert_eq!(pool.free_count(), 1);
}

#[test]
fn reservation_is_all_or_nothing() {
    let mut pool = BlockAllocator::new(64, 16);
    let first = pool.try_reserve(3).expect("three of four blocks are free");
    assert_eq!(pool.free_count(), 1);
    assert!(pool.try_reserve(2).is_none());
    assert_eq!(pool.free_count(), 1);
    let last = pool.try_reserve(1).expect("one block is free");
    assert_eq!(held(&last), vec![0]);
    assert_eq!(pool.free_count(), 0);
    assert!(pool.try_reserve(1).is_none());
    assert_eq!(held(&first), vec![1, 2, 3]);
}

#[test]
fn reservation_of_more_than_the_inventory_is_rejected() {
    let mut pool = BlockAllocator::new(64, 16);
    assert!(pool.try_reserve(5).is_none());
    assert_eq!(pool.free_count(), 4);
    assert!(pool.try_reserve(usize::MAX).is_none());
    assert_eq!(pool.free_count(), 4);
}

#[test]
fn reservation_of_nothing_succeeds_and_takes_nothing() {
    let mut pool = BlockAllocator::new(64, 16);
    let grant = pool.try_reserve(0).expect("nothing is always free");
    assert_eq!(grant.len(), 0);
    assert_eq!(pool.free_count(), 4);
}

#[test]
fn release_puts_blocks_back_at_the_tail() {
    let mut pool = BlockAllocator::new(64, 16);
    let a = pool.try_reserve(1).expect("free");
    let b = pool.try_reserve(2).expect("free");
    assert_eq!(held(&a), vec![3]);
    assert_eq!(held(&b), vec![1, 2]);
    pool.release(a);
    assert_eq!(pool.free_count(), 2);
    let c = pool.try_reserve(2).expect("free");
    assert_eq!(held(&c), vec![0, 3]);
    pool.release(b);
    pool.release(c);
    assert_eq!(pool.free_count(), 4);
}

#[test]
fn held_and_free_blocks_add_up_through_any_sequence_of_calls() {
    let mut pool = BlockAllocator::new(160, 16);
    let total = pool.total_blocks() as usize;
    let mut holders: Vec<BlockSet> = Vec::new();
    let sizes = [3usize, 0, 4, 9, 2, 1, 1];
    for (step, n) in sizes.iter().enumerate() {
        let free_before = pool.free_count();
        match pool.try_reserve(*n) {
            Some(grant) => {
                assert!(*n <= free_before);
                assert_eq!(grant.len(), *n);
                holders.push(grant);
            }
            None => {
                assert!(*n > free_before);
                assert_eq!(pool.free_count(), free_before);
            }
        }
        if step % 3 == 2 {
            let gone = holders.remove(0);
            pool.release(gone);
        }
        let held_now: usize = holders.iter().map(|set| set.len()).sum();
        assert_eq!(held_now + pool.free_count(), total);
        let mut seen: Vec<u64> = Vec::new();
        for set in holders.iter() {
            for block in set.indices().iter() {
                assert!(!seen.contains(block));
                assert!((*block as usize) < total);
                seen.push(*block);
            }
        }
    }
}

#[test]
fn blocks_for_rounds_up() {
    assert_eq!(blocks_for(0, 16), 0);
    assert_eq!(blocks_for(1, 16), 1);
    assert_eq!(blocks_for(16, 16), 1);
    assert_eq!(blocks_for(17, 16), 2);
    assert_eq!(blocks_for(u64::MAX, 1), u64::MAX);
    assert_eq!(blocks_for(u64::MAX, 2), 1 << 63);
    let pool = BlockAllocator::new(64, 16);
    assert_eq!(pool.blocks_for(33), 3);
}

#[test]
fn a_holder_can_grow_by_a_later_reservation() {
    let mut pool = BlockAllocator::new(64, 16);
    let mut mine = pool.try_reserve(1).expect("free");
    let more = pool.try_reserve(2).expect("free");
    mine.absorb(more);
    assert_eq!(held(&mine), vec![3, 1, 2]);
    assert!(pool.try_reserve(2).is_none());
    pool.release(mine);
    assert_eq!(pool.free_count(), 4);
    assert_eq!(BlockSet::empty().len(), 0);
}
