use block_alloc::allocator::BlockAllocator;
use block_alloc::{BLOCK_SIZE, HEAP_SIZE, NUM_BLOCKS};

#[test]
fn test_alloc() {
    let mut a = BlockAllocator::new();
    let ptr = a.mem_alloc(100).unwrap();
    // 100 bytes need 13 blocks of 8 bytes: the size is rounded up to 104
    assert_eq!(a.mem_size(ptr), 104);
    assert_eq!(a.total_committed(), HEAP_SIZE);
    assert_eq!(a.total_reserved(), HEAP_SIZE);
    a.mem_free(ptr);
    a.arena.teardown();
}

#[test]
fn test_alloc_1gib() {
    let mut a = BlockAllocator::new();
    let ptr = a.mem_alloc(1024 * 1024 * 1024).unwrap();
    assert_eq!(a.mem_size(ptr), 1024 * 1024 * 1024);
    assert_eq!(a.total_committed(), HEAP_SIZE);
    assert_eq!(a.total_reserved(), HEAP_SIZE);
    a.mem_free(ptr);
    a.arena.teardown();
}

#[test]
fn test_alloc_1gib_uneven() {
    let mut a = BlockAllocator::new();
    let ptr = a.mem_alloc(1024 * 1024 * 1024 + 3).unwrap();
    assert_eq!(a.mem_size(ptr), 1024 * 1024 * 1024 + BLOCK_SIZE);
    assert_eq!(a.total_committed(), HEAP_SIZE);
    assert_eq!(a.total_reserved(), HEAP_SIZE);
    a.mem_free(ptr);
    a.arena.teardown();
}

#[test]
fn alloc_free_round_trip_restores_free_count() {
    let mut a = BlockAllocator::new();
    let before: u64 = a.free_blocks();
    let p = a.mem_alloc(100).unwrap();
    assert_eq!(a.free_blocks(), before - 13);
    a.mem_free(p);
    assert_eq!(a.free_blocks(), before);
}

#[test]
fn exhausting_the_arena_fails_and_changes_nothing() {
    let mut a = BlockAllocator::new();
    let p = a.mem_alloc(HEAP_SIZE).unwrap();
    assert_eq!(a.free_blocks(), 0);
    assert_eq!(a.mem_size(p), HEAP_SIZE);
    // the second request cannot be served; the state is as after the first
    assert_eq!(a.mem_alloc(HEAP_SIZE), None);
    assert_eq!(a.mem_alloc(8), None);
    assert_eq!(a.free_blocks(), 0);
    assert!(a.is_live(p));
    a.mem_free(p);
    assert_eq!(a.free_blocks(), NUM_BLOCKS);
}

#[test]
fn no_op_hooks_change_nothing() {
    let mut a = BlockAllocator::new();
    let p = a.mem_alloc(64).unwrap();
    let free_before: u64 = a.free_blocks();
    assert_eq!(a.mem_flush_cache(42), 42);
    a.mem_flush_cache_all();
    a.enable_huge_pages(true);
    a.enable_huge_pages(false);
    assert_eq!(a.total_committed(), HEAP_SIZE);
    assert_eq!(a.total_reserved(), HEAP_SIZE);
    assert_eq!(a.free_blocks(), free_before);
    assert_eq!(a.mem_size(p), 64);
    // a subsequent allocate behaves as if the hooks had not run
    let q = a.mem_alloc(16).unwrap();
    assert_eq!(a.mem_size(q), 16);
    a.mem_free(q);
    a.mem_free(p);
}

#[test]
fn totals_are_constant_through_allocation_activity() {
    let mut a = BlockAllocator::new();
    assert_eq!(a.total_committed(), 8 * 1024 * 1024 * 1024);
    assert_eq!(a.total_reserved(), 8 * 1024 * 1024 * 1024);
    let p = a.mem_alloc(4096).unwrap();
    assert_eq!(a.total_committed(), 8 * 1024 * 1024 * 1024);
    assert_eq!(a.total_reserved(), 8 * 1024 * 1024 * 1024);
    a.mem_free(p);
    assert_eq!(a.total_committed(), 8 * 1024 * 1024 * 1024);
    assert_eq!(a.total_reserved(), 8 * 1024 * 1024 * 1024);
}

#[test]
fn freed_neighbours_coalesce_into_one_run() {
    let mut a = BlockAllocator::new();
    let p0 = a.mem_alloc(8).unwrap();
    let p1 = a.mem_alloc(8).unwrap();
    let p2 = a.mem_alloc(8).unwrap();
    assert_eq!((p0, p1, p2), (0, 1, 2));
    a.mem_free(p1);
    a.mem_free(p0);
    // blocks 0 and 1 merge back into one run, so two blocks fit before p2
    let q = a.mem_alloc(16).unwrap();
    assert_eq!(q, 0);
    assert_eq!(a.mem_size(q), 16);
    a.mem_free(q);
    a.mem_free(p2);
    assert_eq!(a.free_blocks(), NUM_BLOCKS);
}

#[test]
fn is_live_tracks_the_allocation_lifecycle() {
    let mut a = BlockAllocator::new();
    assert!(!a.is_live(0));
    let p = a.mem_alloc(24).unwrap();
    assert!(a.is_live(p));
    assert!(!a.is_live(p + 1));
    a.mem_free(p);
    assert!(!a.is_live(p));
}

#[test]
fn aligned_size_rounds_up_to_the_alignment() {
    let mut a = BlockAllocator::new();
    let p = a.mem_alloc(100).unwrap();
    assert_eq!(a.mem_size(p), 104);
    assert_eq!(a.mem_size_aligned(p, 8), 104);
    assert_eq!(a.mem_size_aligned(p, 32), 128);
    assert_eq!(a.mem_size_aligned(p, 64), 128);
    a.mem_free(p);
}

#[test]
fn aligned_alloc_pads_the_size_only() {
    let mut a = BlockAllocator::new();
    let p = a.mem_alloc_aligned(100, 32).unwrap();
    // 100 rounded up to a multiple of 32 is 128, which is 16 whole blocks
    assert_eq!(a.mem_size(p), 128);
    a.mem_free(p);
    let q = a.mem_alloc_aligned(100, 8).unwrap();
    assert_eq!(a.mem_size(q), 104);
    a.mem_free(q);
    assert_eq!(a.free_blocks(), NUM_BLOCKS);
}

#[test]
fn round_up_to_alignment_exact_values() {
    assert_eq!(block_alloc::allocator::round_up_to_alignment(100, 8), 104);
    assert_eq!(block_alloc::allocator::round_up_to_alignment(104, 8), 104);
    assert_eq!(block_alloc::allocator::round_up_to_alignment(1, 64), 64);
    assert_eq!(block_alloc::allocator::round_up_to_alignment(0, 16), 0);
    assert_eq!(block_alloc::allocator::round_up_to_alignment(65, 64), 128);
}

#[test]
fn blocks_needed_rounds_up() {
    assert_eq!(block_alloc::blocks_needed(1), 1);
    assert_eq!(block_alloc::blocks_needed(8), 1);
    assert_eq!(block_alloc::blocks_needed(9), 2);
    assert_eq!(block_alloc::blocks_needed(100), 13);
    assert_eq!(block_alloc::blocks_needed(1024 * 1024 * 1024 + 3), 134217729);
}

#[test]
fn fragmented_free_blocks_cannot_serve_a_contiguous_request() {
    let mut a = BlockAllocator::new();
    let p0 = a.mem_alloc(8).unwrap();
    let p1 = a.mem_alloc(8).unwrap();
    let p2 = a.mem_alloc(8).unwrap();
    let p3 = a.mem_alloc(8).unwrap();
    let rest = a.mem_alloc(HEAP_SIZE - 32).unwrap();
    assert_eq!(a.free_blocks(), 0);
    a.mem_free(p0);
    a.mem_free(p2);
    // two blocks are free, but they are not adjacent, so a two-block
    // allocation cannot be served while single blocks still can
    assert_eq!(a.free_blocks(), 2);
    assert_eq!(a.mem_alloc(16), None);
    assert_eq!(a.free_blocks(), 2);
    let q = a.mem_alloc(8).unwrap();
    assert_eq!(q, p0);
    a.mem_free(q);
    a.mem_free(p1);
    a.mem_free(p3);
    a.mem_free(rest);
    assert_eq!(a.free_blocks(), NUM_BLOCKS);
}

#[test]
fn zero_sized_requests_are_refused_without_panicking() {
    let mut a = BlockAllocator::new();
    assert_eq!(a.mem_alloc(0), None);
    assert_eq!(a.free_blocks(), NUM_BLOCKS);
    assert_eq!(a.mem_alloc_aligned(0, 32), None);
    assert_eq!(a.free_blocks(), NUM_BLOCKS);
    // the refusal leaves the allocator fully usable
    let p = a.mem_alloc(8).unwrap();
    assert_eq!(a.mem_size(p), 8);
    a.mem_free(p);
    assert_eq!(a.free_blocks(), NUM_BLOCKS);
}
