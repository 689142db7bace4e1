use block_alloc::arena::{self, Arena, PAGE_SIZE};
use block_alloc::registry::Registry;
use block_alloc::{BLOCK_SIZE, HEAP_SIZE, NUM_BLOCKS};

#[test]
fn arena_lifecycle() {
    let mut a = Arena::initialize();
    assert!(a.pinned);
    assert_eq!(a.total_committed(), HEAP_SIZE);
    assert_eq!(a.total_reserved(), HEAP_SIZE);
    a.teardown();
    assert!(!a.pinned);
}

#[test]
fn warmup_covers_every_page() {
    assert_eq!(arena::warmup_page_count(), HEAP_SIZE / PAGE_SIZE);
    assert_eq!(arena::warmup_page_count(), 2097152);
    assert_eq!(arena::warmup_page_offset(0), 0);
    assert_eq!(arena::warmup_page_offset(1), 4096);
    let last: u64 = arena::warmup_page_count() - 1;
    assert_eq!(arena::warmup_page_offset(last), HEAP_SIZE - 4096);
}

#[test]
fn block_index_and_offset_are_inverses() {
    assert_eq!(arena::block_offset(0), 0);
    assert_eq!(arena::block_offset(13), 13 * BLOCK_SIZE);
    assert_eq!(arena::block_index(104), 13);
    let last: u64 = NUM_BLOCKS - 1;
    let off: u64 = arena::block_offset(last);
    assert_eq!(off, HEAP_SIZE - BLOCK_SIZE);
    assert_eq!(arena::block_index(off), last);
}

#[test]
fn registry_tracks_records() {
    let mut r = Registry::new();
    assert_eq!(r.lookup(5), None);
    r.insert(5, 2);
    r.insert(9, 4);
    assert_eq!(r.lookup(5), Some(2));
    assert_eq!(r.lookup(9), Some(4));
    assert_eq!(r.lookup(7), None);
    assert_eq!(r.remove(5), 2);
    assert_eq!(r.lookup(5), None);
    assert_eq!(r.lookup(9), Some(4));
}
