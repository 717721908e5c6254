//! Behaviour of the physical page allocator.

use ryos::kmem::{page_ceil, page_floor, page_number, Kmem, PAGE_SIZE};

const HEAP_BASE: u64 = 0x8000_0000;

fn heap(pages: u64) -> Kmem {
    Kmem::init(HEAP_BASE, HEAP_BASE + pages * PAGE_SIZE)
}

#[test]
fn init_partitions_heap() {
    let mem = heap(16);
    assert!(mem.initialized());
    assert_eq!(mem.total_pages(), 16);
    assert_eq!(mem.free_page_count(), 16);
    assert_eq!(mem.num_pages_alloced(), 0);
    assert_eq!(mem.heap_base(), HEAP_BASE);
}

#[test]
fn alloc_returns_distinct_aligned_pages_then_exhausts() {
    let mut mem = heap(16);
    let mut seen: Vec<u64> = Vec::new();
    for _ in 0..16 {
        let pa = mem.kalloc().expect("a page should be free");
        assert_eq!(pa % PAGE_SIZE, 0);
        assert!(pa >= HEAP_BASE && pa < HEAP_BASE + 16 * PAGE_SIZE);
        assert!(!seen.contains(&pa), "allocator handed a page out twice");
        seen.push(pa);
    }
    assert_eq!(mem.kalloc(), None, "the seventeenth allocation must report exhaustion");
    assert_eq!(mem.num_pages_alloced(), 16);
    assert_eq!(mem.free_page_count(), 0);
}

#[test]
fn free_then_alloc_returns_same_page() {
    let mut mem = heap(16);
    let a = mem.kalloc().unwrap();
    let b = mem.kalloc().unwrap();
    mem.kfree(a);
    assert_eq!(mem.kalloc(), Some(a), "the free list must be last-in, first-out");
    mem.kfree(b);
    assert_eq!(mem.kalloc(), Some(b));
}

#[test]
fn allocation_counter_tracks_checkouts() {
    let mut mem = heap(4);
    let a = mem.kalloc().unwrap();
    let b = mem.kalloc().unwrap();
    assert_eq!(mem.num_pages_alloced(), 2);
    mem.kfree(a);
    assert_eq!(mem.num_pages_alloced(), 1);
    mem.kfree(b);
    assert_eq!(mem.num_pages_alloced(), 0);
    assert_eq!(mem.free_page_count(), 4);
}

#[test]
fn page_is_free_follows_alloc_and_free() {
    let mut mem = heap(4);
    let a = mem.kalloc().unwrap();
    assert!(!mem.page_is_free(a));
    mem.kfree(a);
    assert!(mem.page_is_free(a));
}

#[test]
fn empty_heap_has_nothing_to_allocate() {
    let mut mem = heap(0);
    assert_eq!(mem.total_pages(), 0);
    assert_eq!(mem.kalloc(), None);
}

#[test]
fn page_rounding_formulas() {
    assert_eq!(page_floor(0x8000_0123), 0x8000_0000);
    assert_eq!(page_floor(0x8000_0000), 0x8000_0000);
    assert_eq!(page_ceil(0x8000_0001), 0x8000_1000);
    assert_eq!(page_ceil(0x8000_1000), 0x8000_1000);
    assert_eq!(page_number(0x8000_3FFF), 0x8_0003);
}
