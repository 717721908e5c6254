//! Mapping, translation and teardown through the Sv39 tables.

use ryos::kmem::{Kmem, PAGE_SIZE};
use ryos::mmu::{init, MemoryLayout, PageTable, PTE_R, PTE_W, PTE_X};

const HEAP_BASE: u64 = 0x8000_0000;

fn heap(pages: u64) -> Kmem {
    Kmem::init(HEAP_BASE, HEAP_BASE + pages * PAGE_SIZE)
}

#[test]
fn map_then_lookup_4k() {
    let mut mem = heap(8);
    let pt = PageTable::new(&mut mem).unwrap();
    let data = mem.kalloc().unwrap();
    pt.map(&mut mem, 0x4000_2000, data, PTE_R | PTE_W, 0).unwrap();
    // The whole 4 KiB region resolves: base physical page joined with
    // the low 12 offset bits.
    assert_eq!(pt.lookup(&mem, 0x4000_2000), Some(data));
    assert_eq!(pt.lookup(&mem, 0x4000_2123), Some(data | 0x123));
    assert_eq!(pt.lookup(&mem, 0x4000_2FFF), Some(data | 0xFFF));
}

#[test]
fn map_then_lookup_2m() {
    let mut mem = heap(8);
    let pt = PageTable::new(&mut mem).unwrap();
    let paddr: u64 = 0x4020_0000;  // 2 MiB aligned
    pt.map(&mut mem, 0xC060_0000, paddr, PTE_R | PTE_X, 1).unwrap();
    assert_eq!(pt.lookup(&mem, 0xC060_0000), Some(paddr));
    assert_eq!(pt.lookup(&mem, 0xC061_2345), Some(paddr | 0x1_2345));
    assert_eq!(pt.lookup(&mem, 0xC060_0000 + 0x1F_FFFF), Some(paddr | 0x1F_FFFF));
}

#[test]
fn map_then_lookup_1g() {
    let mut mem = heap(8);
    let pt = PageTable::new(&mut mem).unwrap();
    let paddr: u64 = 0x8000_0000;  // 1 GiB aligned
    pt.map(&mut mem, 0x40_0000_0000, paddr, PTE_R | PTE_W | PTE_X, 2).unwrap();
    assert_eq!(pt.lookup(&mem, 0x40_0000_0000), Some(paddr));
    assert_eq!(pt.lookup(&mem, 0x40_1234_5678), Some(paddr | 0x1234_5678));
    assert_eq!(pt.lookup(&mem, 0x40_3FFF_FFFF), Some(paddr | 0x3FFF_FFFF));
}

#[test]
fn remap_overwrites_in_place() {
    let mut mem = heap(8);
    let pt = PageTable::new(&mut mem).unwrap();
    let p1 = mem.kalloc().unwrap();
    let p2 = mem.kalloc().unwrap();
    pt.map(&mut mem, 0x4000_0000, p1, PTE_R | PTE_W, 0).unwrap();
    let tables_before = mem.num_pages_alloced();
    pt.map(&mut mem, 0x4000_0000, p2, PTE_R | PTE_W, 0).unwrap();
    // No new table was needed: the leaf entry was replaced in place.
    assert_eq!(mem.num_pages_alloced(), tables_before);
    assert_eq!(pt.lookup(&mem, 0x4000_0000), Some(p2));
    assert_eq!(pt.lookup(&mem, 0x4000_0042), Some(p2 | 0x42));
}

#[test]
fn lookup_unmapped_is_none() {
    let mut mem = heap(8);
    let pt = PageTable::new(&mut mem).unwrap();
    assert_eq!(pt.lookup(&mem, 0), None);
    assert_eq!(pt.lookup(&mem, 0x4000_0000), None);
    let data = mem.kalloc().unwrap();
    pt.map(&mut mem, 0x4000_0000, data, PTE_R, 0).unwrap();
    // Neighbouring pages stay unmapped.
    assert_eq!(pt.lookup(&mem, 0x4000_1000), None);
    assert_eq!(pt.lookup(&mem, 0x8000_0000), None);
}

#[test]
fn free_reclaims_tables_and_spares_data_pages() {
    let mut mem = heap(8);
    let pt = PageTable::new(&mut mem).unwrap();
    let data = mem.kalloc().unwrap();
    pt.map(&mut mem, 0x4000_2000, data, PTE_R | PTE_W, 0).unwrap();
    // root + two intermediate tables + the data page are checked out.
    assert_eq!(mem.num_pages_alloced(), 4);
    assert_eq!(mem.free_page_count(), 4);
    pt.free(&mut mem);
    // Exactly the three table pages came back; the data page is still
    // owned by its allocator and independently freeable.
    assert_eq!(mem.free_page_count(), 7);
    assert_eq!(mem.num_pages_alloced(), 1);
    assert!(!mem.page_is_free(data));
    mem.kfree(data);
    assert_eq!(mem.free_page_count(), 8);
    assert_eq!(mem.num_pages_alloced(), 0);
}

#[test]
fn map_fails_cleanly_when_out_of_pages() {
    let mut mem = heap(1);
    let pt = PageTable::new(&mut mem).unwrap();
    assert_eq!(mem.free_page_count(), 0);
    let r = pt.map(&mut mem, 0x4000_0000, 0x8000_0000, PTE_R, 0);
    assert!(r.is_err(), "two missing tables cannot come from an empty free list");
    assert_eq!(mem.free_page_count(), 0);
    assert_eq!(pt.lookup(&mem, 0x4000_0000), None, "a failed upsert maps nothing");
}

#[test]
fn map_range_covers_every_page() {
    let mut mem = heap(8);
    let pt = PageTable::new(&mut mem).unwrap();
    // Three pages, bounds deliberately unaligned: the range is widened.
    pt.map_range(&mut mem, 0x6000_0000, 0x8000_0100, 0x8000_2100, PTE_R | PTE_W).unwrap();
    assert_eq!(pt.lookup(&mem, 0x6000_0000), Some(0x8000_0000));
    assert_eq!(pt.lookup(&mem, 0x6000_1ABC), Some(0x8000_1ABC));
    assert_eq!(pt.lookup(&mem, 0x6000_2FFF), Some(0x8000_2FFF));
    assert_eq!(pt.lookup(&mem, 0x6000_3000), None);
}

#[test]
fn kernel_init_builds_identity_space() {
    let mut mem = heap(64);
    let layout = MemoryLayout {
        text_start: 0x8000_0000,
        text_end: 0x8000_4000,
        rodata_start: 0x8000_4000,
        rodata_end: 0x8000_6000,
        data_start: 0x8000_6000,
        data_end: 0x8000_8000,
        bss_start: 0x8000_8000,
        bss_end: 0x8000_A000,
        stack_start: 0x8000_A000,
        stack_end: 0x8000_E000,
        heap_start: HEAP_BASE,
        heap_end: HEAP_BASE + 64 * PAGE_SIZE,
    };
    let mmu = init(&mut mem, &layout).expect("sixty-four pages hold the kernel tables");
    assert!(mmu.initialized());
    let root = mmu.page_table();
    assert_eq!(mmu.satp(), (8u64 << 60) | (root.root() >> 12));
    // Kernel regions and device windows are identity-mapped.
    assert_eq!(root.lookup(&mem, 0x8000_0000), Some(0x8000_0000));
    assert_eq!(root.lookup(&mem, 0x8000_5123), Some(0x8000_5123));
    assert_eq!(root.lookup(&mem, 0x1000_0000), Some(0x1000_0000));
    assert_eq!(root.lookup(&mem, 0x0200_0042), Some(0x0200_0042));
    assert_eq!(root.lookup(&mem, 0x0C00_0000), Some(0x0C00_0000));
    assert_eq!(root.lookup(&mem, 0x0C3F_F000), Some(0x0C3F_F000));
    assert_eq!(root.lookup(&mem, 0x1000_1000), Some(0x1000_1000));
    // Addresses outside every region stay unmapped.
    assert_eq!(root.lookup(&mem, 0x7000_0000), None);
}

#[test]
fn kernel_init_succeeds_within_its_page_budget() {
    // The budget: one root, plus two tables per mapped page — here
    // 14 region pages and 1 + 8 + 16 + 1024 device-window pages, so
    // 1 + 2 * (14 + 1049) = 2127. A heap of exactly that many pages
    // must suffice.
    let pages: u64 = 2127;
    let mut mem = heap(pages);
    let layout = MemoryLayout {
        text_start: 0x8000_0000,
        text_end: 0x8000_4000,
        rodata_start: 0x8000_4000,
        rodata_end: 0x8000_6000,
        data_start: 0x8000_6000,
        data_end: 0x8000_8000,
        bss_start: 0x8000_8000,
        bss_end: 0x8000_A000,
        stack_start: 0x8000_A000,
        stack_end: 0x8000_E000,
        heap_start: HEAP_BASE,
        heap_end: HEAP_BASE + pages * PAGE_SIZE,
    };
    let mmu = init(&mut mem, &layout);
    assert!(mmu.is_ok(), "a heap holding the whole budget cannot fail");
    // Far fewer pages are actually consumed: tables are shared along
    // the walk.
    assert!(mem.free_page_count() > 0);
}
