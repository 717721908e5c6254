//! Process creation, isolation and teardown.

use ryos::kmem::{Kmem, PAGE_SIZE};
use ryos::proc::{
    Process, ProcessState, PROC_ALLOC_PAGES, PROC_STARTING_ADDR, STACK_ADDR, STACK_PAGES,
};

const HEAP_BASE: u64 = 0x8000_0000;

fn heap(pages: u64) -> Kmem {
    Kmem::init(HEAP_BASE, HEAP_BASE + pages * PAGE_SIZE)
}

#[test]
fn fresh_process_resolves_stack_and_entry() {
    let mut mem = heap(16);
    let mut next_pid: u16 = 1;
    let entry: u64 = 0x8000_0000;
    let p = Process::new(&mut mem, &mut next_pid, entry).unwrap();
    assert_eq!(p.pid, 1);
    assert_eq!(next_pid, 2);
    assert_eq!(p.pc, PROC_STARTING_ADDR);
    assert!(matches!(p.state, ProcessState::Waiting));
    assert_eq!(p.frame.regs[2], STACK_ADDR + PAGE_SIZE);
    assert_eq!(p.stack.len() as u64, STACK_PAGES);
    for i in 0..STACK_PAGES {
        let va = STACK_ADDR + i * PAGE_SIZE;
        let pa = p.stack[i as usize];
        assert_eq!(p.root.lookup(&mem, va), Some(pa));
        assert_eq!(p.root.lookup(&mem, va + 0x123), Some(pa | 0x123));
    }
    assert_eq!(p.root.lookup(&mem, PROC_STARTING_ADDR), Some(entry));
    assert_eq!(p.root.lookup(&mem, PROC_STARTING_ADDR + 0x40), Some(entry | 0x40));
}

#[test]
fn destroy_returns_stack_and_table_pages() {
    let mut mem = heap(16);
    let mut next_pid: u16 = 1;
    let free_before = mem.free_page_count();
    let alloced_before = mem.num_pages_alloced();
    let p = Process::new(&mut mem, &mut next_pid, 0x8000_0000).unwrap();
    assert_eq!(free_before - mem.free_page_count(), PROC_ALLOC_PAGES as usize);
    p.destroy(&mut mem);
    // Stack pages plus every table page allocated during mapping came
    // back, each exactly once.
    assert_eq!(mem.free_page_count(), free_before);
    assert_eq!(mem.num_pages_alloced(), alloced_before);
}

#[test]
fn two_processes_fit_and_a_third_fails_cleanly() {
    // Each process takes its four stack pages plus five table pages, so
    // a twenty-page heap feeds exactly two.
    let mut mem = heap(20);
    let mut next_pid: u16 = 1;
    let e1: u64 = 0x8000_0000;
    let e2: u64 = 0x8000_1000;
    let p1 = Process::new(&mut mem, &mut next_pid, e1).unwrap();
    let p2 = Process::new(&mut mem, &mut next_pid, e2).unwrap();
    assert_eq!(
        mem.free_page_count(),
        20 - 2 * PROC_ALLOC_PAGES as usize,
        "two processes consume eighteen pages"
    );
    let free_before_failure = mem.free_page_count();
    let r = Process::new(&mut mem, &mut next_pid, 0x8000_2000);
    assert!(r.is_err(), "two leftover pages cannot hold a third process");
    assert_eq!(next_pid, 3, "a failed spawn takes no process id");
    assert_eq!(mem.free_page_count(), free_before_failure, "a failed spawn leaks nothing");
    // The first two processes' address spaces are intact, mutually
    // disjoint and still translate to their own pages.
    for i in 0..STACK_PAGES {
        let va = STACK_ADDR + i * PAGE_SIZE;
        assert_eq!(p1.root.lookup(&mem, va), Some(p1.stack[i as usize]));
        assert_eq!(p2.root.lookup(&mem, va), Some(p2.stack[i as usize]));
        assert_ne!(p1.stack[i as usize], p2.stack[i as usize]);
    }
    assert_eq!(p1.root.lookup(&mem, PROC_STARTING_ADDR), Some(e1));
    assert_eq!(p2.root.lookup(&mem, PROC_STARTING_ADDR), Some(e2));
    // Tearing both down returns every page.
    p1.destroy(&mut mem);
    p2.destroy(&mut mem);
    assert_eq!(mem.free_page_count(), 20);
}

#[test]
fn spawn_fails_on_a_small_heap_without_touching_it() {
    let mut mem = heap(8);
    let mut next_pid: u16 = 7;
    let r = Process::new(&mut mem, &mut next_pid, 0x8000_0000);
    assert!(r.is_err());
    assert_eq!(next_pid, 7);
    assert_eq!(mem.free_page_count(), 8);
    assert_eq!(mem.num_pages_alloced(), 0);
}

#[test]
fn scheduling_transitions_follow_the_rule() {
    let (running, sleeping, waiting, dead) = (
        ProcessState::Running,
        ProcessState::Sleeping,
        ProcessState::Waiting,
        ProcessState::Dead,
    );
    assert!(waiting.may_become(&running));
    assert!(running.may_become(&sleeping));
    assert!(running.may_become(&dead));
    assert!(running.may_become(&waiting));
    assert!(sleeping.may_become(&waiting));
    assert!(!waiting.may_become(&sleeping));
    assert!(!waiting.may_become(&dead));
    assert!(!sleeping.may_become(&running));
    assert!(!sleeping.may_become(&dead));
    assert!(!dead.may_become(&waiting));
    assert!(!dead.may_become(&running));
    assert!(!running.may_become(&running));
}
