//! Processes and their address spaces.
//!
//! A process owns a private root table and a fixed run of stack pages.
//! Creation allocates the root, allocates and maps the stack pages
//! user-readable and writable at the fixed stack base, and maps the page
//! of the entry point user-executable at the fixed code address; any
//! allocation failure surfaces as an error before a partially mapped
//! process can exist. Destruction returns the stack pages first, then
//! tears the table tree down — the stack is tracked independently of the
//! tree, so the order does not depend on the traversal.

use vstd::prelude::*;

verus! {

use crate::kmem::AllocError;
use crate::kmem::Kmem;
use crate::kmem::MAX_PHYS_ADDR;
use crate::kmem::PAGE_SIZE;
use crate::kmem::mem_unchanged;
use crate::kmem::page_unchanged;
use crate::kmem::same_geometry;
use crate::mmu::PTE_R;
use crate::mmu::PTE_USER;
use crate::mmu::PTE_W;
use crate::mmu::PTE_X;
use crate::mmu::PageTable;
use crate::mmu::agree_above;
use crate::mmu::agree_upto;
use crate::mmu::lemma_flag_bits;
use crate::mmu::lemma_pages_distinct;
use crate::mmu::lemma_tables_needed_bounds;
use crate::mmu::lemma_tree_same_words;
use crate::mmu::map_result;
use crate::mmu::no_mid_leaves;
use crate::mmu::spec_vpn;
use crate::mmu::subtree_seq;
use crate::mmu::tables_needed;
use crate::mmu::translate;

/// Number of schedulable slots the kernel provides.
pub const NPROC: usize = 64;

/// Virtual base address of every process's stack.
pub const STACK_ADDR: u64 = 0x1_0000_0000;

/// Number of stack pages given to each process.
pub const STACK_PAGES: u64 = 4;

/// Virtual address a process starts executing at.
pub const PROC_STARTING_ADDR: u64 = 0x2000_0000;

/// Table pages a fresh address space takes: the root, two tables for the
/// stack region and two for the code page.
pub const PROC_TABLE_PAGES: u64 = 5;

/// Physical pages consumed by one process: its stack plus its tables.
pub const PROC_ALLOC_PAGES: u64 = STACK_PAGES + PROC_TABLE_PAGES;

/// Saved register state of a suspended process.
pub struct TrapFrame {
    pub kernel_satp: u64,
    pub kernel_sp: u64,
    pub epc: u64,
    pub kernel_hartid: u64,
    pub regs: [u64; 32],
}

/// Scheduling state of a process.
#[derive(Clone, Copy, Debug, PartialEq, Eq, Structural)]
pub enum ProcessState {
    Running,
    Sleeping,
    Waiting,
    Dead,
}

/// The lawful scheduling moves: a waiting process may run; a running one
/// may sleep, die, or be preempted back to waiting; a sleeping one may
/// be woken back to waiting. Death is what triggers address-space
/// teardown.
pub open spec fn spec_may_transition(from: ProcessState, to: ProcessState) -> bool {
    ||| (from is Waiting && to is Running)
    ||| (from is Running && (to is Sleeping || to is Dead || to is Waiting))
    ||| (from is Sleeping && to is Waiting)
}

impl ProcessState {
    /// Whether the scheduler may move a process from this state to `to`.
    pub fn may_become(&self, to: &ProcessState) -> (r: bool)
        ensures
            r == spec_may_transition(*self, *to),
    {
        match (self, to) {
            (ProcessState::Waiting, ProcessState::Running) => true,
            (ProcessState::Running, ProcessState::Sleeping) => true,
            (ProcessState::Running, ProcessState::Dead) => true,
            (ProcessState::Running, ProcessState::Waiting) => true,
            (ProcessState::Sleeping, ProcessState::Waiting) => true,
            _ => false,
        }
    }
}

/// A schedulable unit: saved registers, a private stack, and a private
/// address space rooted at its own table.
pub struct Process {
    pub frame: TrapFrame,
    pub stack: Vec<u64>,
    pub pc: u64,
    pub pid: u16,
    pub root: PageTable,
    pub state: ProcessState,
}

impl Process {
    /// The process's resources are live in the arena: a well-formed
    /// private tree, and stack pages that are checked out, mutually
    /// distinct, and no table page of the tree.
    pub open spec fn inv(self, m: Kmem) -> bool {
        &&& self.root.wf_in(m)
        &&& no_mid_leaves(m, self.root.root_idx(m), 2)
        &&& self.stack@.len() == STACK_PAGES
        &&& (forall|i: int|
            0 <= i < self.stack@.len() ==> {
                &&& #[trigger] self.stack@[i] % PAGE_SIZE == 0
                &&& m.spec_heap_start() <= self.stack@[i]
                &&& (self.stack@[i] as int) < m.heap_end()
                &&& !m.is_free(m.addr_idx(self.stack@[i]))
                &&& !subtree_seq(m, self.root.root_idx(m), 2).contains(
                    m.addr_idx(self.stack@[i]),
                )
            })
        &&& (forall|i: int, j: int|
            #![trigger self.stack@[i], self.stack@[j]]
            0 <= i < j < self.stack@.len() ==> self.stack@[i] != self.stack@[j])
    }

    /// Build a process around a code entry point: allocate a private
    /// root table, allocate and map `STACK_PAGES` stack pages at
    /// `STACK_ADDR` user-read-write, map the entry point's page at
    /// `PROC_STARTING_ADDR` user-read-execute, and take the next process
    /// id. Succeeds exactly when `PROC_ALLOC_PAGES` pages are free; on
    /// failure nothing is allocated, mapped, or renumbered.
    pub fn new(mem: &mut Kmem, next_pid: &mut u16, entry_point: u64) -> (r: Result<
        Process,
        AllocError,
    >)
        requires
            old(mem).wf(),
            *old(next_pid) < u16::MAX,
            entry_point < MAX_PHYS_ADDR,
        ensures
            final(mem).wf(),
            same_geometry(*old(mem), *final(mem)),
            r is Ok <==> old(mem).free_seq().len() >= PROC_ALLOC_PAGES,
            r is Err ==> mem_unchanged(*old(mem), *final(mem)) && *final(next_pid) == *old(
                next_pid,
            ),
            r matches Ok(p) ==> {
                &&& *final(next_pid) == *old(next_pid) + 1
                &&& p.pid == *old(next_pid)
                &&& p.pc == PROC_STARTING_ADDR
                &&& p.state is Waiting
                &&& p.frame.regs@[2] == STACK_ADDR + PAGE_SIZE
                &&& p.inv(*final(mem))
                &&& final(mem).free_seq().len() + PROC_ALLOC_PAGES == old(mem).free_seq().len()
                &&& final(mem).alloced() == old(mem).alloced() + PROC_ALLOC_PAGES
                &&& subtree_seq(*final(mem), p.root.root_idx(*final(mem)), 2).len()
                    == PROC_TABLE_PAGES
                &&& (forall|q: int|
                    #[trigger] subtree_seq(*final(mem), p.root.root_idx(*final(mem)), 2).contains(
                        q,
                    ) ==> old(mem).is_free(q))
                &&& (forall|i: int|
                    0 <= i < STACK_PAGES ==> old(mem).is_free(
                        old(mem).addr_idx(#[trigger] p.stack@[i]),
                    ))
                &&& (forall|i: int, va2: u64|
                    0 <= i < STACK_PAGES && #[trigger] agree_upto(
                        va2,
                        (STACK_ADDR + i * (PAGE_SIZE as int)) as u64,
                        0,
                        2,
                    ) ==> translate(*final(mem), p.root.root_idx(*final(mem)), va2) == Some(
                        map_result(p.stack@[i], va2, 0),
                    ))
                &&& (forall|va2: u64|
                    #[trigger] agree_upto(va2, PROC_STARTING_ADDR, 0, 2) ==> translate(
                        *final(mem),
                        p.root.root_idx(*final(mem)),
                        va2,
                    ) == Some(map_result(entry_point, va2, 0)))
                &&& (forall|q: int|
                    0 <= q < old(mem).spec_num_pages() && !old(mem).is_free(q)
                        ==> page_unchanged(*old(mem), *final(mem), q) && !final(mem).is_free(q))
            },
    {
        let ghost m0 = *old(mem);
        proof {
            lemma_flag_bits();
        }
        if mem.free_page_count() < PROC_ALLOC_PAGES as usize {
            return Err(AllocError::OutOfPages);
        }
        let root = match PageTable::new(mem) {
            Err(e) => {
                // dead arm: the free list was just checked to hold pages
                proof {
                    assert(false);
                }
                return Err(e);
            },
            Ok(pt) => pt,
        };
        let ghost ri = root.root_idx(*mem);
        let mut stack: Vec<u64> = Vec::new();
        let mut i: u64 = 0;
        while i < STACK_PAGES
            invariant
                m0 == *old(mem),
                m0.free_seq().len() >= 9,
                mem.wf(),
                same_geometry(m0, *mem),
                root.wf_in(*mem),
                root.root_idx(*mem) == ri,
                no_mid_leaves(*mem, ri, 2),
                0 <= i <= STACK_PAGES,
                stack@.len() == i,
                mem.free_seq().len() == m0.free_seq().len() - 1 - (
                if i == 0 {
                    0int
                } else {
                    2 + i
                }),
                mem.alloced() == m0.alloced() + 1 + (
                if i == 0 {
                    0int
                } else {
                    2 + i
                }),
                subtree_seq(*mem, ri, 2).len() == (
                if i == 0 {
                    1int
                } else {
                    3
                }),
                i > 0 ==> (forall|va2: u64|
                    #[trigger] agree_above(va2, STACK_ADDR, 0, 2) ==> tables_needed(
                        *mem,
                        ri,
                        va2,
                        2,
                        0,
                    ) == 0),
                i == 0 ==> (forall|va2: u64, tg: nat|
                    tg <= 2 ==> #[trigger] tables_needed(*mem, ri, va2, 2, tg) == 2 - tg),
                tables_needed(*mem, ri, PROC_STARTING_ADDR, 2, 0) == 2,
                forall|q: int|
                    #[trigger] subtree_seq(*mem, ri, 2).contains(q) ==> m0.is_free(q),
                forall|j: int|
                    0 <= j < i ==> {
                        &&& #[trigger] stack@[j] % PAGE_SIZE == 0
                        &&& mem.spec_heap_start() <= stack@[j]
                        &&& (stack@[j] as int) < mem.heap_end()
                        &&& m0.is_free(m0.addr_idx(stack@[j]))
                        &&& !mem.is_free(mem.addr_idx(stack@[j]))
                        &&& !subtree_seq(*mem, ri, 2).contains(mem.addr_idx(stack@[j]))
                    },
                forall|j: int, j2: int|
                    #![trigger stack@[j], stack@[j2]]
                    0 <= j < j2 < i ==> stack@[j] != stack@[j2],
                forall|j: int, va2: u64|
                    0 <= j < i && #[trigger] agree_upto(
                        va2,
                        (STACK_ADDR + j * (PAGE_SIZE as int)) as u64,
                        0,
                        2,
                    ) ==> translate(*mem, ri, va2) == Some(map_result(stack@[j], va2, 0)),
                forall|q: int|
                    0 <= q < m0.spec_num_pages() && !m0.is_free(q) ==> page_unchanged(
                        m0,
                        *mem,
                        q,
                    ) && !mem.is_free(q),
            decreases STACK_PAGES - i,
        {
            let ghost mk = *mem;
            let pa_opt = mem.kalloc();
            proof {
                assert(pa_opt is Some);
            }
            let pa = match pa_opt {
                Some(p) => p,
                None => 0,
            };
            let ghost pidx = mk.free_seq().last();
            proof {
                crate::kmem::lemma_page_addr_props(mk, pidx);
                assert(pa == mk.page_addr(pidx));
                assert(mk.is_free(pidx)) by {
                    assert(mk.free_seq()[mk.free_seq().len() - 1] == pidx);
                }
                assert(m0.is_free(pidx)) by {
                    if !m0.is_free(pidx) {
                        assert(!mk.is_free(pidx));
                    }
                }
                lemma_tree_same_words(mk, *mem, ri, 2);
                crate::mmu::lemma_take_contains(mk.free_seq(), mk.free_seq().len() - 1);
                assert(mk.free_seq().take(mk.free_seq().len() - 1) == mem.free_seq());
            }
            let ghost ma = *mem;
            let va: u64 = STACK_ADDR + i * PAGE_SIZE;
            proof {
                lemma_flag_bits();
                if i == 0 {
                    assert(tables_needed(ma, ri, va, 2, 0) == 2);
                } else {
                    lemma_stack_vpns(i);
                    assert(agree_above(va, STACK_ADDR, 0, 2)) by {
                        assert forall|l: int| 0 < l && l <= 2 implies #[trigger] spec_vpn(va, l)
                            == spec_vpn(STACK_ADDR, l) by {
                            if l == 1 {
                            } else {
                                assert(l == 2);
                            }
                        }
                    }
                    assert(tables_needed(ma, ri, va, 2, 0) == 0);
                }
            }
            let res = root.map(mem, va, pa, PTE_USER | PTE_R | PTE_W, 0);
            proof {
                assert(res is Ok);
            }
            let ghost stack0 = stack@;
            stack.push(pa);
            proof {
                let mn = *mem;
                let k = tables_needed(ma, ri, va, 2, 0);
                crate::mmu::lemma_take_contains(ma.free_seq(), ma.free_seq().len() - k);
                lemma_tables_needed_bounds(ma, ri, va, 2, 0);
                lemma_entry_stack_vpn2(i);
                assert forall|va2: u64|
                    #[trigger] agree_above(va2, STACK_ADDR, 0, 2) implies tables_needed(
                    mn,
                    ri,
                    va2,
                    2,
                    0,
                ) == 0 by {
                    lemma_stack_vpns(i);
                    assert(agree_above(va2, va, 0, 2)) by {
                        assert forall|l: int| 0 < l && l <= 2 implies #[trigger] spec_vpn(
                            va2,
                            l,
                        ) == spec_vpn(va, l) by {
                            assert(spec_vpn(va2, l) == spec_vpn(STACK_ADDR, l));
                            if l == 1 {
                            } else {
                                assert(l == 2);
                            }
                        }
                    }
                }
                assert(tables_needed(mn, ri, PROC_STARTING_ADDR, 2, 0) == tables_needed(
                    ma,
                    ri,
                    PROC_STARTING_ADDR,
                    2,
                    0,
                ));
                // the fresh stack page is neither free nor a table page
                assert(!mn.is_free(pidx)) by {
                    if mn.free_seq().contains(pidx) {
                        assert(ma.free_seq().contains(pidx));
                        assert(mk.free_seq().take(mk.free_seq().len() - 1).contains(pidx));
                        assert(mk.free_seq()[mk.free_seq().len() - 1] == pidx);
                        let jj = choose|jj: int|
                            0 <= jj < mk.free_seq().len() - 1 && mk.free_seq()[jj] == pidx;
                        assert(mk.free_seq()[jj] == mk.free_seq()[mk.free_seq().len() - 1]);
                    }
                }
                assert(!subtree_seq(mn, ri, 2).contains(pidx)) by {
                    if subtree_seq(mn, ri, 2).contains(pidx) {
                        assert(subtree_seq(ma, ri, 2).contains(pidx) || ma.is_free(pidx));
                        assert(!ma.is_free(pidx));
                        assert(subtree_seq(mk, ri, 2).contains(pidx));
                        assert(!mk.is_free(pidx));
                    }
                }
                // earlier stack pages and translations stand
                assert forall|j: int| 0 <= j < i + 1 implies {
                    &&& #[trigger] stack@[j] % PAGE_SIZE == 0
                    &&& mn.spec_heap_start() <= stack@[j]
                    &&& (stack@[j] as int) < mn.heap_end()
                    &&& m0.is_free(m0.addr_idx(stack@[j]))
                    &&& !mn.is_free(mn.addr_idx(stack@[j]))
                    &&& !subtree_seq(mn, ri, 2).contains(mn.addr_idx(stack@[j]))
                } by {
                    if j < i {
                        assert(stack@[j] == stack0[j]);
                        let sidx = mk.addr_idx(stack@[j]);
                        assert(!mk.is_free(sidx));
                        assert(!ma.is_free(sidx));
                        assert(!mn.is_free(sidx)) by {
                            if mn.free_seq().contains(sidx) {
                                assert(ma.free_seq().contains(sidx));
                            }
                        }
                        assert(!subtree_seq(mn, ri, 2).contains(sidx)) by {
                            if subtree_seq(mn, ri, 2).contains(sidx) {
                                assert(subtree_seq(ma, ri, 2).contains(sidx) || ma.is_free(
                                    sidx,
                                ));
                                assert(subtree_seq(mk, ri, 2).contains(sidx));
                            }
                        }
                    } else {
                        assert(stack@[j] == pa);
                        crate::kmem::lemma_page_addr_props(mn, pidx);
                        assert(mn.addr_idx(pa) == pidx);
                        assert(m0.addr_idx(pa) == pidx);
                    }
                }
                assert forall|j: int, j2: int|
                    #![trigger stack@[j], stack@[j2]]
                    0 <= j < j2 < i + 1 implies stack@[j] != stack@[j2] by {
                    if j2 == i {
                        assert(stack@[j2] == pa);
                        if stack@[j] == pa {
                            assert(!mk.is_free(mk.addr_idx(stack@[j])));
                            assert(mk.is_free(pidx));
                            crate::kmem::lemma_page_addr_props(mk, pidx);
                        }
                    }
                }
                assert forall|j: int, va2: u64|
                    0 <= j < i + 1 && #[trigger] agree_upto(
                        va2,
                        (STACK_ADDR + j * (PAGE_SIZE as int)) as u64,
                        0,
                        2,
                    ) implies translate(mn, ri, va2) == Some(
                    map_result(stack@[j], va2, 0),
                ) by {
                    let vaj = (STACK_ADDR + j * (PAGE_SIZE as int)) as u64;
                    if j == i {
                        assert(vaj == va);
                        assert(stack@[j] == pa);
                    } else {
                        assert(stack@[j] == stack0[j]);
                        let d = ((i - j) * (PAGE_SIZE as int)) as u64;
                        assert(vaj + d == va);
                        lemma_pages_distinct(vaj, d);
                        assert(!agree_upto(va2, va, 0, 2)) by {
                            if agree_upto(va2, va, 0, 2) {
                                assert(spec_vpn(vaj, 0) == spec_vpn(va2, 0) && spec_vpn(va2, 0)
                                    == spec_vpn(va, 0));
                                assert(spec_vpn(vaj, 1) == spec_vpn(va2, 1) && spec_vpn(va2, 1)
                                    == spec_vpn(va, 1));
                                assert(spec_vpn(vaj, 2) == spec_vpn(va2, 2) && spec_vpn(va2, 2)
                                    == spec_vpn(va, 2));
                            }
                        }
                        assert(translate(mn, ri, va2) == translate(ma, ri, va2)) by {
                            assert(crate::mmu::translate_rec(mn, ri as int, va2, 2)
                                == crate::mmu::translate_rec(ma, ri as int, va2, 2));
                        }
                        assert(translate(ma, ri, va2) == translate(mk, ri, va2));
                    }
                }
                // pages never on the free list keep their contents
                assert forall|q: int|
                    0 <= q < m0.spec_num_pages() && !m0.is_free(q) implies page_unchanged(
                    m0,
                    mn,
                    q,
                ) && !mn.is_free(q) by {
                    assert(page_unchanged(m0, mk, q) && !mk.is_free(q));
                    assert(!ma.is_free(q)) by {
                        if ma.free_seq().contains(q) {
                            assert(mk.free_seq().contains(q));
                        }
                    }
                    assert(page_unchanged(ma, mn, q)) by {
                        assert(!subtree_seq(ma, ri, 2).contains(q)) by {
                            if subtree_seq(ma, ri, 2).contains(q) {
                                assert(subtree_seq(mk, ri, 2).contains(q));
                                assert(m0.is_free(q));
                            }
                        }
                    }
                    assert(!mn.is_free(q)) by {
                        if mn.free_seq().contains(q) {
                            assert(ma.free_seq().contains(q));
                        }
                    }
                    assert forall|x: int|
                        0 <= x < 512 implies #[trigger] mn.word(q, x) == m0.word(q, x) by {
                        assert(mn.word(q, x) == ma.word(q, x));
                        assert(ma.word(q, x) == mk.word(q, x));
                        assert(mk.word(q, x) == m0.word(q, x));
                    }
                }
                assert forall|q: int|
                    #[trigger] subtree_seq(mn, ri, 2).contains(q) implies m0.is_free(q) by {
                    assert(subtree_seq(ma, ri, 2).contains(q) || ma.is_free(q));
                    if subtree_seq(ma, ri, 2).contains(q) {
                        assert(subtree_seq(mk, ri, 2).contains(q));
                    } else {
                        assert(mk.free_seq().contains(q)) by {
                            assert(ma.free_seq().contains(q));
                        }
                        assert(m0.is_free(q)) by {
                            if !m0.is_free(q) {
                                assert(!mk.is_free(q));
                            }
                        }
                    }
                }
            }
            i = i + 1;
        }
        let ghost mb = *mem;
        proof {
            lemma_tables_needed_bounds(mb, ri, PROC_STARTING_ADDR, 2, 0);
        }
        let res = root.map(mem, PROC_STARTING_ADDR, entry_point, PTE_USER | PTE_R | PTE_X, 0);
        proof {
            assert(res is Ok);
        }
        let mut regs: [u64; 32] = [0u64; 32];
        regs[2] = STACK_ADDR + PAGE_SIZE;
        let frame = TrapFrame {
            kernel_satp: 0,
            kernel_sp: 0,
            epc: 0,
            kernel_hartid: 0,
            regs,
        };
        let pid = *next_pid;
        *next_pid = pid + 1;
        let proc = Process {
            frame,
            stack,
            pc: PROC_STARTING_ADDR,
            pid,
            root,
            state: ProcessState::Waiting,
        };
        proof {
            let mn = *mem;
            let k = tables_needed(mb, ri, PROC_STARTING_ADDR, 2, 0);
            crate::mmu::lemma_take_contains(mb.free_seq(), mb.free_seq().len() - k);
            assert(k == 2);
            assert forall|j: int, va2: u64|
                0 <= j < STACK_PAGES && #[trigger] agree_upto(
                    va2,
                    (STACK_ADDR + j * (PAGE_SIZE as int)) as u64,
                    0,
                    2,
                ) implies translate(mn, ri, va2) == Some(
                map_result(proc.stack@[j], va2, 0),
            ) by {
                let vaj = (STACK_ADDR + j * (PAGE_SIZE as int)) as u64;
                let d = (vaj - PROC_STARTING_ADDR) as u64;
                assert(PROC_STARTING_ADDR + d == vaj);
                lemma_stack_entry_gap(j as u64);
                assert(d == 0xE000_0000u64 + (j as u64) * 4096);
                lemma_pages_distinct(PROC_STARTING_ADDR, d);
                assert(!agree_upto(va2, PROC_STARTING_ADDR, 0, 2)) by {
                    if agree_upto(va2, PROC_STARTING_ADDR, 0, 2) {
                        assert(spec_vpn(vaj, 0) == spec_vpn(va2, 0) && spec_vpn(va2, 0)
                            == spec_vpn(PROC_STARTING_ADDR, 0));
                        assert(spec_vpn(vaj, 1) == spec_vpn(va2, 1) && spec_vpn(va2, 1)
                            == spec_vpn(PROC_STARTING_ADDR, 1));
                        assert(spec_vpn(vaj, 2) == spec_vpn(va2, 2) && spec_vpn(va2, 2)
                            == spec_vpn(PROC_STARTING_ADDR, 2));
                    }
                }
                assert(translate(mn, ri, va2) == translate(mb, ri, va2)) by {
                    assert(crate::mmu::translate_rec(mn, ri as int, va2, 2)
                        == crate::mmu::translate_rec(mb, ri as int, va2, 2));
                }
            }
            assert forall|j: int| 0 <= j < STACK_PAGES implies {
                &&& #[trigger] proc.stack@[j] % PAGE_SIZE == 0
                &&& mn.spec_heap_start() <= proc.stack@[j]
                &&& (proc.stack@[j] as int) < mn.heap_end()
                &&& !mn.is_free(mn.addr_idx(proc.stack@[j]))
                &&& !subtree_seq(mn, ri, 2).contains(mn.addr_idx(proc.stack@[j]))
                &&& m0.is_free(m0.addr_idx(proc.stack@[j]))
            } by {
                let sidx = mb.addr_idx(proc.stack@[j]);
                assert(!mb.is_free(sidx));
                assert(!mn.is_free(sidx)) by {
                    if mn.free_seq().contains(sidx) {
                        assert(mb.free_seq().contains(sidx));
                    }
                }
                assert(!subtree_seq(mn, ri, 2).contains(sidx)) by {
                    if subtree_seq(mn, ri, 2).contains(sidx) {
                        assert(subtree_seq(mb, ri, 2).contains(sidx) || mb.is_free(sidx));
                        if mb.is_free(sidx) {
                        } else {
                            assert(!subtree_seq(mb, ri, 2).contains(sidx));
                        }
                    }
                }
            }
            assert forall|q: int|
                0 <= q < m0.spec_num_pages() && !m0.is_free(q) implies page_unchanged(
                m0,
                mn,
                q,
            ) && !mn.is_free(q) by {
                assert(page_unchanged(m0, mb, q) && !mb.is_free(q));
                assert(page_unchanged(mb, mn, q)) by {
                    assert(!subtree_seq(mb, ri, 2).contains(q)) by {
                        if subtree_seq(mb, ri, 2).contains(q) {
                            assert(m0.is_free(q));
                        }
                    }
                }
                assert(!mn.is_free(q)) by {
                    if mn.free_seq().contains(q) {
                        assert(mb.free_seq().contains(q));
                    }
                }
                assert forall|x: int|
                    0 <= x < 512 implies #[trigger] mn.word(q, x) == m0.word(q, x) by {
                    assert(mn.word(q, x) == mb.word(q, x));
                    assert(mb.word(q, x) == m0.word(q, x));
                }
            }
            assert forall|q: int|
                #[trigger] subtree_seq(mn, ri, 2).contains(q) implies m0.is_free(q) by {
                assert(subtree_seq(mb, ri, 2).contains(q) || mb.is_free(q));
                if mb.is_free(q) {
                    assert(m0.is_free(q)) by {
                        if !m0.is_free(q) {
                            assert(!mb.is_free(q));
                        }
                    }
                }
            }
        }
        Ok(proc)
    }

    /// Destroy the process: return its stack pages to the allocator
    /// first — they are tracked independently of the table tree — then
    /// tear down the whole tree, children before parents. No page
    /// content is touched, so pages mapped from elsewhere survive.
    pub fn destroy(self, mem: &mut Kmem)
        requires
            old(mem).wf(),
            self.inv(*old(mem)),
        ensures
            final(mem).wf(),
            same_geometry(*old(mem), *final(mem)),
            final(mem).words() == old(mem).words(),
            final(mem).free_seq().len() == old(mem).free_seq().len() + STACK_PAGES
                + subtree_seq(*old(mem), self.root.root_idx(*old(mem)), 2).len(),
            final(mem).alloced() == old(mem).alloced() - STACK_PAGES - subtree_seq(
                *old(mem),
                self.root.root_idx(*old(mem)),
                2,
            ).len(),
            forall|q: int| old(mem).is_free(q) ==> final(mem).is_free(q),
            forall|i: int|
                0 <= i < STACK_PAGES ==> final(mem).is_free(
                    old(mem).addr_idx(#[trigger] self.stack@[i]),
                ),
    {
        let ghost m0 = *old(mem);
        let ghost ri = self.root.root_idx(m0);
        let mut i: usize = 0;
        while i < self.stack.len()
            invariant
                m0 == *old(mem),
                self.inv(m0),
                ri == self.root.root_idx(m0),
                mem.wf(),
                same_geometry(m0, *mem),
                mem.words() == m0.words(),
                0 <= i <= self.stack@.len(),
                self.stack@.len() == STACK_PAGES,
                mem.free_seq().len() == m0.free_seq().len() + i,
                mem.alloced() == m0.alloced() - i,
                forall|q: int| m0.is_free(q) ==> mem.is_free(q),
                forall|j: int|
                    0 <= j < i ==> mem.is_free(m0.addr_idx(#[trigger] self.stack@[j])),
                forall|j: int|
                    i <= j < self.stack@.len() ==> !mem.is_free(
                        m0.addr_idx(#[trigger] self.stack@[j]),
                    ),
                forall|q: int|
                    #[trigger] subtree_seq(m0, ri, 2).contains(q) ==> !mem.is_free(q),
            decreases self.stack@.len() - i,
        {
            let ghost mk = *mem;
            let pa = self.stack[i];
            proof {
                assert(m0.addr_idx(pa) == mk.addr_idx(pa));
            }
            mem.kfree(pa);
            proof {
                let mn = *mem;
                let sidx = m0.addr_idx(pa);
                assert(mn.free_seq() == mk.free_seq().push(sidx));
                assert forall|q: int| m0.is_free(q) implies mn.is_free(q) by {
                    assert(mk.is_free(q));
                    let jj = choose|jj: int|
                        0 <= jj < mk.free_seq().len() && mk.free_seq()[jj] == q;
                    assert(mn.free_seq()[jj] == q);
                }
                assert forall|j: int| 0 <= j < i + 1 implies mn.is_free(
                    m0.addr_idx(#[trigger] self.stack@[j]),
                ) by {
                    if j == i {
                        assert(mn.free_seq()[mn.free_seq().len() - 1] == sidx);
                    } else {
                        assert(mk.is_free(m0.addr_idx(self.stack@[j])));
                        let jj = choose|jj: int|
                            0 <= jj < mk.free_seq().len() && mk.free_seq()[jj] == m0.addr_idx(
                                self.stack@[j],
                            );
                        assert(mn.free_seq()[jj] == m0.addr_idx(self.stack@[j]));
                    }
                }
                assert forall|j: int|
                    i + 1 <= j < self.stack@.len() implies !mn.is_free(
                    m0.addr_idx(#[trigger] self.stack@[j]),
                ) by {
                    if mn.free_seq().contains(m0.addr_idx(self.stack@[j])) {
                        let jj = choose|jj: int|
                            0 <= jj < mn.free_seq().len() && mn.free_seq()[jj] == m0.addr_idx(
                                self.stack@[j],
                            );
                        if jj < mk.free_seq().len() {
                            assert(mk.free_seq()[jj] == m0.addr_idx(self.stack@[j]));
                        } else {
                            assert(m0.addr_idx(self.stack@[j]) == sidx);
                            m0.lemma_addr_idx_roundtrip(self.stack@[j]);
                            m0.lemma_addr_idx_roundtrip(pa);
                            assert(self.stack@[j] == pa);
                        }
                    }
                }
                assert forall|q: int|
                    #[trigger] subtree_seq(m0, ri, 2).contains(q) implies !mn.is_free(q) by {
                    if mn.free_seq().contains(q) {
                        let jj = choose|jj: int|
                            0 <= jj < mn.free_seq().len() && mn.free_seq()[jj] == q;
                        if jj < mk.free_seq().len() {
                            assert(mk.free_seq()[jj] == q);
                        } else {
                            assert(q == sidx);
                        }
                    }
                }
            }
            i = i + 1;
        }
        let ghost mb = *mem;
        proof {
            lemma_tree_same_words(m0, mb, ri, 2);
            assert(self.root.wf_in(mb)) by {
                assert(crate::mmu::table_wf(mb, ri, 2));
                assert(subtree_seq(mb, ri, 2) == subtree_seq(m0, ri, 2));
                assert(crate::mmu::tree_allocated(mb, ri, 2)) by {
                    assert forall|q: int|
                        #[trigger] subtree_seq(mb, ri, 2).contains(q) implies !mb.is_free(
                        q,
                    ) by {
                        assert(subtree_seq(m0, ri, 2).contains(q));
                    }
                }
                crate::kmem::lemma_page_addr_props(mb, ri);
            }
        }
        self.root.free(mem);
        proof {
            let mfin = *mem;
            assert(self.root.root_idx(mb) == ri);
            assert(mfin.free_seq() == mb.free_seq() + subtree_seq(mb, ri, 2));
            crate::mmu::lemma_concat_contains(mb.free_seq(), subtree_seq(mb, ri, 2));
            assert forall|q: int| m0.is_free(q) implies mfin.is_free(q) by {
                assert(mb.is_free(q));
            }
            assert forall|j: int| 0 <= j < STACK_PAGES implies mfin.is_free(
                m0.addr_idx(#[trigger] self.stack@[j]),
            ) by {
                assert(mb.is_free(m0.addr_idx(self.stack@[j])));
            }
            assert(subtree_seq(mb, ri, 2) == subtree_seq(m0, ri, 2));
        }
    }
}

/// Stack pages share the two upper virtual page number slices of the
/// stack base: only their lowest slice differs.
proof fn lemma_stack_vpns(i: u64)
    by (bit_vector)
    requires
        i < 4,
    ensures
        spec_vpn((0x1_0000_0000u64 + i * 4096) as u64, 1) == spec_vpn(0x1_0000_0000u64, 1),
        spec_vpn((0x1_0000_0000u64 + i * 4096) as u64, 2) == spec_vpn(0x1_0000_0000u64, 2),
{
}

/// The code address and the stack pages live under different slots of
/// the root table.
proof fn lemma_entry_stack_vpn2(i: u64)
    by (bit_vector)
    requires
        i < 4,
    ensures
        spec_vpn(0x2000_0000u64, 2) != spec_vpn((0x1_0000_0000u64 + i * 4096) as u64, 2),
{
}

/// Each stack page sits a whole, nonzero number of pages above the code
/// address, and well inside the 39-bit space.
proof fn lemma_stack_entry_gap(j: u64)
    by (bit_vector)
    requires
        j < 4,
    ensures
        (0x1_0000_0000u64 + j * 4096) - 0x2000_0000u64 == 0xE000_0000u64 + j * 4096,
        (0xE000_0000u64 + j * 4096) % 4096 == 0,
        0xE000_0000u64 + j * 4096 > 0,
        0x2000_0000u64 + (0xE000_0000u64 + j * 4096) < 0x80_0000_0000u64,
{
}

} // verus!
