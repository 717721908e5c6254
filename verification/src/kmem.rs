//! Page-level physical memory allocation.
//!
//! The kernel heap is divided into 4096-byte pages handed out and reclaimed
//! one at a time. The allocator owns the heap as an arena: the contents of
//! every page (as 512 little-endian 64-bit words, the shape a page table
//! needs) and an index-based free list over page numbers, most recently
//! freed first. A page is either on the free list or checked out to exactly
//! one owner (a page table, a process stack slot, a device queue); the
//! allocation counter always equals `total pages - free pages`.

use vstd::prelude::*;

verus! {

use vstd::set_lib::lemma_len_subset;
use vstd::set_lib::lemma_int_range;
use vstd::set_lib::set_int_range;

/// Error raised when the heap has no page left to hand out. Callers must
/// propagate it: building on a missing page is never acceptable.
#[derive(Clone, Copy, Debug, PartialEq, Eq, Structural)]
pub enum AllocError {
    OutOfPages,
}

/// Size of one physical page in bytes.
pub const PAGE_SIZE: u64 = 4096;

/// Mask selecting the offset of an address within its page.
pub const PAGE_OFFSET_MASK: u64 = PAGE_SIZE - 1;

/// Mask selecting the page-aligned part of an address.
pub const PAGE_NUMBER_MASK: u64 = !PAGE_OFFSET_MASK;

/// Number of 64-bit words that make up one page.
pub const WORDS_PER_PAGE: usize = 512;

/// Largest physical address the page-table entry format can carry:
/// a 44-bit page number shifted by the 12-bit page offset.
pub const MAX_PHYS_ADDR: u64 = 0x100_0000_0000_0000;

// Fixed device windows of the platform's memory map.

/// Base address of the core-local interruptor.
pub const CLINT_BASE: u64 = 0x0200_0000;

/// Base address of the platform-level interrupt controller.
pub const PLIC_BASE: u64 = 0x0C00_0000;

/// Base address of the UART device.
pub const UART_BASE: u64 = 0x1000_0000;

/// Base address shared by the VirtIO device slots.
pub const VIRTIO_BASE: u64 = 0x1000_1000;

/// Number of VirtIO device slots probed at boot.
pub const VIRTIO_SLOTS: usize = 8;

/// The page boundary at or below an address.
pub open spec fn spec_page_floor(addr: u64) -> int {
    addr - (addr as int) % (PAGE_SIZE as int)
}

/// The page boundary at or above an address.
pub open spec fn spec_page_ceil(addr: u64) -> int {
    if (addr as int) % (PAGE_SIZE as int) == 0 {
        addr as int
    } else {
        addr + (PAGE_SIZE as int) - (addr as int) % (PAGE_SIZE as int)
    }
}

/// Round an address down to the nearest page boundary.
pub fn page_floor(addr: u64) -> (r: u64)
    ensures
        r == addr & PAGE_NUMBER_MASK,
        r == addr - addr % PAGE_SIZE,
        r == spec_page_floor(addr),
        r % PAGE_SIZE == 0,
{
    proof {
        assert(addr & !4095u64 == addr - addr % 4096 && (addr & !4095u64) % 4096 == 0)
            by (bit_vector);
    }
    addr & PAGE_NUMBER_MASK
}

/// Round an address up to the nearest page boundary.
pub fn page_ceil(addr: u64) -> (r: u64)
    requires
        addr + PAGE_OFFSET_MASK <= u64::MAX,
    ensures
        r == ((addr + PAGE_OFFSET_MASK) as u64) & PAGE_NUMBER_MASK,
        r == addr + (if addr % PAGE_SIZE == 0 { 0int } else { 4096 - addr % PAGE_SIZE }),
        r == spec_page_ceil(addr),
        r % PAGE_SIZE == 0,
{
    proof {
        assert(addr + 4095 <= u64::MAX ==> ((addr + 4095) as u64) & !4095u64
            == addr + (if addr % 4096 == 0 { 0int } else { 4096 - addr % 4096 })
            && (((addr + 4095) as u64) & !4095u64) % 4096 == 0) by (bit_vector);
    }
    (addr + PAGE_OFFSET_MASK) & PAGE_NUMBER_MASK
}

/// Page number of an address: the address shifted past its page offset.
pub fn page_number(addr: u64) -> (r: u64)
    ensures
        r == addr >> 12,
        r == addr / PAGE_SIZE,
{
    proof {
        assert(addr >> 12 == addr / 4096) by (bit_vector);
    }
    addr >> 12
}

/// The kernel's physical page allocator and page arena.
///
/// Owns the heap range `[heap_start, heap_start + num_pages * PAGE_SIZE)`.
/// Page `t` of the arena holds the 512 words `words[t * 512 .. (t + 1) * 512]`
/// and has physical address `heap_start + t * PAGE_SIZE`.
pub struct Kmem {
    heap_start: u64,
    num_pages: usize,
    words: Vec<u64>,
    free_list: Vec<usize>,
    num_alloced: u32,
}

impl Kmem {
    /// First byte of the heap; always page-aligned.
    pub closed spec fn spec_heap_start(self) -> u64 {
        self.heap_start
    }

    /// Number of pages the heap was divided into.
    pub closed spec fn spec_num_pages(self) -> int {
        self.num_pages as int
    }

    /// Contents of the whole arena, 512 words per page.
    pub closed spec fn words(self) -> Seq<u64> {
        self.words@
    }

    /// The free list as page indices, oldest first; allocation pops the last.
    pub closed spec fn free_seq(self) -> Seq<int> {
        self.free_list@.map_values(|u: usize| u as int)
    }

    /// Value of the allocation counter.
    pub closed spec fn alloced(self) -> int {
        self.num_alloced as int
    }

    /// First byte past the heap.
    pub open spec fn heap_end(self) -> int {
        self.spec_heap_start() + self.spec_num_pages() * (PAGE_SIZE as int)
    }

    /// Word `i` of page `t`.
    pub open spec fn word(self, t: int, i: int) -> u64 {
        self.words()[t * (WORDS_PER_PAGE as int) + i]
    }

    /// Whether page `t` currently sits on the free list.
    pub open spec fn is_free(self, t: int) -> bool {
        self.free_seq().contains(t)
    }

    /// Physical address of page `t`.
    pub open spec fn page_addr(self, t: int) -> u64 {
        (self.spec_heap_start() + t * (PAGE_SIZE as int)) as u64
    }

    /// Page index of an in-heap physical address.
    pub open spec fn addr_idx(self, ptr: u64) -> int {
        (ptr - self.spec_heap_start()) / (PAGE_SIZE as int)
    }

    /// Structural invariant of the allocator.
    pub open spec fn wf(self) -> bool {
        &&& self.spec_heap_start() % PAGE_SIZE == 0
        &&& self.heap_end() <= MAX_PHYS_ADDR
        &&& self.spec_num_pages() <= u32::MAX
        &&& self.spec_num_pages() * (WORDS_PER_PAGE as int) <= usize::MAX
        &&& self.words().len() == self.spec_num_pages() * (WORDS_PER_PAGE as int)
        &&& self.free_seq().no_duplicates()
        &&& forall|j: int|
            0 <= j < self.free_seq().len() ==> 0 <= #[trigger] self.free_seq()[j]
                < self.spec_num_pages()
        &&& self.alloced() + self.free_seq().len() == self.spec_num_pages()
    }

    /// Partition the heap range into pages and thread them all onto the
    /// free list. Called exactly once, before any allocation; the bounds
    /// come from the memory-layout collaborator and must be page-aligned.
    pub fn init(heap_start: u64, heap_end: u64) -> (r: Kmem)
        requires
            heap_start % PAGE_SIZE == 0,
            heap_start <= heap_end,
            heap_end <= MAX_PHYS_ADDR,
            (heap_end - heap_start) / (PAGE_SIZE as int) <= u32::MAX,
            (heap_end - heap_start) / (PAGE_SIZE as int) * (WORDS_PER_PAGE as int) <= usize::MAX,
        ensures
            r.wf(),
            r.spec_heap_start() == heap_start,
            r.spec_num_pages() == (heap_end - heap_start) / (PAGE_SIZE as int),
            r.alloced() == 0,
            r.free_seq() == Seq::new(((heap_end - heap_start) / (PAGE_SIZE as int)) as nat, |i: int| i),
    {
        let num_pages: usize = ((heap_end - heap_start) / PAGE_SIZE) as usize;
        let total_words: usize = num_pages * WORDS_PER_PAGE;
        let mut words: Vec<u64> = Vec::new();
        let mut w: usize = 0;
        while w < total_words
            invariant
                words@.len() == w,
                w <= total_words,
            decreases total_words - w,
        {
            words.push(0u64);
            w = w + 1;
        }
        let mut free_list: Vec<usize> = Vec::new();
        let mut t: usize = 0;
        while t < num_pages
            invariant
                t <= num_pages,
                free_list@.len() == t,
                forall|j: int| 0 <= j < t ==> #[trigger] free_list@[j] == j,
            decreases num_pages - t,
        {
            free_list.push(t);
            t = t + 1;
        }
        let r = Kmem { heap_start, num_pages, words, free_list, num_alloced: 0 };
        proof {
            assert(r.free_seq() =~= Seq::new(num_pages as nat, |i: int| i));
        }
        r
    }

    /// A constructed allocator has always been initialized: construction is
    /// initialization, so the ordering hazard of using the allocator first
    /// cannot arise.
    pub fn initialized(&self) -> (r: bool)
        ensures
            r,
    {
        true
    }

    /// Allocate one physical page. Returns its address, or `None` when the
    /// heap is exhausted: running out of pages is reportable, never fatal.
    pub fn kalloc(&mut self) -> (r: Option<u64>)
        requires
            old(self).wf(),
        ensures
            kalloc_post(*old(self), *final(self), r),
            old(self).free_seq().len() > 0 ==> !final(self).is_free(
                old(self).free_seq().last(),
            ),
    {
        let ghost pre = *self;
        match self.free_list.pop() {
            None => {
                proof {
                    assert(self.free_seq() =~= pre.free_seq());
                }
                None
            },
            Some(t) => {
                proof {
                    assert(self.free_seq() =~= pre.free_seq().drop_last());
                    let last = pre.free_seq().last();
                    assert(pre.free_seq()[pre.free_seq().len() - 1] == last);
                    assert(!self.free_seq().contains(last)) by {
                        if self.free_seq().contains(last) {
                            let j = choose|j: int|
                                0 <= j < self.free_seq().len() && self.free_seq()[j] == last;
                            assert(pre.free_seq()[j] == pre.free_seq()[pre.free_seq().len() - 1]);
                        }
                    }
                }
                self.num_alloced = self.num_alloced + 1;
                Some(self.heap_start + (t as u64) * PAGE_SIZE)
            },
        }
    }

    /// Return page `ptr` to the free list. The caller must hand back a page
    /// address the allocator owns: aligned, inside the heap, and currently
    /// checked out — anything else would corrupt the free list, which the
    /// allocator treats as fatal rather than recoverable.
    pub fn kfree(&mut self, ptr: u64)
        requires
            old(self).wf(),
            ptr % PAGE_SIZE == 0,
            old(self).spec_heap_start() <= ptr,
            (ptr as int) < old(self).heap_end(),
            !old(self).is_free(old(self).addr_idx(ptr)),
        ensures
            kfree_post(*old(self), *final(self), ptr),
    {
        let ghost pre = *self;
        let t: usize = ((ptr - self.heap_start) / PAGE_SIZE) as usize;
        proof {
            assert(0 <= pre.addr_idx(ptr) < pre.spec_num_pages());
            lemma_free_len_bound(pre.free_seq(), pre.spec_num_pages(), pre.addr_idx(ptr));
        }
        self.free_list.push(t);
        self.num_alloced = self.num_alloced - 1;
        proof {
            assert(self.free_seq() =~= pre.free_seq().push(pre.addr_idx(ptr)));
            assert(self.free_seq().no_duplicates()) by {
                lemma_push_no_duplicates(pre.free_seq(), pre.addr_idx(ptr));
            }
        }
    }

    /// The index a freed address maps to names its own page again: freeing
    /// `p` and then allocating hands `p` back.
    pub proof fn lemma_addr_idx_roundtrip(self, ptr: u64)
        requires
            self.spec_heap_start() % PAGE_SIZE == 0,
            ptr % PAGE_SIZE == 0,
            self.spec_heap_start() <= ptr,
            (ptr as int) < self.heap_end(),
            self.heap_end() <= MAX_PHYS_ADDR,
        ensures
            self.page_addr(self.addr_idx(ptr)) == ptr,
            0 <= self.addr_idx(ptr) < self.spec_num_pages(),
    {
        let hs = self.spec_heap_start();
        assert(hs % 4096 == 0 && ptr % 4096 == 0 && hs <= ptr
            ==> hs + ((ptr - hs) as u64 / 4096) * 4096 == ptr) by (bit_vector);
        assert((ptr - hs) as u64 / 4096 == (ptr - hs) / 4096) by {
            assert(ptr >= hs);
        }
        lemma_addr_idx_bounds(self, ptr);
    }

    /// Number of pages currently checked out, for diagnostics and tests.
    pub fn num_pages_alloced(&self) -> (r: u32)
        ensures
            r == self.alloced(),
    {
        self.num_alloced
    }

    /// Number of pages currently on the free list.
    pub fn free_page_count(&self) -> (r: usize)
        requires
            self.wf(),
        ensures
            r == self.free_seq().len(),
    {
        self.free_list.len()
    }

    /// Total number of pages in the heap.
    pub fn total_pages(&self) -> (r: usize)
        ensures
            r == self.spec_num_pages(),
    {
        self.num_pages
    }

    /// First byte of the heap.
    pub fn heap_base(&self) -> (r: u64)
        ensures
            r == self.spec_heap_start(),
    {
        self.heap_start
    }

    /// Whether the given in-heap page address currently sits on the free list.
    pub fn page_is_free(&self, ptr: u64) -> (r: bool)
        requires
            self.wf(),
            ptr % PAGE_SIZE == 0,
            self.spec_heap_start() <= ptr,
            (ptr as int) < self.heap_end(),
        ensures
            r == self.is_free(self.addr_idx(ptr)),
    {
        let t: usize = ((ptr - self.heap_start) / PAGE_SIZE) as usize;
        proof {
            lemma_addr_idx_bounds(*self, ptr);
            assert(t as int == self.addr_idx(ptr));
        }
        let mut j: usize = 0;
        while j < self.free_list.len()
            invariant
                j <= self.free_list@.len(),
                t as int == self.addr_idx(ptr),
                forall|k: int| 0 <= k < j ==> #[trigger] self.free_seq()[k] != t,
            decreases self.free_list@.len() - j,
        {
            if self.free_list[j] == t {
                proof {
                    assert(self.free_seq()[j as int] == t);
                    assert(self.free_seq().contains(t as int));
                }
                return true;
            }
            j = j + 1;
        }
        proof {
            assert(!self.is_free(t as int)) by {
                if self.free_seq().contains(t as int) {
                    let k = choose|k: int|
                        0 <= k < self.free_seq().len() && self.free_seq()[k] == t;
                    assert(self.free_seq()[k] != t);
                }
            }
        }
        false
    }

    /// Physical address of page `t` of the arena.
    pub fn page_address(&self, t: usize) -> (r: u64)
        requires
            self.wf(),
            t < self.spec_num_pages(),
        ensures
            r == self.page_addr(t as int),
    {
        proof {
            lemma_page_addr_props(*self, t as int);
        }
        self.heap_start + (t as u64) * PAGE_SIZE
    }

    /// Arena page index of an in-heap physical address.
    pub fn page_index_of(&self, pa: u64) -> (r: usize)
        requires
            self.wf(),
            self.spec_heap_start() <= pa,
            (pa as int) < self.heap_end(),
        ensures
            r == self.addr_idx(pa),
            r < self.spec_num_pages(),
    {
        proof {
            lemma_addr_idx_bounds(*self, pa);
        }
        ((pa - self.heap_start) / PAGE_SIZE) as usize
    }

    /// Read word `i` of page `t`.
    pub fn read_word(&self, t: usize, i: usize) -> (r: u64)
        requires
            self.wf(),
            t < self.spec_num_pages(),
            i < WORDS_PER_PAGE,
        ensures
            r == self.word(t as int, i as int),
    {
        proof {
            lemma_word_in_arena(*self, t as int, i as int);
        }
        self.words[t * WORDS_PER_PAGE + i]
    }

    /// Write word `i` of page `t`; every other word of the arena is kept.
    pub fn write_word(&mut self, t: usize, i: usize, v: u64)
        requires
            old(self).wf(),
            t < old(self).spec_num_pages(),
            i < WORDS_PER_PAGE,
        ensures
            final(self).wf(),
            final(self).spec_heap_start() == old(self).spec_heap_start(),
            final(self).spec_num_pages() == old(self).spec_num_pages(),
            final(self).free_seq() == old(self).free_seq(),
            final(self).alloced() == old(self).alloced(),
            final(self).words() == old(self).words().update(
                t * (WORDS_PER_PAGE as int) + i,
                v,
            ),
            final(self).word(t as int, i as int) == v,
            forall|p: int, j: int|
                0 <= p < old(self).spec_num_pages() && 0 <= j < WORDS_PER_PAGE && (p != t || j
                    != i) ==> #[trigger] final(self).word(p, j) == old(self).word(p, j),
    {
        let ghost pre = *self;
        proof {
            lemma_word_in_arena(*self, t as int, i as int);
        }
        self.words[t * WORDS_PER_PAGE + i] = v;
        proof {
            assert forall|p: int, j: int|
                0 <= p < pre.spec_num_pages() && 0 <= j < WORDS_PER_PAGE && (p != t || j != i)
                implies #[trigger] self.word(p, j) == pre.word(p, j) by {
                lemma_word_index_injective(p, j, t as int, i as int);
                lemma_word_in_arena(pre, p, j);
            }
        }
    }

    /// Zero every word of page `t`, as a freshly linked page table requires.
    pub fn zero_page(&mut self, t: usize)
        requires
            old(self).wf(),
            t < old(self).spec_num_pages(),
        ensures
            final(self).wf(),
            final(self).spec_heap_start() == old(self).spec_heap_start(),
            final(self).spec_num_pages() == old(self).spec_num_pages(),
            final(self).free_seq() == old(self).free_seq(),
            final(self).alloced() == old(self).alloced(),
            forall|i: int| 0 <= i < WORDS_PER_PAGE ==> #[trigger] final(self).word(t as int, i) == 0,
            forall|p: int, j: int|
                0 <= p < old(self).spec_num_pages() && 0 <= j < WORDS_PER_PAGE && p != t
                    ==> #[trigger] final(self).word(p, j) == old(self).word(p, j),
    {
        let ghost pre = *self;
        let mut i: usize = 0;
        while i < WORDS_PER_PAGE
            invariant
                self.wf(),
                i <= WORDS_PER_PAGE,
                t < self.spec_num_pages(),
                self.spec_heap_start() == pre.spec_heap_start(),
                self.spec_num_pages() == pre.spec_num_pages(),
                self.free_seq() == pre.free_seq(),
                self.alloced() == pre.alloced(),
                forall|j: int| 0 <= j < i ==> #[trigger] self.word(t as int, j) == 0,
                forall|p: int, j: int|
                    0 <= p < pre.spec_num_pages() && 0 <= j < WORDS_PER_PAGE && p != t
                        ==> #[trigger] self.word(p, j) == pre.word(p, j),
                forall|j: int|
                    i <= j < WORDS_PER_PAGE ==> #[trigger] self.word(t as int, j)
                        == pre.word(t as int, j),
            decreases WORDS_PER_PAGE - i,
        {
            self.write_word(t, i, 0u64);
            i = i + 1;
        }
    }
}

/// Everything one call of `kalloc` does to the allocator: pop the most
/// recently freed page and return its address, or report exhaustion with
/// `None` exactly when the free list is empty, leaving the state untouched.
pub open spec fn kalloc_post(pre: Kmem, post: Kmem, r: Option<u64>) -> bool {
    &&& post.wf()
    &&& same_geometry(pre, post)
    &&& post.words() == pre.words()
    &&& if pre.free_seq().len() == 0 {
        &&& r is None
        &&& post.free_seq() == pre.free_seq()
        &&& post.alloced() == pre.alloced()
    } else {
        &&& r == Some(pre.page_addr(pre.free_seq().last()))
        &&& post.free_seq() == pre.free_seq().drop_last()
        &&& post.alloced() == pre.alloced() + 1
    }
}

/// Everything one call of `kfree` does: push the page's index onto the
/// free list and count one page fewer as allocated.
pub open spec fn kfree_post(pre: Kmem, post: Kmem, ptr: u64) -> bool {
    &&& post.wf()
    &&& same_geometry(pre, post)
    &&& post.words() == pre.words()
    &&& post.free_seq() == pre.free_seq().push(pre.addr_idx(ptr))
    &&& post.alloced() == pre.alloced() - 1
}

/// A page index in range names an aligned address inside the heap, and the
/// address maps back to the index.
pub proof fn lemma_page_addr_props(m: Kmem, t: int)
    by (nonlinear_arith)
    requires
        m.spec_heap_start() % PAGE_SIZE == 0,
        m.heap_end() <= MAX_PHYS_ADDR,
        0 <= t < m.spec_num_pages(),
    ensures
        m.page_addr(t) == m.spec_heap_start() + t * (PAGE_SIZE as int),
        m.page_addr(t) % PAGE_SIZE == 0,
        m.spec_heap_start() <= m.page_addr(t),
        (m.page_addr(t) as int) < m.heap_end(),
        m.addr_idx(m.page_addr(t)) == t,
{
}

/// Distinct pages have distinct addresses.
pub proof fn lemma_page_addr_injective(m: Kmem, t1: int, t2: int)
    by (nonlinear_arith)
    requires
        m.heap_end() <= MAX_PHYS_ADDR,
        0 <= t1 < m.spec_num_pages(),
        0 <= t2 < m.spec_num_pages(),
        t1 != t2,
    ensures
        m.page_addr(t1) != m.page_addr(t2),
{
}

/// Law: an allocation hands out a page that was free and no longer is,
/// while every other page keeps its status; the result is page-aligned and
/// lies in the heap. Hence any run of successful allocations returns
/// pairwise distinct addresses.
pub proof fn lemma_kalloc_fresh(pre: Kmem, post: Kmem, a: u64)
    requires
        pre.wf(),
        kalloc_post(pre, post, Some(a)),
    ensures
        a % PAGE_SIZE == 0,
        pre.spec_heap_start() <= a,
        (a as int) < pre.heap_end(),
        pre.is_free(pre.addr_idx(a)),
        !post.is_free(post.addr_idx(a)),
        forall|t: int| t != pre.addr_idx(a) ==> post.is_free(t) == pre.is_free(t),
{
    let t = pre.free_seq().last();
    assert(0 <= t < pre.spec_num_pages());
    assert(a == pre.page_addr(t));
    assert(a % PAGE_SIZE == 0 && pre.spec_heap_start() <= a && (a as int) < pre.heap_end()
        && pre.addr_idx(a) == t) by (nonlinear_arith)
        requires
            pre.wf(),
            0 <= t < pre.spec_num_pages(),
            a == pre.page_addr(t),
    ;
    assert(pre.free_seq()[pre.free_seq().len() - 1] == t);
    assert(pre.is_free(t));
    assert(!post.is_free(t)) by {
        if post.free_seq().contains(t) {
            let j = choose|j: int| 0 <= j < post.free_seq().len() && post.free_seq()[j] == t;
            assert(pre.free_seq()[j] == pre.free_seq()[pre.free_seq().len() - 1]);
        }
    }
    assert forall|p: int| p != t implies post.is_free(p) == pre.is_free(p) by {
        if pre.free_seq().contains(p) {
            let j = choose|j: int| 0 <= j < pre.free_seq().len() && pre.free_seq()[j] == p;
            assert(j < pre.free_seq().len() - 1);
            assert(post.free_seq()[j] == p);
        }
        if post.free_seq().contains(p) {
            let j = choose|j: int| 0 <= j < post.free_seq().len() && post.free_seq()[j] == p;
            assert(pre.free_seq()[j] == p);
        }
    }
}

/// Law: two back-to-back successful allocations return distinct addresses.
pub proof fn lemma_kalloc_distinct(m0: Kmem, m1: Kmem, m2: Kmem, a1: u64, a2: u64)
    requires
        m0.wf(),
        kalloc_post(m0, m1, Some(a1)),
        kalloc_post(m1, m2, Some(a2)),
    ensures
        a1 != a2,
{
    lemma_kalloc_fresh(m0, m1, a1);
    lemma_kalloc_fresh(m1, m2, a2);
    assert(m1.is_free(m1.addr_idx(a2)));
    if a1 == a2 {
        assert(!m1.is_free(m1.addr_idx(a1)));
    }
}

/// Law: freeing a page and immediately allocating returns that same page;
/// the free list is last-in, first-out.
pub proof fn lemma_free_then_alloc(m0: Kmem, m1: Kmem, m2: Kmem, p: u64, r: Option<u64>)
    requires
        m0.wf(),
        p % PAGE_SIZE == 0,
        m0.spec_heap_start() <= p,
        (p as int) < m0.heap_end(),
        kfree_post(m0, m1, p),
        kalloc_post(m1, m2, r),
    ensures
        r == Some(p),
{
    m0.lemma_addr_idx_roundtrip(p);
    assert(m1.free_seq().last() == m0.addr_idx(p));
    assert(m1.page_addr(m0.addr_idx(p)) == p);
}

/// Two arenas with the same geometry give page `p` the same contents.
pub open spec fn page_unchanged(m1: Kmem, m2: Kmem, p: int) -> bool {
    forall|i: int| 0 <= i < WORDS_PER_PAGE ==> #[trigger] m2.word(p, i) == m1.word(p, i)
}

/// The heap bounds of the two allocators agree.
pub open spec fn same_geometry(m1: Kmem, m2: Kmem) -> bool {
    m1.spec_heap_start() == m2.spec_heap_start() && m1.spec_num_pages() == m2.spec_num_pages()
}

/// Every observable part of the allocator is the same: geometry, page
/// contents, free list and counter.
pub open spec fn mem_unchanged(m1: Kmem, m2: Kmem) -> bool {
    &&& same_geometry(m1, m2)
    &&& m2.words() == m1.words()
    &&& m2.free_seq() == m1.free_seq()
    &&& m2.alloced() == m1.alloced()
}

/// Flat word indices collide only for the same page and offset.
pub proof fn lemma_word_index_injective(p: int, i: int, q: int, j: int)
    by (nonlinear_arith)
    requires
        0 <= i < WORDS_PER_PAGE,
        0 <= j < WORDS_PER_PAGE,
    ensures
        p * (WORDS_PER_PAGE as int) + i == q * (WORDS_PER_PAGE as int) + j <==> (p == q && i
            == j),
{
}

/// The flat index of an in-range word lies inside the arena.
pub proof fn lemma_word_in_arena(m: Kmem, t: int, i: int)
    by (nonlinear_arith)
    requires
        m.words().len() == m.spec_num_pages() * (WORDS_PER_PAGE as int),
        0 <= t < m.spec_num_pages(),
        0 <= i < WORDS_PER_PAGE,
    ensures
        0 <= t * (WORDS_PER_PAGE as int) + i < m.words().len(),
{
}

/// An aligned in-heap address sits strictly inside the page range.
pub proof fn lemma_addr_idx_bounds(m: Kmem, ptr: u64)
    by (nonlinear_arith)
    requires
        m.spec_heap_start() <= ptr,
        (ptr as int) < m.heap_end(),
    ensures
        0 <= m.addr_idx(ptr) < m.spec_num_pages(),
{
}

/// A duplicate-free sequence over `[0, n)` missing some value has fewer
/// than `n` elements.
proof fn lemma_free_len_bound(s: Seq<int>, n: int, x: int)
    requires
        s.no_duplicates(),
        forall|j: int| 0 <= j < s.len() ==> 0 <= #[trigger] s[j] < n,
        0 <= x < n,
        !s.contains(x),
    ensures
        s.len() < n,
{
    let extended = s.push(x);
    lemma_push_no_duplicates(s, x);
    extended.unique_seq_to_set();
    assert(extended.to_set().subset_of(set_int_range(0, n))) by {
        assert forall|e: int| extended.to_set().contains(e) implies set_int_range(0, n).contains(
            e,
        ) by {
            let j = choose|j: int| 0 <= j < extended.len() && extended[j] == e;
            if j < s.len() {
                assert(s[j] == e);
            }
        }
    }
    lemma_int_range(0, n);
    lemma_len_subset(extended.to_set(), set_int_range(0, n));
}

/// Pushing a fresh element keeps a sequence duplicate-free.
proof fn lemma_push_no_duplicates(s: Seq<int>, x: int)
    requires
        s.no_duplicates(),
        !s.contains(x),
    ensures
        s.push(x).no_duplicates(),
{
    let extended = s.push(x);
    assert forall|i: int, j: int| 0 <= i < extended.len() && 0 <= j < extended.len() && i != j
        implies extended[i] != extended[j] by {
        if i < s.len() && j < s.len() {
            assert(s[i] != s[j]);
        } else if i < s.len() {
            assert(s[i] != x) by {
                if s[i] == x {
                    assert(s.contains(x));
                }
            }
        } else if j < s.len() {
            assert(s[j] != x) by {
                if s[j] == x {
                    assert(s.contains(x));
                }
            }
        }
    }
}

} // verus!
