//! Sv39 memory management unit.
//!
//! A page table is one physical page holding 512 entries; translation walks
//! three levels, indexed by the 9-bit virtual-page-number slices of the
//! address (bits 38:30, 29:21, 20:12). A leaf may sit at any level, mapping
//! 1 GiB, 2 MiB or 4 KiB. All tables live in pages of the `kmem` arena; a
//! `PageTable` value is the handle to a tree's root page.
//!
//! The model of a tree is `translate`, the mathematical walk, together with
//! `subtree_seq`, the post-order listing of the tree's own table pages. The
//! invariant `pt_wf` keeps every pointer entry aimed at a distinct, live,
//! in-heap page, which is what makes teardown reclaim each table exactly
//! once and never a leaf-mapped data page.

use vstd::prelude::*;

verus! {

use crate::kmem::AllocError;
use crate::kmem::CLINT_BASE;
use crate::kmem::Kmem;
use crate::kmem::PLIC_BASE;
use crate::kmem::UART_BASE;
use crate::kmem::VIRTIO_BASE;
use crate::kmem::VIRTIO_SLOTS;
use crate::kmem::MAX_PHYS_ADDR;
use crate::kmem::PAGE_SIZE;
use crate::kmem::WORDS_PER_PAGE;
use crate::kmem::lemma_page_addr_props;
use crate::kmem::mem_unchanged;
use crate::kmem::page_unchanged;
use crate::kmem::same_geometry;
use crate::kmem::spec_page_ceil;
use crate::kmem::spec_page_floor;
use crate::kmem::page_floor;
use crate::kmem::page_ceil;

/// Entry is valid: the hardware walker may use it.
pub const PTE_VALID: u64 = 1u64 << 0;

/// Leaf permission: readable.
pub const PTE_R: u64 = 1u64 << 1;

/// Leaf permission: writable.
pub const PTE_W: u64 = 1u64 << 2;

/// Leaf permission: executable.
pub const PTE_X: u64 = 1u64 << 3;

/// Leaf accessible from user mode.
pub const PTE_USER: u64 = 1u64 << 4;

/// The 44-bit physical page number field, bits 53:10.
pub const PTE_PPN: u64 = 0xfff_ffff_ffffu64 << 10;

/// Bits 60:54, reserved for future standard use; must stay zero.
pub const PTE_RESERVED: u64 = 0x7fu64 << 54;

/// Bits 62:61, page-based memory types; not implemented here.
pub const PTE_PBMT: u64 = 0x3u64 << 61;

/// Any of read, write, execute: set on exactly the leaf entries.
pub const PTE_RWX: u64 = PTE_R | PTE_W | PTE_X;

/// Number of entries in one page table.
pub const PAGE_TABLE_ENTRIES: usize = 512;

/// One 64-bit Sv39 page-table entry: the codec for the raw wire format.
/// An entry is invalid, a leaf (at least one of R/W/X set), or a pointer
/// to a child table (valid with R/W/X clear).
pub struct PTE {
    entry: u64,
}

impl View for PTE {
    type V = u64;

    closed spec fn view(&self) -> u64 {
        self.entry
    }
}

/// The entry's valid bit is set.
pub open spec fn spec_pte_valid(e: u64) -> bool {
    e & PTE_VALID != 0
}

/// The entry carries a leaf permission.
pub open spec fn spec_pte_leaf(e: u64) -> bool {
    e & PTE_RWX != 0
}

/// The entry is a pointer to a child table: valid but no permission bits.
pub open spec fn is_pointer(e: u64) -> bool {
    spec_pte_valid(e) && !spec_pte_leaf(e)
}

/// The physical page number field of the entry, in place.
pub open spec fn spec_pte_ppn(e: u64) -> u64 {
    e & PTE_PPN
}

/// The physical address the entry references: the page number field moved
/// from bit 10 to bit 12.
pub open spec fn spec_pte_paddr(e: u64) -> u64 {
    ((e & PTE_PPN) >> 10) << 12
}

/// The page-number field a physical address encodes to.
pub open spec fn spec_paddr_ppn(paddr: u64) -> u64 {
    (paddr >> 12) << 10
}

impl PTE {
    /// Wrap a raw 64-bit entry read from a table page.
    pub fn new(entry: u64) -> (r: PTE)
        ensures
            r@ == entry,
    {
        PTE { entry }
    }

    /// The raw 64-bit value, ready to be written back to a table page.
    pub fn bits(&self) -> (r: u64)
        ensures
            r == self@,
    {
        self.entry
    }

    /// Set the valid bit.
    pub fn validate(&mut self)
        ensures
            final(self)@ == old(self)@ | PTE_VALID,
    {
        self.entry = self.entry | PTE_VALID;
    }

    /// Whether the valid bit is set.
    pub fn is_valid(&self) -> (r: bool)
        ensures
            r == spec_pte_valid(self@),
    {
        self.entry & PTE_VALID != 0
    }

    /// Whether the entry is a leaf: at least one of R/W/X set.
    pub fn is_leaf(&self) -> (r: bool)
        ensures
            r == spec_pte_leaf(self@),
    {
        self.entry & PTE_RWX != 0
    }

    /// Replace the physical-page-number field. The new field must not
    /// spill outside its bit range; a value too large to encode is an
    /// invariant violation in the caller.
    pub fn set_ppn(&mut self, ppn: u64)
        requires
            ppn & !PTE_PPN == 0,
        ensures
            final(self)@ == (old(self)@ & !PTE_PPN) | ppn,
    {
        self.entry = (self.entry & !PTE_PPN) | ppn;
    }

    /// The physical-page-number field, in place.
    pub fn get_ppn(&self) -> (r: u64)
        ensures
            r == spec_pte_ppn(self@),
    {
        self.entry & PTE_PPN
    }

    /// Or the given flag bits into the entry.
    pub fn set_flags(&mut self, flags: u64)
        ensures
            final(self)@ == old(self)@ | flags,
    {
        self.entry = self.entry | flags;
    }
}

/// Encode a physical address as the page-number field of an entry.
pub fn paddr_to_ppn(paddr: u64) -> (r: u64)
    requires
        paddr < MAX_PHYS_ADDR,
    ensures
        r == spec_paddr_ppn(paddr),
        r & !PTE_PPN == 0,
{
    proof {
        assert(paddr < 0x100_0000_0000_0000u64 ==> ((paddr >> 12) << 10) & !(0xfff_ffff_ffffu64
            << 10) == 0) by (bit_vector);
    }
    (paddr >> 12) << 10
}

/// Decode the page-number field of an entry back to a physical address.
pub fn ppn_to_paddr(ppn: u64) -> (r: u64)
    ensures
        r == (ppn >> 10) << 12,
{
    (ppn >> 10) << 12
}

/// The 9-bit slice of the virtual address that indexes tables at level `l`.
pub open spec fn spec_vpn(va: u64, l: int) -> u64 {
    if l == 0 {
        (va >> 12) & 0x1ff
    } else if l == 1 {
        (va >> 21) & 0x1ff
    } else {
        (va >> 30) & 0x1ff
    }
}

/// The within-leaf offset mask for a leaf found at level `l`:
/// 12, 21 or 30 one-bits.
pub open spec fn level_mask(l: int) -> u64 {
    if l == 0 {
        0xfffu64
    } else if l == 1 {
        0x1f_ffffu64
    } else {
        0x3fff_ffffu64
    }
}

/// Virtual page number slices are 9 bits wide.
pub proof fn lemma_vpn_bounds(va: u64)
    ensures
        forall|l: int| 0 <= #[trigger] spec_vpn(va, l) < 512,
{
    assert((va >> 12) & 0x1ff < 512 && (va >> 21) & 0x1ff < 512 && (va >> 30) & 0x1ff < 512)
        by (bit_vector);
}

/// Extract the virtual page number slice for level `l` (0, 1 or 2).
pub fn vpn_of(va: u64, l: usize) -> (r: u64)
    requires
        l <= 2,
    ensures
        r == spec_vpn(va, l as int),
        r < 512,
{
    proof {
        lemma_vpn_bounds(va);
        assert(spec_vpn(va, l as int) < 512);
    }
    if l == 0 {
        (va >> 12) & 0x1ff
    } else if l == 1 {
        (va >> 21) & 0x1ff
    } else {
        (va >> 30) & 0x1ff
    }
}

/// The referenced physical address lies inside the arena's heap.
pub open spec fn pa_in_heap(m: Kmem, pa: u64) -> bool {
    m.spec_heap_start() <= pa && (pa as int) < m.heap_end()
}

/// Arena page index of the table an entry points to.
pub open spec fn child_of(m: Kmem, e: u64) -> int {
    m.addr_idx(spec_pte_paddr(e))
}

/// Structural well-formedness of the table tree rooted at page `t`, seen
/// as a table at level `lv`: every pointer entry references an in-heap,
/// in-range page whose table is well-formed one level down, and tables at
/// level 0 hold no pointer entries at all.
pub open spec fn table_wf(m: Kmem, t: int, lv: nat) -> bool
    decreases lv, 0nat, 0nat,
{
    &&& 0 <= t < m.spec_num_pages()
    &&& forall|i: int|
        0 <= i < 512 && is_pointer(#[trigger] m.word(t, i)) ==> {
            &&& lv > 0
            &&& pa_in_heap(m, spec_pte_paddr(m.word(t, i)))
            &&& 0 <= child_of(m, m.word(t, i)) < m.spec_num_pages()
            &&& table_wf(m, child_of(m, m.word(t, i)), (lv - 1) as nat)
        }
}

/// Post-order listing of the table pages of the subtrees hanging off
/// entries `i..512` of table `t`.
pub open spec fn children_seq(m: Kmem, t: int, lv: nat, i: int) -> Seq<int>
    decreases lv, 2nat, 512 - i,
{
    if i < 0 || i >= 512 {
        Seq::empty()
    } else {
        let rest = children_seq(m, t, lv, i + 1);
        if is_pointer(m.word(t, i)) && lv > 0 {
            subtree_seq(m, child_of(m, m.word(t, i)), (lv - 1) as nat) + rest
        } else {
            rest
        }
    }
}

/// Post-order listing of all table pages of the tree rooted at `t`:
/// the pages of every child subtree, then `t` itself — exactly the order
/// teardown returns them to the allocator.
pub open spec fn subtree_seq(m: Kmem, t: int, lv: nat) -> Seq<int>
    decreases lv, 3nat, 0nat,
{
    children_seq(m, t, lv, 0) + seq![t]
}

/// The mathematical Sv39 walk from table `t` at level `lv`: `None` at an
/// invalid entry, the leaf's address joined with the in-leaf offset bits
/// at a leaf, descent at a pointer.
pub open spec fn translate_rec(m: Kmem, t: int, va: u64, lv: nat) -> Option<u64>
    decreases lv,
{
    let e = m.word(t, spec_vpn(va, lv as int) as int);
    if !spec_pte_valid(e) {
        None
    } else if spec_pte_leaf(e) {
        Some(spec_pte_paddr(e) | (va & level_mask(lv as int)))
    } else if lv == 0 {
        None
    } else {
        translate_rec(m, child_of(m, e), va, (lv - 1) as nat)
    }
}

/// What the tree rooted at `root` translates `va` to.
pub open spec fn translate(m: Kmem, root: int, va: u64) -> Option<u64> {
    translate_rec(m, root, va, 2)
}

/// No page of the tree sits on the free list.
pub open spec fn tree_allocated(m: Kmem, t: int, lv: nat) -> bool {
    forall|p: int| #[trigger] subtree_seq(m, t, lv).contains(p) ==> !m.is_free(p)
}

/// The full invariant of a live table tree: structurally well-formed,
/// its pages pairwise distinct, and all of them checked out of the
/// allocator.
pub open spec fn pt_wf(m: Kmem, t: int, lv: nat) -> bool {
    &&& table_wf(m, t, lv)
    &&& subtree_seq(m, t, lv).no_duplicates()
    &&& tree_allocated(m, t, lv)
}

/// No leaf entry sits above level 0 anywhere in the tree: every mapping
/// is a 4 KiB page. Trees built only by 4 KiB maps stay this way, and for
/// them an upsert never buries an unrelated translation.
pub open spec fn no_mid_leaves(m: Kmem, t: int, lv: nat) -> bool
    decreases lv,
{
    lv > 0 ==> forall|i: int|
        0 <= i < 512 && spec_pte_valid(#[trigger] m.word(t, i)) ==> {
            &&& !spec_pte_leaf(m.word(t, i))
            &&& no_mid_leaves(m, child_of(m, m.word(t, i)), (lv - 1) as nat)
        }
}

/// How many fresh table pages an upsert of `va` with leaf level `target`
/// must allocate, walking from table `t` at level `cur`: none once the
/// walk reaches `target`, the remaining depth as soon as it leaves the
/// existing pointer chain.
pub open spec fn tables_needed(m: Kmem, t: int, va: u64, cur: nat, target: nat) -> int
    decreases cur,
{
    if cur <= target {
        0
    } else {
        let e = m.word(t, spec_vpn(va, cur as int) as int);
        if is_pointer(e) {
            tables_needed(m, child_of(m, e), va, (cur - 1) as nat, target)
        } else {
            cur - target
        }
    }
}

/// The two virtual addresses take the same path through the tables from
/// level `cur` down to level `target`.
pub open spec fn agree_upto(va2: u64, va: u64, target: int, cur: int) -> bool {
    forall|l: int| target <= l <= cur ==> #[trigger] spec_vpn(va2, l) == spec_vpn(va, l)
}

/// The two virtual addresses share the table path strictly above level
/// `target`: they land in the same leaf-level table.
pub open spec fn agree_above(va2: u64, va: u64, target: int, cur: int) -> bool {
    forall|l: int| target < l <= cur ==> #[trigger] spec_vpn(va2, l) == spec_vpn(va, l)
}

/// What a lookup returns for `va2` after `va2`'s region was mapped to
/// physical page `pa` at leaf level `target`.
pub open spec fn map_result(pa: u64, va2: u64, target: int) -> u64 {
    ((pa >> 12) << 12) | (va2 & level_mask(target))
}

// ---------------------------------------------------------------------
// Structural lemmas about the tree listing.
// ---------------------------------------------------------------------

/// Concatenation holds exactly the elements of its parts.
pub proof fn lemma_concat_contains(a: Seq<int>, b: Seq<int>)
    ensures
        forall|x: int| #[trigger] (a + b).contains(x) <==> a.contains(x) || b.contains(x),
{
    assert forall|x: int| #[trigger] (a + b).contains(x) implies a.contains(x) || b.contains(
        x,
    ) by {
        let j = choose|j: int| 0 <= j < (a + b).len() && (a + b)[j] == x;
        if j < a.len() {
            assert(a[j] == x);
        } else {
            assert(b[j - a.len()] == x);
        }
    }
    assert forall|x: int| a.contains(x) || b.contains(x) implies #[trigger] (a + b).contains(
        x,
    ) by {
        if a.contains(x) {
            let j = choose|j: int| 0 <= j < a.len() && a[j] == x;
            assert((a + b)[j] == x);
        } else {
            let j = choose|j: int| 0 <= j < b.len() && b[j] == x;
            assert((a + b)[a.len() + j] == x);
        }
    }
}

/// A duplicate-free concatenation has duplicate-free, disjoint parts.
pub proof fn lemma_no_dup_split(a: Seq<int>, b: Seq<int>)
    requires
        (a + b).no_duplicates(),
    ensures
        a.no_duplicates(),
        b.no_duplicates(),
        forall|x: int| a.contains(x) ==> !b.contains(x),
{
    assert forall|i: int, j: int| 0 <= i < a.len() && 0 <= j < a.len() && i != j implies a[i]
        != a[j] by {
        assert((a + b)[i] == a[i] && (a + b)[j] == a[j]);
    }
    assert forall|i: int, j: int| 0 <= i < b.len() && 0 <= j < b.len() && i != j implies b[i]
        != b[j] by {
        assert((a + b)[a.len() + i] == b[i] && (a + b)[a.len() + j] == b[j]);
    }
    assert forall|x: int| a.contains(x) implies !b.contains(x) by {
        if a.contains(x) && b.contains(x) {
            let i = choose|i: int| 0 <= i < a.len() && a[i] == x;
            let j = choose|j: int| 0 <= j < b.len() && b[j] == x;
            assert((a + b)[i] == x && (a + b)[a.len() + j] == x);
        }
    }
}

/// The root page is listed in its own subtree.
pub proof fn lemma_subtree_contains_root(m: Kmem, t: int, lv: nat)
    ensures
        subtree_seq(m, t, lv).contains(t),
{
    let c = children_seq(m, t, lv, 0);
    assert((c + seq![t])[c.len() as int] == t);
}

/// Every page of a pointed-to child subtree is listed among the children
/// of any slot range that covers the slot.
pub proof fn lemma_children_cover_child(m: Kmem, t: int, lv: nat, i: int, j: int)
    requires
        0 <= i <= j < 512,
        lv > 0,
        is_pointer(m.word(t, j)),
    ensures
        forall|p: int|
            subtree_seq(m, child_of(m, m.word(t, j)), (lv - 1) as nat).contains(p)
                ==> #[trigger] children_seq(m, t, lv, i).contains(p),
    decreases j - i,
{
    let sub = subtree_seq(m, child_of(m, m.word(t, j)), (lv - 1) as nat);
    let rest = children_seq(m, t, lv, i + 1);
    if i == j {
        lemma_concat_contains(sub, rest);
    } else {
        lemma_children_cover_child(m, t, lv, i + 1, j);
        if is_pointer(m.word(t, i)) {
            lemma_concat_contains(
                subtree_seq(m, child_of(m, m.word(t, i)), (lv - 1) as nat),
                rest,
            );
        }
    }
}

/// Conversely, every page listed among the children of slots `i..512`
/// belongs to the subtree of some pointer slot in that range.
pub proof fn lemma_children_elem_source(m: Kmem, t: int, lv: nat, i: int, p: int)
    requires
        children_seq(m, t, lv, i).contains(p),
    ensures
        exists|j: int|
            i <= j < 512 && is_pointer(#[trigger] m.word(t, j)) && lv > 0 && subtree_seq(
                m,
                child_of(m, m.word(t, j)),
                (lv - 1) as nat,
            ).contains(p),
    decreases 512 - i,
{
    if i < 0 || i >= 512 {
        assert(false);
    } else {
        let rest = children_seq(m, t, lv, i + 1);
        if is_pointer(m.word(t, i)) && lv > 0 {
            let sub = subtree_seq(m, child_of(m, m.word(t, i)), (lv - 1) as nat);
            lemma_concat_contains(sub, rest);
            if sub.contains(p) {
                assert(i <= i < 512 && is_pointer(m.word(t, i)) && sub.contains(p));
            } else {
                lemma_children_elem_source(m, t, lv, i + 1, p);
            }
        } else {
            lemma_children_elem_source(m, t, lv, i + 1, p);
        }
    }
}

/// In a well-formed tree every listed page index is in range.
pub proof fn lemma_subtree_in_range(m: Kmem, t: int, lv: nat)
    requires
        table_wf(m, t, lv),
    ensures
        forall|p: int|
            #[trigger] subtree_seq(m, t, lv).contains(p) ==> 0 <= p < m.spec_num_pages(),
    decreases lv, 3nat,
{
    lemma_children_in_range(m, t, lv, 0);
    lemma_concat_contains(children_seq(m, t, lv, 0), seq![t]);
    assert forall|p: int| #[trigger] subtree_seq(m, t, lv).contains(p) implies 0 <= p
        < m.spec_num_pages() by {
        if children_seq(m, t, lv, 0).contains(p) {
        } else {
            assert(seq![t].contains(p));
            assert(seq![t][0] == t);
            assert(p == t);
        }
    }
}

/// In a well-formed tree every page listed under slots `i..512` is in range.
pub proof fn lemma_children_in_range(m: Kmem, t: int, lv: nat, i: int)
    requires
        table_wf(m, t, lv),
    ensures
        forall|p: int|
            #[trigger] children_seq(m, t, lv, i).contains(p) ==> 0 <= p < m.spec_num_pages(),
    decreases lv, 2nat, 512 - i,
{
    if 0 <= i < 512 {
        lemma_children_in_range(m, t, lv, i + 1);
        let rest = children_seq(m, t, lv, i + 1);
        if is_pointer(m.word(t, i)) && lv > 0 {
            let c = child_of(m, m.word(t, i));
            lemma_subtree_in_range(m, c, (lv - 1) as nat);
            lemma_concat_contains(subtree_seq(m, c, (lv - 1) as nat), rest);
        }
    }
}

/// Tree views are untouched by operations that keep the arena contents:
/// allocator pops and pushes never edit a table. The word-for-word equal
/// hypothesis is symmetric, so swapping the arguments gives the converse
/// implications.
pub proof fn lemma_tree_same_words(m1: Kmem, m2: Kmem, t: int, lv: nat)
    requires
        same_geometry(m1, m2),
        m2.words() == m1.words(),
    ensures
        subtree_seq(m2, t, lv) == subtree_seq(m1, t, lv),
        table_wf(m1, t, lv) ==> table_wf(m2, t, lv),
        no_mid_leaves(m1, t, lv) ==> no_mid_leaves(m2, t, lv),
        forall|va: u64|
            #[trigger] translate_rec(m2, t, va, lv) == translate_rec(m1, t, va, lv),
        forall|va: u64, target: nat|
            #[trigger] tables_needed(m2, t, va, lv, target) == tables_needed(m1, t, va, lv, target),
    decreases lv, 3nat, 0nat,
{
    lemma_children_same_words(m1, m2, t, lv, 0);
    assert forall|i: int| #![trigger m2.word(t, i)] true implies m2.word(t, i) == m1.word(
        t,
        i,
    ) by {}
    if lv > 0 {
        assert forall|i: int| 0 <= i < 512 && is_pointer(#[trigger] m1.word(t, i)) implies {
            &&& child_of(m2, m2.word(t, i)) == child_of(m1, m1.word(t, i))
            &&& (table_wf(m1, child_of(m1, m1.word(t, i)), (lv - 1) as nat) ==> table_wf(
                m2,
                child_of(m1, m1.word(t, i)),
                (lv - 1) as nat,
            ))
            &&& (no_mid_leaves(m1, child_of(m1, m1.word(t, i)), (lv - 1) as nat)
                ==> no_mid_leaves(m2, child_of(m1, m1.word(t, i)), (lv - 1) as nat))
        } by {
            lemma_tree_same_words(m1, m2, child_of(m1, m1.word(t, i)), (lv - 1) as nat);
        }
    }
    if table_wf(m1, t, lv) {
        assert(table_wf(m2, t, lv));
    }
    if no_mid_leaves(m1, t, lv) {
        assert(no_mid_leaves(m2, t, lv));
    }
    assert forall|va: u64|
        #[trigger] translate_rec(m2, t, va, lv) == translate_rec(m1, t, va, lv) by {
        let e = m1.word(t, spec_vpn(va, lv as int) as int);
        assert(m2.word(t, spec_vpn(va, lv as int) as int) == e);
        if !spec_pte_valid(e) {
            assert(translate_rec(m2, t, va, lv) is None);
            assert(translate_rec(m1, t, va, lv) is None);
        } else if spec_pte_leaf(e) {
            assert(translate_rec(m2, t, va, lv) == Some(
                spec_pte_paddr(e) | (va & level_mask(lv as int)),
            ));
            assert(translate_rec(m1, t, va, lv) == Some(
                spec_pte_paddr(e) | (va & level_mask(lv as int)),
            ));
        } else if lv == 0 {
            assert(translate_rec(m2, t, va, lv) is None);
            assert(translate_rec(m1, t, va, lv) is None);
        } else {
            lemma_tree_same_words(m1, m2, child_of(m1, e), (lv - 1) as nat);
            assert(child_of(m2, e) == child_of(m1, e));
            assert(translate_rec(m2, t, va, lv) == translate_rec(
                m2,
                child_of(m1, e),
                va,
                (lv - 1) as nat,
            ));
            assert(translate_rec(m1, t, va, lv) == translate_rec(
                m1,
                child_of(m1, e),
                va,
                (lv - 1) as nat,
            ));
        }
    }
    assert forall|va: u64, target: nat|
        #[trigger] tables_needed(m2, t, va, lv, target) == tables_needed(
        m1,
        t,
        va,
        lv,
        target,
    ) by {
        if lv > target {
            let e = m1.word(t, spec_vpn(va, lv as int) as int);
            assert(m2.word(t, spec_vpn(va, lv as int) as int) == e);
            if is_pointer(e) {
                lemma_tree_same_words(m1, m2, child_of(m1, e), (lv - 1) as nat);
                assert(child_of(m2, e) == child_of(m1, e));
                assert(tables_needed(m2, t, va, lv, target) == tables_needed(
                    m2,
                    child_of(m1, e),
                    va,
                    (lv - 1) as nat,
                    target,
                ));
                assert(tables_needed(m1, t, va, lv, target) == tables_needed(
                    m1,
                    child_of(m1, e),
                    va,
                    (lv - 1) as nat,
                    target,
                ));
            }
        }
    }
}

/// Companion of `lemma_tree_same_words` for the child listing.
pub proof fn lemma_children_same_words(m1: Kmem, m2: Kmem, t: int, lv: nat, i: int)
    requires
        same_geometry(m1, m2),
        m2.words() == m1.words(),
    ensures
        children_seq(m2, t, lv, i) == children_seq(m1, t, lv, i),
    decreases lv, 2nat, 512 - i,
{
    if 0 <= i < 512 {
        lemma_children_same_words(m1, m2, t, lv, i + 1);
        if is_pointer(m1.word(t, i)) && lv > 0 {
            lemma_tree_same_words(m1, m2, child_of(m1, m1.word(t, i)), (lv - 1) as nat);
        }
    }
}

/// Frame rule of a well-formed tree: if the pages the tree is built of
/// keep their contents, the tree's structure, listing and translations
/// are unchanged, whatever happened to pages outside it.
pub proof fn lemma_tree_frame(m1: Kmem, m2: Kmem, t: int, lv: nat)
    requires
        same_geometry(m1, m2),
        table_wf(m1, t, lv),
        forall|p: int|
            #[trigger] subtree_seq(m1, t, lv).contains(p) ==> page_unchanged(m1, m2, p),
    ensures
        table_wf(m2, t, lv),
        subtree_seq(m2, t, lv) == subtree_seq(m1, t, lv),
        no_mid_leaves(m1, t, lv) ==> no_mid_leaves(m2, t, lv),
        forall|va: u64|
            #[trigger] translate_rec(m2, t, va, lv) == translate_rec(m1, t, va, lv),
        forall|va: u64, target: nat|
            #[trigger] tables_needed(m2, t, va, lv, target) == tables_needed(m1, t, va, lv, target),
    decreases lv, 3nat, 0nat,
{
    lemma_subtree_contains_root(m1, t, lv);
    assert(page_unchanged(m1, m2, t));
    assert forall|i: int| #![trigger m2.word(t, i)] 0 <= i < 512 implies m2.word(t, i)
        == m1.word(t, i) by {}
    if lv > 0 {
        assert forall|i: int| 0 <= i < 512 && is_pointer(#[trigger] m1.word(t, i)) implies {
            &&& m2.word(t, i) == m1.word(t, i)
            &&& child_of(m2, m2.word(t, i)) == child_of(m1, m1.word(t, i))
            &&& table_wf(m2, child_of(m1, m1.word(t, i)), (lv - 1) as nat)
            &&& subtree_seq(m2, child_of(m1, m1.word(t, i)), (lv - 1) as nat) == subtree_seq(
                m1,
                child_of(m1, m1.word(t, i)),
                (lv - 1) as nat,
            )
            &&& (no_mid_leaves(m1, child_of(m1, m1.word(t, i)), (lv - 1) as nat)
                ==> no_mid_leaves(m2, child_of(m1, m1.word(t, i)), (lv - 1) as nat))
            &&& (forall|va: u64|
                #[trigger] translate_rec(m2, child_of(m1, m1.word(t, i)), va, (lv - 1) as nat)
                    == translate_rec(m1, child_of(m1, m1.word(t, i)), va, (lv - 1) as nat))
        } by {
            let c = child_of(m1, m1.word(t, i));
            lemma_children_cover_child(m1, t, lv, 0, i);
            lemma_concat_contains(children_seq(m1, t, lv, 0), seq![t]);
            assert forall|p: int|
                #[trigger] subtree_seq(m1, c, (lv - 1) as nat).contains(p) implies page_unchanged(
                m1,
                m2,
                p,
            ) by {
                assert(children_seq(m1, t, lv, 0).contains(p));
                assert(subtree_seq(m1, t, lv).contains(p));
            }
            lemma_tree_frame(m1, m2, c, (lv - 1) as nat);
        }
    }
    assert(table_wf(m2, t, lv));
    lemma_children_frame(m1, m2, t, lv, 0);
    assert(subtree_seq(m2, t, lv) == subtree_seq(m1, t, lv));
    if no_mid_leaves(m1, t, lv) {
        assert(no_mid_leaves(m2, t, lv));
    }
    assert forall|va: u64|
        #[trigger] translate_rec(m2, t, va, lv) == translate_rec(m1, t, va, lv) by {
        lemma_vpn_bounds(va);
        let vi = spec_vpn(va, lv as int) as int;
        let e = m1.word(t, vi);
        assert(m2.word(t, vi) == e);
        if !spec_pte_valid(e) {
            assert(translate_rec(m2, t, va, lv) is None);
            assert(translate_rec(m1, t, va, lv) is None);
        } else if spec_pte_leaf(e) {
            assert(translate_rec(m2, t, va, lv) == Some(
                spec_pte_paddr(e) | (va & level_mask(lv as int)),
            ));
            assert(translate_rec(m1, t, va, lv) == Some(
                spec_pte_paddr(e) | (va & level_mask(lv as int)),
            ));
        } else if lv == 0 {
            assert(translate_rec(m2, t, va, lv) is None);
            assert(translate_rec(m1, t, va, lv) is None);
        } else {
            let c = child_of(m1, e);
            lemma_children_cover_child(m1, t, lv, 0, vi);
            lemma_concat_contains(children_seq(m1, t, lv, 0), seq![t]);
            assert forall|p: int|
                #[trigger] subtree_seq(m1, c, (lv - 1) as nat).contains(p) implies page_unchanged(
                m1,
                m2,
                p,
            ) by {
                assert(children_seq(m1, t, lv, 0).contains(p));
                assert(subtree_seq(m1, t, lv).contains(p));
            }
            lemma_tree_frame(m1, m2, c, (lv - 1) as nat);
            assert(child_of(m2, e) == c);
            assert(translate_rec(m2, t, va, lv) == translate_rec(m2, c, va, (lv - 1) as nat));
            assert(translate_rec(m1, t, va, lv) == translate_rec(m1, c, va, (lv - 1) as nat));
        }
    }
    assert forall|va: u64, target: nat|
        #[trigger] tables_needed(m2, t, va, lv, target) == tables_needed(
        m1,
        t,
        va,
        lv,
        target,
    ) by {
        lemma_vpn_bounds(va);
        let vi = spec_vpn(va, lv as int) as int;
        let e = m1.word(t, vi);
        assert(m2.word(t, vi) == e);
        if lv > target && is_pointer(e) {
            let c = child_of(m1, e);
            lemma_children_cover_child(m1, t, lv, 0, vi);
            lemma_concat_contains(children_seq(m1, t, lv, 0), seq![t]);
            assert forall|p: int|
                #[trigger] subtree_seq(m1, c, (lv - 1) as nat).contains(p) implies page_unchanged(
                m1,
                m2,
                p,
            ) by {
                assert(children_seq(m1, t, lv, 0).contains(p));
                assert(subtree_seq(m1, t, lv).contains(p));
            }
            lemma_tree_frame(m1, m2, c, (lv - 1) as nat);
            assert(child_of(m2, e) == c);
            assert(tables_needed(m2, t, va, lv, target) == tables_needed(
                m2,
                c,
                va,
                (lv - 1) as nat,
                target,
            ));
            assert(tables_needed(m1, t, va, lv, target) == tables_needed(
                m1,
                c,
                va,
                (lv - 1) as nat,
                target,
            ));
        }
    }
}

/// Companion of `lemma_tree_frame` for the child listing.
pub proof fn lemma_children_frame(m1: Kmem, m2: Kmem, t: int, lv: nat, i: int)
    requires
        same_geometry(m1, m2),
        table_wf(m1, t, lv),
        forall|x: int| 0 <= x < 512 ==> #[trigger] m2.word(t, x) == m1.word(t, x),
        forall|p: int|
            #[trigger] subtree_seq(m1, t, lv).contains(p) ==> page_unchanged(m1, m2, p),
    ensures
        children_seq(m2, t, lv, i) == children_seq(m1, t, lv, i),
    decreases lv, 2nat, 512 - i,
{
    if 0 <= i < 512 {
        lemma_children_frame(m1, m2, t, lv, i + 1);
        if is_pointer(m1.word(t, i)) && lv > 0 {
            let c = child_of(m1, m1.word(t, i));
            lemma_children_cover_child(m1, t, lv, 0, i);
            lemma_concat_contains(children_seq(m1, t, lv, 0), seq![t]);
            assert forall|p: int|
                #[trigger] subtree_seq(m1, c, (lv - 1) as nat).contains(p) implies page_unchanged(
                m1,
                m2,
                p,
            ) by {
                assert(children_seq(m1, t, lv, 0).contains(p));
                assert(subtree_seq(m1, t, lv).contains(p));
            }
            lemma_tree_frame(m1, m2, c, (lv - 1) as nat);
        }
    }
}

/// Among duplicate-free children of slots `i..512`, the subtree of each
/// pointer slot is itself duplicate-free.
pub proof fn lemma_children_no_dup_child(m: Kmem, t: int, lv: nat, i: int, j: int)
    requires
        children_seq(m, t, lv, i).no_duplicates(),
        0 <= i <= j < 512,
        lv > 0,
        is_pointer(m.word(t, j)),
    ensures
        subtree_seq(m, child_of(m, m.word(t, j)), (lv - 1) as nat).no_duplicates(),
    decreases j - i,
{
    let rest = children_seq(m, t, lv, i + 1);
    if is_pointer(m.word(t, i)) {
        lemma_no_dup_split(subtree_seq(m, child_of(m, m.word(t, i)), (lv - 1) as nat), rest);
    }
    if i < j {
        lemma_children_no_dup_child(m, t, lv, i + 1, j);
    }
}

/// From a live tree, the subtree hanging off any pointer slot is itself a
/// live tree, its pages are among the parent's, and the parent's root page
/// is not one of them.
pub proof fn lemma_child_bundle(m: Kmem, t: int, lv: nat, j: int)
    requires
        pt_wf(m, t, lv),
        0 <= j < 512,
        is_pointer(m.word(t, j)),
    ensures
        lv > 0,
        0 <= child_of(m, m.word(t, j)) < m.spec_num_pages(),
        pt_wf(m, child_of(m, m.word(t, j)), (lv - 1) as nat),
        forall|p: int|
            #[trigger] subtree_seq(m, child_of(m, m.word(t, j)), (lv - 1) as nat).contains(p)
                ==> subtree_seq(m, t, lv).contains(p),
        !subtree_seq(m, child_of(m, m.word(t, j)), (lv - 1) as nat).contains(t),
{
    let c = child_of(m, m.word(t, j));
    let sub = subtree_seq(m, c, (lv - 1) as nat);
    let ch = children_seq(m, t, lv, 0);
    lemma_no_dup_split(ch, seq![t]);
    lemma_children_no_dup_child(m, t, lv, 0, j);
    lemma_children_cover_child(m, t, lv, 0, j);
    lemma_concat_contains(ch, seq![t]);
    assert forall|p: int| #[trigger] sub.contains(p) implies subtree_seq(m, t, lv).contains(
        p,
    ) by {
        assert(ch.contains(p));
    }
    assert(!sub.contains(t)) by {
        if sub.contains(t) {
            assert(ch.contains(t));
            assert(seq![t][0] == t);
            assert(seq![t].contains(t));
        }
    }
    assert(tree_allocated(m, c, (lv - 1) as nat)) by {
        assert forall|p: int| #[trigger] sub.contains(p) implies !m.is_free(p) by {
            assert(subtree_seq(m, t, lv).contains(p));
        }
    }
}

/// A page of zeroes is a well-formed, empty table at any level: nothing
/// is valid in it, it lists only itself, and it translates nothing.
pub proof fn lemma_zeroed_table(m: Kmem, t: int, lv: nat)
    requires
        0 <= t < m.spec_num_pages(),
        forall|i: int| 0 <= i < 512 ==> #[trigger] m.word(t, i) == 0,
    ensures
        table_wf(m, t, lv),
        subtree_seq(m, t, lv) == seq![t],
        subtree_seq(m, t, lv).no_duplicates(),
        no_mid_leaves(m, t, lv),
        forall|va: u64| #[trigger] translate_rec(m, t, va, lv) is None,
        forall|va: u64, target: nat|
            target <= lv ==> #[trigger] tables_needed(m, t, va, lv, target) == lv - target,
    decreases lv,
{
    assert(!spec_pte_valid(0) && !spec_pte_leaf(0)) by (bit_vector);
    lemma_zeroed_children_empty(m, t, lv, 0);
    assert(subtree_seq(m, t, lv) =~= seq![t]);
    assert forall|va: u64| #[trigger] translate_rec(m, t, va, lv) is None by {
        lemma_vpn_bounds(va);
        assert(m.word(t, spec_vpn(va, lv as int) as int) == 0);
    }
    assert forall|va: u64, target: nat|
        target <= lv implies #[trigger] tables_needed(m, t, va, lv, target) == lv - target by {
        lemma_vpn_bounds(va);
        if lv > target {
            assert(m.word(t, spec_vpn(va, lv as int) as int) == 0);
        }
    }
}

/// A zeroed table hangs no children off any slot range.
proof fn lemma_zeroed_children_empty(m: Kmem, t: int, lv: nat, i: int)
    requires
        forall|x: int| 0 <= x < 512 ==> #[trigger] m.word(t, x) == 0,
    ensures
        children_seq(m, t, lv, i) == Seq::<int>::empty(),
    decreases 512 - i,
{
    assert(!spec_pte_valid(0)) by (bit_vector);
    if 0 <= i < 512 {
        lemma_zeroed_children_empty(m, t, lv, i + 1);
    }
}

/// Joining duplicate-free, disjoint sequences keeps them duplicate-free.
pub proof fn lemma_no_dup_join(a: Seq<int>, b: Seq<int>)
    requires
        a.no_duplicates(),
        b.no_duplicates(),
        forall|x: int| a.contains(x) ==> !b.contains(x),
    ensures
        (a + b).no_duplicates(),
{
    assert forall|i: int, j: int|
        0 <= i < (a + b).len() && 0 <= j < (a + b).len() && i != j implies (a + b)[i] != (a
        + b)[j] by {
        if i < a.len() && j < a.len() {
        } else if i < a.len() && j >= a.len() {
            assert(a.contains((a + b)[i]));
            assert(b.contains((a + b)[j]));
        } else if i >= a.len() && j < a.len() {
            assert(b.contains((a + b)[i]));
            assert(a.contains((a + b)[j]));
        }
    }
}

/// A prefix holds only elements of the whole.
pub proof fn lemma_take_contains(s: Seq<int>, n: int)
    requires
        0 <= n <= s.len(),
    ensures
        forall|x: int| #[trigger] s.take(n).contains(x) ==> s.contains(x),
{
    assert forall|x: int| #[trigger] s.take(n).contains(x) implies s.contains(x) by {
        let j = choose|j: int| 0 <= j < n && s.take(n)[j] == x;
        assert(s[j] == x);
    }
}

/// A table at level 0 hangs no children anywhere.
proof fn lemma_children_lv0_empty(m: Kmem, t: int, i: int)
    ensures
        children_seq(m, t, 0, i) == Seq::<int>::empty(),
    decreases 512 - i,
{
    if 0 <= i < 512 {
        lemma_children_lv0_empty(m, t, i + 1);
    }
}

/// The raw entry an upsert writes at its leaf slot is a valid leaf
/// referencing the page of `paddr`.
proof fn lemma_leaf_entry(e0: u64, paddr: u64, flags: u64)
    by (bit_vector)
    requires
        flags & PTE_PPN == 0,
        flags & PTE_RWX != 0,
        paddr < MAX_PHYS_ADDR,
    ensures
        spec_pte_valid((((e0 & !PTE_PPN) | spec_paddr_ppn(paddr)) | flags) | PTE_VALID),
        spec_pte_leaf((((e0 & !PTE_PPN) | spec_paddr_ppn(paddr)) | flags) | PTE_VALID),
        spec_pte_paddr((((e0 & !PTE_PPN) | spec_paddr_ppn(paddr)) | flags) | PTE_VALID) == (
        paddr >> 12) << 12,
{
}

/// The raw entry that links a fresh child table in is a valid pointer
/// referencing exactly that page.
proof fn lemma_pointer_entry(pa: u64)
    by (bit_vector)
    requires
        pa < MAX_PHYS_ADDR,
        pa % 4096 == 0,
    ensures
        spec_pte_valid(spec_paddr_ppn(pa) | PTE_VALID),
        !spec_pte_leaf(spec_paddr_ppn(pa) | PTE_VALID),
        spec_pte_paddr(spec_paddr_ppn(pa) | PTE_VALID) == pa,
{
}

/// Addresses a nonzero whole number of pages apart, both inside the
/// 39-bit space, differ in at least one virtual page number slice.
pub proof fn lemma_pages_distinct(x: u64, d: u64)
    by (bit_vector)
    requires
        0 < d,
        d % 4096 == 0,
        x + d < 0x80_0000_0000u64,
    ensures
        spec_vpn(x, 0) != spec_vpn((x + d) as u64, 0) || spec_vpn(x, 1) != spec_vpn(
            (x + d) as u64,
            1,
        ) || spec_vpn(x, 2) != spec_vpn((x + d) as u64, 2),
{
}

/// What one slot's contribution to the child listing may change into.
/// Comparing two arenas that agree on table `t` except at slot `idx`, and
/// on every other slot's subtree: the listing changes exactly by trading
/// the old slot contribution `oldsub` for the new one `newsub`.
pub proof fn lemma_children_update(m1: Kmem, m2: Kmem, t: int, lv: nat, i: int, idx: int)
    requires
        0 <= i,
        0 <= idx < 512,
        lv > 0,
        same_geometry(m1, m2),
        forall|j: int|
            0 <= j < 512 && j != idx ==> #[trigger] m2.word(t, j) == m1.word(t, j),
        forall|j: int|
            0 <= j < 512 && j != idx && is_pointer(#[trigger] m1.word(t, j)) ==> subtree_seq(
                m2,
                child_of(m1, m1.word(t, j)),
                (lv - 1) as nat,
            ) == subtree_seq(m1, child_of(m1, m1.word(t, j)), (lv - 1) as nat),
    ensures
        ({
            let oldsub = slot_contribution(m1, t, lv, idx);
            let newsub = slot_contribution(m2, t, lv, idx);
            &&& (forall|p: int|
                #[trigger] children_seq(m2, t, lv, i).contains(p) ==> children_seq(
                    m1,
                    t,
                    lv,
                    i,
                ).contains(p) || newsub.contains(p))
            &&& (forall|p: int|
                #[trigger] children_seq(m1, t, lv, i).contains(p) ==> children_seq(
                    m2,
                    t,
                    lv,
                    i,
                ).contains(p) || oldsub.contains(p))
            &&& (i <= idx ==> children_seq(m2, t, lv, i).len() == children_seq(m1, t, lv, i).len()
                - oldsub.len() + newsub.len())
            &&& (i > idx ==> children_seq(m2, t, lv, i) == children_seq(m1, t, lv, i))
            &&& (children_seq(m1, t, lv, i).no_duplicates() && newsub.no_duplicates() && (
            forall|p: int|
                newsub.contains(p) && #[trigger] children_seq(m1, t, lv, i).contains(p)
                    ==> oldsub.contains(p)) ==> children_seq(m2, t, lv, i).no_duplicates())
        }),
    decreases 512 - i,
{
    let oldsub = slot_contribution(m1, t, lv, idx);
    let newsub = slot_contribution(m2, t, lv, idx);
    let ch1 = children_seq(m1, t, lv, i);
    let ch2 = children_seq(m2, t, lv, i);
    if i >= 512 {
        assert(ch1 =~= Seq::<int>::empty());
        assert(ch2 =~= Seq::<int>::empty());
    } else {
        lemma_children_update(m1, m2, t, lv, i + 1, idx);
        let rest1 = children_seq(m1, t, lv, i + 1);
        let rest2 = children_seq(m2, t, lv, i + 1);
        let x1 = slot_contribution(m1, t, lv, i);
        let x2 = slot_contribution(m2, t, lv, i);
        assert(ch1 == x1 + rest1) by {
            if !(is_pointer(m1.word(t, i)) && lv > 0) {
                assert(ch1 =~= Seq::<int>::empty() + rest1);
            }
        }
        assert(ch2 == x2 + rest2) by {
            if !(is_pointer(m2.word(t, i)) && lv > 0) {
                assert(ch2 =~= Seq::<int>::empty() + rest2);
            }
        }
        lemma_concat_contains(x1, rest1);
        lemma_concat_contains(x2, rest2);
        if i != idx {
            assert(x2 == x1);
        }
        if i == idx {
            assert(x1 == oldsub && x2 == newsub);
            assert(rest2 == rest1);
            if ch1.no_duplicates() && newsub.no_duplicates() && (forall|p: int|
                newsub.contains(p) && #[trigger] ch1.contains(p) ==> oldsub.contains(p)) {
                lemma_no_dup_split(x1, rest1);
                assert forall|p: int| newsub.contains(p) implies !rest1.contains(p) by {
                    if rest1.contains(p) {
                        assert(ch1.contains(p));
                        assert(oldsub.contains(p));
                    }
                }
                lemma_no_dup_join(newsub, rest1);
            }
        } else {
            if ch1.no_duplicates() && newsub.no_duplicates() && (forall|p: int|
                newsub.contains(p) && #[trigger] ch1.contains(p) ==> oldsub.contains(p)) {
                lemma_no_dup_split(x1, rest1);
                assert forall|p: int|
                    newsub.contains(p) && #[trigger] rest1.contains(p) implies oldsub.contains(
                    p,
                ) by {
                    assert(ch1.contains(p));
                }
                assert(rest2.no_duplicates());
                assert forall|p: int| x1.contains(p) implies !rest2.contains(p) by {
                    if rest2.contains(p) {
                        if rest1.contains(p) {
                            assert(false);
                        } else {
                            assert(newsub.contains(p));
                            assert(ch1.contains(p));
                            assert(oldsub.contains(p));
                            if is_pointer(m1.word(t, idx)) {
                                lemma_children_cover_child(m1, t, lv, i + 1, idx);
                                assert(rest1.contains(p));
                            } else {
                                assert(oldsub =~= Seq::<int>::empty());
                            }
                        }
                    }
                }
                lemma_no_dup_join(x1, rest2);
            }
        }
    }
}

/// The pages slot `idx` of table `t` contributes to the child listing.
pub open spec fn slot_contribution(m: Kmem, t: int, lv: nat, idx: int) -> Seq<int> {
    if is_pointer(m.word(t, idx)) && lv > 0 {
        subtree_seq(m, child_of(m, m.word(t, idx)), (lv - 1) as nat)
    } else {
        Seq::empty()
    }
}

/// An upsert never needs more fresh tables than the levels it has left.
pub proof fn lemma_tables_needed_bounds(m: Kmem, t: int, va: u64, cur: nat, target: nat)
    ensures
        0 <= tables_needed(m, t, va, cur, target),
        target <= cur ==> tables_needed(m, t, va, cur, target) <= cur - target,
    decreases cur,
{
    if cur > target {
        let e = m.word(t, spec_vpn(va, cur as int) as int);
        if is_pointer(e) {
            lemma_tables_needed_bounds(m, child_of(m, e), va, (cur - 1) as nat, target);
        }
    }
}

/// In a duplicate-free child listing, two different pointer slots hang
/// disjoint subtrees.
pub proof fn lemma_children_disjoint(m: Kmem, t: int, lv: nat, i: int, j1: int, j2: int)
    requires
        children_seq(m, t, lv, i).no_duplicates(),
        0 <= i <= j1,
        j1 < j2 < 512,
        lv > 0,
        is_pointer(m.word(t, j1)),
        is_pointer(m.word(t, j2)),
    ensures
        forall|p: int|
            #[trigger] subtree_seq(m, child_of(m, m.word(t, j1)), (lv - 1) as nat).contains(p)
                ==> !subtree_seq(m, child_of(m, m.word(t, j2)), (lv - 1) as nat).contains(p),
    decreases j1 - i,
{
    let rest = children_seq(m, t, lv, i + 1);
    if i == j1 {
        let sub1 = subtree_seq(m, child_of(m, m.word(t, j1)), (lv - 1) as nat);
        lemma_no_dup_split(sub1, rest);
        lemma_children_cover_child(m, t, lv, i + 1, j2);
        assert forall|p: int| #[trigger] sub1.contains(p) implies !subtree_seq(
            m,
            child_of(m, m.word(t, j2)),
            (lv - 1) as nat,
        ).contains(p) by {
            if subtree_seq(m, child_of(m, m.word(t, j2)), (lv - 1) as nat).contains(p) {
                assert(rest.contains(p));
            }
        }
    } else {
        if is_pointer(m.word(t, i)) {
            lemma_no_dup_split(
                subtree_seq(m, child_of(m, m.word(t, i)), (lv - 1) as nat),
                rest,
            );
        }
        lemma_children_disjoint(m, t, lv, i + 1, j1, j2);
    }
}

/// Everything one upsert step does, walking from table `t` at level
/// `cur` down to leaf level `target`. The public `map` promises exactly
/// this relation between the arenas before and after a successful call.
pub open spec fn map_rec_post(
    m0: Kmem,
    mf: Kmem,
    t: int,
    cur: nat,
    vaddr: u64,
    paddr: u64,
    flags: u64,
    target: nat,
) -> bool {
    let k = tables_needed(m0, t, vaddr, cur, target);
    &&& mf.wf()
    &&& same_geometry(m0, mf)
    &&& table_wf(mf, t, cur)
    &&& subtree_seq(mf, t, cur).no_duplicates()
    &&& tree_allocated(mf, t, cur)
    &&& mf.free_seq() == m0.free_seq().take(m0.free_seq().len() - k)
    &&& mf.alloced() == m0.alloced() + k
    &&& (forall|p: int|
        #[trigger] subtree_seq(mf, t, cur).contains(p) ==> subtree_seq(m0, t, cur).contains(p)
            || m0.is_free(p))
    &&& (target == 0 ==> subtree_seq(mf, t, cur).len() == subtree_seq(m0, t, cur).len() + k)
    &&& (target == 0 ==> forall|p: int|
        #[trigger] subtree_seq(m0, t, cur).contains(p) ==> subtree_seq(mf, t, cur).contains(p))
    &&& (forall|p: int|
        0 <= p < m0.spec_num_pages() && !(#[trigger] subtree_seq(m0, t, cur).contains(p))
            && !m0.is_free(p) ==> page_unchanged(m0, mf, p))
    &&& (forall|va2: u64|
        #[trigger] agree_upto(va2, vaddr, target as int, cur as int) ==> translate_rec(
            mf,
            t,
            va2,
            cur,
        ) == Some(map_result(paddr, va2, target as int)))
    &&& (no_mid_leaves(m0, t, cur) ==> (forall|va2: u64|
        !(#[trigger] agree_upto(va2, vaddr, target as int, cur as int)) ==> translate_rec(
            mf,
            t,
            va2,
            cur,
        ) == translate_rec(m0, t, va2, cur)))
    &&& (no_mid_leaves(m0, t, cur) && target == 0 ==> no_mid_leaves(mf, t, cur))
    &&& (forall|va2: u64|
        #[trigger] agree_above(va2, vaddr, target as int, cur as int) ==> tables_needed(
            mf,
            t,
            va2,
            cur,
            target,
        ) == 0)
    &&& (forall|va2: u64, target2: nat|
        spec_vpn(va2, cur as int) != spec_vpn(vaddr, cur as int) ==> #[trigger] tables_needed(
            mf,
            t,
            va2,
            cur,
            target2,
        ) == tables_needed(m0, t, va2, cur, target2))
}

/// Law of replacement: mapping the same address again overwrites the
/// translation in place. After two upserts of one address at one level,
/// the region resolves to the second target, whatever the first was.
pub proof fn lemma_remap_overwrites(
    m0: Kmem,
    m1: Kmem,
    m2: Kmem,
    t: int,
    vaddr: u64,
    paddr1: u64,
    paddr2: u64,
    flags1: u64,
    flags2: u64,
    level: nat,
)
    requires
        map_rec_post(m0, m1, t, 2, vaddr, paddr1, flags1, level),
        map_rec_post(m1, m2, t, 2, vaddr, paddr2, flags2, level),
        level <= 2,
    ensures
        forall|va2: u64|
            #[trigger] agree_upto(va2, vaddr, level as int, 2) ==> translate_rec(m2, t, va2, 2)
                == Some(map_result(paddr2, va2, level as int)),
{
}

/// Law of isolation: a live table tree survives any operation that
/// leaves checked-out pages' contents and allocation status alone —
/// exactly what building another process or mapping into another tree
/// does. Its structure, its page listing and every translation stand.
pub proof fn lemma_live_tree_preserved(m1: Kmem, m2: Kmem, t: int, lv: nat)
    requires
        same_geometry(m1, m2),
        pt_wf(m1, t, lv),
        forall|p: int|
            0 <= p < m1.spec_num_pages() && !m1.is_free(p) ==> page_unchanged(m1, m2, p)
                && !m2.is_free(p),
    ensures
        pt_wf(m2, t, lv),
        subtree_seq(m2, t, lv) == subtree_seq(m1, t, lv),
        forall|va: u64|
            #[trigger] translate_rec(m2, t, va, lv) == translate_rec(m1, t, va, lv),
{
    lemma_subtree_in_range(m1, t, lv);
    assert forall|p: int|
        #[trigger] subtree_seq(m1, t, lv).contains(p) implies page_unchanged(m1, m2, p) by {
        assert(!m1.is_free(p));
    }
    lemma_tree_frame(m1, m2, t, lv);
    assert(tree_allocated(m2, t, lv)) by {
        assert forall|p: int| #[trigger] subtree_seq(m2, t, lv).contains(p) implies !m2.is_free(
            p,
        ) by {
            assert(subtree_seq(m1, t, lv).contains(p));
            assert(!m1.is_free(p));
        }
    }
}

/// Writing the leaf entry finishes an upsert: the slot now maps the
/// region, every other translation and the tree's page listing stand.
#[verifier::rlimit(50)]
#[verifier::spinoff_prover]
proof fn lemma_map_leaf(m0: Kmem, mf: Kmem, t: int, cur: nat, vaddr: u64, paddr: u64, flags: u64)
    requires
        m0.wf(),
        mf.wf(),
        cur <= 2,
        0 <= t < m0.spec_num_pages(),
        pt_wf(m0, t, cur),
        flags & PTE_PBMT == 0,
        flags & PTE_RESERVED == 0,
        flags & PTE_PPN == 0,
        flags & PTE_RWX != 0,
        paddr < MAX_PHYS_ADDR,
        same_geometry(m0, mf),
        mf.free_seq() == m0.free_seq(),
        mf.alloced() == m0.alloced(),
        mf.word(t, spec_vpn(vaddr, cur as int) as int) == (((m0.word(
            t,
            spec_vpn(vaddr, cur as int) as int,
        ) & !PTE_PPN) | spec_paddr_ppn(paddr)) | flags) | PTE_VALID,
        forall|p: int, j: int|
            0 <= p < m0.spec_num_pages() && 0 <= j < 512 && (p != t || j != spec_vpn(
                vaddr,
                cur as int,
            ) as int) ==> #[trigger] mf.word(p, j) == m0.word(p, j),
    ensures
        map_rec_post(m0, mf, t, cur, vaddr, paddr, flags, cur),
{
    lemma_vpn_bounds(vaddr);
    let idx = spec_vpn(vaddr, cur as int) as int;
    let ne = mf.word(t, idx);
    lemma_leaf_entry(m0.word(t, idx), paddr, flags);
    assert(spec_pte_valid(ne) && spec_pte_leaf(ne) && spec_pte_paddr(ne) == (paddr >> 12)
        << 12);
    assert(tables_needed(m0, t, vaddr, cur, cur) == 0);
    assert(mf.free_seq() =~= m0.free_seq().take(m0.free_seq().len() as int));
    assert forall|p: int| 0 <= p < m0.spec_num_pages() && p != t implies page_unchanged(
        m0,
        mf,
        p,
    ) by {}
    assert forall|p: int|
        0 <= p < m0.spec_num_pages() && !(#[trigger] subtree_seq(m0, t, cur).contains(p))
            && !m0.is_free(p) implies page_unchanged(m0, mf, p) by {
        lemma_subtree_contains_root(m0, t, cur);
        assert(p != t);
    }
    // every pointer slot's subtree is untouched by the one-word write
    assert forall|j: int| 0 <= j < 512 && is_pointer(#[trigger] m0.word(t, j)) implies {
        &&& table_wf(mf, child_of(m0, m0.word(t, j)), (cur - 1) as nat)
        &&& subtree_seq(mf, child_of(m0, m0.word(t, j)), (cur - 1) as nat) == subtree_seq(
            m0,
            child_of(m0, m0.word(t, j)),
            (cur - 1) as nat,
        )
        &&& (no_mid_leaves(m0, child_of(m0, m0.word(t, j)), (cur - 1) as nat)
            ==> no_mid_leaves(mf, child_of(m0, m0.word(t, j)), (cur - 1) as nat))
        &&& (forall|va2: u64|
            #[trigger] translate_rec(mf, child_of(m0, m0.word(t, j)), va2, (cur - 1) as nat)
                == translate_rec(m0, child_of(m0, m0.word(t, j)), va2, (cur - 1) as nat))
        &&& (forall|va2: u64, target2: nat|
            #[trigger] tables_needed(
                mf,
                child_of(m0, m0.word(t, j)),
                va2,
                (cur - 1) as nat,
                target2,
            ) == tables_needed(m0, child_of(m0, m0.word(t, j)), va2, (cur - 1) as nat, target2))
    } by {
        lemma_child_bundle(m0, t, cur, j);
        let c = child_of(m0, m0.word(t, j));
        assert forall|p: int|
            #[trigger] subtree_seq(m0, c, (cur - 1) as nat).contains(p) implies page_unchanged(
            m0,
            mf,
            p,
        ) by {
            assert(subtree_seq(m0, t, cur).contains(p));
            assert(0 <= p < m0.spec_num_pages()) by {
                lemma_subtree_in_range(m0, t, cur);
            }
        }
        lemma_tree_frame(m0, mf, c, (cur - 1) as nat);
    }
    assert forall|j: int|
        0 <= j < 512 && j != idx implies #[trigger] mf.word(t, j) == m0.word(t, j) by {}
    assert(table_wf(mf, t, cur));
    assert forall|va2: u64, target2: nat|
        spec_vpn(va2, cur as int) != spec_vpn(vaddr, cur as int) implies #[trigger] tables_needed(
        mf,
        t,
        va2,
        cur,
        target2,
    ) == tables_needed(m0, t, va2, cur, target2) by {
        lemma_vpn_bounds(va2);
        let vi = spec_vpn(va2, cur as int) as int;
        let e = m0.word(t, vi);
        assert(mf.word(t, vi) == e);
        if cur > target2 && is_pointer(e) {
            assert(child_of(mf, e) == child_of(m0, e));
            assert(tables_needed(mf, t, va2, cur, target2) == tables_needed(
                mf,
                child_of(m0, e),
                va2,
                (cur - 1) as nat,
                target2,
            ));
            assert(tables_needed(m0, t, va2, cur, target2) == tables_needed(
                m0,
                child_of(m0, e),
                va2,
                (cur - 1) as nat,
                target2,
            ));
        }
    }
    let ch1 = children_seq(m0, t, cur, 0);
    let ch2 = children_seq(mf, t, cur, 0);
    lemma_no_dup_split(ch1, seq![t]);
    lemma_concat_contains(ch1, seq![t]);
    lemma_concat_contains(ch2, seq![t]);
    assert(!spec_pte_valid(0) && !spec_pte_leaf(0)) by (bit_vector);
    if cur == 0 {
        lemma_children_lv0_empty(m0, t, 0);
        lemma_children_lv0_empty(mf, t, 0);
        assert(subtree_seq(mf, t, cur) =~= subtree_seq(m0, t, cur));
    } else {
        assert(slot_contribution(mf, t, cur, idx) == Seq::<int>::empty());
        lemma_children_update(m0, mf, t, cur, 0, idx);
        assert(ch2.no_duplicates());
        assert(!ch2.contains(t)) by {
            if ch2.contains(t) {
                assert(ch1.contains(t) || slot_contribution(mf, t, cur, idx).contains(t));
                assert(seq![t][0] == t);
                assert(seq![t].contains(t));
                assert(!ch1.contains(t));
                assert(!Seq::<int>::empty().contains(t));
            }
        }
        lemma_no_dup_join(ch2, seq![t]);
        assert(seq![t].no_duplicates());
    }
    assert(subtree_seq(mf, t, cur).no_duplicates());
    assert forall|p: int| #[trigger] subtree_seq(mf, t, cur).contains(p) implies subtree_seq(
        m0,
        t,
        cur,
    ).contains(p) || m0.is_free(p) by {
        if ch2.contains(p) {
            if cur > 0 {
                assert(ch1.contains(p) || slot_contribution(mf, t, cur, idx).contains(p));
            }
        } else {
            assert(seq![t][0] == t);
            assert(p == t);
            lemma_subtree_contains_root(m0, t, cur);
        }
    }
    assert(tree_allocated(mf, t, cur)) by {
        assert forall|p: int| #[trigger] subtree_seq(mf, t, cur).contains(p) implies !mf.is_free(
            p,
        ) by {
            assert(subtree_seq(m0, t, cur).contains(p) || m0.is_free(p));
            if subtree_seq(m0, t, cur).contains(p) {
            } else {
                assert(false) by {
                    if ch2.contains(p) {
                        if cur > 0 {
                            assert(ch1.contains(p) || slot_contribution(
                                mf,
                                t,
                                cur,
                                idx,
                            ).contains(p));
                            assert(subtree_seq(m0, t, cur).contains(p));
                        }
                    } else {
                        assert(seq![t][0] == t);
                        lemma_subtree_contains_root(m0, t, cur);
                    }
                }
            }
        }
    }
    if cur == 0 {
        assert(subtree_seq(mf, t, cur).len() == subtree_seq(m0, t, cur).len());
        assert forall|p: int| #[trigger] subtree_seq(m0, t, cur).contains(p) implies subtree_seq(
            mf,
            t,
            cur,
        ).contains(p) by {}
    }
    // the freshly mapped region
    assert forall|va2: u64| #[trigger] agree_upto(va2, vaddr, cur as int, cur as int) implies
        translate_rec(mf, t, va2, cur) == Some(map_result(paddr, va2, cur as int)) by {
        assert(spec_vpn(va2, cur as int) == spec_vpn(vaddr, cur as int));
        assert(translate_rec(mf, t, va2, cur) == Some(
            spec_pte_paddr(ne) | (va2 & level_mask(cur as int)),
        ));
    }
    // translations off the written slot
    if no_mid_leaves(m0, t, cur) {
        assert forall|va2: u64|
            !(#[trigger] agree_upto(va2, vaddr, cur as int, cur as int)) implies translate_rec(
            mf,
            t,
            va2,
            cur,
        ) == translate_rec(m0, t, va2, cur) by {
            lemma_vpn_bounds(va2);
            assert(spec_vpn(va2, cur as int) != spec_vpn(vaddr, cur as int)) by {
                if spec_vpn(va2, cur as int) == spec_vpn(vaddr, cur as int) {
                    assert forall|l: int|
                        cur as int <= l <= cur as int implies #[trigger] spec_vpn(va2, l)
                        == spec_vpn(vaddr, l) by {}
                }
            }
            let vi = spec_vpn(va2, cur as int) as int;
            let e = m0.word(t, vi);
            assert(mf.word(t, vi) == e);
            if spec_pte_valid(e) && !spec_pte_leaf(e) && cur > 0 {
                assert(translate_rec(mf, t, va2, cur) == translate_rec(
                    mf,
                    child_of(m0, e),
                    va2,
                    (cur - 1) as nat,
                ));
            }
        }
    }
    if cur == 0 {
        assert(no_mid_leaves(mf, t, cur));
    }
    assert forall|va2: u64|
        #[trigger] agree_above(va2, vaddr, cur as int, cur as int) implies tables_needed(
        mf,
        t,
        va2,
        cur,
        cur,
    ) == 0 by {}
}

/// Stepping through an existing pointer entry: the child's upsert result
/// lifts to the parent table.
proof fn lemma_map_via_pointer(
    m0: Kmem,
    mf: Kmem,
    t: int,
    cur: nat,
    vaddr: u64,
    paddr: u64,
    flags: u64,
    target: nat,
)
    requires
        m0.wf(),
        target < cur <= 2,
        0 <= t < m0.spec_num_pages(),
        pt_wf(m0, t, cur),
        is_pointer(m0.word(t, spec_vpn(vaddr, cur as int) as int)),
        tables_needed(m0, t, vaddr, cur, target) <= m0.free_seq().len(),
        map_rec_post(
            m0,
            mf,
            child_of(m0, m0.word(t, spec_vpn(vaddr, cur as int) as int)),
            (cur - 1) as nat,
            vaddr,
            paddr,
            flags,
            target,
        ),
    ensures
        map_rec_post(m0, mf, t, cur, vaddr, paddr, flags, target),
{
    lemma_vpn_bounds(vaddr);
    let idx = spec_vpn(vaddr, cur as int) as int;
    let c = child_of(m0, m0.word(t, idx));
    let k = tables_needed(m0, c, vaddr, (cur - 1) as nat, target);
    assert(tables_needed(m0, t, vaddr, cur, target) == k);
    lemma_tables_needed_bounds(m0, c, vaddr, (cur - 1) as nat, target);
    lemma_child_bundle(m0, t, cur, idx);
    lemma_subtree_in_range(m0, t, cur);
    let oldsub = subtree_seq(m0, c, (cur - 1) as nat);
    let newsub = subtree_seq(mf, c, (cur - 1) as nat);
    let ch1 = children_seq(m0, t, cur, 0);
    let ch2 = children_seq(mf, t, cur, 0);
    lemma_no_dup_split(ch1, seq![t]);
    lemma_concat_contains(ch1, seq![t]);
    lemma_concat_contains(ch2, seq![t]);
    lemma_subtree_contains_root(m0, t, cur);
    lemma_take_contains(m0.free_seq(), m0.free_seq().len() - k);
    // the parent page is untouched by the child's upsert
    assert(page_unchanged(m0, mf, t));
    assert forall|j: int| 0 <= j < 512 implies #[trigger] mf.word(t, j) == m0.word(t, j) by {}
    // sibling subtrees are untouched
    assert forall|j: int|
        0 <= j < 512 && j != idx && is_pointer(#[trigger] m0.word(t, j)) implies {
        &&& table_wf(mf, child_of(m0, m0.word(t, j)), (cur - 1) as nat)
        &&& subtree_seq(mf, child_of(m0, m0.word(t, j)), (cur - 1) as nat) == subtree_seq(
            m0,
            child_of(m0, m0.word(t, j)),
            (cur - 1) as nat,
        )
        &&& (no_mid_leaves(m0, child_of(m0, m0.word(t, j)), (cur - 1) as nat)
            ==> no_mid_leaves(mf, child_of(m0, m0.word(t, j)), (cur - 1) as nat))
        &&& (forall|va2: u64|
            #[trigger] translate_rec(mf, child_of(m0, m0.word(t, j)), va2, (cur - 1) as nat)
                == translate_rec(m0, child_of(m0, m0.word(t, j)), va2, (cur - 1) as nat))
        &&& (forall|va2: u64, target2: nat|
            #[trigger] tables_needed(
                mf,
                child_of(m0, m0.word(t, j)),
                va2,
                (cur - 1) as nat,
                target2,
            ) == tables_needed(m0, child_of(m0, m0.word(t, j)), va2, (cur - 1) as nat, target2))
    } by {
        lemma_child_bundle(m0, t, cur, j);
        let cj = child_of(m0, m0.word(t, j));
        assert forall|p: int|
            #[trigger] subtree_seq(m0, cj, (cur - 1) as nat).contains(p) implies page_unchanged(
            m0,
            mf,
            p,
        ) by {
            if j < idx {
                lemma_children_disjoint(m0, t, cur, 0, j, idx);
            } else {
                lemma_children_disjoint(m0, t, cur, 0, idx, j);
                assert(subtree_seq(m0, c, (cur - 1) as nat).contains(p) ==> !subtree_seq(
                    m0,
                    cj,
                    (cur - 1) as nat,
                ).contains(p));
            }
            assert(!oldsub.contains(p));
            assert(subtree_seq(m0, t, cur).contains(p));
            assert(!m0.is_free(p));
        }
        lemma_tree_frame(m0, mf, cj, (cur - 1) as nat);
    }
    assert(table_wf(mf, t, cur));
    assert forall|va2: u64, target2: nat|
        spec_vpn(va2, cur as int) != spec_vpn(vaddr, cur as int) implies #[trigger] tables_needed(
        mf,
        t,
        va2,
        cur,
        target2,
    ) == tables_needed(m0, t, va2, cur, target2) by {
        lemma_vpn_bounds(va2);
        let vi = spec_vpn(va2, cur as int) as int;
        let e = m0.word(t, vi);
        assert(mf.word(t, vi) == e);
        if cur > target2 && is_pointer(e) {
            assert(child_of(mf, e) == child_of(m0, e));
            assert(tables_needed(mf, t, va2, cur, target2) == tables_needed(
                mf,
                child_of(m0, e),
                va2,
                (cur - 1) as nat,
                target2,
            ));
            assert(tables_needed(m0, t, va2, cur, target2) == tables_needed(
                m0,
                child_of(m0, e),
                va2,
                (cur - 1) as nat,
                target2,
            ));
        }
    }
    lemma_children_update(m0, mf, t, cur, 0, idx);
    assert(slot_contribution(m0, t, cur, idx) == oldsub);
    assert(slot_contribution(mf, t, cur, idx) == newsub) by {
        assert(mf.word(t, idx) == m0.word(t, idx));
        assert(child_of(mf, mf.word(t, idx)) == c);
    }
    // duplicate freedom
    assert(ch2.no_duplicates()) by {
        assert forall|p: int|
            newsub.contains(p) && #[trigger] ch1.contains(p) implies oldsub.contains(p) by {
            assert(subtree_seq(m0, t, cur).contains(p));
            assert(!m0.is_free(p));
            assert(oldsub.contains(p) || m0.is_free(p));
        }
    }
    assert(!ch2.contains(t)) by {
        if ch2.contains(t) {
            assert(ch1.contains(t) || newsub.contains(t));
            assert(seq![t][0] == t);
            assert(seq![t].contains(t));
            assert(!ch1.contains(t));
            assert(!newsub.contains(t)) by {
                if newsub.contains(t) {
                    assert(oldsub.contains(t) || m0.is_free(t));
                    assert(!m0.is_free(t));
                }
            }
        }
    }
    lemma_no_dup_join(ch2, seq![t]);
    assert(subtree_seq(mf, t, cur).no_duplicates());
    // growth and membership
    assert forall|p: int| #[trigger] subtree_seq(mf, t, cur).contains(p) implies subtree_seq(
        m0,
        t,
        cur,
    ).contains(p) || m0.is_free(p) by {
        if ch2.contains(p) {
            assert(ch1.contains(p) || newsub.contains(p));
            if newsub.contains(p) && !ch1.contains(p) {
                assert(oldsub.contains(p) || m0.is_free(p));
            }
        } else {
            assert(seq![t][0] == t);
            assert(p == t);
        }
    }
    if target == 0 {
        assert(subtree_seq(mf, t, cur).len() == subtree_seq(m0, t, cur).len() + k);
        assert forall|p: int| #[trigger] subtree_seq(m0, t, cur).contains(p) implies subtree_seq(
            mf,
            t,
            cur,
        ).contains(p) by {
            if ch1.contains(p) {
                assert(ch2.contains(p) || oldsub.contains(p));
                if oldsub.contains(p) {
                    assert(newsub.contains(p));
                    lemma_children_cover_child(mf, t, cur, 0, idx);
                    assert(child_of(mf, mf.word(t, idx)) == c);
                    assert(ch2.contains(p));
                }
            } else {
                assert(seq![t][0] == t);
                assert(p == t);
                lemma_subtree_contains_root(mf, t, cur);
            }
        }
    }
    // the tree stays checked out
    assert(tree_allocated(mf, t, cur)) by {
        assert forall|p: int| #[trigger] subtree_seq(mf, t, cur).contains(p) implies !mf.is_free(
            p,
        ) by {
            if ch2.contains(p) {
                assert(ch1.contains(p) || newsub.contains(p));
                if newsub.contains(p) {
                } else {
                    assert(subtree_seq(m0, t, cur).contains(p));
                    assert(!m0.is_free(p));
                    if mf.is_free(p) {
                        assert(m0.is_free(p));
                    }
                }
            } else {
                assert(seq![t][0] == t);
                assert(p == t);
                assert(!m0.is_free(t));
                if mf.is_free(t) {
                    assert(m0.is_free(t));
                }
            }
        }
    }
    // pages outside the tree keep their contents
    assert forall|p: int|
        0 <= p < m0.spec_num_pages() && !(#[trigger] subtree_seq(m0, t, cur).contains(p))
            && !m0.is_free(p) implies page_unchanged(m0, mf, p) by {
        assert(!oldsub.contains(p));
    }
    // the mapped region
    assert forall|va2: u64|
        #[trigger] agree_upto(va2, vaddr, target as int, cur as int) implies translate_rec(
        mf,
        t,
        va2,
        cur,
    ) == Some(map_result(paddr, va2, target as int)) by {
        assert(spec_vpn(va2, cur as int) == spec_vpn(vaddr, cur as int));
        assert(agree_upto(va2, vaddr, target as int, cur as int - 1)) by {
            assert forall|l: int|
                target as int <= l <= cur as int - 1 implies #[trigger] spec_vpn(va2, l)
                == spec_vpn(vaddr, l) by {}
        }
        assert(mf.word(t, idx) == m0.word(t, idx));
        assert(child_of(mf, mf.word(t, idx)) == c);
        assert(translate_rec(mf, t, va2, cur) == translate_rec(mf, c, va2, (cur - 1) as nat));
    }
    // everything else stands
    if no_mid_leaves(m0, t, cur) {
        assert(no_mid_leaves(m0, c, (cur - 1) as nat));
        assert forall|va2: u64|
            !(#[trigger] agree_upto(va2, vaddr, target as int, cur as int)) implies translate_rec(
            mf,
            t,
            va2,
            cur,
        ) == translate_rec(m0, t, va2, cur) by {
            lemma_vpn_bounds(va2);
            let vi = spec_vpn(va2, cur as int) as int;
            let e = m0.word(t, vi);
            assert(mf.word(t, vi) == e);
            if vi == idx {
                assert(!agree_upto(va2, vaddr, target as int, cur as int - 1)) by {
                    if agree_upto(va2, vaddr, target as int, cur as int - 1) {
                        assert forall|l: int|
                            target as int <= l <= cur as int implies #[trigger] spec_vpn(va2, l)
                            == spec_vpn(vaddr, l) by {
                            if l <= cur as int - 1 {
                                assert(spec_vpn(va2, l) == spec_vpn(vaddr, l));
                            }
                        }
                    }
                }
                assert(translate_rec(mf, t, va2, cur) == translate_rec(
                    mf,
                    c,
                    va2,
                    (cur - 1) as nat,
                ));
                assert(translate_rec(m0, t, va2, cur) == translate_rec(
                    m0,
                    c,
                    va2,
                    (cur - 1) as nat,
                ));
            } else {
                if spec_pte_valid(e) {
                    assert(!spec_pte_leaf(e));
                    assert(translate_rec(mf, t, va2, cur) == translate_rec(
                        mf,
                        child_of(m0, e),
                        va2,
                        (cur - 1) as nat,
                    ));
                    assert(translate_rec(m0, t, va2, cur) == translate_rec(
                        m0,
                        child_of(m0, e),
                        va2,
                        (cur - 1) as nat,
                    ));
                }
            }
        }
        if target == 0 {
            assert(no_mid_leaves(mf, t, cur)) by {
                assert forall|i: int|
                    0 <= i < 512 && spec_pte_valid(#[trigger] mf.word(t, i)) implies {
                    &&& !spec_pte_leaf(mf.word(t, i))
                    &&& no_mid_leaves(mf, child_of(mf, mf.word(t, i)), (cur - 1) as nat)
                } by {
                    assert(mf.word(t, i) == m0.word(t, i));
                    if i == idx {
                        assert(child_of(mf, mf.word(t, i)) == c);
                    } else {
                        assert(no_mid_leaves(m0, child_of(m0, m0.word(t, i)), (cur - 1) as nat));
                    }
                }
            }
        }
    }
    assert forall|va2: u64|
        #[trigger] agree_above(va2, vaddr, target as int, cur as int) implies tables_needed(
        mf,
        t,
        va2,
        cur,
        target,
    ) == 0 by {
        assert(spec_vpn(va2, cur as int) == spec_vpn(vaddr, cur as int));
        assert(mf.word(t, idx) == m0.word(t, idx));
        assert(child_of(mf, mf.word(t, idx)) == c);
        assert(agree_above(va2, vaddr, target as int, cur as int - 1)) by {
            assert forall|l: int|
                (target as int) < l && l <= cur as int - 1 implies #[trigger] spec_vpn(va2, l)
                == spec_vpn(vaddr, l) by {}
        }
        assert(tables_needed(mf, t, va2, cur, target) == tables_needed(
            mf,
            c,
            va2,
            (cur - 1) as nat,
            target,
        ));
    }
}

/// Linking a freshly zeroed table into an empty or leaf slot and then
/// finishing the upsert inside it: the result lifts to the parent table.
proof fn lemma_map_via_fresh(
    m0: Kmem,
    m2: Kmem,
    mf: Kmem,
    t: int,
    cur: nat,
    vaddr: u64,
    paddr: u64,
    flags: u64,
    target: nat,
    c: int,
)
    requires
        m0.wf(),
        m2.wf(),
        target < cur <= 2,
        0 <= t < m0.spec_num_pages(),
        pt_wf(m0, t, cur),
        !is_pointer(m0.word(t, spec_vpn(vaddr, cur as int) as int)),
        m0.free_seq().len() >= cur - target,
        c == m0.free_seq().last(),
        same_geometry(m0, m2),
        m2.free_seq() == m0.free_seq().drop_last(),
        m2.alloced() == m0.alloced() + 1,
        forall|j: int| 0 <= j < 512 ==> #[trigger] m2.word(c, j) == 0,
        m2.word(t, spec_vpn(vaddr, cur as int) as int) == spec_paddr_ppn(m0.page_addr(c))
            | PTE_VALID,
        forall|p: int, j: int|
            0 <= p < m0.spec_num_pages() && 0 <= j < 512 && p != c && (p != t || j != spec_vpn(
                vaddr,
                cur as int,
            ) as int) ==> #[trigger] m2.word(p, j) == m0.word(p, j),
        map_rec_post(m2, mf, c, (cur - 1) as nat, vaddr, paddr, flags, target),
    ensures
        map_rec_post(m0, mf, t, cur, vaddr, paddr, flags, target),
{
    lemma_vpn_bounds(vaddr);
    let idx = spec_vpn(vaddr, cur as int) as int;
    let k = cur - target;
    assert(tables_needed(m0, t, vaddr, cur, target) == k);
    assert(0 <= c < m0.spec_num_pages());
    assert(m0.is_free(c)) by {
        assert(m0.free_seq()[m0.free_seq().len() - 1] == c);
    }
    lemma_page_addr_props(m0, c);
    let pa = m0.page_addr(c);
    lemma_pointer_entry(pa);
    assert(is_pointer(m2.word(t, idx)));
    assert(child_of(m2, m2.word(t, idx)) == c);
    lemma_zeroed_table(m2, c, (cur - 1) as nat);
    let k2 = tables_needed(m2, c, vaddr, (cur - 1) as nat, target);
    assert(k2 == cur - 1 - target);
    lemma_subtree_contains_root(m0, t, cur);
    lemma_subtree_in_range(m0, t, cur);
    assert(!m0.is_free(t));
    assert(t != c);
    // page t after the recursion: untouched, since t is neither the fresh
    // child nor free in the middle state
    assert(!m2.is_free(t)) by {
        if m2.free_seq().contains(t) {
            let j = choose|j: int| 0 <= j < m2.free_seq().len() && m2.free_seq()[j] == t;
            assert(m0.free_seq()[j] == t);
        }
    }
    assert(!subtree_seq(m2, c, (cur - 1) as nat).contains(t)) by {
        assert(seq![c][0] == c);
    }
    assert(page_unchanged(m2, mf, t));
    assert forall|j: int|
        0 <= j < 512 && j != idx implies #[trigger] mf.word(t, j) == m0.word(t, j) by {
        assert(m2.word(t, j) == m0.word(t, j));
    }
    assert(mf.word(t, idx) == m2.word(t, idx));
    // sibling subtrees are untouched through both steps
    assert forall|j: int|
        0 <= j < 512 && j != idx && is_pointer(#[trigger] m0.word(t, j)) implies {
        &&& mf.word(t, j) == m0.word(t, j)
        &&& table_wf(mf, child_of(m0, m0.word(t, j)), (cur - 1) as nat)
        &&& subtree_seq(mf, child_of(m0, m0.word(t, j)), (cur - 1) as nat) == subtree_seq(
            m0,
            child_of(m0, m0.word(t, j)),
            (cur - 1) as nat,
        )
        &&& (no_mid_leaves(m0, child_of(m0, m0.word(t, j)), (cur - 1) as nat)
            ==> no_mid_leaves(mf, child_of(m0, m0.word(t, j)), (cur - 1) as nat))
        &&& (forall|va2: u64|
            #[trigger] translate_rec(mf, child_of(m0, m0.word(t, j)), va2, (cur - 1) as nat)
                == translate_rec(m0, child_of(m0, m0.word(t, j)), va2, (cur - 1) as nat))
        &&& (forall|va2: u64, target2: nat|
            #[trigger] tables_needed(
                mf,
                child_of(m0, m0.word(t, j)),
                va2,
                (cur - 1) as nat,
                target2,
            ) == tables_needed(m0, child_of(m0, m0.word(t, j)), va2, (cur - 1) as nat, target2))
    } by {
        lemma_child_bundle(m0, t, cur, j);
        let cj = child_of(m0, m0.word(t, j));
        assert forall|p: int|
            #[trigger] subtree_seq(m0, cj, (cur - 1) as nat).contains(p) implies page_unchanged(
            m0,
            mf,
            p,
        ) by {
            assert(subtree_seq(m0, t, cur).contains(p));
            assert(!m0.is_free(p));
            assert(p != c);
            assert(page_unchanged(m0, m2, p)) by {
                assert forall|x: int|
                    0 <= x < 512 implies #[trigger] m2.word(p, x) == m0.word(p, x) by {
                    if p == t {
                        assert(!subtree_seq(m0, cj, (cur - 1) as nat).contains(t));
                    }
                }
            }
            assert(page_unchanged(m2, mf, p)) by {
                assert(!m2.is_free(p)) by {
                    if m2.free_seq().contains(p) {
                        let q = choose|q: int|
                            0 <= q < m2.free_seq().len() && m2.free_seq()[q] == p;
                        assert(m0.free_seq()[q] == p);
                    }
                }
                assert(!subtree_seq(m2, c, (cur - 1) as nat).contains(p)) by {
                    assert(seq![c][0] == c);
                }
            }
        }
        lemma_tree_frame(m0, mf, cj, (cur - 1) as nat);
    }
    assert(table_wf(mf, t, cur)) by {
        assert(table_wf(mf, c, (cur - 1) as nat));
        assert(pa_in_heap(mf, spec_pte_paddr(mf.word(t, idx))));
        assert(child_of(mf, mf.word(t, idx)) == c);
    }
    assert forall|va2: u64, target2: nat|
        spec_vpn(va2, cur as int) != spec_vpn(vaddr, cur as int) implies #[trigger] tables_needed(
        mf,
        t,
        va2,
        cur,
        target2,
    ) == tables_needed(m0, t, va2, cur, target2) by {
        lemma_vpn_bounds(va2);
        let vi = spec_vpn(va2, cur as int) as int;
        let e = m0.word(t, vi);
        assert(mf.word(t, vi) == e);
        if cur > target2 && is_pointer(e) {
            assert(child_of(mf, e) == child_of(m0, e));
            assert(tables_needed(mf, t, va2, cur, target2) == tables_needed(
                mf,
                child_of(m0, e),
                va2,
                (cur - 1) as nat,
                target2,
            ));
            assert(tables_needed(m0, t, va2, cur, target2) == tables_needed(
                m0,
                child_of(m0, e),
                va2,
                (cur - 1) as nat,
                target2,
            ));
        }
    }
    // listings
    let oldsub = slot_contribution(m0, t, cur, idx);
    assert(oldsub == Seq::<int>::empty());
    let newsub = subtree_seq(mf, c, (cur - 1) as nat);
    assert(slot_contribution(mf, t, cur, idx) == newsub) by {
        assert(child_of(mf, mf.word(t, idx)) == c);
    }
    let ch1 = children_seq(m0, t, cur, 0);
    let ch2 = children_seq(mf, t, cur, 0);
    lemma_no_dup_split(ch1, seq![t]);
    lemma_concat_contains(ch1, seq![t]);
    lemma_concat_contains(ch2, seq![t]);
    lemma_children_update(m0, mf, t, cur, 0, idx);
    // new pages come out of the free list
    assert forall|p: int| newsub.contains(p) implies subtree_seq(m2, c, (cur - 1) as nat).contains(
        p,
    ) || m2.is_free(p) by {}
    assert forall|p: int| newsub.contains(p) implies m0.is_free(p) by {
        if subtree_seq(m2, c, (cur - 1) as nat).contains(p) {
            assert(seq![c][0] == c);
            assert(p == c);
        } else {
            assert(m2.is_free(p));
            let q = choose|q: int| 0 <= q < m2.free_seq().len() && m2.free_seq()[q] == p;
            assert(m0.free_seq()[q] == p);
        }
    }
    // duplicate freedom
    assert(ch2.no_duplicates()) by {
        assert forall|p: int|
            newsub.contains(p) && #[trigger] ch1.contains(p) implies oldsub.contains(p) by {
            assert(m0.is_free(p));
            assert(subtree_seq(m0, t, cur).contains(p));
            assert(!m0.is_free(p));
        }
    }
    assert(!ch2.contains(t)) by {
        if ch2.contains(t) {
            assert(ch1.contains(t) || newsub.contains(t));
            assert(seq![t][0] == t);
            assert(seq![t].contains(t));
            assert(!ch1.contains(t));
            assert(!newsub.contains(t)) by {
                if newsub.contains(t) {
                    assert(m0.is_free(t));
                }
            }
        }
    }
    lemma_no_dup_join(ch2, seq![t]);
    assert(subtree_seq(mf, t, cur).no_duplicates());
    // free list and counter
    lemma_tables_needed_bounds(m2, c, vaddr, (cur - 1) as nat, target);
    assert(mf.free_seq() == m2.free_seq().take(m2.free_seq().len() - k2));
    assert(mf.free_seq() =~= m0.free_seq().take(m0.free_seq().len() - k));
    assert(mf.alloced() == m0.alloced() + k);
    lemma_take_contains(m0.free_seq(), m0.free_seq().len() - k);
    // growth and membership
    assert forall|p: int| #[trigger] subtree_seq(mf, t, cur).contains(p) implies subtree_seq(
        m0,
        t,
        cur,
    ).contains(p) || m0.is_free(p) by {
        if ch2.contains(p) {
            assert(ch1.contains(p) || newsub.contains(p));
        } else {
            assert(seq![t][0] == t);
            assert(p == t);
        }
    }
    if target == 0 {
        assert(newsub.len() == 1 + k2);
        assert(subtree_seq(mf, t, cur).len() == subtree_seq(m0, t, cur).len() + k);
        assert forall|p: int| #[trigger] subtree_seq(m0, t, cur).contains(p) implies subtree_seq(
            mf,
            t,
            cur,
        ).contains(p) by {
            if ch1.contains(p) {
                assert(ch2.contains(p) || oldsub.contains(p));
            } else {
                assert(seq![t][0] == t);
                assert(p == t);
                lemma_subtree_contains_root(mf, t, cur);
            }
        }
    }
    // the tree stays checked out
    assert(tree_allocated(mf, t, cur)) by {
        assert forall|p: int| #[trigger] subtree_seq(mf, t, cur).contains(p) implies !mf.is_free(
            p,
        ) by {
            if ch2.contains(p) {
                assert(ch1.contains(p) || newsub.contains(p));
                if newsub.contains(p) {
                } else {
                    assert(subtree_seq(m0, t, cur).contains(p));
                    assert(!m0.is_free(p));
                    if mf.is_free(p) {
                        assert(m0.is_free(p));
                    }
                }
            } else {
                assert(seq![t][0] == t);
                assert(p == t);
                if mf.is_free(t) {
                    assert(m0.is_free(t));
                }
            }
        }
    }
    // pages outside the tree keep their contents
    assert forall|p: int|
        0 <= p < m0.spec_num_pages() && !(#[trigger] subtree_seq(m0, t, cur).contains(p))
            && !m0.is_free(p) implies page_unchanged(m0, mf, p) by {
        assert(p != c && p != t);
        assert(page_unchanged(m0, m2, p)) by {
            assert forall|x: int|
                0 <= x < 512 implies #[trigger] m2.word(p, x) == m0.word(p, x) by {}
        }
        assert(page_unchanged(m2, mf, p)) by {
            assert(!m2.is_free(p)) by {
                if m2.free_seq().contains(p) {
                    let q = choose|q: int| 0 <= q < m2.free_seq().len() && m2.free_seq()[q] == p;
                    assert(m0.free_seq()[q] == p);
                }
            }
            assert(!subtree_seq(m2, c, (cur - 1) as nat).contains(p)) by {
                assert(seq![c][0] == c);
            }
        }
    }
    // the mapped region
    assert forall|va2: u64|
        #[trigger] agree_upto(va2, vaddr, target as int, cur as int) implies translate_rec(
        mf,
        t,
        va2,
        cur,
    ) == Some(map_result(paddr, va2, target as int)) by {
        assert(spec_vpn(va2, cur as int) == spec_vpn(vaddr, cur as int));
        assert(agree_upto(va2, vaddr, target as int, cur as int - 1)) by {
            assert forall|l: int|
                target as int <= l <= cur as int - 1 implies #[trigger] spec_vpn(va2, l)
                == spec_vpn(vaddr, l) by {}
        }
        assert(child_of(mf, mf.word(t, idx)) == c);
        assert(translate_rec(mf, t, va2, cur) == translate_rec(mf, c, va2, (cur - 1) as nat));
    }
    // everything else stands
    if no_mid_leaves(m0, t, cur) {
        assert forall|va2: u64|
            !(#[trigger] agree_upto(va2, vaddr, target as int, cur as int)) implies translate_rec(
            mf,
            t,
            va2,
            cur,
        ) == translate_rec(m0, t, va2, cur) by {
            lemma_vpn_bounds(va2);
            let vi = spec_vpn(va2, cur as int) as int;
            let e = m0.word(t, vi);
            if vi == idx {
                assert(!agree_upto(va2, vaddr, target as int, cur as int - 1)) by {
                    if agree_upto(va2, vaddr, target as int, cur as int - 1) {
                        assert forall|l: int|
                            target as int <= l <= cur as int implies #[trigger] spec_vpn(va2, l)
                            == spec_vpn(vaddr, l) by {
                            if l <= cur as int - 1 {
                                assert(spec_vpn(va2, l) == spec_vpn(vaddr, l));
                            }
                        }
                    }
                }
                assert(!spec_pte_valid(e)) by {
                    if spec_pte_valid(e) {
                        assert(!spec_pte_leaf(e));
                        assert(is_pointer(e));
                    }
                }
                assert(translate_rec(m0, t, va2, cur) is None);
                assert(child_of(mf, mf.word(t, idx)) == c);
                assert(translate_rec(mf, t, va2, cur) == translate_rec(
                    mf,
                    c,
                    va2,
                    (cur - 1) as nat,
                ));
                assert(no_mid_leaves(m2, c, (cur - 1) as nat));
                assert(translate_rec(mf, c, va2, (cur - 1) as nat) == translate_rec(
                    m2,
                    c,
                    va2,
                    (cur - 1) as nat,
                ));
                assert(translate_rec(m2, c, va2, (cur - 1) as nat) is None);
            } else {
                assert(mf.word(t, vi) == e);
                if spec_pte_valid(e) {
                    assert(!spec_pte_leaf(e));
                    assert(translate_rec(mf, t, va2, cur) == translate_rec(
                        mf,
                        child_of(m0, e),
                        va2,
                        (cur - 1) as nat,
                    ));
                    assert(translate_rec(m0, t, va2, cur) == translate_rec(
                        m0,
                        child_of(m0, e),
                        va2,
                        (cur - 1) as nat,
                    ));
                }
            }
        }
        if target == 0 {
            assert(no_mid_leaves(mf, t, cur)) by {
                assert forall|i: int|
                    0 <= i < 512 && spec_pte_valid(#[trigger] mf.word(t, i)) implies {
                    &&& !spec_pte_leaf(mf.word(t, i))
                    &&& no_mid_leaves(mf, child_of(mf, mf.word(t, i)), (cur - 1) as nat)
                } by {
                    if i == idx {
                        assert(child_of(mf, mf.word(t, i)) == c);
                        assert(no_mid_leaves(m2, c, (cur - 1) as nat));
                    } else {
                        assert(mf.word(t, i) == m0.word(t, i));
                        assert(no_mid_leaves(m0, child_of(m0, m0.word(t, i)), (cur - 1) as nat));
                    }
                }
            }
        }
    }
    assert forall|va2: u64|
        #[trigger] agree_above(va2, vaddr, target as int, cur as int) implies tables_needed(
        mf,
        t,
        va2,
        cur,
        target,
    ) == 0 by {
        assert(spec_vpn(va2, cur as int) == spec_vpn(vaddr, cur as int));
        assert(mf.word(t, idx) == m2.word(t, idx));
        assert(child_of(mf, mf.word(t, idx)) == c);
        assert(agree_above(va2, vaddr, target as int, cur as int - 1)) by {
            assert forall|l: int|
                (target as int) < l && l <= cur as int - 1 implies #[trigger] spec_vpn(va2, l)
                == spec_vpn(vaddr, l) by {}
        }
        assert(tables_needed(mf, t, va2, cur, target) == tables_needed(
            mf,
            c,
            va2,
            (cur - 1) as nat,
            target,
        ));
    }
}

/// Count the fresh table pages an upsert of `va` at leaf level `target`
/// would have to allocate, walking the existing pointer chain.
fn count_missing(mem: &Kmem, t: usize, cur: usize, va: u64, target: usize) -> (n: usize)
    requires
        mem.wf(),
        table_wf(*mem, t as int, cur as nat),
        target <= cur <= 2,
    ensures
        n == tables_needed(*mem, t as int, va, cur as nat, target as nat),
        n <= cur - target,
    decreases cur,
{
    if cur <= target {
        0
    } else {
        let idx = vpn_of(va, cur);
        let e = PTE::new(mem.read_word(t, idx as usize));
        if e.is_valid() && !e.is_leaf() {
            proof {
                assert(is_pointer(mem.word(t as int, idx as int)));
            }
            let pa = ppn_to_paddr(e.get_ppn());
            let c = mem.page_index_of(pa);
            count_missing(mem, c, cur - 1, va, target)
        } else {
            cur - target
        }
    }
}

/// One level of the upsert walk: write the leaf at the target level, or
/// descend through the pointer chain, linking in a fresh zeroed table
/// wherever the chain leaves the existing tree.
fn map_rec(mem: &mut Kmem, t: usize, cur: usize, vaddr: u64, paddr: u64, flags: u64, target: usize)
    requires
        old(mem).wf(),
        target <= cur <= 2,
        t < old(mem).spec_num_pages(),
        pt_wf(*old(mem), t as int, cur as nat),
        tables_needed(*old(mem), t as int, vaddr, cur as nat, target as nat) <= old(
            mem,
        ).free_seq().len(),
        flags & PTE_PBMT == 0,
        flags & PTE_RESERVED == 0,
        flags & PTE_PPN == 0,
        flags & PTE_RWX != 0,
        paddr < MAX_PHYS_ADDR,
    ensures
        map_rec_post(
            *old(mem),
            *final(mem),
            t as int,
            cur as nat,
            vaddr,
            paddr,
            flags,
            target as nat,
        ),
    decreases cur,
{
    let ghost m0 = *old(mem);
    let idx = vpn_of(vaddr, cur) as usize;
    if cur == target {
        let e0 = mem.read_word(t, idx);
        let mut pte = PTE::new(e0);
        pte.set_ppn(paddr_to_ppn(paddr));
        pte.set_flags(flags);
        pte.validate();
        mem.write_word(t, idx, pte.bits());
        proof {
            lemma_map_leaf(m0, *mem, t as int, cur as nat, vaddr, paddr, flags);
        }
    } else {
        let e = PTE::new(mem.read_word(t, idx));
        if e.is_valid() && !e.is_leaf() {
            proof {
                assert(is_pointer(m0.word(t as int, idx as int)));
                lemma_child_bundle(m0, t as int, cur as nat, idx as int);
            }
            let pa = ppn_to_paddr(e.get_ppn());
            let c = mem.page_index_of(pa);
            proof {
                assert(c as int == child_of(m0, m0.word(t as int, idx as int)));
            }
            map_rec(mem, c, cur - 1, vaddr, paddr, flags, target);
            proof {
                lemma_map_via_pointer(
                    m0,
                    *mem,
                    t as int,
                    cur as nat,
                    vaddr,
                    paddr,
                    flags,
                    target as nat,
                );
            }
        } else {
            proof {
                assert(tables_needed(m0, t as int, vaddr, cur as nat, target as nat) == cur
                    - target);
                assert(m0.free_seq().len() >= cur - target >= 1);
            }
            let pa_opt = mem.kalloc();
            proof {
                assert(pa_opt is Some);
            }
            let pa = match pa_opt {
                Some(p) => p,
                None => 0,
            };
            let ghost c_idx = m0.free_seq().last();
            proof {
                lemma_page_addr_props(m0, c_idx);
                assert(pa == m0.page_addr(c_idx));
            }
            let c = mem.page_index_of(pa);
            proof {
                assert(c as int == c_idx);
                lemma_subtree_contains_root(m0, t as int, cur as nat);
                assert(!m0.is_free(t as int));
                assert(t != c);
            }
            mem.zero_page(c);
            let mut pte = PTE::new(paddr_to_ppn(pa));
            pte.validate();
            mem.write_word(t, idx, pte.bits());
            let ghost m2 = *mem;
            proof {
                lemma_pointer_entry(pa);
                lemma_zeroed_table(m2, c as int, (cur - 1) as nat);
                assert(tree_allocated(m2, c as int, (cur - 1) as nat)) by {
                    assert forall|p: int|
                        #[trigger] subtree_seq(m2, c as int, (cur - 1) as nat).contains(
                            p,
                        ) implies !m2.is_free(p) by {
                        assert(seq![c as int][0] == c as int);
                        assert(p == c as int);
                    }
                }
            }
            map_rec(mem, c, cur - 1, vaddr, paddr, flags, target);
            proof {
                lemma_map_via_fresh(
                    m0,
                    m2,
                    *mem,
                    t as int,
                    cur as nat,
                    vaddr,
                    paddr,
                    flags,
                    target as nat,
                    c as int,
                );
            }
        }
    }
}

/// Handle to an Sv39 translation tree: the physical address of the root
/// table page, which lives in the `kmem` arena like every other table.
pub struct PageTable {
    root: u64,
}

impl PageTable {
    /// Physical address of the root table page.
    pub closed spec fn spec_root(self) -> u64 {
        self.root
    }

    /// Arena index of the root table page.
    pub open spec fn root_idx(self, m: Kmem) -> int {
        m.addr_idx(self.spec_root())
    }

    /// The handle names a live, well-formed tree inside the arena.
    pub open spec fn wf_in(self, m: Kmem) -> bool {
        &&& self.spec_root() % PAGE_SIZE == 0
        &&& pa_in_heap(m, self.spec_root())
        &&& self.spec_root() == m.page_addr(self.root_idx(m))
        &&& pt_wf(m, self.root_idx(m), 2)
    }

    /// Physical address of the root table, as the translation-control
    /// register wants it.
    pub fn root(&self) -> (r: u64)
        ensures
            r == self.spec_root(),
    {
        self.root
    }

    /// Allocate and zero a fresh root table: an empty address space.
    /// Fails exactly when the allocator is out of pages.
    pub fn new(mem: &mut Kmem) -> (r: Result<PageTable, AllocError>)
        requires
            old(mem).wf(),
        ensures
            final(mem).wf(),
            same_geometry(*old(mem), *final(mem)),
            r is Ok <==> old(mem).free_seq().len() > 0,
            r is Err ==> mem_unchanged(*old(mem), *final(mem)),
            r matches Ok(pt) ==> {
                &&& pt.wf_in(*final(mem))
                &&& pt.root_idx(*final(mem)) == old(mem).free_seq().last()
                &&& final(mem).free_seq() == old(mem).free_seq().drop_last()
                &&& final(mem).alloced() == old(mem).alloced() + 1
                &&& subtree_seq(*final(mem), pt.root_idx(*final(mem)), 2) == seq![
                    pt.root_idx(*final(mem)),
                ]
                &&& no_mid_leaves(*final(mem), pt.root_idx(*final(mem)), 2)
                &&& (forall|va: u64|
                    #[trigger] translate(*final(mem), pt.root_idx(*final(mem)), va) is None)
                &&& (forall|va: u64, target: nat|
                    target <= 2 ==> #[trigger] tables_needed(
                        *final(mem),
                        pt.root_idx(*final(mem)),
                        va,
                        2,
                        target,
                    ) == 2 - target)
                &&& (forall|p: int, j: int|
                    0 <= p < old(mem).spec_num_pages() && 0 <= j < WORDS_PER_PAGE && p
                        != pt.root_idx(*final(mem)) ==> #[trigger] final(mem).word(p, j)
                        == old(mem).word(p, j))
            },
    {
        let ghost m0 = *mem;
        match mem.kalloc() {
            None => Err(AllocError::OutOfPages),
            Some(pa) => {
                let ghost m1 = *mem;
                let t = mem.page_index_of(pa);
                proof {
                    lemma_page_addr_props(m0, m0.free_seq().last());
                }
                mem.zero_page(t);
                proof {
                    let mf = *mem;
                    lemma_zeroed_table(mf, t as int, 2);
                    assert(subtree_seq(mf, t as int, 2) == seq![t as int]);
                    assert(tree_allocated(mf, t as int, 2)) by {
                        assert forall|p: int|
                            #[trigger] subtree_seq(mf, t as int, 2).contains(p) implies !mf.is_free(
                            p,
                        ) by {
                            assert(seq![t as int][0] == t as int);
                            assert(p == t as int);
                        }
                    }
                    lemma_page_addr_props(mf, t as int);
                }
                Ok(PageTable { root: pa })
            },
        }
    }

    /// Upsert one translation. `level` picks the leaf granularity: 0 for
    /// 4 KiB, 1 for 2 MiB, 2 for 1 GiB. Walking from the root, a fresh
    /// zeroed child table is linked in wherever the path leaves the
    /// existing pointer chain; at the leaf level the entry's page number
    /// and flags are overwritten in place, so mapping the same address
    /// again replaces the old target. Fails, leaving the arena untouched,
    /// exactly when the missing tables outnumber the free pages; the full
    /// effect of a successful call is `map_rec_post`.
    pub fn map(
        &self,
        mem: &mut Kmem,
        vaddr: u64,
        paddr: u64,
        flags: u64,
        level: usize,
    ) -> (r: Result<(), AllocError>)
        requires
            old(mem).wf(),
            self.wf_in(*old(mem)),
            flags & PTE_PBMT == 0,
            flags & PTE_RESERVED == 0,
            flags & PTE_PPN == 0,
            flags & PTE_RWX != 0,
            level == 0 || level == 1 || level == 2,
            paddr < MAX_PHYS_ADDR,
        ensures
            final(mem).wf(),
            same_geometry(*old(mem), *final(mem)),
            self.wf_in(*final(mem)),
            r is Ok <==> tables_needed(
                *old(mem),
                self.root_idx(*old(mem)),
                vaddr,
                2,
                level as nat,
            ) <= old(mem).free_seq().len(),
            r is Err ==> mem_unchanged(*old(mem), *final(mem)),
            r is Ok ==> map_rec_post(
                *old(mem),
                *final(mem),
                self.root_idx(*old(mem)),
                2,
                vaddr,
                paddr,
                flags,
                level as nat,
            ),
    {
        let ghost m0 = *old(mem);
        let root_i = mem.page_index_of(self.root);
        let missing = count_missing(mem, root_i, 2, vaddr, level);
        if missing > mem.free_page_count() {
            return Err(AllocError::OutOfPages);
        }
        map_rec(mem, root_i, 2, vaddr, paddr, flags, level);
        proof {
            let rf = self.root_idx(*mem);
            assert(rf == root_i as int);
            lemma_page_addr_props(*mem, rf);
        }
        Ok(())
    }

    /// Map the physical range `[paddr_start, paddr_end)` at `vaddr`, one
    /// 4 KiB page at a time, page numbers advancing in lock step. The
    /// range is first widened to whole pages. Works on trees whose
    /// mappings are all 4 KiB — the kind this call itself builds — and
    /// keeps every translation it has established earlier in the range.
    pub fn map_range(
        &self,
        mem: &mut Kmem,
        vaddr: u64,
        paddr_start: u64,
        paddr_end: u64,
        flags: u64,
    ) -> (r: Result<(), AllocError>)
        requires
            old(mem).wf(),
            self.wf_in(*old(mem)),
            flags & PTE_PBMT == 0,
            flags & PTE_RESERVED == 0,
            flags & PTE_PPN == 0,
            flags & PTE_RWX != 0,
            paddr_start < paddr_end,
            paddr_end <= MAX_PHYS_ADDR,
            vaddr + spec_page_ceil(paddr_end) - spec_page_floor(paddr_start) <= 0x80_0000_0000,
        ensures
            final(mem).wf(),
            same_geometry(*old(mem), *final(mem)),
            self.wf_in(*final(mem)),
            no_mid_leaves(*old(mem), self.root_idx(*old(mem)), 2) ==> no_mid_leaves(
                *final(mem),
                self.root_idx(*final(mem)),
                2,
            ),
            forall|p: int| !old(mem).is_free(p) ==> !final(mem).is_free(p),
            final(mem).free_seq().len() >= old(mem).free_seq().len() - 2 * ((spec_page_ceil(
                paddr_end,
            ) - spec_page_floor(paddr_start)) / (PAGE_SIZE as int)),
            forall|p: int|
                #[trigger] subtree_seq(*final(mem), self.root_idx(*old(mem)), 2).contains(p)
                    ==> subtree_seq(*old(mem), self.root_idx(*old(mem)), 2).contains(p) || old(
                    mem,
                ).is_free(p),
            forall|p: int|
                0 <= p < old(mem).spec_num_pages() && !(#[trigger] subtree_seq(
                    *old(mem),
                    self.root_idx(*old(mem)),
                    2,
                ).contains(p)) && !old(mem).is_free(p) ==> page_unchanged(
                    *old(mem),
                    *final(mem),
                    p,
                ),
            2 * ((spec_page_ceil(paddr_end) - spec_page_floor(paddr_start)) / (
            PAGE_SIZE as int)) <= old(mem).free_seq().len() ==> r is Ok,
            r is Ok && no_mid_leaves(*old(mem), self.root_idx(*old(mem)), 2) ==> forall|
                k: int,
                va2: u64,
            |
                0 <= k < (spec_page_ceil(paddr_end) - spec_page_floor(paddr_start)) / (
                PAGE_SIZE as int) && #[trigger] agree_upto(
                    va2,
                    (vaddr + k * (PAGE_SIZE as int)) as u64,
                    0,
                    2,
                ) ==> translate(*final(mem), self.root_idx(*old(mem)), va2) == Some(
                    map_result((spec_page_floor(paddr_start) + k * (PAGE_SIZE as int)) as u64, va2, 0),
                ),
            r is Ok && no_mid_leaves(*old(mem), self.root_idx(*old(mem)), 2) ==> forall|
                va2: u64,
            |
                (forall|k: int|
                    0 <= k < (spec_page_ceil(paddr_end) - spec_page_floor(paddr_start)) / (
                    PAGE_SIZE as int) ==> !(#[trigger] agree_upto(
                        va2,
                        (vaddr + k * (PAGE_SIZE as int)) as u64,
                        0,
                        2,
                    ))) ==> #[trigger] translate(*final(mem), self.root_idx(*old(mem)), va2)
                    == translate(*old(mem), self.root_idx(*old(mem)), va2),
    {
        let ghost m0 = *old(mem);
        let ghost ri = self.root_idx(m0);
        let first = page_floor(paddr_start);
        let last = page_ceil(paddr_end);
        let npages: u64 = (last - first) / PAGE_SIZE;
        let mut k: u64 = 0;
        proof {
            assert(npages == (spec_page_ceil(paddr_end) - spec_page_floor(paddr_start)) / (
            PAGE_SIZE as int));
            assert(npages >= 1);
        }
        while k < npages
            invariant
                m0 == *old(mem),
                mem.wf(),
                same_geometry(m0, *mem),
                self.wf_in(*mem),
                self.root_idx(*mem) == ri,
                no_mid_leaves(m0, ri, 2) ==> no_mid_leaves(*mem, ri, 2),
                0 <= k <= npages,
                first == spec_page_floor(paddr_start),
                npages == (spec_page_ceil(paddr_end) - spec_page_floor(paddr_start)) / (
                PAGE_SIZE as int),
                first + npages * (PAGE_SIZE as int) == spec_page_ceil(paddr_end),
                spec_page_ceil(paddr_end) <= MAX_PHYS_ADDR,
                vaddr + npages * (PAGE_SIZE as int) <= 0x80_0000_0000,
                flags & PTE_PBMT == 0,
                flags & PTE_RESERVED == 0,
                flags & PTE_PPN == 0,
                flags & PTE_RWX != 0,
                m0.free_seq().len() - 2 * k <= mem.free_seq().len(),
                forall|p: int| !m0.is_free(p) ==> !mem.is_free(p),
                forall|p: int|
                    #[trigger] subtree_seq(*mem, ri, 2).contains(p) ==> subtree_seq(
                        m0,
                        ri,
                        2,
                    ).contains(p) || m0.is_free(p),
                forall|p: int|
                    0 <= p < m0.spec_num_pages() && !(#[trigger] subtree_seq(m0, ri, 2).contains(
                        p,
                    )) && !m0.is_free(p) ==> page_unchanged(m0, *mem, p),
                no_mid_leaves(m0, ri, 2) ==> (forall|j: int, va2: u64|
                    0 <= j < k && #[trigger] agree_upto(
                        va2,
                        (vaddr + j * (PAGE_SIZE as int)) as u64,
                        0,
                        2,
                    ) ==> translate_rec(*mem, ri, va2, 2) == Some(
                        map_result((first + j * (PAGE_SIZE as int)) as u64, va2, 0),
                    )),
                no_mid_leaves(m0, ri, 2) ==> (forall|va2: u64|
                    (forall|j: int|
                        0 <= j < npages ==> !(#[trigger] agree_upto(
                            va2,
                            (vaddr + j * (PAGE_SIZE as int)) as u64,
                            0,
                            2,
                        ))) ==> #[trigger] translate_rec(*mem, ri, va2, 2) == translate_rec(
                        m0,
                        ri,
                        va2,
                        2,
                    )),
            decreases npages - k,
        {
            let ghost mk = *mem;
            let va: u64 = vaddr + k * PAGE_SIZE;
            let pa: u64 = first + k * PAGE_SIZE;
            let res = self.map(mem, va, pa, flags, 0);
            proof {
                lemma_tables_needed_bounds(mk, ri, va, 2, 0);
            }
            if res.is_err() {
                proof {
                    assert(tables_needed(mk, ri, va, 2, 0) > mk.free_seq().len());
                    assert(m0.free_seq().len() < 2 * k + 2);
                    assert(2 * npages > m0.free_seq().len());
                    let mn = *mem;
                    lemma_tree_same_words(mk, mn, ri, 2);
                    if no_mid_leaves(m0, ri, 2) {
                        assert(no_mid_leaves(mn, ri, 2));
                    }
                    assert forall|p: int| !m0.is_free(p) implies !mn.is_free(p) by {
                        assert(mn.free_seq() == mk.free_seq());
                    }
                    assert forall|p: int|
                        #[trigger] subtree_seq(mn, ri, 2).contains(p) implies subtree_seq(
                        m0,
                        ri,
                        2,
                    ).contains(p) || m0.is_free(p) by {
                        assert(subtree_seq(mk, ri, 2).contains(p));
                    }
                    assert forall|p: int|
                        0 <= p < m0.spec_num_pages() && !(#[trigger] subtree_seq(
                            m0,
                            ri,
                            2,
                        ).contains(p)) && !m0.is_free(p) implies page_unchanged(m0, mn, p) by {
                        assert(page_unchanged(m0, mk, p));
                        assert forall|x: int|
                            0 <= x < 512 implies #[trigger] mn.word(p, x) == m0.word(p, x) by {
                            assert(mn.word(p, x) == mk.word(p, x));
                        }
                    }
                }
                return Err(AllocError::OutOfPages);
            }
            proof {
                let mn = *mem;
                lemma_take_contains(
                    mk.free_seq(),
                    mk.free_seq().len() - tables_needed(mk, ri, va, 2, 0),
                );
                assert forall|p: int| !m0.is_free(p) implies !mn.is_free(p) by {
                    if mn.free_seq().contains(p) {
                        assert(mk.free_seq().contains(p));
                    }
                }
                assert forall|p: int|
                    #[trigger] subtree_seq(mn, ri, 2).contains(p) implies subtree_seq(
                    m0,
                    ri,
                    2,
                ).contains(p) || m0.is_free(p) by {
                    assert(subtree_seq(mk, ri, 2).contains(p) || mk.is_free(p));
                    if mk.is_free(p) && !m0.is_free(p) {
                        assert(false);
                    }
                }
                assert forall|p: int|
                    0 <= p < m0.spec_num_pages() && !(#[trigger] subtree_seq(m0, ri, 2).contains(
                        p,
                    )) && !m0.is_free(p) implies page_unchanged(m0, mn, p) by {
                    assert(!subtree_seq(mk, ri, 2).contains(p));
                    assert(!mk.is_free(p));
                    assert(page_unchanged(m0, mk, p));
                    assert(page_unchanged(mk, mn, p));
                    assert forall|x: int|
                        0 <= x < 512 implies #[trigger] mn.word(p, x) == m0.word(p, x) by {
                        assert(mn.word(p, x) == mk.word(p, x));
                        assert(mk.word(p, x) == m0.word(p, x));
                    }
                }
                if no_mid_leaves(m0, ri, 2) {
                    assert(no_mid_leaves(mn, ri, 2));
                    assert forall|j: int, va2: u64|
                        0 <= j < k + 1 && #[trigger] agree_upto(
                            va2,
                            (vaddr + j * (PAGE_SIZE as int)) as u64,
                            0,
                            2,
                        ) implies translate_rec(mn, ri, va2, 2) == Some(
                        map_result((first + j * (PAGE_SIZE as int)) as u64, va2, 0),
                    ) by {
                        let vaj = (vaddr + j * (PAGE_SIZE as int)) as u64;
                        if j == k {
                            assert(vaj == va);
                        } else {
                            let d = ((k - j) * (PAGE_SIZE as int)) as u64;
                            assert(vaj + d == va);
                            lemma_pages_distinct(vaj, d);
                            assert(!agree_upto(va2, va, 0, 2)) by {
                                if agree_upto(va2, va, 0, 2) {
                                    assert(spec_vpn(vaj, 0) == spec_vpn(va2, 0) && spec_vpn(
                                        va2,
                                        0,
                                    ) == spec_vpn(va, 0));
                                    assert(spec_vpn(vaj, 1) == spec_vpn(va2, 1) && spec_vpn(
                                        va2,
                                        1,
                                    ) == spec_vpn(va, 1));
                                    assert(spec_vpn(vaj, 2) == spec_vpn(va2, 2) && spec_vpn(
                                        va2,
                                        2,
                                    ) == spec_vpn(va, 2));
                                }
                            }
                            assert(translate_rec(mn, ri, va2, 2) == translate_rec(
                                mk,
                                ri,
                                va2,
                                2,
                            ));
                        }
                    }
                    assert forall|va2: u64|
                        (forall|j: int|
                            0 <= j < npages ==> !(#[trigger] agree_upto(
                                va2,
                                (vaddr + j * (PAGE_SIZE as int)) as u64,
                                0,
                                2,
                            ))) implies #[trigger] translate_rec(mn, ri, va2, 2)
                        == translate_rec(m0, ri, va2, 2) by {
                        assert(!agree_upto(va2, va, 0, 2));
                        assert(translate_rec(mn, ri, va2, 2) == translate_rec(mk, ri, va2, 2));
                        assert(translate_rec(mk, ri, va2, 2) == translate_rec(m0, ri, va2, 2));
                    }
                }
            }
            k = k + 1;
        }
        Ok(())
    }

    /// Translate a virtual address through this tree: the physical page
    /// of the leaf found, joined with the in-leaf offset bits of `vaddr`,
    /// or `None` if the walk meets an invalid entry.
    pub fn lookup(&self, mem: &Kmem, vaddr: u64) -> (r: Option<u64>)
        requires
            mem.wf(),
            self.wf_in(*mem),
        ensures
            r == translate(*mem, self.root_idx(*mem), vaddr),
    {
        let root_i = mem.page_index_of(self.root);
        lookup_rec(mem, root_i, vaddr, 2)
    }

    /// Tear the whole tree down, returning every table page — children
    /// first, in post order, the root last — to the allocator exactly
    /// once. Pages that leaf entries map are never touched: they belong
    /// to whoever allocated them.
    pub fn free(&self, mem: &mut Kmem)
        requires
            old(mem).wf(),
            self.wf_in(*old(mem)),
        ensures
            final(mem).wf(),
            same_geometry(*old(mem), *final(mem)),
            final(mem).words() == old(mem).words(),
            final(mem).free_seq() == old(mem).free_seq() + subtree_seq(
                *old(mem),
                self.root_idx(*old(mem)),
                2,
            ),
            final(mem).alloced() == old(mem).alloced() - subtree_seq(
                *old(mem),
                self.root_idx(*old(mem)),
                2,
            ).len(),
    {
        let root_i = mem.page_index_of(self.root);
        free_table(mem, root_i, 2);
    }
}

/// The flag combinations the kernel and the process builder use are
/// clean leaf flags: no page-number, reserved or memory-type bits.
pub proof fn lemma_flag_bits()
    by (bit_vector)
    ensures
        (PTE_R | PTE_W) & PTE_PPN == 0 && (PTE_R | PTE_W) & PTE_RESERVED == 0 && (PTE_R
            | PTE_W) & PTE_PBMT == 0 && (PTE_R | PTE_W) & PTE_RWX != 0,
        (PTE_R | PTE_X) & PTE_PPN == 0 && (PTE_R | PTE_X) & PTE_RESERVED == 0 && (PTE_R
            | PTE_X) & PTE_PBMT == 0 && (PTE_R | PTE_X) & PTE_RWX != 0,
        (PTE_USER | PTE_R | PTE_W) & PTE_PPN == 0 && (PTE_USER | PTE_R | PTE_W) & PTE_RESERVED
            == 0 && (PTE_USER | PTE_R | PTE_W) & PTE_PBMT == 0 && (PTE_USER | PTE_R | PTE_W)
            & PTE_RWX != 0,
        (PTE_USER | PTE_R | PTE_X) & PTE_PPN == 0 && (PTE_USER | PTE_R | PTE_X) & PTE_RESERVED
            == 0 && (PTE_USER | PTE_R | PTE_X) & PTE_PBMT == 0 && (PTE_USER | PTE_R | PTE_X)
            & PTE_RWX != 0,
{
}

/// Addresses inside one page of the 39-bit space agree on every
/// virtual page number slice of their page's base.
proof fn lemma_same_page_agree(x: u64, y: u64)
    by (bit_vector)
    requires
        y % 4096 == 0,
        y <= x < y + 4096,
        x < 0x80_0000_0000u64,
    ensures
        spec_vpn(x, 0) == spec_vpn(y, 0),
        spec_vpn(x, 1) == spec_vpn(y, 1),
        spec_vpn(x, 2) == spec_vpn(y, 2),
{
}

/// Conversely, an address of the 39-bit space agreeing with a
/// page-aligned one on every slice lies in that page, and a leaf
/// mapping the page to itself resolves the address to itself.
proof fn lemma_agree_identity(x: u64, y: u64)
    by (bit_vector)
    requires
        y % 4096 == 0,
        y < 0x80_0000_0000u64,
        x < 0x80_0000_0000u64,
        spec_vpn(x, 0) == spec_vpn(y, 0),
        spec_vpn(x, 1) == spec_vpn(y, 1),
        spec_vpn(x, 2) == spec_vpn(y, 2),
    ensures
        y <= x < y + 4096,
        ((y >> 12) << 12) | (x & 0xfffu64) == x,
{
}

/// Page-aligned bounds subtract and recombine exactly.
proof fn lemma_aligned_diff(a: int, b: int)
    by (nonlinear_arith)
    requires
        a % 4096 == 0,
        b % 4096 == 0,
        b <= a,
    ensures
        (a - b) % 4096 == 0,
        b + ((a - b) / 4096) * 4096 == a,
{
}

/// An address within a run of pages falls inside the page of one of
/// them.
proof fn lemma_span_page(start: int, npages: int, x: int)
    by (nonlinear_arith)
    requires
        start % 4096 == 0,
        npages >= 1,
        start <= x < start + npages * 4096,
    ensures
        0 <= (x - start) / 4096 < npages,
        start + ((x - start) / 4096) * 4096 <= x,
        x < start + ((x - start) / 4096) * 4096 + 4096,
        (start + ((x - start) / 4096) * 4096) % 4096 == 0,
{
}

/// Growing an identity-mapped region: a run of identity upserts
/// establishes identity over its own span and leaves every identity
/// translation already established standing.
proof fn lemma_identity_extend(
    mk: Kmem,
    mn: Kmem,
    ri: int,
    start: u64,
    npages: nat,
    covered: spec_fn(u64) -> bool,
)
    requires
        start % PAGE_SIZE == 0,
        npages >= 1,
        start + npages * (PAGE_SIZE as int) <= 0x80_0000_0000,
        forall|k: int, va2: u64|
            0 <= k < npages && #[trigger] agree_upto(
                va2,
                (start + k * (PAGE_SIZE as int)) as u64,
                0,
                2,
            ) ==> translate_rec(mn, ri, va2, 2) == Some(
                map_result((start + k * (PAGE_SIZE as int)) as u64, va2, 0),
            ),
        forall|va2: u64|
            (forall|k: int|
                0 <= k < npages ==> !(#[trigger] agree_upto(
                    va2,
                    (start + k * (PAGE_SIZE as int)) as u64,
                    0,
                    2,
                ))) ==> #[trigger] translate_rec(mn, ri, va2, 2) == translate_rec(mk, ri, va2, 2),
        forall|va2: u64| #[trigger] covered(va2) ==> va2 < 0x80_0000_0000,
        forall|va2: u64| #[trigger] covered(va2) ==> translate_rec(mk, ri, va2, 2) == Some(va2),
    ensures
        forall|va2: u64|
            covered(va2) || (start <= va2 < start + npages * (PAGE_SIZE as int))
                ==> #[trigger] translate_rec(mn, ri, va2, 2) == Some(va2),
{
    assert forall|va2: u64|
        covered(va2) || (start <= va2 < start + npages * (PAGE_SIZE as int)) implies #[trigger]
    translate_rec(mn, ri, va2, 2) == Some(va2) by {
        assert(va2 < 0x80_0000_0000);
        if exists|k: int|
            0 <= k < npages && #[trigger] agree_upto(
                va2,
                (start + k * (PAGE_SIZE as int)) as u64,
                0,
                2,
            ) {
            let k = choose|k: int|
                0 <= k < npages && #[trigger] agree_upto(
                    va2,
                    (start + k * (PAGE_SIZE as int)) as u64,
                    0,
                    2,
                );
            let vak = (start + k * (PAGE_SIZE as int)) as u64;
            assert(vak % 4096 == 0 && vak < 0x80_0000_0000) by {
                lemma_aligned_diff(start + npages * 4096, start as int);
                assert((start + k * 4096) % 4096 == 0 && start + k * 4096 < start + npages
                    * 4096) by (nonlinear_arith)
                    requires
                        (start as int) % 4096 == 0,
                        0 <= k < npages,
                ;
            }
            assert(spec_vpn(va2, 0) == spec_vpn(vak, 0) && spec_vpn(va2, 1) == spec_vpn(vak, 1)
                && spec_vpn(va2, 2) == spec_vpn(vak, 2));
            lemma_agree_identity(va2, vak);
            assert(translate_rec(mn, ri, va2, 2) == Some(map_result(vak, va2, 0)));
            assert(map_result(vak, va2, 0) == va2);
        } else {
            assert forall|k: int| 0 <= k < npages implies !(#[trigger] agree_upto(
                va2,
                (start + k * (PAGE_SIZE as int)) as u64,
                0,
                2,
            )) by {}
            assert(translate_rec(mn, ri, va2, 2) == translate_rec(mk, ri, va2, 2));
            assert(covered(va2)) by {
                if start <= va2 < start + npages * (PAGE_SIZE as int) {
                    lemma_span_page(start as int, npages as int, va2 as int);
                    let k0 = (va2 - start) / (PAGE_SIZE as int);
                    let vak = (start + k0 * (PAGE_SIZE as int)) as u64;
                    lemma_same_page_agree(va2, vak);
                    assert(agree_upto(va2, vak, 0, 2)) by {
                        assert forall|l: int| 0 <= l <= 2 implies #[trigger] spec_vpn(va2, l)
                            == spec_vpn(vak, l) by {
                            if l == 0 {
                            } else if l == 1 {
                            } else {
                                assert(l == 2);
                            }
                        }
                    }
                }
            }
        }
    }
}

/// Boundaries of the kernel's memory regions, supplied as raw addresses
/// by the memory-layout collaborator at boot.
pub struct MemoryLayout {
    pub text_start: u64,
    pub text_end: u64,
    pub rodata_start: u64,
    pub rodata_end: u64,
    pub data_start: u64,
    pub data_end: u64,
    pub bss_start: u64,
    pub bss_end: u64,
    pub stack_start: u64,
    pub stack_end: u64,
    pub heap_start: u64,
    pub heap_end: u64,
}

/// Largest address a kernel region may reach: identity mappings must sit
/// inside the 39-bit virtual space with room for page rounding.
pub const LAYOUT_LIMIT: u64 = 0x40_0000_0000;

impl MemoryLayout {
    /// Every region is non-empty, starts on a page boundary — the
    /// layout collaborator guarantees aligned bounds — and is low
    /// enough to be identity-mapped.
    pub open spec fn wf(self) -> bool {
        &&& self.text_start < self.text_end <= LAYOUT_LIMIT
        &&& self.rodata_start < self.rodata_end <= LAYOUT_LIMIT
        &&& self.data_start < self.data_end <= LAYOUT_LIMIT
        &&& self.bss_start < self.bss_end <= LAYOUT_LIMIT
        &&& self.stack_start < self.stack_end <= LAYOUT_LIMIT
        &&& self.heap_start < self.heap_end <= LAYOUT_LIMIT
        &&& self.text_start % PAGE_SIZE == 0
        &&& self.rodata_start % PAGE_SIZE == 0
        &&& self.data_start % PAGE_SIZE == 0
        &&& self.bss_start % PAGE_SIZE == 0
        &&& self.stack_start % PAGE_SIZE == 0
    }
}

/// How many whole pages an identity-mapped region spans, from its
/// aligned start to its end rounded up.
pub open spec fn region_pages(start: u64, region_end: u64) -> int {
    (spec_page_ceil(region_end) - start) / (PAGE_SIZE as int)
}

/// A non-empty region with an aligned start spans at least one page.
proof fn lemma_region_pages_pos(start: u64, region_end: u64)
    requires
        start % PAGE_SIZE == 0,
        start < region_end,
    ensures
        region_pages(start, region_end) >= 1,
        start + region_pages(start, region_end) * (PAGE_SIZE as int) == spec_page_ceil(
            region_end,
        ),
{
    let ceilp = spec_page_ceil(region_end);
    assert(ceilp % 4096 == 0 && ceilp > start);
    lemma_aligned_diff(ceilp, start as int);
    assert(region_pages(start, region_end) >= 1) by (nonlinear_arith)
        requires
            (ceilp - start) % 4096 == 0,
            ceilp - start > 0,
            region_pages(start, region_end) == (ceilp - start) / 4096,
    ;
}

/// Free pages that guarantee `init` succeeds: one root table, and at
/// most two fresh tables for each page of each mapped window.
pub open spec fn init_page_budget(layout: MemoryLayout) -> int {
    1 + 2 * (region_pages(layout.text_start, layout.text_end) + region_pages(
        layout.rodata_start,
        layout.rodata_end,
    ) + region_pages(layout.data_start, layout.data_end) + region_pages(
        layout.bss_start,
        layout.bss_end,
    ) + region_pages(layout.stack_start, layout.stack_end) + region_pages(
        UART_BASE,
        (UART_BASE + PAGE_SIZE) as u64,
    ) + 8 * region_pages(VIRTIO_BASE, (VIRTIO_BASE + 0x1000) as u64) + region_pages(
        CLINT_BASE,
        (CLINT_BASE + 0x1_0000) as u64,
    ) + region_pages(PLIC_BASE, (PLIC_BASE + 0x40_0000) as u64))
}

/// One building step of the kernel space keeps every page that was
/// checked out before the whole build untouched and checked out, and
/// keeps the growing tree inside the pages that were free at the start.
proof fn lemma_init_step_frame(m0: Kmem, mk: Kmem, mn: Kmem, ri: int)
    requires
        m0.spec_num_pages() == mk.spec_num_pages(),
        forall|p: int| !m0.is_free(p) ==> !mk.is_free(p),
        forall|p: int|
            0 <= p < m0.spec_num_pages() && !m0.is_free(p) ==> page_unchanged(m0, mk, p),
        forall|p: int| #[trigger] subtree_seq(mk, ri, 2).contains(p) ==> m0.is_free(p),
        forall|p: int| !mk.is_free(p) ==> !mn.is_free(p),
        forall|p: int|
            0 <= p < mk.spec_num_pages() && !(#[trigger] subtree_seq(mk, ri, 2).contains(p))
                && !mk.is_free(p) ==> page_unchanged(mk, mn, p),
        forall|p: int|
            #[trigger] subtree_seq(mn, ri, 2).contains(p) ==> subtree_seq(mk, ri, 2).contains(p)
                || mk.is_free(p),
    ensures
        forall|p: int| !m0.is_free(p) ==> !mn.is_free(p),
        forall|p: int|
            0 <= p < m0.spec_num_pages() && !m0.is_free(p) ==> page_unchanged(m0, mn, p),
        forall|p: int| #[trigger] subtree_seq(mn, ri, 2).contains(p) ==> m0.is_free(p),
{
    assert forall|p: int|
        0 <= p < m0.spec_num_pages() && !m0.is_free(p) implies page_unchanged(m0, mn, p) by {
        assert(!subtree_seq(mk, ri, 2).contains(p)) by {
            if subtree_seq(mk, ri, 2).contains(p) {
                assert(m0.is_free(p));
            }
        }
        assert(page_unchanged(m0, mk, p));
        assert(page_unchanged(mk, mn, p));
        assert forall|x: int| 0 <= x < 512 implies #[trigger] mn.word(p, x) == m0.word(
            p,
            x,
        ) by {
            assert(mn.word(p, x) == mk.word(p, x));
            assert(mk.word(p, x) == m0.word(p, x));
        }
    }
    assert forall|p: int| #[trigger] subtree_seq(mn, ri, 2).contains(p) implies m0.is_free(
        p,
    ) by {
        if subtree_seq(mk, ri, 2).contains(p) {
        } else {
            assert(mk.is_free(p));
            if !m0.is_free(p) {
                assert(!mk.is_free(p));
            }
        }
    }
}

/// The virtual addresses the kernel's address space covers: its own
/// regions, rounded out to whole pages, and the fixed device windows.
pub open spec fn kernel_window(layout: MemoryLayout, va: u64) -> bool {
    ||| layout.text_start <= va < spec_page_ceil(layout.text_end)
    ||| layout.rodata_start <= va < spec_page_ceil(layout.rodata_end)
    ||| layout.data_start <= va < spec_page_ceil(layout.data_end)
    ||| layout.bss_start <= va < spec_page_ceil(layout.bss_end)
    ||| layout.stack_start <= va < spec_page_ceil(layout.stack_end)
    ||| UART_BASE <= va < UART_BASE + PAGE_SIZE
    ||| VIRTIO_BASE <= va < VIRTIO_BASE + 0x1000
    ||| CLINT_BASE <= va < CLINT_BASE + 0x1_0000
    ||| PLIC_BASE <= va < PLIC_BASE + 0x40_0000
}

/// The active memory management unit: the kernel's root table and the
/// value that installs it into the hardware translation-control register.
pub struct Mmu {
    page_table: PageTable,
    satp: u64,
}

/// Translation-scheme field value selecting Sv39, already in place.
pub const SATP_MODE_SV39_BITS: u64 = 8u64 << 60;

impl Mmu {
    /// The kernel's root table.
    pub closed spec fn spec_page_table(self) -> PageTable {
        self.page_table
    }

    /// The value written to the translation-control register: the Sv39
    /// mode bits joined with the root table's physical page number.
    pub closed spec fn spec_satp(self) -> u64 {
        self.satp
    }

    /// Handle to the kernel's root table.
    pub fn page_table(&self) -> (r: PageTable)
        ensures
            r == self.spec_page_table(),
    {
        PageTable { root: self.page_table.root }
    }

    /// The translation-control value to install.
    pub fn satp(&self) -> (r: u64)
        ensures
            r == self.spec_satp(),
    {
        self.satp
    }

    /// A constructed unit has been initialized: `init` is the only way
    /// to obtain one, so the ordering hazard of enabling translation
    /// before the allocator exists cannot arise.
    pub fn initialized(&self) -> (r: bool)
        ensures
            r,
    {
        true
    }
}

/// Identity-map one page-aligned region into the tree rooted at
/// `root`, carrying forward every identity translation the tree
/// already holds for the addresses `covered` describes.
fn map_identity_region(
    mem: &mut Kmem,
    root: &PageTable,
    start: u64,
    region_end: u64,
    flags: u64,
    Ghost(covered): Ghost<spec_fn(u64) -> bool>,
) -> (r: Result<(), AllocError>)
    requires
        old(mem).wf(),
        root.wf_in(*old(mem)),
        no_mid_leaves(*old(mem), root.root_idx(*old(mem)), 2),
        flags & PTE_PBMT == 0,
        flags & PTE_RESERVED == 0,
        flags & PTE_PPN == 0,
        flags & PTE_RWX != 0,
        start % PAGE_SIZE == 0,
        start < region_end <= LAYOUT_LIMIT,
        forall|va2: u64| #[trigger] covered(va2) ==> va2 < 0x80_0000_0000,
        forall|va2: u64|
            #[trigger] covered(va2) ==> translate_rec(
                *old(mem),
                root.root_idx(*old(mem)),
                va2,
                2,
            ) == Some(va2),
    ensures
        final(mem).wf(),
        same_geometry(*old(mem), *final(mem)),
        root.wf_in(*final(mem)),
        root.root_idx(*final(mem)) == root.root_idx(*old(mem)),
        no_mid_leaves(*final(mem), root.root_idx(*final(mem)), 2),
        2 * region_pages(start, region_end) <= old(mem).free_seq().len() ==> r is Ok,
        final(mem).free_seq().len() >= old(mem).free_seq().len() - 2 * region_pages(
            start,
            region_end,
        ),
        forall|p: int| !old(mem).is_free(p) ==> !final(mem).is_free(p),
        forall|p: int|
            0 <= p < old(mem).spec_num_pages() && !(#[trigger] subtree_seq(
                *old(mem),
                root.root_idx(*old(mem)),
                2,
            ).contains(p)) && !old(mem).is_free(p) ==> page_unchanged(
                *old(mem),
                *final(mem),
                p,
            ),
        forall|p: int|
            #[trigger] subtree_seq(*final(mem), root.root_idx(*old(mem)), 2).contains(p)
                ==> subtree_seq(*old(mem), root.root_idx(*old(mem)), 2).contains(p) || old(
                mem,
            ).is_free(p),
        r is Ok ==> forall|va2: u64|
            covered(va2) || (start <= va2 < spec_page_ceil(region_end))
                ==> #[trigger] translate_rec(
                *final(mem),
                root.root_idx(*old(mem)),
                va2,
                2,
            ) == Some(va2),
{
    let ghost mk = *old(mem);
    let ghost ri = root.root_idx(mk);
    proof {
        assert(spec_page_floor(start) == start);
    }
    let r = root.map_range(mem, start, start, region_end, flags);
    if r.is_ok() {
        proof {
            let ceilp = spec_page_ceil(region_end);
            assert(spec_page_floor(start) == start);
            assert(ceilp % 4096 == 0 && start < ceilp <= LAYOUT_LIMIT + 4096);
            lemma_aligned_diff(ceilp, start as int);
            let npg = ((ceilp - start) / (PAGE_SIZE as int)) as nat;
            assert(npg >= 1 && start + npg * (PAGE_SIZE as int) == ceilp);
            assert forall|k: int, va2: u64|
                0 <= k < npg && #[trigger] agree_upto(
                    va2,
                    (start + k * (PAGE_SIZE as int)) as u64,
                    0,
                    2,
                ) implies translate_rec(*mem, ri, va2, 2) == Some(
                map_result((start + k * (PAGE_SIZE as int)) as u64, va2, 0),
            ) by {
                assert(translate(*mem, ri, va2) == Some(
                    map_result((spec_page_floor(start) + k * (PAGE_SIZE as int)) as u64, va2, 0),
                ));
            }
            assert forall|va2: u64|
                (forall|k: int|
                    0 <= k < npg ==> !(#[trigger] agree_upto(
                        va2,
                        (start + k * (PAGE_SIZE as int)) as u64,
                        0,
                        2,
                    ))) implies #[trigger] translate_rec(*mem, ri, va2, 2) == translate_rec(
                mk,
                ri,
                va2,
                2,
            ) by {
                assert(translate(*mem, ri, va2) == translate(mk, ri, va2));
            }
            lemma_identity_extend(mk, *mem, ri, start, npg, covered);
        }
        Ok(())
    } else {
        Err(AllocError::OutOfPages)
    }
}

/// Build the kernel's address space: allocate a fresh root table, map
/// identity ranges for every kernel region and for the fixed device
/// windows (UART, the VirtIO slots, CLINT, PLIC), and compute the
/// translation-control value that enables Sv39 over that root. On
/// success the whole kernel window resolves to itself. A heap holding
/// `init_page_budget` free pages cannot fail; a smaller one may run
/// out partway, and the error then leaves the tables already linked
/// checked out to the abandoned tree while every page checked out
/// before the call keeps its contents and stays checked out.
pub fn init(mem: &mut Kmem, layout: &MemoryLayout) -> (r: Result<Mmu, AllocError>)
    requires
        old(mem).wf(),
        layout.wf(),
    ensures
        final(mem).wf(),
        same_geometry(*old(mem), *final(mem)),
        forall|p: int| !old(mem).is_free(p) ==> !final(mem).is_free(p),
        forall|p: int|
            0 <= p < old(mem).spec_num_pages() && !old(mem).is_free(p) ==> page_unchanged(
                *old(mem),
                *final(mem),
                p,
            ),
        old(mem).free_seq().len() >= init_page_budget(*layout) ==> r is Ok,
        r matches Ok(m) ==> {
            &&& m.spec_page_table().wf_in(*final(mem))
            &&& no_mid_leaves(*final(mem), m.spec_page_table().root_idx(*final(mem)), 2)
            &&& m.spec_satp() == SATP_MODE_SV39_BITS | (m.spec_page_table().spec_root() >> 12)
            &&& (forall|p: int|
                #[trigger] subtree_seq(
                    *final(mem),
                    m.spec_page_table().root_idx(*final(mem)),
                    2,
                ).contains(p) ==> old(mem).is_free(p))
            &&& (forall|va2: u64|
                kernel_window(*layout, va2) ==> #[trigger] translate(
                    *final(mem),
                    m.spec_page_table().root_idx(*final(mem)),
                    va2,
                ) == Some(va2))
        },
{
    let ghost m0 = *old(mem);
    let ghost tt = region_pages(layout.text_start, layout.text_end);
    let ghost tr = region_pages(layout.rodata_start, layout.rodata_end);
    let ghost td = region_pages(layout.data_start, layout.data_end);
    let ghost tb = region_pages(layout.bss_start, layout.bss_end);
    let ghost ts = region_pages(layout.stack_start, layout.stack_end);
    let ghost tu = region_pages(UART_BASE, (UART_BASE + PAGE_SIZE) as u64);
    let ghost tv = region_pages(VIRTIO_BASE, (VIRTIO_BASE + 0x1000) as u64);
    let ghost tc = region_pages(CLINT_BASE, (CLINT_BASE + 0x1_0000) as u64);
    let ghost tp = region_pages(PLIC_BASE, (PLIC_BASE + 0x40_0000) as u64);
    proof {
        lemma_flag_bits();
        lemma_init_budget_terms(*layout);
        assert(init_page_budget(*layout) == 1 + 2 * (tt + tr + td + tb + ts + tu + 8 * tv + tc
            + tp));
    }
    let root = match PageTable::new(mem) {
        Err(e) => {
            proof {
                assert(m0.free_seq().len() == 0);
                assert(m0.free_seq().len() < init_page_budget(*layout));
                assert forall|p: int|
                    0 <= p < m0.spec_num_pages() && !m0.is_free(p) implies page_unchanged(
                    m0,
                    *mem,
                    p,
                ) by {
                    assert forall|x: int|
                        0 <= x < 512 implies #[trigger] mem.word(p, x) == m0.word(p, x) by {}
                }
            }
            return Err(e);
        },
        Ok(pt) => pt,
    };
    let ghost ri = root.root_idx(*mem);
    let rw = PTE_R | PTE_W;
    let rx = PTE_R | PTE_X;
    proof {
        let m1 = *mem;
        assert(m1.free_seq().len() == m0.free_seq().len() - 1);
        lemma_take_contains(m0.free_seq(), m0.free_seq().len() - 1);
        assert(m0.is_free(ri)) by {
            assert(m0.free_seq()[m0.free_seq().len() - 1] == ri);
        }
        assert forall|p: int| !m0.is_free(p) implies !m1.is_free(p) by {
            if m1.free_seq().contains(p) {
                assert(m0.free_seq().contains(p));
            }
        }
        assert forall|p: int|
            0 <= p < m0.spec_num_pages() && !m0.is_free(p) implies page_unchanged(
            m0,
            m1,
            p,
        ) by {
            assert(p != ri);
            assert forall|x: int| 0 <= x < 512 implies #[trigger] m1.word(p, x) == m0.word(
                p,
                x,
            ) by {}
        }
        assert forall|p: int| #[trigger] subtree_seq(m1, ri, 2).contains(p) implies m0.is_free(
            p,
        ) by {
            assert(seq![ri][0] == ri);
            assert(p == ri);
        }
    }
    let ghost cov0: spec_fn(u64) -> bool = |va: u64| false;
    let ghost mk1 = *mem;
    if let Err(e) = map_identity_region(
        mem,
        &root,
        layout.text_start,
        layout.text_end,
        rx,
        Ghost(cov0),
    ) {
        proof {
            lemma_init_step_frame(m0, mk1, *mem, ri);
            assert(m0.free_seq().len() < init_page_budget(*layout));
        }
        return Err(e);
    }
    proof {
        lemma_init_step_frame(m0, mk1, *mem, ri);
        assert(mem.free_seq().len() >= m0.free_seq().len() - (1 + 2 * tt));
    }
    let ghost cov1: spec_fn(u64) -> bool = |va: u64|
        layout.text_start <= va < spec_page_ceil(layout.text_end);
    let ghost mk2 = *mem;
    if let Err(e) = map_identity_region(
        mem,
        &root,
        layout.rodata_start,
        layout.rodata_end,
        rx,
        Ghost(cov1),
    ) {
        proof {
            lemma_init_step_frame(m0, mk2, *mem, ri);
            assert(m0.free_seq().len() < init_page_budget(*layout));
        }
        return Err(e);
    }
    proof {
        lemma_init_step_frame(m0, mk2, *mem, ri);
        assert(mem.free_seq().len() >= m0.free_seq().len() - (1 + 2 * (tt + tr)));
    }
    let ghost cov2: spec_fn(u64) -> bool = |va: u64|
        cov1(va) || layout.rodata_start <= va < spec_page_ceil(layout.rodata_end);
    let ghost mk3 = *mem;
    if let Err(e) = map_identity_region(
        mem,
        &root,
        layout.data_start,
        layout.data_end,
        rw,
        Ghost(cov2),
    ) {
        proof {
            lemma_init_step_frame(m0, mk3, *mem, ri);
            assert(m0.free_seq().len() < init_page_budget(*layout));
        }
        return Err(e);
    }
    proof {
        lemma_init_step_frame(m0, mk3, *mem, ri);
        assert(mem.free_seq().len() >= m0.free_seq().len() - (1 + 2 * (tt + tr + td)));
    }
    let ghost cov3: spec_fn(u64) -> bool = |va: u64|
        cov2(va) || layout.data_start <= va < spec_page_ceil(layout.data_end);
    let ghost mk4 = *mem;
    if let Err(e) = map_identity_region(
        mem,
        &root,
        layout.bss_start,
        layout.bss_end,
        rw,
        Ghost(cov3),
    ) {
        proof {
            lemma_init_step_frame(m0, mk4, *mem, ri);
            assert(m0.free_seq().len() < init_page_budget(*layout));
        }
        return Err(e);
    }
    proof {
        lemma_init_step_frame(m0, mk4, *mem, ri);
        assert(mem.free_seq().len() >= m0.free_seq().len() - (1 + 2 * (tt + tr + td + tb)));
    }
    let ghost cov4: spec_fn(u64) -> bool = |va: u64|
        cov3(va) || layout.bss_start <= va < spec_page_ceil(layout.bss_end);
    let ghost mk5 = *mem;
    if let Err(e) = map_identity_region(
        mem,
        &root,
        layout.stack_start,
        layout.stack_end,
        rw,
        Ghost(cov4),
    ) {
        proof {
            lemma_init_step_frame(m0, mk5, *mem, ri);
            assert(m0.free_seq().len() < init_page_budget(*layout));
        }
        return Err(e);
    }
    proof {
        lemma_init_step_frame(m0, mk5, *mem, ri);
        assert(mem.free_seq().len() >= m0.free_seq().len() - (1 + 2 * (tt + tr + td + tb
            + ts)));
    }
    let ghost cov5: spec_fn(u64) -> bool = |va: u64|
        cov4(va) || layout.stack_start <= va < spec_page_ceil(layout.stack_end);
    let ghost mk6 = *mem;
    if let Err(e) = map_identity_region(
        mem,
        &root,
        UART_BASE,
        UART_BASE + PAGE_SIZE,
        rw,
        Ghost(cov5),
    ) {
        proof {
            lemma_init_step_frame(m0, mk6, *mem, ri);
            assert(m0.free_seq().len() < init_page_budget(*layout));
        }
        return Err(e);
    }
    proof {
        lemma_init_step_frame(m0, mk6, *mem, ri);
        assert(mem.free_seq().len() >= m0.free_seq().len() - (1 + 2 * (tt + tr + td + tb + ts
            + tu)));
    }
    let ghost cov6: spec_fn(u64) -> bool = |va: u64|
        cov5(va) || UART_BASE <= va < UART_BASE + PAGE_SIZE;
    proof {
        assert(spec_page_ceil((UART_BASE + PAGE_SIZE) as u64) == UART_BASE + PAGE_SIZE);
        assert forall|va2: u64| cov6(va2) implies #[trigger] translate_rec(
            *mem,
            ri,
            va2,
            2,
        ) == Some(va2) by {}
    }
    let mut slot: usize = 0;
    while slot < VIRTIO_SLOTS
        invariant
            m0 == *old(mem),
            layout.wf(),
            mem.wf(),
            root.wf_in(*mem),
            root.root_idx(*mem) == ri,
            no_mid_leaves(*mem, ri, 2),
            same_geometry(m0, *mem),
            rw == PTE_R | PTE_W,
            slot <= VIRTIO_SLOTS,
            tt == region_pages(layout.text_start, layout.text_end),
            tr == region_pages(layout.rodata_start, layout.rodata_end),
            td == region_pages(layout.data_start, layout.data_end),
            tb == region_pages(layout.bss_start, layout.bss_end),
            ts == region_pages(layout.stack_start, layout.stack_end),
            tu == region_pages(UART_BASE, (UART_BASE + PAGE_SIZE) as u64),
            tv == region_pages(VIRTIO_BASE, (VIRTIO_BASE + 0x1000) as u64),
            tc == region_pages(CLINT_BASE, (CLINT_BASE + 0x1_0000) as u64),
            tp == region_pages(PLIC_BASE, (PLIC_BASE + 0x40_0000) as u64),
            mem.free_seq().len() >= m0.free_seq().len() - (1 + 2 * (tt + tr + td + tb + ts
                + tu) + 2 * slot),
            forall|p: int| !m0.is_free(p) ==> !mem.is_free(p),
            forall|p: int|
                0 <= p < m0.spec_num_pages() && !m0.is_free(p) ==> page_unchanged(m0, *mem, p),
            forall|p: int| #[trigger] subtree_seq(*mem, ri, 2).contains(p) ==> m0.is_free(p),
            forall|va2: u64| #[trigger] cov6(va2) ==> va2 < 0x80_0000_0000,
            forall|va2: u64|
                cov6(va2) || (slot > 0 && VIRTIO_BASE <= va2 < VIRTIO_BASE + 0x1000)
                    ==> #[trigger] translate_rec(*mem, ri, va2, 2) == Some(va2),
        decreases VIRTIO_SLOTS - slot,
    {
        proof {
            lemma_flag_bits();
            lemma_init_budget_terms(*layout);
        }
        let ghost mks = *mem;
        if let Err(e) = map_identity_region(
            mem,
            &root,
            VIRTIO_BASE,
            VIRTIO_BASE + 0x1000,
            rw,
            Ghost(cov6),
        ) {
            proof {
                lemma_init_step_frame(m0, mks, *mem, ri);
                assert(m0.free_seq().len() < init_page_budget(*layout));
            }
            return Err(e);
        }
        proof {
            lemma_init_step_frame(m0, mks, *mem, ri);
            assert(spec_page_ceil((VIRTIO_BASE + 0x1000) as u64) == VIRTIO_BASE + 0x1000);
        }
        slot = slot + 1;
    }
    let ghost cov7: spec_fn(u64) -> bool = |va: u64|
        cov6(va) || VIRTIO_BASE <= va < VIRTIO_BASE + 0x1000;
    let ghost mk7 = *mem;
    if let Err(e) = map_identity_region(
        mem,
        &root,
        CLINT_BASE,
        CLINT_BASE + 0x1_0000,
        rw,
        Ghost(cov7),
    ) {
        proof {
            lemma_init_step_frame(m0, mk7, *mem, ri);
            assert(m0.free_seq().len() < init_page_budget(*layout));
        }
        return Err(e);
    }
    proof {
        lemma_init_step_frame(m0, mk7, *mem, ri);
        assert(mem.free_seq().len() >= m0.free_seq().len() - (1 + 2 * (tt + tr + td + tb + ts
            + tu + 8 * tv + tc)));
    }
    let ghost cov8: spec_fn(u64) -> bool = |va: u64|
        cov7(va) || CLINT_BASE <= va < CLINT_BASE + 0x1_0000;
    proof {
        assert(spec_page_ceil((CLINT_BASE + 0x1_0000) as u64) == CLINT_BASE + 0x1_0000);
    }
    let ghost mk8 = *mem;
    if let Err(e) = map_identity_region(
        mem,
        &root,
        PLIC_BASE,
        PLIC_BASE + 0x40_0000,
        rw,
        Ghost(cov8),
    ) {
        proof {
            lemma_init_step_frame(m0, mk8, *mem, ri);
            assert(m0.free_seq().len() < init_page_budget(*layout));
        }
        return Err(e);
    }
    proof {
        lemma_init_step_frame(m0, mk8, *mem, ri);
        assert(spec_page_ceil((PLIC_BASE + 0x40_0000) as u64) == PLIC_BASE + 0x40_0000);
        assert forall|va2: u64| kernel_window(*layout, va2) implies #[trigger] translate_rec(
            *mem,
            ri,
            va2,
            2,
        ) == Some(va2) by {}
    }
    let root_addr = root.root();
    let satp = SATP_MODE_SV39_BITS | (root_addr >> 12);
    Ok(Mmu { page_table: root, satp })
}

/// All nine window spans of the kernel space hold at least one page.
proof fn lemma_init_budget_terms(layout: MemoryLayout)
    requires
        layout.wf(),
    ensures
        region_pages(layout.text_start, layout.text_end) >= 1,
        region_pages(layout.rodata_start, layout.rodata_end) >= 1,
        region_pages(layout.data_start, layout.data_end) >= 1,
        region_pages(layout.bss_start, layout.bss_end) >= 1,
        region_pages(layout.stack_start, layout.stack_end) >= 1,
        region_pages(UART_BASE, (UART_BASE + PAGE_SIZE) as u64) == 1,
        region_pages(VIRTIO_BASE, (VIRTIO_BASE + 0x1000) as u64) == 1,
        region_pages(CLINT_BASE, (CLINT_BASE + 0x1_0000) as u64) == 16,
        region_pages(PLIC_BASE, (PLIC_BASE + 0x40_0000) as u64) == 1024,
{
    lemma_region_pages_pos(layout.text_start, layout.text_end);
    lemma_region_pages_pos(layout.rodata_start, layout.rodata_end);
    lemma_region_pages_pos(layout.data_start, layout.data_end);
    lemma_region_pages_pos(layout.bss_start, layout.bss_end);
    lemma_region_pages_pos(layout.stack_start, layout.stack_end);
}

/// Recursive walk of `lookup`, mirroring `translate_rec` step for step.
fn lookup_rec(mem: &Kmem, t: usize, va: u64, lv: usize) -> (r: Option<u64>)
    requires
        mem.wf(),
        table_wf(*mem, t as int, lv as nat),
        lv <= 2,
    ensures
        r == translate_rec(*mem, t as int, va, lv as nat),
    decreases lv,
{
    let idx = vpn_of(va, lv);
    let e = PTE::new(mem.read_word(t, idx as usize));
    if !e.is_valid() {
        None
    } else if e.is_leaf() {
        let pa = ppn_to_paddr(e.get_ppn());
        let mask: u64 = if lv == 0 {
            0xfff
        } else if lv == 1 {
            0x1f_ffff
        } else {
            0x3fff_ffff
        };
        Some(pa | (va & mask))
    } else if lv == 0 {
        None
    } else {
        let pa = ppn_to_paddr(e.get_ppn());
        proof {
            assert(is_pointer(mem.word(t as int, idx as int)));
            assert(pa == spec_pte_paddr(mem.word(t as int, idx as int)));
        }
        let c = mem.page_index_of(pa);
        lookup_rec(mem, c, va, lv - 1)
    }
}

/// Free the subtrees hanging off entries `i..512` of table `t`, in slot
/// order, each child's pages before the child itself.
fn free_children(mem: &mut Kmem, t: usize, lv: usize, i: usize)
    requires
        old(mem).wf(),
        lv <= 2,
        i <= 512,
        t < old(mem).spec_num_pages(),
        table_wf(*old(mem), t as int, lv as nat),
        children_seq(*old(mem), t as int, lv as nat, i as int).no_duplicates(),
        forall|p: int|
            #[trigger] children_seq(*old(mem), t as int, lv as nat, i as int).contains(p)
                ==> !old(mem).is_free(p),
    ensures
        final(mem).wf(),
        same_geometry(*old(mem), *final(mem)),
        final(mem).words() == old(mem).words(),
        final(mem).free_seq() == old(mem).free_seq() + children_seq(
            *old(mem),
            t as int,
            lv as nat,
            i as int,
        ),
        final(mem).alloced() == old(mem).alloced() - children_seq(
            *old(mem),
            t as int,
            lv as nat,
            i as int,
        ).len(),
    decreases lv, 2nat, 512 - i,
{
    let ghost m0 = *old(mem);
    if i == 512 {
        proof {
            assert(m0.free_seq() + children_seq(m0, t as int, lv as nat, 512) =~= m0.free_seq());
        }
        return ;
    }
    let e = PTE::new(mem.read_word(t, i));
    if e.is_valid() && !e.is_leaf() {
        proof {
            assert(is_pointer(m0.word(t as int, i as int)));
        }
        let ghost sub = subtree_seq(m0, child_of(m0, m0.word(t as int, i as int)), (lv - 1) as nat);
        let ghost rest = children_seq(m0, t as int, lv as nat, i as int + 1);
        proof {
            lemma_no_dup_split(sub, rest);
            lemma_concat_contains(sub, rest);
        }
        let pa = ppn_to_paddr(e.get_ppn());
        proof {
            assert(pa == spec_pte_paddr(m0.word(t as int, i as int)));
        }
        let c = mem.page_index_of(pa);
        proof {
            assert(c as int == child_of(m0, m0.word(t as int, i as int)));
            assert(table_wf(m0, c as int, (lv - 1) as nat));
            assert(sub.no_duplicates());
            assert(tree_allocated(m0, c as int, (lv - 1) as nat)) by {
                assert forall|p: int|
                    #[trigger] subtree_seq(m0, c as int, (lv - 1) as nat).contains(
                        p,
                    ) implies !m0.is_free(p) by {
                    assert(sub.contains(p));
                    assert((sub + rest).contains(p));
                    assert(children_seq(m0, t as int, lv as nat, i as int).contains(p));
                }
            }
        }
        free_table(mem, c, lv - 1);
        let ghost m1 = *mem;
        proof {
            lemma_tree_same_words(m0, m1, t as int, lv as nat);
            lemma_children_same_words(m0, m1, t as int, lv as nat, i as int + 1);
            lemma_concat_contains(m0.free_seq(), sub);
            assert forall|p: int| #[trigger] children_seq(
                m1,
                t as int,
                lv as nat,
                i as int + 1,
            ).contains(p) implies !m1.is_free(p) by {
                assert(rest.contains(p));
                assert(children_seq(m0, t as int, lv as nat, i as int).contains(p));
            }
        }
        free_children(mem, t, lv, i + 1);
        proof {
            let mf = *mem;
            assert(mf.free_seq() == m1.free_seq() + children_seq(
                m1,
                t as int,
                lv as nat,
                i as int + 1,
            ));
            assert(mf.free_seq() =~= m0.free_seq() + children_seq(
                m0,
                t as int,
                lv as nat,
                i as int,
            ));
        }
    } else {
        proof {
            assert(children_seq(m0, t as int, lv as nat, i as int) == children_seq(
                m0,
                t as int,
                lv as nat,
                i as int + 1,
            ));
        }
        free_children(mem, t, lv, i + 1);
    }
}

/// Free the whole tree rooted at table `t`: all children, then `t`.
fn free_table(mem: &mut Kmem, t: usize, lv: usize)
    requires
        old(mem).wf(),
        lv <= 2,
        t < old(mem).spec_num_pages(),
        pt_wf(*old(mem), t as int, lv as nat),
    ensures
        final(mem).wf(),
        same_geometry(*old(mem), *final(mem)),
        final(mem).words() == old(mem).words(),
        final(mem).free_seq() == old(mem).free_seq() + subtree_seq(
            *old(mem),
            t as int,
            lv as nat,
        ),
        final(mem).alloced() == old(mem).alloced() - subtree_seq(
            *old(mem),
            t as int,
            lv as nat,
        ).len(),
    decreases lv, 3nat, 0nat,
{
    let ghost m0 = *old(mem);
    let ghost ch = children_seq(m0, t as int, lv as nat, 0);
    proof {
        lemma_no_dup_split(ch, seq![t as int]);
        lemma_concat_contains(ch, seq![t as int]);
        assert forall|p: int| #[trigger] ch.contains(p) implies !m0.is_free(p) by {
            assert(subtree_seq(m0, t as int, lv as nat).contains(p));
        }
    }
    free_children(mem, t, lv, 0);
    let ghost m1 = *mem;
    let addr = mem.page_address(t);
    proof {
        lemma_page_addr_props(m0, t as int);
        lemma_subtree_contains_root(m0, t as int, lv as nat);
        lemma_concat_contains(m0.free_seq(), ch);
        assert(!m0.is_free(t as int));
        assert(seq![t as int][0] == t as int);
        assert(!ch.contains(t as int)) by {
            if ch.contains(t as int) {
                assert(seq![t as int].contains(t as int));
            }
        }
        assert(!m1.is_free(t as int));
        assert(m1.addr_idx(addr) == t as int);
    }
    mem.kfree(addr);
    proof {
        assert(mem.free_seq() == m1.free_seq().push(t as int));
        assert(mem.free_seq() =~= m0.free_seq() + subtree_seq(m0, t as int, lv as nat));
    }
}

} // verus!
