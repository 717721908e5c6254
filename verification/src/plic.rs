//! Register layout of the platform-level interrupt controller.
//!
//! The controller is driven by single volatile reads and writes; what
//! deserves checking is the address arithmetic that locates each
//! register and the bit arithmetic of the enable words, which live here
//! as plain functions over hart, context and source numbers.

use vstd::prelude::*;

verus! {

use crate::kmem::PLIC_BASE;

/// Byte offset of the per-source priority registers.
pub const PLIC_PRIORITY_OFFSET: u64 = 0x0000;

/// Byte offset of the per-context enable words.
pub const PLIC_ENABLE_OFFSET: u64 = 0x2000;

/// Byte offset of the per-context threshold registers.
pub const PLIC_THRESHOLD_OFFSET: u64 = 0x20_0000;

/// Byte offset of the per-context claim and complete register.
pub const PLIC_CLAIM_OFFSET: u64 = 0x20_0004;

/// Number of interrupt contexts the controller provides.
pub const PLIC_CONTEXTS: usize = 15872;

/// Privilege level an interrupt context belongs to.
#[derive(Clone, Copy, Debug, PartialEq, Eq, Structural)]
pub enum PlicPrivilege {
    Machine,
    Supervisor,
}

/// Position of each privilege within a hart's pair of contexts.
pub open spec fn spec_privilege_index(p: PlicPrivilege) -> int {
    match p {
        PlicPrivilege::Machine => 0,
        PlicPrivilege::Supervisor => 1,
    }
}

impl PlicPrivilege {
    /// Position of this privilege within a hart's pair of contexts.
    pub fn index(&self) -> (r: usize)
        ensures
            r == spec_privilege_index(*self),
    {
        match self {
            PlicPrivilege::Machine => 0,
            PlicPrivilege::Supervisor => 1,
        }
    }

    /// The interrupt context of this privilege on the given hart: two
    /// contexts per hart, machine first. The controller only has
    /// `PLIC_CONTEXTS` of them.
    pub fn context(&self, hart: usize) -> (r: usize)
        requires
            hart * 2 + 1 < PLIC_CONTEXTS,
        ensures
            r == hart * 2 + spec_privilege_index(*self),
            r < PLIC_CONTEXTS,
    {
        hart * 2 + self.index()
    }
}

/// Address of the enable word holding `irq`'s bit for a context, and
/// the bit's position within it: 32 sources per word, `0x80` bytes of
/// enable words per context.
pub fn enable_register(context: usize, irq: u32) -> (r: (u64, u32))
    requires
        context < PLIC_CONTEXTS,
        irq != 0,
        irq < 1024,
    ensures
        r.0 == PLIC_BASE + PLIC_ENABLE_OFFSET + 0x80 * (context as int) + 4 * (irq / 32),
        r.1 == irq % 32,
        r.1 < 32,
{
    (
        PLIC_BASE + PLIC_ENABLE_OFFSET + 0x80 * (context as u64) + 4 * ((irq / 32) as u64),
        irq % 32,
    )
}

/// An enable word with one more source switched on.
pub fn enable_value(word: u32, bit: u32) -> (r: u32)
    requires
        bit < 32,
    ensures
        r == word | (1u32 << bit),
{
    word | (1u32 << bit)
}

/// Address of the priority register of a source.
pub fn priority_register(irq: u32) -> (r: u64)
    requires
        irq != 0,
        irq < 1024,
    ensures
        r == PLIC_BASE + PLIC_PRIORITY_OFFSET + 4 * irq,
{
    PLIC_BASE + PLIC_PRIORITY_OFFSET + 4 * (irq as u64)
}

/// Address of the threshold register of a context. Priorities and
/// thresholds run from 0 to 7.
pub fn threshold_register(context: usize) -> (r: u64)
    requires
        context < PLIC_CONTEXTS,
    ensures
        r == PLIC_BASE + PLIC_THRESHOLD_OFFSET + 0x1000 * (context as int),
{
    PLIC_BASE + PLIC_THRESHOLD_OFFSET + 0x1000 * (context as u64)
}

/// Address the claim register of a context is read at.
pub fn claim_register(context: usize) -> (r: u64)
    requires
        context < PLIC_CONTEXTS,
    ensures
        r == PLIC_BASE + PLIC_CLAIM_OFFSET + 0x1000 * (context as int),
{
    PLIC_BASE + PLIC_CLAIM_OFFSET + 0x1000 * (context as u64)
}

/// Address the completion of a claimed source is written at: the driver
/// steps the claim register by whole words per context.
pub fn complete_register(context: usize) -> (r: u64)
    requires
        context < PLIC_CONTEXTS,
    ensures
        r == PLIC_BASE + PLIC_CLAIM_OFFSET + 0x4000 * (context as int),
{
    PLIC_BASE + PLIC_CLAIM_OFFSET + 0x4000 * (context as u64)
}

/// Largest priority or threshold value the controller accepts.
pub const PLIC_MAX_PRIORITY: u32 = 7;

} // verus!
