//! Memory management core of a small RISC-V supervisor-mode kernel.
//!
//! The crate covers the three layers that build an isolated address
//! space: a physical page allocator over a fixed heap range (`kmem`),
//! the Sv39 page-table walker with its bit-level entry codec (`mmu`),
//! and the process builder that owns a private root table and stack
//! (`proc`). Device drivers and boot code consume these layers through
//! plain values; the decision logic they rest on — control-register
//! field arithmetic, PLIC register layout, UART status bits and bring-up
//! sequence, the VirtIO handshake checks, trap dispatch, terminal
//! echoing — lives in the remaining modules.
//!
//! All mutable state lives in one explicitly constructed memory context
//! rather than in process-wide singletons, so every mutation demands an
//! exclusive borrow: sharing the allocator or a table across harts
//! requires a lock around the context, by construction rather than by
//! convention.

pub mod cpu;
pub mod csr;
pub mod kmem;
pub mod mmio;
pub mod mmu;
pub mod plic;
pub mod proc;
pub mod string;
pub mod term;
pub mod trap;
pub mod uart;
pub mod util;
pub mod virtio;
