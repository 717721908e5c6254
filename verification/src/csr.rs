//! Values and field arithmetic for the control and status registers.
//!
//! The hardware accesses themselves are single instructions that only
//! the boot and trap paths issue; what is worth checking is the bit
//! arithmetic that positions a field inside a register, which lives here
//! as `field_read` and `field_write` over plain 64-bit values.

use vstd::prelude::*;

verus! {

use vstd::std_specs::bits::u64_trailing_zeros;

// Machine status: previous privilege mode.
pub const MSTATUS_MPP: u64 = 0x3u64 << 11;

pub const MSTATUS_MPP_M: u64 = 3;

pub const MSTATUS_MPP_S: u64 = 1;

pub const MSTATUS_MPP_U: u64 = 0;

// Physical memory protection configuration.
pub const PMPCFG_A: u64 = 0x3u64 << 3;

pub const PMPCFG_A_OFF: u64 = 0;

pub const PMPCFG_A_TOR: u64 = 1;

pub const PMPCFG_A_NA4: u64 = 2;

pub const PMPCFG_A_NAPOT: u64 = 3;

pub const PMPCFG_X: u64 = 1u64 << 2;

pub const PMPCFG_W: u64 = 1u64 << 1;

pub const PMPCFG_R: u64 = 1u64 << 0;

// Supervisor status: previous privilege.
pub const SSTATUS_SPP: u64 = 1u64 << 8;

// Supervisor interrupt enables.
pub const SIE_SEIE: u64 = 1u64 << 9;

pub const SIE_STIE: u64 = 1u64 << 5;

pub const SIE_SSIE: u64 = 1u64 << 1;

// Supervisor address translation and protection.
pub const SATP_MODE: u64 = 0xfu64 << 60;

pub const SATP_MODE_SV39: u64 = 8;

pub const SATP_MODE_SV48: u64 = 9;

pub const SATP_MODE_SV57: u64 = 10;

pub const SATP_PPN: u64 = 0xfff_ffff_ffffu64;

/// The mask is one contiguous run of set bits: shifting away its
/// trailing zeros leaves a value one less than a power of two.
pub open spec fn mask_contiguous(mask: u64) -> bool {
    &&& mask != 0
    &&& ((mask >> (u64_trailing_zeros(mask) as u64)) & (((mask >> (u64_trailing_zeros(
        mask,
    ) as u64)) + 1) as u64)) == 0
}

/// Read the field positioned inside the contiguous bitmask `mask` out
/// of a register value.
pub fn field_read(reg: u64, mask: u64) -> (r: u64)
    requires
        mask_contiguous(mask),
    ensures
        r == (reg & mask) >> (u64_trailing_zeros(mask) as u64),
{
    (reg & mask) >> mask.trailing_zeros() as u64
}

/// Write `value` into the field positioned inside the contiguous
/// bitmask `mask`, keeping every other bit of the register. The value
/// must fit the field; one too wide is an invariant violation in the
/// caller.
pub fn field_write(reg: u64, mask: u64, value: u64) -> (r: u64)
    requires
        mask_contiguous(mask),
        value <= mask >> (u64_trailing_zeros(mask) as u64),
    ensures
        r == (reg & !mask) | (value << (u64_trailing_zeros(mask) as u64)),
{
    proof {
        vstd::std_specs::bits::axiom_u64_trailing_zeros(mask);
        assert((value << (u64_trailing_zeros(mask) as u64)) <= u64::MAX) by {}
    }
    (reg & !mask) | (value << mask.trailing_zeros() as u64)
}

} // verus!
