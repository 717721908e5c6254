//! Supervisor trap causes and the dispatch decisions.
//!
//! Reading the cause register, claiming interrupts and panicking are
//! hardware actions of the trap entry path; the decisions between them
//! — which causes are fatal, which are syscalls, which external
//! interrupt sources are serviced — are plain functions here.

use vstd::prelude::*;

verus! {

/// Bit the cause register sets for interrupts as opposed to exceptions.
pub const INTERRUPT_FLAG: u64 = 1u64 << 63;

/// PLIC source number of the UART.
pub const UART_IRQ: u32 = 0x0a;

/// Decoded value of the supervisor cause register.
#[derive(Clone, Copy, Debug, PartialEq, Eq, Structural)]
pub enum SCause {
    InstAddrMisaligned,
    InstAccessFault,
    InstIllegal,
    Breakpoint,
    LoadAddrMisaligned,
    LoadAccessFault,
    StoreAMOAddrMisaligned,
    StoreAMOAccessFault,
    EnvCallFromUMode,
    EnvCallFromSMode,
    InstPageFault,
    LoadPageFault,
    StoreAMOPageFault,
    SSoftwareInterrupt,
    STimerInterrupt,
    SExternalInterrupt,
}

/// The raw cause-register value each decoded cause stands for.
pub open spec fn spec_cause_code(c: SCause) -> u64 {
    match c {
        SCause::InstAddrMisaligned => 0,
        SCause::InstAccessFault => 1,
        SCause::InstIllegal => 2,
        SCause::Breakpoint => 3,
        SCause::LoadAddrMisaligned => 4,
        SCause::LoadAccessFault => 5,
        SCause::StoreAMOAddrMisaligned => 6,
        SCause::StoreAMOAccessFault => 7,
        SCause::EnvCallFromUMode => 8,
        SCause::EnvCallFromSMode => 9,
        SCause::InstPageFault => 12,
        SCause::LoadPageFault => 13,
        SCause::StoreAMOPageFault => 15,
        SCause::SSoftwareInterrupt => INTERRUPT_FLAG | 1,
        SCause::STimerInterrupt => INTERRUPT_FLAG | 5,
        SCause::SExternalInterrupt => INTERRUPT_FLAG | 9,
    }
}

/// Whether a raw cause-register value decodes to a known cause.
pub open spec fn spec_valid_cause(code: u64) -> bool {
    ||| code == 0
    ||| code == 1
    ||| code == 2
    ||| code == 3
    ||| code == 4
    ||| code == 5
    ||| code == 6
    ||| code == 7
    ||| code == 8
    ||| code == 9
    ||| code == 12
    ||| code == 13
    ||| code == 15
    ||| code == (INTERRUPT_FLAG | 1)
    ||| code == (INTERRUPT_FLAG | 5)
    ||| code == (INTERRUPT_FLAG | 9)
}

impl SCause {
    /// The raw cause-register value this cause stands for.
    pub fn code(&self) -> (r: u64)
        ensures
            r == spec_cause_code(*self),
    {
        match self {
            SCause::InstAddrMisaligned => 0,
            SCause::InstAccessFault => 1,
            SCause::InstIllegal => 2,
            SCause::Breakpoint => 3,
            SCause::LoadAddrMisaligned => 4,
            SCause::LoadAccessFault => 5,
            SCause::StoreAMOAddrMisaligned => 6,
            SCause::StoreAMOAccessFault => 7,
            SCause::EnvCallFromUMode => 8,
            SCause::EnvCallFromSMode => 9,
            SCause::InstPageFault => 12,
            SCause::LoadPageFault => 13,
            SCause::StoreAMOPageFault => 15,
            SCause::SSoftwareInterrupt => INTERRUPT_FLAG | 1,
            SCause::STimerInterrupt => INTERRUPT_FLAG | 5,
            SCause::SExternalInterrupt => INTERRUPT_FLAG | 9,
        }
    }

    /// Decode a raw cause-register value; unknown values are reported
    /// rather than trusted.
    pub fn from_code(code: u64) -> (r: Option<SCause>)
        ensures
            r is Some <==> spec_valid_cause(code),
            r matches Some(c) ==> spec_cause_code(c) == code,
    {
        if code == 0 {
            Some(SCause::InstAddrMisaligned)
        } else if code == 1 {
            Some(SCause::InstAccessFault)
        } else if code == 2 {
            Some(SCause::InstIllegal)
        } else if code == 3 {
            Some(SCause::Breakpoint)
        } else if code == 4 {
            Some(SCause::LoadAddrMisaligned)
        } else if code == 5 {
            Some(SCause::LoadAccessFault)
        } else if code == 6 {
            Some(SCause::StoreAMOAddrMisaligned)
        } else if code == 7 {
            Some(SCause::StoreAMOAccessFault)
        } else if code == 8 {
            Some(SCause::EnvCallFromUMode)
        } else if code == 9 {
            Some(SCause::EnvCallFromSMode)
        } else if code == 12 {
            Some(SCause::InstPageFault)
        } else if code == 13 {
            Some(SCause::LoadPageFault)
        } else if code == 15 {
            Some(SCause::StoreAMOPageFault)
        } else if code == (INTERRUPT_FLAG | 1) {
            Some(SCause::SSoftwareInterrupt)
        } else if code == (INTERRUPT_FLAG | 5) {
            Some(SCause::STimerInterrupt)
        } else if code == (INTERRUPT_FLAG | 9) {
            Some(SCause::SExternalInterrupt)
        } else {
            None
        }
    }

    /// The causes the kernel cannot survive: faults and misaligned
    /// accesses, as opposed to syscalls, breakpoints and interrupts.
    pub open spec fn spec_should_panic(self) -> bool {
        match self {
            SCause::InstAddrMisaligned => true,
            SCause::InstAccessFault => true,
            SCause::InstIllegal => true,
            SCause::LoadAddrMisaligned => true,
            SCause::LoadAccessFault => true,
            SCause::StoreAMOAddrMisaligned => true,
            SCause::StoreAMOAccessFault => true,
            SCause::InstPageFault => true,
            SCause::LoadPageFault => true,
            SCause::StoreAMOPageFault => true,
            _ => false,
        }
    }

    /// Whether a trap with this cause must halt the kernel.
    pub fn should_panic(&self) -> (r: bool)
        ensures
            r == self.spec_should_panic(),
    {
        match self {
            SCause::InstAddrMisaligned
            | SCause::InstAccessFault
            | SCause::InstIllegal
            | SCause::LoadAddrMisaligned
            | SCause::LoadAccessFault
            | SCause::StoreAMOAddrMisaligned
            | SCause::StoreAMOAccessFault
            | SCause::InstPageFault
            | SCause::LoadPageFault
            | SCause::StoreAMOPageFault => true,
            _ => false,
        }
    }
}

/// What the trap entry must do for one decoded trap.
#[derive(Clone, Copy, Debug, PartialEq, Eq, Structural)]
pub enum TrapAction {
    /// Halt: the trap came from user mode unexpectedly or is fatal.
    Fatal,
    /// Dispatch a system call.
    Syscall,
    /// Drain the pending external interrupts.
    ExternalInterrupts,
    /// Nothing to do.
    Ignore,
}

/// The dispatch rule of the trap handler.
pub open spec fn spec_trap_action(from_supervisor: bool, cause: SCause) -> TrapAction {
    if !from_supervisor {
        TrapAction::Fatal
    } else if cause.spec_should_panic() {
        TrapAction::Fatal
    } else if cause is EnvCallFromUMode {
        TrapAction::Syscall
    } else if cause is SExternalInterrupt {
        TrapAction::ExternalInterrupts
    } else {
        TrapAction::Ignore
    }
}

/// Decide what a trap requires: traps that did not originate in
/// supervisor mode and fatal causes halt; an environment call becomes a
/// syscall; an external interrupt starts the claim loop; the rest are
/// ignored.
pub fn trap_action(from_supervisor: bool, cause: SCause) -> (r: TrapAction)
    ensures
        r == spec_trap_action(from_supervisor, cause),
{
    if !from_supervisor {
        TrapAction::Fatal
    } else if cause.should_panic() {
        TrapAction::Fatal
    } else if matches!(cause, SCause::EnvCallFromUMode) {
        TrapAction::Syscall
    } else if matches!(cause, SCause::SExternalInterrupt) {
        TrapAction::ExternalInterrupts
    } else {
        TrapAction::Ignore
    }
}

/// What the claim loop must do for one claimed interrupt source.
#[derive(Clone, Copy, Debug, PartialEq, Eq, Structural)]
pub enum IrqAction {
    /// Source zero: nothing is pending, leave the loop.
    Done,
    /// The UART raised it: service the byte.
    Uart,
    /// A known source the kernel ignores.
    Ignore,
    /// A source the kernel does not recognise; report it.
    Unexpected,
}

/// The claim-loop rule.
pub open spec fn spec_irq_action(irq: u32) -> IrqAction {
    if irq == 0 {
        IrqAction::Done
    } else if 1 <= irq <= 8 {
        IrqAction::Ignore
    } else if irq == UART_IRQ {
        IrqAction::Uart
    } else {
        IrqAction::Unexpected
    }
}

/// Decide what one claimed interrupt source requires.
pub fn irq_action(irq: u32) -> (r: IrqAction)
    ensures
        r == spec_irq_action(irq),
{
    if irq == 0 {
        IrqAction::Done
    } else if irq >= 1 && irq <= 8 {
        IrqAction::Ignore
    } else if irq == UART_IRQ {
        IrqAction::Uart
    } else {
        IrqAction::Unexpected
    }
}

} // verus!
