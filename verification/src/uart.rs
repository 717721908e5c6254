//! UART register layout, status bits and initialization values.
//!
//! The device is driven by single-byte volatile reads and writes; the
//! checked logic is the divisor arithmetic and the exact, ordered
//! sequence of register writes that brings the device up.

use vstd::prelude::*;

verus! {

// Register indices, as byte offsets from the device base.

/// Receive holding register.
pub const RHR: usize = 0;

/// Transmit holding register.
pub const THR: usize = 0;

/// Interrupt enable register.
pub const IER: usize = 1;

pub const IER_RX_ENABLE: u8 = 1u8 << 0;

pub const IER_TX_ENABLE: u8 = 1u8 << 1;

/// FIFO control register.
pub const FCR: usize = 2;

pub const FCR_FIFO_ENABLE: u8 = 1u8 << 0;

/// Clears the content of the two FIFOs.
pub const FCR_FIFO_RESET: u8 = 0x3u8 << 1;

/// Line control register.
pub const LCR: usize = 3;

pub const LCR_EIGHT_BITS: u8 = 0x3u8;

/// Special mode that exposes the divisor latch.
pub const LCR_BAUD_LATCH: u8 = 1u8 << 7;

/// Line status register.
pub const LSR: usize = 5;

/// Input is waiting to be read from RHR.
pub const LSR_RX_READY: u8 = 1u8 << 0;

/// THR can accept another character.
pub const LSR_TX_IDLE: u8 = 1u8 << 5;

/// Clock frequency of the UART on this platform.
pub const CLOCK_HZ: usize = 3_686_400;

/// Configured baud rate.
pub const BAUD_RATE: usize = 2_400;

/// How bytes are pushed out: spinning on the line status, or letting
/// the transmit interrupt drain them.
pub enum UartWriteMode {
    SYNC,
    INTR,
}

/// Whether the line status says the transmitter can take a byte.
pub fn lsr_tx_idle(lsr: u8) -> (r: bool)
    ensures
        r == (lsr & LSR_TX_IDLE != 0),
{
    lsr & LSR_TX_IDLE != 0
}

/// Whether the line status says a received byte is waiting.
pub fn lsr_rx_ready(lsr: u8) -> (r: bool)
    ensures
        r == (lsr & LSR_RX_READY != 0),
{
    lsr & LSR_RX_READY != 0
}

/// The divisor the baud-rate latch must be fed:
/// `clock / (16 * baud)`, rounded up.
pub open spec fn spec_divisor(clock_hz: int, baud_rate: int) -> int {
    (clock_hz + 16 * baud_rate - 1) / (16 * baud_rate)
}

/// Compute the divisor's two latch bytes, low then high. A divisor that
/// does not fit the sixteen-bit latch means the requested rate is
/// impossible; the caller must treat that as a configuration fault.
pub fn baud_divisor(clock_hz: usize, baud_rate: usize) -> (r: (u8, u8))
    requires
        baud_rate > 0,
        16 * baud_rate <= clock_hz,
        clock_hz + 16 * baud_rate <= usize::MAX,
        spec_divisor(clock_hz as int, baud_rate as int) <= 0xffff,
    ensures
        r.0 == spec_divisor(clock_hz as int, baud_rate as int) % 256,
        r.1 == spec_divisor(clock_hz as int, baud_rate as int) / 256,
{
    let divisor: usize = (clock_hz + 16 * baud_rate - 1) / (16 * baud_rate);
    ((divisor % 256) as u8, (divisor / 256) as u8)
}

/// The ordered register writes that initialize the device: disable
/// interrupts, reset and enable the FIFOs, enable receive and transmit
/// interrupts, open the baud latch, write the divisor bytes, then close
/// the latch with an eight-bit, no-parity word format.
pub open spec fn spec_init_writes(lsb: u8, msb: u8) -> Seq<(usize, u8)> {
    seq![
        (IER, 0u8),
        (FCR, FCR_FIFO_RESET | FCR_FIFO_ENABLE),
        (IER, IER_TX_ENABLE | IER_RX_ENABLE),
        (LCR, LCR_BAUD_LATCH),
        (0usize, lsb),
        (1usize, msb),
        (LCR, LCR_EIGHT_BITS),
    ]
}

/// Produce the initialization sequence as register-index and value
/// pairs, in the order they must be written.
pub fn init_sequence(divisor_lsb: u8, divisor_msb: u8) -> (r: Vec<(usize, u8)>)
    ensures
        r@ == spec_init_writes(divisor_lsb, divisor_msb),
{
    let mut out: Vec<(usize, u8)> = Vec::new();
    out.push((IER, 0u8));
    out.push((FCR, FCR_FIFO_RESET | FCR_FIFO_ENABLE));
    out.push((IER, IER_TX_ENABLE | IER_RX_ENABLE));
    out.push((LCR, LCR_BAUD_LATCH));
    out.push((0usize, divisor_lsb));
    out.push((1usize, divisor_msb));
    out.push((LCR, LCR_EIGHT_BITS));
    proof {
        assert(out@ =~= spec_init_writes(divisor_lsb, divisor_msb));
    }
    out
}

} // verus!
