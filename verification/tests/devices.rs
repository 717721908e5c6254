//! Driver-side decision logic: terminal echo, ring buffer, UART
//! bring-up, PLIC layout, trap dispatch and the VirtIO handshake.

use ryos::kmem::{Kmem, PAGE_SIZE, PLIC_BASE};
use ryos::mmio::MMIODevice;
use ryos::plic::{
    claim_register, complete_register, enable_register, enable_value, priority_register,
    threshold_register, PlicPrivilege,
};
use ryos::string::memset;
use ryos::term::handle_byte;
use ryos::trap::{irq_action, trap_action, IrqAction, SCause, TrapAction, UART_IRQ};
use ryos::uart::{baud_divisor, init_sequence, lsr_rx_ready, lsr_tx_idle, BAUD_RATE, CLOCK_HZ};
use ryos::util::CircularBuffer;
use ryos::virtio::{
    alloc_block_queue, check_queue, device_id_from_code, features_accepted,
    negotiate_block_features, probe, split_addr, QueueError, VirtIODeviceId, STATUS_FEATURES_OK,
    VIRTIO_MAGIC, VIRTIO_QUEUE_LEN, VIRTIO_VERSION,
};

#[test]
fn terminal_echo_rules() {
    assert_eq!(handle_byte(0x08), vec![0x08, 0x20, 0x08]);
    assert_eq!(handle_byte(0x7F), vec![0x08, 0x20, 0x08]);
    assert_eq!(handle_byte(0x0A), vec![0x0D, 0x0A]);
    assert_eq!(handle_byte(0x0D), vec![0x0D, 0x0A]);
    assert_eq!(handle_byte(b'x'), vec![b'x']);
}

#[test]
fn ring_buffer_is_first_in_first_out() {
    let mut buf: CircularBuffer<u8, 4> = CircularBuffer::new();
    assert!(buf.is_empty());
    assert!(!buf.is_full());
    assert_eq!(buf.read(), None);
    assert_eq!(buf.write(1), Some(()));
    assert_eq!(buf.write(2), Some(()));
    assert_eq!(buf.write(3), Some(()));
    assert_eq!(buf.write(4), Some(()));
    assert!(buf.is_full());
    assert_eq!(buf.write(5), None, "a full buffer drops the write");
    assert_eq!(buf.read(), Some(1));
    assert_eq!(buf.read(), Some(2));
    assert_eq!(buf.write(6), Some(()));
    assert_eq!(buf.read(), Some(3));
    assert_eq!(buf.read(), Some(4));
    assert_eq!(buf.read(), Some(6));
    assert_eq!(buf.read(), None);
    assert!(buf.is_empty());
}

#[test]
fn ring_buffer_carries_owned_values() {
    let mut buf: CircularBuffer<String, 2> = CircularBuffer::new();
    assert_eq!(buf.write(String::from("first")), Some(()));
    assert_eq!(buf.write(String::from("second")), Some(()));
    assert_eq!(buf.write(String::from("third")), None);
    assert_eq!(buf.read().as_deref(), Some("first"));
    assert_eq!(buf.read().as_deref(), Some("second"));
    assert_eq!(buf.read(), None);
}

#[test]
fn uart_divisor_rounds_up() {
    // 100000 / 9600 is not whole; the divisor rounds up to 11.
    assert_eq!(baud_divisor(100_000, 600), (11, 0));
    // A divisor above one byte splits across the two latch bytes.
    assert_eq!(baud_divisor(16 * 300 * 0x1_02, 300), (2, 1));
}

#[test]
fn uart_divisor_and_bring_up_sequence() {
    // ceil(3686400 / (16 * 2400)) = 96.
    let (lsb, msb) = baud_divisor(CLOCK_HZ, BAUD_RATE);
    assert_eq!((lsb, msb), (96, 0));
    let writes = init_sequence(lsb, msb);
    assert_eq!(
        writes,
        vec![
            (1, 0x00),        // interrupts off
            (2, 0x07),        // FIFOs reset and enabled
            (1, 0x03),        // receive and transmit interrupts on
            (3, 0x80),        // baud latch open
            (0, 96),          // divisor low byte
            (1, 0),           // divisor high byte
            (3, 0x03),        // latch closed, eight bits, no parity
        ]
    );
}

#[test]
fn uart_line_status_bits() {
    assert!(lsr_tx_idle(0x20));
    assert!(!lsr_tx_idle(0x01));
    assert!(lsr_rx_ready(0x01));
    assert!(!lsr_rx_ready(0x20));
}

#[test]
fn plic_register_addresses() {
    let sup = PlicPrivilege::Supervisor;
    let mach = PlicPrivilege::Machine;
    assert_eq!(mach.context(0), 0);
    assert_eq!(sup.context(0), 1);
    assert_eq!(sup.context(3), 7);
    let (addr, bit) = enable_register(sup.context(0), UART_IRQ);
    assert_eq!(addr, PLIC_BASE + 0x2000 + 0x80);
    assert_eq!(bit, UART_IRQ % 32);
    let (addr2, bit2) = enable_register(mach.context(1), 40);
    assert_eq!(addr2, PLIC_BASE + 0x2000 + 0x100 + 4);
    assert_eq!(bit2, 8);
    assert_eq!(enable_value(0, 10), 1 << 10);
    assert_eq!(enable_value(0b1001, 1), 0b1011);
    assert_eq!(priority_register(UART_IRQ), PLIC_BASE + 4 * UART_IRQ as u64);
    assert_eq!(threshold_register(1), PLIC_BASE + 0x20_0000 + 0x1000);
    assert_eq!(claim_register(1), PLIC_BASE + 0x20_0004 + 0x1000);
    assert_eq!(complete_register(1), PLIC_BASE + 0x20_0004 + 0x4000);
}

#[test]
fn cause_codes_round_trip() {
    let causes = [
        SCause::InstAddrMisaligned,
        SCause::InstAccessFault,
        SCause::InstIllegal,
        SCause::Breakpoint,
        SCause::LoadAddrMisaligned,
        SCause::LoadAccessFault,
        SCause::StoreAMOAddrMisaligned,
        SCause::StoreAMOAccessFault,
        SCause::EnvCallFromUMode,
        SCause::EnvCallFromSMode,
        SCause::InstPageFault,
        SCause::LoadPageFault,
        SCause::StoreAMOPageFault,
        SCause::SSoftwareInterrupt,
        SCause::STimerInterrupt,
        SCause::SExternalInterrupt,
    ];
    for c in causes {
        assert_eq!(SCause::from_code(c.code()), Some(c));
    }
    assert_eq!(SCause::from_code(10), None);
    assert_eq!(SCause::from_code(16), None);
    assert_eq!(SCause::from_code((1u64 << 63) | 2), None);
}

#[test]
fn fatal_causes_and_dispatch() {
    assert!(SCause::LoadPageFault.should_panic());
    assert!(SCause::InstAccessFault.should_panic());
    assert!(!SCause::Breakpoint.should_panic());
    assert!(!SCause::EnvCallFromUMode.should_panic());
    assert!(!SCause::STimerInterrupt.should_panic());
    assert_eq!(trap_action(false, SCause::Breakpoint), TrapAction::Fatal);
    assert_eq!(trap_action(true, SCause::StoreAMOPageFault), TrapAction::Fatal);
    assert_eq!(trap_action(true, SCause::EnvCallFromUMode), TrapAction::Syscall);
    assert_eq!(trap_action(true, SCause::SExternalInterrupt), TrapAction::ExternalInterrupts);
    assert_eq!(trap_action(true, SCause::STimerInterrupt), TrapAction::Ignore);
    assert_eq!(irq_action(0), IrqAction::Done);
    assert_eq!(irq_action(5), IrqAction::Ignore);
    assert_eq!(irq_action(UART_IRQ), IrqAction::Uart);
    assert_eq!(irq_action(99), IrqAction::Unexpected);
}

#[test]
fn mmio_register_addresses() {
    let dev: MMIODevice<u32> = MMIODevice::new(0x1000_0000);
    assert_eq!(dev.reg_rw(0x70).address(), 0x1000_0070);
    assert_eq!(dev.reg_r(0x04).address(), 0x1000_0004);
    assert_eq!(dev.reg_w(0x90).address(), 0x1000_0090);
    assert_eq!(dev.reg_w(0x90).byte_add(4).address(), 0x1000_0094);
}

#[test]
fn memset_fills_a_prefix() {
    let mut buf = vec![0xAAu8; 8];
    memset(&mut buf, 0, 5);
    assert_eq!(buf, vec![0, 0, 0, 0, 0, 0xAA, 0xAA, 0xAA]);
}

#[test]
fn virtio_probe_and_negotiation() {
    assert!(probe(VIRTIO_MAGIC, VIRTIO_VERSION, 2));
    assert!(!probe(0xDEAD_BEEF, VIRTIO_VERSION, 2));
    assert!(!probe(VIRTIO_MAGIC, 1, 2));
    assert!(!probe(VIRTIO_MAGIC, VIRTIO_VERSION, 0));
    assert_eq!(device_id_from_code(2), Some(VirtIODeviceId::Block));
    assert_eq!(device_id_from_code(16), Some(VirtIODeviceId::GPU));
    assert_eq!(device_id_from_code(6), None);
    // Read-only, cache-control and multi-queue offers are refused.
    let offered: u32 = (1 << 5) | (1 << 11) | (1 << 12) | (1 << 0) | (1 << 2);
    assert_eq!(negotiate_block_features(offered), (1 << 0) | (1 << 2));
    assert!(features_accepted(STATUS_FEATURES_OK));
    assert!(!features_accepted(0));
}

#[test]
fn virtio_queue_checks_and_split() {
    assert_eq!(check_queue(1, 8), Err(QueueError::InUse));
    assert_eq!(check_queue(0, 0), Err(QueueError::Unavailable));
    assert_eq!(check_queue(0, 4), Err(QueueError::TooShort));
    assert_eq!(check_queue(0, 8), Ok(()));
    assert_eq!(check_queue(0, 256), Ok(()));
    assert_eq!(split_addr(0x1_2345_6789), (0x2345_6789, 0x1));
    assert_eq!(split_addr(0xFFF), (0xFFF, 0));
}

#[test]
fn virtio_queue_allocation_and_exhaustion() {
    let mut mem = Kmem::init(0x8000_0000, 0x8000_0000 + 8 * PAGE_SIZE);
    let q = alloc_block_queue(&mut mem).unwrap();
    assert_eq!(q.num, VIRTIO_QUEUE_LEN);
    assert_eq!(mem.free_page_count(), 5);
    assert_ne!(q.desc, q.avail);
    assert_ne!(q.avail, q.used);
    assert_ne!(q.desc, q.used);
    assert_eq!(q.desc % PAGE_SIZE, 0);
    let mut small = Kmem::init(0x8000_0000, 0x8000_0000 + 2 * PAGE_SIZE);
    assert!(alloc_block_queue(&mut small).is_err());
    assert_eq!(small.free_page_count(), 2, "a failed queue allocation leaks nothing");
}
