//! Bit-exact behaviour of the entry codec and register field arithmetic.

use ryos::csr::{field_read, field_write, SATP_MODE, SATP_MODE_SV39, SSTATUS_SPP};
use ryos::mmu::{
    paddr_to_ppn, ppn_to_paddr, vpn_of, PTE, PTE_PPN, PTE_R, PTE_USER, PTE_VALID, PTE_W, PTE_X,
};

#[test]
fn leaf_entry_encodes_and_decodes() {
    let mut pte = PTE::new(0);
    pte.set_ppn(paddr_to_ppn(0x8000_2000));
    pte.set_flags(PTE_R | PTE_W);
    pte.validate();
    assert!(pte.is_valid());
    assert!(pte.is_leaf());
    assert_eq!(ppn_to_paddr(pte.get_ppn()), 0x8000_2000);
    assert_eq!(pte.bits(), (0x8000_2000u64 >> 12 << 10) | PTE_R | PTE_W | PTE_VALID);
}

#[test]
fn pointer_entry_is_not_a_leaf() {
    let mut pte = PTE::new(0);
    pte.set_ppn(paddr_to_ppn(0x8000_3000));
    pte.validate();
    assert!(pte.is_valid());
    assert!(!pte.is_leaf(), "an entry without R/W/X references a child table");
}

#[test]
fn set_ppn_replaces_field_in_place() {
    let mut pte = PTE::new(0);
    pte.set_ppn(paddr_to_ppn(0x8000_2000));
    pte.set_flags(PTE_USER | PTE_X);
    pte.set_ppn(paddr_to_ppn(0x8000_7000));
    assert_eq!(ppn_to_paddr(pte.get_ppn()), 0x8000_7000);
    assert_eq!(pte.bits() & !PTE_PPN, PTE_USER | PTE_X);
}

#[test]
fn zero_entry_is_invalid() {
    let pte = PTE::new(0);
    assert!(!pte.is_valid());
    assert!(!pte.is_leaf());
    assert_eq!(pte.get_ppn(), 0);
}

#[test]
fn vpn_slices_decompose_an_address() {
    // 0x1_0000_0000: bits 38:30 = 4, bits 29:21 = 0, bits 20:12 = 0.
    assert_eq!(vpn_of(0x1_0000_0000, 2), 4);
    assert_eq!(vpn_of(0x1_0000_0000, 1), 0);
    assert_eq!(vpn_of(0x1_0000_0000, 0), 0);
    assert_eq!(vpn_of(0x2000_0000, 2), 0);
    assert_eq!(vpn_of(0x2000_0000, 1), 0x100);
    assert_eq!(vpn_of(0x1_0000_3000, 0), 3);
}

#[test]
fn satp_field_arithmetic() {
    let satp = field_write(0, SATP_MODE, SATP_MODE_SV39);
    assert_eq!(satp, 8u64 << 60);
    assert_eq!(field_read(satp, SATP_MODE), SATP_MODE_SV39);
    assert_eq!(field_read(1u64 << 8, SSTATUS_SPP), 1);
    assert_eq!(field_read(0, SSTATUS_SPP), 0);
    // Writing a field keeps every other bit of the register.
    assert_eq!(field_write(u64::MAX, SATP_MODE, 0), 0x0FFF_FFFF_FFFF_FFFF);
}
