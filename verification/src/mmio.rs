//! Typed handles for memory-mapped device registers.
//!
//! A device is a base address; a register is an address within it,
//! tagged at the type level with the value width it carries and the
//! accesses its permission marker allows. The volatile reads and writes
//! themselves are single instructions issued by the drivers; what is
//! checked here is the address arithmetic behind every handle.

use vstd::prelude::*;

verus! {

use core::marker::PhantomData;

/// Marker for a register access permission.
pub trait Permission {

}

/// Marker allowing reads.
pub trait Readable {

}

/// Marker allowing writes.
pub trait Writeable {

}

/// Read-only permission.
pub struct RPerm {}

impl Permission for RPerm {

}

impl Readable for RPerm {

}

/// Write-only permission.
pub struct WPerm {}

impl Permission for WPerm {

}

impl Writeable for WPerm {

}

/// Read-write permission.
pub struct RWPerm {}

impl Permission for RWPerm {

}

impl Readable for RWPerm {

}

impl Writeable for RWPerm {

}

/// A device's register window: its base address, with the register
/// value type fixed at the type level.
pub struct MMIODevice<T> {
    base: u64,
    value_type: PhantomData<T>,
}

/// One register of a device: an address, with value type and access
/// permission fixed at the type level.
pub struct MMIORegister<T, P: Permission> {
    address: u64,
    tags: PhantomData<(T, P)>,
}

impl<T> MMIODevice<T> {
    /// The device's base address.
    pub closed spec fn spec_base(self) -> u64 {
        self.base
    }

    /// A handle for the device at `base`.
    pub fn new(base: u64) -> (r: Self)
        ensures
            r.spec_base() == base,
    {
        MMIODevice { base, value_type: PhantomData }
    }

    /// The register at a byte offset, with the permission the caller
    /// picks.
    pub fn reg<P: Permission>(&self, offset: u64) -> (r: MMIORegister<T, P>)
        requires
            self.spec_base() + offset <= u64::MAX,
        ensures
            r.spec_address() == self.spec_base() + offset,
    {
        MMIORegister { address: self.base + offset, tags: PhantomData }
    }

    /// The read-write register at a byte offset.
    pub fn reg_rw(&self, offset: u64) -> (r: MMIORegister<T, RWPerm>)
        requires
            self.spec_base() + offset <= u64::MAX,
        ensures
            r.spec_address() == self.spec_base() + offset,
    {
        MMIORegister { address: self.base + offset, tags: PhantomData }
    }

    /// The read-only register at a byte offset.
    pub fn reg_r(&self, offset: u64) -> (r: MMIORegister<T, RPerm>)
        requires
            self.spec_base() + offset <= u64::MAX,
        ensures
            r.spec_address() == self.spec_base() + offset,
    {
        MMIORegister { address: self.base + offset, tags: PhantomData }
    }

    /// The write-only register at a byte offset.
    pub fn reg_w(&self, offset: u64) -> (r: MMIORegister<T, WPerm>)
        requires
            self.spec_base() + offset <= u64::MAX,
        ensures
            r.spec_address() == self.spec_base() + offset,
    {
        MMIORegister { address: self.base + offset, tags: PhantomData }
    }
}

impl<T, P: Permission> MMIORegister<T, P> {
    /// The register's address; the driver's volatile access happens
    /// through it.
    pub closed spec fn spec_address(self) -> u64 {
        self.address
    }

    /// The register's address, for the driver to access.
    pub fn address(&self) -> (r: u64)
        ensures
            r == self.spec_address(),
    {
        self.address
    }

    /// The register `i` values of this register's width further on.
    pub fn add(&self, i: usize) -> (r: Self)
        requires
            i * vstd::layout::size_of::<T>() <= usize::MAX,
            self.spec_address() + i * vstd::layout::size_of::<T>() <= u64::MAX,
        ensures
            r.spec_address() == self.spec_address() + i * vstd::layout::size_of::<T>(),
    {
        let width: usize = core::mem::size_of::<T>();
        MMIORegister { address: self.address + (i * width) as u64, tags: PhantomData }
    }

    /// The register a number of bytes further into the device.
    pub fn byte_add(&self, i: usize) -> (r: Self)
        requires
            self.spec_address() + i <= u64::MAX,
        ensures
            r.spec_address() == self.spec_address() + i,
    {
        MMIORegister { address: self.address + i as u64, tags: PhantomData }
    }
}

} // verus!
