//! Typed virtual and physical addresses for the sv39 translation scheme.
//!
//! A virtual address decomposes into a 12-bit page offset and three 9-bit
//! virtual page numbers (VPN0..VPN2). A physical address decomposes into a
//! 12-bit page offset, two 9-bit physical page numbers (PPN0, PPN1) and one
//! 26-bit physical page number (PPN2). The raw 64-bit pattern orders both.

use vstd::prelude::*;

verus! {

/// Field of a virtual address: bits 12..21.
pub open spec fn spec_vpn0(bits: u64) -> u64 {
    (bits >> 12) & 0x1ff
}

/// Field of a virtual address: bits 21..30.
pub open spec fn spec_vpn1(bits: u64) -> u64 {
    (bits >> 21) & 0x1ff
}

/// Field of a virtual address: bits 30..39.
pub open spec fn spec_vpn2(bits: u64) -> u64 {
    (bits >> 30) & 0x1ff
}

/// The virtual page number of `bits` at `level`, for levels 0..3.
pub open spec fn spec_vpn(bits: u64, level: int) -> u64 {
    if level == 0 {
        spec_vpn0(bits)
    } else if level == 1 {
        spec_vpn1(bits)
    } else {
        spec_vpn2(bits)
    }
}

/// Field of a physical address: bits 12..21.
pub open spec fn spec_ppn0(bits: u64) -> u64 {
    (bits >> 12) & 0x1ff
}

/// Field of a physical address: bits 21..30.
pub open spec fn spec_ppn1(bits: u64) -> u64 {
    (bits >> 21) & 0x1ff
}

/// Field of a physical address: bits 30..56 (26 bits wide).
pub open spec fn spec_ppn2(bits: u64) -> u64 {
    (bits >> 30) & 0x3ffffff
}

/// A 64-bit virtual address.
#[derive(Clone, Copy, Debug, PartialEq, Eq, Structural)]
pub struct VirtAddr {
    pub bits: u64,
}

impl VirtAddr {
    /// Wraps a raw 64-bit pattern as a virtual address.
    pub fn new(bits: u64) -> (r: Self)
        ensures
            r.bits == bits,
    {
        VirtAddr { bits }
    }

    /// The three virtual page numbers, lowest level first.
    pub fn vpn(&self) -> (r: [u64; 3])
        ensures
            r[0] == spec_vpn0(self.bits),
            r[1] == spec_vpn1(self.bits),
            r[2] == spec_vpn2(self.bits),
    {
        [(self.bits >> 12) & 0x1ff, (self.bits >> 21) & 0x1ff, (self.bits >> 30) & 0x1ff]
    }

    /// The raw 64-bit pattern.
    pub fn as_u64(&self) -> (r: u64)
        ensures
            r == self.bits,
    {
        self.bits
    }

    /// The raw pattern as a pointer-sized integer.
    pub fn as_usize(&self) -> (r: usize)
        requires
            self.bits <= usize::MAX,
        ensures
            r == self.bits,
    {
        self.bits as usize
    }

    /// Moves this address forward by `a` bytes.
    pub fn add(&mut self, a: usize)
        requires
            old(self).bits + a <= u64::MAX,
        ensures
            final(self).bits == old(self).bits + a,
    {
        self.bits = self.bits + a as u64;
    }

    /// Moves this address back by `a` bytes.
    pub fn sub(&mut self, a: usize)
        requires
            a <= old(self).bits,
        ensures
            final(self).bits == old(self).bits - a,
    {
        self.bits = self.bits - a as u64;
    }

    /// The address `offset` bytes past this one.
    pub fn at_offset(&self, offset: usize) -> (r: Self)
        requires
            self.bits + offset <= u64::MAX,
        ensures
            r.bits == self.bits + offset,
    {
        let mut new = self.clone();
        new.add(offset);
        new
    }
}

impl PartialOrd for VirtAddr {
    /// Virtual addresses order as their raw 64-bit patterns.
    fn partial_cmp(&self, other: &VirtAddr) -> (r: Option<core::cmp::Ordering>) {
        if self.bits < other.bits {
            Some(core::cmp::Ordering::Less)
        } else if self.bits == other.bits {
            Some(core::cmp::Ordering::Equal)
        } else {
            Some(core::cmp::Ordering::Greater)
        }
    }
}

impl vstd::std_specs::cmp::PartialOrdSpecImpl for VirtAddr {
    open spec fn obeys_partial_cmp_spec() -> bool {
        true
    }

    open spec fn partial_cmp_spec(&self, other: &VirtAddr) -> Option<core::cmp::Ordering> {
        if self.bits < other.bits {
            Some(core::cmp::Ordering::Less)
        } else if self.bits == other.bits {
            Some(core::cmp::Ordering::Equal)
        } else {
            Some(core::cmp::Ordering::Greater)
        }
    }
}

/// A 64-bit physical address.
#[derive(Clone, Copy, Debug, PartialEq, Eq, Structural)]
pub struct PhysAddr {
    pub bits: u64,
}

impl PhysAddr {
    /// Wraps a raw 64-bit pattern as a physical address.
    pub fn new(bits: u64) -> (r: Self)
        ensures
            r.bits == bits,
    {
        PhysAddr { bits }
    }

    /// The three physical page numbers, lowest level first.
    pub fn ppn(&self) -> (r: [u64; 3])
        ensures
            r[0] == spec_ppn0(self.bits),
            r[1] == spec_ppn1(self.bits),
            r[2] == spec_ppn2(self.bits),
    {
        [(self.bits >> 12) & 0x1ff, (self.bits >> 21) & 0x1ff, (self.bits >> 30) & 0x3ffffff]
    }

    /// The raw 64-bit pattern.
    pub fn as_u64(&self) -> (r: u64)
        ensures
            r == self.bits,
    {
        self.bits
    }

    /// The raw pattern as a pointer-sized integer.
    pub fn as_usize(&self) -> (r: usize)
        requires
            self.bits <= usize::MAX,
        ensures
            r == self.bits,
    {
        self.bits as usize
    }

    /// Moves this address forward by `a` bytes.
    pub fn add(&mut self, a: usize)
        requires
            old(self).bits + a <= u64::MAX,
        ensures
            final(self).bits == old(self).bits + a,
    {
        self.bits = self.bits + a as u64;
    }

    /// Moves this address back by `a` bytes.
    pub fn sub(&mut self, a: usize)
        requires
            a <= old(self).bits,
        ensures
            final(self).bits == old(self).bits - a,
    {
        self.bits = self.bits - a as u64;
    }

    /// The address `offset` bytes past this one.
    pub fn at_offset(&self, offset: usize) -> (r: Self)
        requires
            self.bits + offset <= u64::MAX,
        ensures
            r.bits == self.bits + offset,
    {
        let mut new = self.clone();
        new.add(offset);
        new
    }
}

impl PartialOrd for PhysAddr {
    /// Physical addresses order as their raw 64-bit patterns.
    fn partial_cmp(&self, other: &PhysAddr) -> (r: Option<core::cmp::Ordering>) {
        if self.bits < other.bits {
            Some(core::cmp::Ordering::Less)
        } else if self.bits == other.bits {
            Some(core::cmp::Ordering::Equal)
        } else {
            Some(core::cmp::Ordering::Greater)
        }
    }
}

impl vstd::std_specs::cmp::PartialOrdSpecImpl for PhysAddr {
    open spec fn obeys_partial_cmp_spec() -> bool {
        true
    }

    open spec fn partial_cmp_spec(&self, other: &PhysAddr) -> Option<core::cmp::Ordering> {
        if self.bits < other.bits {
            Some(core::cmp::Ordering::Less)
        } else if self.bits == other.bits {
            Some(core::cmp::Ordering::Equal)
        } else {
            Some(core::cmp::Ordering::Greater)
        }
    }
}

} // verus!
