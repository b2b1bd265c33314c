//! Accesses to the hardware that the drivers ask for. The drivers compute
//! them; the caller performs them in order.
use vstd::prelude::*;

verus! {

/// A byte for an I/O port.
#[derive(Clone, Copy, PartialEq, Eq, Debug, Structural)]
pub struct PortWrite {
    pub port: u16,
    pub value: u8,
}

/// An access to an I/O port.
#[derive(Clone, Copy, PartialEq, Eq, Debug, Structural)]
pub enum PortIo {
    Read8(u16),
    Read32(u16),
    Write8(u16, u8),
    Write16(u16, u16),
    Write32(u16, u32),
}

/// A value for a 32-bit register in memory.
#[derive(Clone, Copy, PartialEq, Eq, Debug, Structural)]
pub struct RegWrite {
    pub addr: u64,
    pub value: u32,
}

} // verus!
