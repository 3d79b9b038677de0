//! Accesses to ports, as values: what is to be written, and where.

use vstd::prelude::*;

verus! {

/// A write to a port.
#[allow(inconsistent_fields)]
#[derive(Debug, Clone, Copy, PartialEq, Eq, Structural)]
pub enum PortWrite {
    Byte { port: u16, value: u8 },
    Word { port: u16, value: u16 },
    Long { port: u16, value: u32 },
}

} // verus!
