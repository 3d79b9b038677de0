//! Numbers of interrupts.

use vstd::prelude::*;

verus! {

/// Number of the first interrupt of the first controller, behind the exceptions of the processor.
pub const PIC_1_OFFSET: u8 = 32;

/// Number of the first interrupt of the second controller.
pub const PIC_2_OFFSET: u8 = 40;

/// Interrupts of devices.
#[derive(Debug, Clone, Copy, PartialEq, Eq, Structural)]
pub enum InterruptIndex {
    Timer,
    Keyboard,
}

impl InterruptIndex {
    /// The number of the interrupt.
    pub fn as_u8(self) -> (n: u8)
        ensures
            n == (match self {
                InterruptIndex::Timer => PIC_1_OFFSET,
                InterruptIndex::Keyboard => (PIC_1_OFFSET + 1) as u8,
            }),
            PIC_1_OFFSET <= n < PIC_2_OFFSET,
    {
        match self {
            InterruptIndex::Timer => PIC_1_OFFSET,
            InterruptIndex::Keyboard => PIC_1_OFFSET + 1,
        }
    }
}

} // verus!
