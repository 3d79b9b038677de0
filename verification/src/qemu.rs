//! Leaving the virtual machine.

use vstd::prelude::*;

verus! {

/// Port of the device that ends the virtual machine.
pub const EXIT_PORT: u16 = 0xf4;

/// How a run has ended.
#[derive(Debug, Clone, Copy, PartialEq, Eq, Structural)]
pub enum QemuExitCode {
    Success,
    Failed,
}

impl QemuExitCode {
    /// The number that is written to the device.
    pub fn code(self) -> (c: u32)
        ensures
            c == (match self {
                QemuExitCode::Success => 0x10u32,
                QemuExitCode::Failed => 0x11u32,
            }),
    {
        match self {
            QemuExitCode::Success => 0x10,
            QemuExitCode::Failed => 0x11,
        }
    }
}

} // verus!
