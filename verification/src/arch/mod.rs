//! The parts of the x86-64 layer that decide and compute.

pub mod interrupts;
pub mod syscall;
pub mod user_stack;
