//! Verified kernel logic of ferros.

pub mod arch;
pub mod drivers;
pub mod fs;
pub mod mm;
pub mod net;
pub mod qemu;
pub mod sched;
pub mod syscall;
pub mod util;
