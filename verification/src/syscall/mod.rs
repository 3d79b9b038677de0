//! System calls.

pub mod abi;
pub mod dirent_laws;
pub mod dirents;
pub mod elf;
pub mod elf_laws;
pub mod file_laws;
pub mod files;
pub mod heap;
pub mod io;
pub mod kernel;
pub mod laws;
pub mod net_laws;
pub mod process;
pub mod process_laws;
pub mod series_laws;
pub mod sockets;
pub mod sysinfo;
pub mod time;
pub mod uaccess;
