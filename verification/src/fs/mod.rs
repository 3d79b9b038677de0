//! File systems.

pub mod fat;
pub mod fat_dir;
pub mod fat_laws;
pub mod fat_write;
pub mod format_laws;
pub mod name_laws;
pub mod path;
pub mod vfs;
