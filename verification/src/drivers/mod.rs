//! Device drivers: the parts that decide and compute. Port and memory-mapped accesses are made by
//! the machine layer, which hands in what it read and carries out what is returned.

pub mod console;
pub mod keyboard;
pub mod laws;
pub mod pci;
pub mod ports;
pub mod serial;
pub mod vga;
pub mod virtio_blk;
pub mod virtio_net;
pub mod virtio_queue;
pub mod write_back;
