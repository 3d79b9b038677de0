[package]
name = "ferros"
version = "0.1.0"
edition = "2021"
publish = false

[dependencies]
bootloader = { version = "=0.9.35", features = ["map_physical_memory"] }
crossbeam-queue = { version = "=0.3.14", default-features = false, features = ["alloc"] }
futures-util = { version = "=0.3.34", default-features = false, features = ["alloc"] }
linked_list_allocator = "=0.10.6"
pc-keyboard = "=0.9.0"
pic8259 = "=0.11.0"
smoltcp = { version = "=0.12.0", default-features = false, features = ["alloc", "medium-ethernet", "proto-ipv4", "socket-udp", "socket-icmp", "socket-dhcpv4"] }
spin = "=0.10.1"
x86_64 = { version = "=0.15.5", default-features = false, features = ["instructions"] }
