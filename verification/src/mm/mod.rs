//! Memory: physical frames, page tables, address spaces, the kernel heap.

pub mod addr_space;
pub mod frame;
pub mod heap;
pub mod paging;
