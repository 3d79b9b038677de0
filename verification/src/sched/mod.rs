//! Scheduling: threads and processes, and tasks that are polled.

pub mod executor;
pub mod queue;
pub mod simple_executor;
pub mod task;
pub mod thread;
