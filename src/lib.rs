//! Scheduling and user-memory boundary of a small multitasking kernel.
pub mod memory;
pub mod task;
pub mod wire;
pub mod syscall;
