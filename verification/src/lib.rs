//! Verified core of a small x86-64 kernel: address arithmetic, page-table
//! entries, the physical and virtual memory allocators, the I/O port map and
//! the scheduler's queues.
use vstd::prelude::*;

pub mod console;
pub mod core_local;
pub mod cpu;
pub mod drivers;
pub mod elf_loader;
pub mod gdt;
pub mod interrupts;
pub mod lock;
pub mod log;
pub mod memory;
pub mod ports;
pub mod syscall;
pub mod task;
pub mod volatile;
