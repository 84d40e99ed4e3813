//! A verified model of the memory-management and task-management logic of a
//! small RISC-V (Sv39) teaching kernel.
use vstd::prelude::*;

pub mod config;
pub mod address;
pub mod pte;
pub mod frame;
pub mod phys_mem;
pub mod page_table;
pub mod vpn_range;
pub mod map_area;
pub mod memory_set;
pub mod trap;
pub mod task;
pub mod batch;
pub mod syscall;
pub mod user;
pub mod elf;
pub mod user_space;
pub mod fork_space;
pub mod process;
pub mod kernel_memory;
pub mod processor;
pub mod loader;
pub mod pid;


verus! {

} // verus!
