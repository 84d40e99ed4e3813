//! Constants of the kernel's memory layout.
//!
//! The kernel runs on RV64, where a machine word is 64 bits wide; addresses,
//! page numbers and registers are therefore `u64` throughout the library.
use vstd::prelude::*;

verus! {

/// Size of a user stack in bytes.
pub const USER_STACK_SIZE: u64 = 16384;
/// Size of a kernel stack in bytes.
pub const KERNEL_STACK_SIZE: u64 = 16384;
/// Largest number of applications the batch kernel loads.
pub const MAX_APP_NUM: usize = 16;
/// Physical address at which the batch kernel loads the first application.
pub const APP_BASE_ADDRESS: u64 = 0x80400000;
/// Space reserved for each application image in the batch kernel.
pub const APP_SIZE_LIMIT: u64 = 0x20000;
/// Frequency of the machine timer, in ticks per second.
pub const CLOCK_FREQ: u64 = 12500000;
/// Number of bits of the offset inside a page.
pub const PAGE_SIZE_BITS: u64 = 12;
/// Size of a page in bytes.
pub const PAGE_SIZE: u64 = 4096;
/// End of the physical memory (128 MiB after 0x8000_0000).
pub const MEMORY_END: u64 = 0x88000000;
/// Virtual address of the trampoline page: the highest page of the address space.
pub const TRAMPOLINE: u64 = 0xffff_ffff_ffff_f000;
/// Virtual address of the trap context of a user address space: the page below the trampoline.
pub const TRAP_CONTEXT_USER: u64 = 0xffff_ffff_ffff_e000;
/// Size of the kernel heap in bytes.
pub const KERNEL_HEAP_SIZE: u64 = 0x10_0000;
/// Physical address where the kernel's first page table was placed.
pub const KERNEL_PAGE_TABLE_BASE: u64 = 0x8080_0000;
/// Number of entries of a page-table page.
pub const PTE_PER_PAGE: usize = 512;
/// Number of bits of a physical page number in an Sv39 page-table entry.
pub const PPN_WIDTH: u64 = 44;
/// Mask of a physical page number (44 bits).
pub const PPN_MASK: u64 = 0xfff_ffff_ffff;
/// Number of bits of an Sv39 virtual page number.
pub const VPN_WIDTH: u64 = 27;
/// Mask of an Sv39 virtual page number (27 bits).
pub const VPN_MASK: u64 = 0x7ff_ffff;

} // verus!
