//! Reconstruction of guest virtual-to-physical mappings from raw page-table
//! memory: walkers for x86 and ARMv8-A, coalesced range model, attribute
//! filter, byte search and a sparse guest-memory view.

pub mod bits;
pub mod common;
pub mod memory;
pub mod x86;
pub mod arm;
pub mod page_range;
pub mod filter;
pub mod search;
pub mod kaslr;
pub mod qemu_memory;
