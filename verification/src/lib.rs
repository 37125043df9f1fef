//! Early-boot memory management core for a RISC-V 64-bit supervisor-mode
//! kernel using the Sv39 paging scheme.
//!
//! The crate provides the three subsystems a boot orchestrator chains
//! together: a flattened devicetree (DTB) reader, a physical memory map with
//! a bump allocator over it, and an Sv39 page-table engine.

pub mod boot;
pub mod bump_allocator;
pub mod dtb;
pub mod memory;
pub mod memory_map;
pub mod mmu;
pub mod physical_memory_allocator;
