//! Core of a Secure-EL1 payload kernel: a coalescing heap over one byte
//! region, a slab allocator layered on it, and the register block and
//! completion identifiers exchanged with the EL3 monitor.

pub mod console;
pub mod entrypoints;
pub mod fsp_alloc;
pub mod fsp_slab;
pub mod heap_laws;
pub mod heap_model;
pub mod qemu_constants;
pub mod region;
pub mod slab_layout;
pub mod slab_model;
pub mod smc;
