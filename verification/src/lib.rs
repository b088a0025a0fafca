//! Verified core of the FerrOS kernel: data structures, allocators, file
//! system bookkeeping, descriptor tables and hardware encodings.
pub mod allocator;
pub(crate) mod bits;
pub mod bounded_queue;
pub mod data_storage;
pub mod filesystem;
pub mod gdt;
pub mod hardware;
pub mod interrupts;
pub mod keyboard;
pub mod memory;
