//! Segment descriptors of the global descriptor table.
pub mod gdt_entry;
