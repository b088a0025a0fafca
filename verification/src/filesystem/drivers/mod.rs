//! Drivers that can be attached to the partition tree.
pub mod ustar;
pub mod fifo;
pub mod ustar_cache;
pub mod screen_partition;
pub mod stubs;
pub mod nopart;
pub mod sound;
pub mod keyboard;
pub mod mouse_driver;
pub mod proc;
pub mod ustar_driver;
pub mod disk_operations;
