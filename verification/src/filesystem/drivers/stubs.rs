//! Partitions the kernel declares without serving anything yet: raw
//! devices, the kernel itself, RAM disks, and bindings to hardware and to
//! software.
use vstd::prelude::*;
use crate::data_storage::path::Path;

verus! {

/// Bindings to a piece of hardware.
pub trait HardwareInterface {
    fn read(&self);

    fn write(&self);
}

/// The partition of hardware bindings.
pub struct HardWarePartition;

/// Bindings to a piece of software.
pub trait SoftWareInterface {
    fn read(&self);

    fn write(&self);
}

/// The partition of software bindings.
pub struct SoftwarePartition;

/// The kernel seen as a partition.
pub struct Kernel {}

/// A raw peripheral: its port, and whether it can be read and written.
pub struct Raw {
    port: u8,
    read: bool,
    write: bool,
}

/// Number of a RAM disk.
#[derive(Copy, Clone, Debug)]
pub struct RamDiskID(u64);

/// A disk kept in memory: a 256-byte file per path.
pub struct RamDisk {
    id: RamDiskID,
    files: Vec<(Path, [u8; 256])>,
}

} // verus!
