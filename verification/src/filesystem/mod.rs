//! Bookkeeping of the file system: open flags, descriptor tables and the
//! partition tree.
use vstd::prelude::*;

pub mod descriptor;
pub mod drivers;
pub mod fsflags;
pub mod host_shell;
pub mod vfs;
pub mod partition;

verus! {

/// Error of the file system, with its message.
#[derive(Debug, PartialEq)]
pub struct FileSystemError(pub String);

/// Mode a file is opened in.
#[derive(Clone, Copy, PartialEq, Eq, Debug, Structural)]
pub enum OpenMode {
    Read,
    Write,
    Execute,
}

/// The mode a file is opened in: files are currently always opened for reading.
pub fn open_mode_from_flags(_flags: usize) -> (m: OpenMode)
    ensures
        m == OpenMode::Read,
{
    OpenMode::Read
}

} // verus!
