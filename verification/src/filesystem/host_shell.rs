//! The shell of the host machine, reached through the serial line: writing
//! to it prints on the host.
use vstd::prelude::*;
use crate::data_storage::path::Path;
use crate::filesystem::fsflags::OpenFlags;

verus! {

/// The host's shell.
pub struct HostShellPartition {}

impl HostShellPartition {
    /// The host's shell.
    pub fn new() -> (h: Self) {
        HostShellPartition {}
    }

    /// Every path opens, as file 0.
    pub fn open(&mut self, path: &Path, flags: OpenFlags) -> (r: Option<usize>)
        ensures
            r == Some(0usize),
    {
        Some(0)
    }

    /// A write: the text to print on the host, one character per byte, and
    /// the number of bytes written.
    pub fn write(&mut self, buffer: &[u8]) -> (r: (isize, String))
        ensures
            r.0 == buffer@.len() as isize,
            r.1@ == buffer@.map_values(|b: u8| b as char),
    {
        let mut sortie = String::new();
        let size = buffer.len();
        let mut i: usize = 0;
        while i < size
            invariant
                i <= size,
                size == buffer@.len(),
                sortie@ == buffer@.take(i as int).map_values(|b: u8| b as char),
            decreases size - i,
        {
            sortie.push(buffer[i] as char);
            assert(sortie@ =~= buffer@.take(i + 1).map_values(|b: u8| b as char));
            i += 1;
        }
        assert(buffer@.take(i as int) =~= buffer@);
        (size as isize, sortie)
    }

    /// Closing does nothing.
    pub fn close(&mut self) -> (r: bool)
        ensures
            !r,
    {
        false
    }

    /// The host's shell takes no parameter.
    pub fn give_param(&mut self, param: usize) -> (r: usize)
        ensures
            r == usize::MAX,
    {
        usize::MAX
    }
}

} // verus!
