//! What a storage element offers to be put in the partition tree, and the
//! outcome of a request on it.
use vstd::prelude::*;
use crate::data_storage::path::Path;
use crate::filesystem::descriptor::OpenFileTable;
use crate::filesystem::fsflags::OpenFlags;

verus! {

/// What the kernel does with a process whose request could not be served.
#[derive(Debug, PartialEq, Eq, Structural)]
pub enum IoError {
    Continue,
    Kill,
    Sleep,
}

/// A storage element (a disk, a device, a pipe, a virtual directory) that
/// can be put in the partition tree. Paths and open files it is handed are
/// relative to it.
///
/// What each request does is the partition's own: an implementation may
/// name, for each request, which outcomes (answer and state after) are
/// possible, and each request then ends in one of them. Where it names
/// none, every outcome is possible.
pub trait Partition: Sized {
    /// Whether answering `r` and going from `before` to `after` is a possible
    /// outcome of opening `path` with `flags`.
    open spec fn open_outcome(before: Self, path: Seq<char>, flags: OpenFlags, r: Option<usize>, after: Self) -> bool {
        true
    }

    /// Whether answering `r` and going from `before` to `after` is a possible
    /// outcome of reading up to `size` bytes of `oft`.
    open spec fn read_outcome(before: Self, oft: OpenFileTable, size: usize, r: Result<Vec<u8>, IoError>, after: Self) -> bool {
        true
    }

    /// Whether answering `r` and going from `before` to `after` is a possible
    /// outcome of writing `buffer` to `oft`.
    open spec fn write_outcome(before: Self, oft: OpenFileTable, buffer: Seq<u8>, r: isize, after: Self) -> bool {
        true
    }

    /// Whether answering `r` and going from `before` to `after` is a possible
    /// outcome of closing `oft`.
    open spec fn close_outcome(before: Self, oft: OpenFileTable, r: bool, after: Self) -> bool {
        true
    }

    /// Whether answering `r` and going from `before` to `after` is a possible
    /// outcome of handing `oft` the parameter `param`.
    open spec fn give_param_outcome(before: Self, oft: OpenFileTable, param: usize, r: usize, after: Self) -> bool {
        true
    }

    /// Opens the file at `path`: the number the partition gives it, or
    /// `None` when there is no such file.
    fn open(&mut self, path: &Path, flags: OpenFlags) -> (r: Option<usize>)
        ensures
            Self::open_outcome(*old(self), path@, flags, r, *final(self)),
    ;

    /// Reads up to `size` bytes of the open file `oft`.
    fn read(&mut self, oft: &OpenFileTable, size: usize) -> (r: Result<Vec<u8>, IoError>)
        ensures
            Self::read_outcome(*old(self), *oft, size, r, *final(self)),
    ;

    /// Writes `buffer` to the open file `oft`: the number of bytes
    /// written, or -1.
    fn write(&mut self, oft: &OpenFileTable, buffer: &[u8]) -> (r: isize)
        ensures
            Self::write_outcome(*old(self), *oft, buffer@, r, *final(self)),
    ;

    /// Closes the open file `oft`.
    fn close(&mut self, oft: &OpenFileTable) -> (r: bool)
        ensures
            Self::close_outcome(*old(self), *oft, r, *final(self)),
    ;

    /// Hands the open file `oft` a parameter; what comes back depends on
    /// the partition.
    fn give_param(&mut self, oft: &OpenFileTable, param: usize) -> (r: usize)
        ensures
            Self::give_param_outcome(*old(self), *oft, param, r, *final(self)),
    ;
}

} // verus!
