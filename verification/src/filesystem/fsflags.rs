//! Flags a file is opened with.
use vstd::prelude::*;

verus! {

/// Open for reading.
pub const ORD: usize = 1;
/// Open for writing.
pub const OWR: usize = 2;
/// Create the file when it does not exist.
pub const OCREAT: usize = 4;
/// Write at the end of the file.
pub const OAPPEND: usize = 8;
/// Open to execute.
pub const OXCUTE: usize = 16;

/// A set of open flags, one bit each.
#[derive(Clone, Copy, Debug, PartialEq, Eq, Structural)]
pub struct OpenFlags {
    bits: usize,
}

impl OpenFlags {
    /// The raw bits of the set.
    pub closed spec fn view(&self) -> usize {
        self.bits
    }

    /// The set with exactly the given bits.
    pub fn from_bits_unchecked(bits: usize) -> (f: Self)
        ensures
            f@ == bits,
    {
        OpenFlags { bits }
    }

    /// The raw bits of the set.
    pub fn bits(&self) -> (b: usize)
        ensures
            b == self@,
    {
        self.bits
    }

    /// Whether every bit of `other` is set.
    pub fn contains(&self, other: usize) -> (b: bool)
        ensures
            b == (self@ & other == other),
    {
        self.bits & other == other
    }

    /// The flags a raw flag word stands for: files are currently opened
    /// read-only whatever the word holds.
    pub fn from(_f: usize) -> (f: Self)
        ensures
            f@ == ORD,
    {
        OpenFlags { bits: ORD }
    }
}

} // verus!
