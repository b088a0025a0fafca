//! An empty partition, a placeholder in the partition tree.
use vstd::prelude::*;

verus! {

/// A partition with nothing in it.
#[derive(Debug)]
pub struct NoPart {}

impl NoPart {
    /// The empty partition.
    pub fn new() -> (n: Self) {
        NoPart {}
    }

    /// The empty partition takes no parameter.
    pub fn give_param(&mut self, param: usize) -> (r: usize)
        ensures
            r == usize::MAX,
    {
        usize::MAX
    }
}

} // verus!
