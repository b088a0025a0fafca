//! The screen as a file: each open file is a virtual screen.
use vstd::prelude::*;
use crate::data_storage::path::{split_path, Path};
use crate::data_storage::screen::Coord;
use crate::filesystem::partition::IoError;

verus! {

/// What a parameter handed to a virtual screen asks for: to resize it or
/// to move it, to the given column and row.
pub enum ScreenRequest {
    Resize(Coord),
    Move(Coord),
}

/// The screen device.
#[derive(Debug)]
pub struct ScreenPartition {}

impl ScreenPartition {
    /// The screen device.
    pub fn new() -> (s: Self) {
        ScreenPartition {}
    }

    /// A virtual screen opens only for a path of no segment; a path always
    /// has one, so this says whether the path could open at all.
    pub fn opens(&self, path: &Path) -> (b: bool)
        ensures
            b == (split_path(path@).len() == 0),
    {
        path.len() == 0
    }

    /// Reading the screen kills the reader.
    pub fn read(&mut self, size: usize) -> (r: Result<Vec<u8>, IoError>)
        ensures
            r == Err::<Vec<u8>, IoError>(IoError::Kill),
    {
        Err(IoError::Kill)
    }

    /// What parameter `param` asks of a virtual screen: with its top bit
    /// set, to be resized, otherwise to be moved; the column is the low
    /// byte, the row the low byte of the upper half.
    pub fn param_request(&self, param: usize) -> (r: ScreenRequest)
        requires
            usize::BITS == 64,
        ensures
            ({
                let c = param & 0xFF;
                let rw = (param >> 32usize) & 0xFF;
                &&& param >> 63usize == 1 ==> (r matches ScreenRequest::Resize(p) && p.spec_col() == c && p.spec_row() == rw)
                &&& param >> 63usize != 1 ==> (r matches ScreenRequest::Move(p) && p.spec_col() == c && p.spec_row() == rw)
            }),
    {
        let x = param & 0xFF;
        let y = (param >> 32) & 0xFF;
        if param >> 63 == 1 {
            ScreenRequest::Resize(Coord::new(x, y))
        } else {
            ScreenRequest::Move(Coord::new(x, y))
        }
    }
}

} // verus!
