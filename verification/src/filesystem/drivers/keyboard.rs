//! The keyboard as a file: reading it gives the queued scancodes.
use vstd::prelude::*;
use crate::keyboard::{get_top_key_event, ScancodeStream};
use crate::data_storage::path::Path;
use crate::filesystem::fsflags::OpenFlags;
use crate::filesystem::partition::IoError;

verus! {

/// The keyboard device.
pub struct KeyBoard;

impl KeyBoard {
    /// The keyboard device.
    pub fn new() -> (k: Self) {
        KeyBoard
    }

    /// Only the keyboard itself (the empty path) opens, as file 0.
    pub fn open(&mut self, path: &Path, flags: OpenFlags) -> (r: Option<usize>)
        ensures
            r == if path@.len() != 0 {
                None
            } else {
                Some(0usize)
            },
    {
        if !path.is_empty() {
            None
        } else {
            Some(0)
        }
    }

    /// Reads up to `size` scancodes, taken out of the scancode queue one by
    /// one; nothing when the queues do not exist yet.
    pub fn read(&mut self, stream: &mut Option<ScancodeStream>, size: usize) -> (r: Result<Vec<u8>, IoError>)
        requires
            *old(stream) matches Some(s) ==> s.wf(),
        ensures
            *old(stream) is None ==> (r matches Ok(v) && v@.len() == 0) && *final(stream) is None,
            *old(stream) matches Some(s0) ==> ({
                let q = s0.scancodes();
                let n = if size < q.len() { size as int } else { q.len() as int };
                let s1 = final(stream)->Some_0;
                &&& *final(stream) is Some
                &&& s1.wf()
                &&& s1.keys() == s0.keys()
                &&& s1.scancodes() == q.skip(n)
                &&& r matches Ok(v) && v@ == q.take(n)
            }),
    {
        let mut res: Vec<u8> = Vec::new();
        let mut i: usize = 0;
        let ghost q0 = if *old(stream) is Some { old(stream)->Some_0.scancodes() } else { Seq::empty() };
        let ghost k0 = if *old(stream) is Some { old(stream)->Some_0.keys() } else { Seq::empty() };
        assert(q0.take(0) =~= Seq::<u8>::empty());
        assert(q0.skip(0) =~= q0);
        while i < size
            invariant_except_break
                i <= size,
                *old(stream) is None ==> *stream is None && res@.len() == 0,
                *old(stream) is Some ==> *stream is Some && i <= q0.len() && stream->Some_0.wf()
                    && stream->Some_0.keys() == k0
                    && stream->Some_0.scancodes() == q0.skip(i as int) && res@ == q0.take(i as int),
                q0 == if *old(stream) is Some { old(stream)->Some_0.scancodes() } else { Seq::empty() },
                k0 == if *old(stream) is Some { old(stream)->Some_0.keys() } else { Seq::empty() },
            ensures
                *old(stream) is None ==> *stream is None && res@.len() == 0,
                *old(stream) is Some ==> ({
                    let n = if size < q0.len() { size as int } else { q0.len() as int };
                    *stream is Some && stream->Some_0.wf() && stream->Some_0.keys() == k0
                        && stream->Some_0.scancodes() == q0.skip(n) && res@ == q0.take(n)
                }),
            decreases size - i,
        {
            match get_top_key_event(stream) {
                Ok(k) => {
                    res.push(k);
                    proof {
                        assert(q0.take(i + 1) =~= q0.take(i as int).push(k));
                        assert(q0.skip(i as int).drop_first() =~= q0.skip(i + 1));
                    }
                },
                Err(_) => {
                    return Ok(res);
                },
            }
            i += 1;
        }
        Ok(res)
    }

    /// Nothing can be written to the keyboard.
    pub fn write(&mut self, buffer: &[u8]) -> (r: isize)
        ensures
            r == -1,
    {
        -1
    }

    /// Closing the keyboard does nothing.
    pub fn close(&mut self) -> (r: bool)
        ensures
            !r,
    {
        false
    }

    /// The keyboard takes no parameter.
    pub fn give_param(&mut self, param: usize) -> (r: usize)
        ensures
            r == usize::MAX,
    {
        usize::MAX
    }
}

} // verus!
