//! The sound device as a file: writing it queues sounds to play.
use vstd::prelude::*;
use crate::data_storage::path::Path;
use crate::filesystem::drivers::ustar::le64;
use crate::filesystem::fsflags::OpenFlags;
use crate::filesystem::partition::IoError;

verus! {

/// The little-endian number in bytes `k` to `k + 7` of `b`.
pub open spec fn le64_at(b: Seq<u8>, k: int) -> u64 {
    le64(b[k], b[k + 1], b[k + 2], b[k + 3], b[k + 4], b[k + 5], b[k + 6], b[k + 7])
}

/// The number eight bytes hold, least significant first.
pub fn u8slice_to_u64(slice: &[u8]) -> (r: u64)
    requires
        slice@.len() == 8,
    ensures
        r == le64_at(slice@, 0),
{
    let (b0, b1, b2, b3, b4, b5, b6, b7) = (slice[0], slice[1], slice[2], slice[3], slice[4], slice[5], slice[6], slice[7]);
    let mut res = b7 as u64;
    let ghost r7 = res;
    assert((r7 << 8u64) + b6 <= u64::MAX && ((r7 << 8u64) + b6) as u64 == (r7 << 8u64) | (b6 as u64)) by (bit_vector)
        requires
            r7 == b7 as u64,
    ;
    res <<= 8;
    res += b6 as u64;
    let ghost r6 = res;
    assert((r6 << 8u64) + b5 <= u64::MAX) by (bit_vector)
        requires
            r6 == ((b7 as u64) << 8u64) | (b6 as u64),
    ;
    res <<= 8;
    res += b5 as u64;
    let ghost r5 = res;
    assert((r5 << 8u64) + b4 <= u64::MAX) by (bit_vector)
        requires
            r5 == ((r6 << 8u64) + b5) as u64,
            r6 == ((b7 as u64) << 8u64) | (b6 as u64),
    ;
    res <<= 8;
    res += b4 as u64;
    let ghost r4 = res;
    assert((r4 << 8u64) + b3 <= u64::MAX) by (bit_vector)
        requires
            r4 == ((r5 << 8u64) + b4) as u64,
            r5 == ((r6 << 8u64) + b5) as u64,
            r6 == ((b7 as u64) << 8u64) | (b6 as u64),
    ;
    res <<= 8;
    res += b3 as u64;
    let ghost r3 = res;
    assert((r3 << 8u64) + b2 <= u64::MAX) by (bit_vector)
        requires
            r3 == ((r4 << 8u64) + b3) as u64,
            r4 == ((r5 << 8u64) + b4) as u64,
            r5 == ((r6 << 8u64) + b5) as u64,
            r6 == ((b7 as u64) << 8u64) | (b6 as u64),
    ;
    res <<= 8;
    res += b2 as u64;
    let ghost r2 = res;
    assert((r2 << 8u64) + b1 <= u64::MAX) by (bit_vector)
        requires
            r2 == ((r3 << 8u64) + b2) as u64,
            r3 == ((r4 << 8u64) + b3) as u64,
            r4 == ((r5 << 8u64) + b4) as u64,
            r5 == ((r6 << 8u64) + b5) as u64,
            r6 == ((b7 as u64) << 8u64) | (b6 as u64),
    ;
    res <<= 8;
    res += b1 as u64;
    let ghost r1 = res;
    assert((r1 << 8u64) + b0 <= u64::MAX) by (bit_vector)
        requires
            r1 == ((r2 << 8u64) + b1) as u64,
            r2 == ((r3 << 8u64) + b2) as u64,
            r3 == ((r4 << 8u64) + b3) as u64,
            r4 == ((r5 << 8u64) + b4) as u64,
            r5 == ((r6 << 8u64) + b5) as u64,
            r6 == ((b7 as u64) << 8u64) | (b6 as u64),
    ;
    res <<= 8;
    res += b0 as u64;
    let ghost r0 = res;
    assert(r0 == le64(b0, b1, b2, b3, b4, b5, b6, b7)) by (bit_vector)
        requires
            r0 == ((r1 << 8u64) + b0) as u64,
            r1 == ((r2 << 8u64) + b1) as u64,
            r2 == ((r3 << 8u64) + b2) as u64,
            r3 == ((r4 << 8u64) + b3) as u64,
            r4 == ((r5 << 8u64) + b4) as u64,
            r5 == ((r6 << 8u64) + b5) as u64,
            r6 == ((b7 as u64) << 8u64) | (b6 as u64),
    ;
    res
}

/// Sound `i` of a write: tone, length and start, eight bytes each.
pub open spec fn sound_at(b: Seq<u8>, i: int) -> (u64, u64, u64) {
    (le64_at(b, 24 * i), le64_at(b, 24 * i + 8), le64_at(b, 24 * i + 16))
}

/// The sound device.
pub struct SoundDriver;

impl SoundDriver {
    /// The sound device.
    pub fn new() -> (d: Self) {
        SoundDriver
    }

    /// Only the device itself (the empty path) opens, as file 0.
    pub fn open(&mut self, path: &Path, flags: OpenFlags) -> (r: Option<usize>)
        ensures
            r == if path@.len() != 0 {
                None
            } else {
                Some(0usize)
            },
    {
        if !path.is_empty() {
            None
        } else {
            Some(0)
        }
    }

    /// Reading the sound device kills the reader.
    pub fn read(&mut self, size: usize) -> (r: Result<Vec<u8>, IoError>)
        ensures
            r == Err::<Vec<u8>, IoError>(IoError::Kill),
    {
        Err(IoError::Kill)
    }

    /// A write of whole sounds, 24 bytes each (a trailing part is
    /// ignored): the sounds to play, in order, and the number of bytes
    /// they took.
    pub fn write(&mut self, buffer: &[u8]) -> (r: (isize, Vec<(u64, u64, u64)>))
        ensures
            r.0 == (24 * (buffer@.len() / 24)) as isize,
            r.1@ == Seq::new(buffer@.len() / 24, |i: int| sound_at(buffer@, i)),
    {
        let n = buffer.len();
        let sound_number = n / (3 * 8);
        let mut sounds: Vec<(u64, u64, u64)> = Vec::new();
        let mut i: usize = 0;
        while i < sound_number
            invariant
                i <= sound_number,
                n == buffer@.len(),
                sound_number == buffer@.len() / 24,
                sounds@ == Seq::new(i as nat, |k: int| sound_at(buffer@, k)),
            decreases sound_number - i,
        {
            assert(24 * i + 24 <= buffer@.len()) by (nonlinear_arith)
                requires
                    i < sound_number,
                    sound_number == buffer@.len() / 24,
            ;
            let base = 24 * i;
            let tone_bytes = vstd::slice::slice_subrange(buffer, base, base + 8);
            let length_bytes = vstd::slice::slice_subrange(buffer, base + 8, base + 16);
            let begin_bytes = vstd::slice::slice_subrange(buffer, base + 16, base + 24);
            let tone = u8slice_to_u64(tone_bytes);
            let length = u8slice_to_u64(length_bytes);
            let begin = u8slice_to_u64(begin_bytes);
            sounds.push((tone, length, begin));
            assert(sounds@ =~= Seq::new((i + 1) as nat, |k: int| sound_at(buffer@, k)));
            i += 1;
        }
        assert(24 * sound_number <= buffer@.len()) by (nonlinear_arith)
            requires
                sound_number == buffer@.len() / 24,
        ;
        ((sound_number * (3 * 8)) as isize, sounds)
    }

    /// Closing the device does nothing.
    pub fn close(&mut self) -> (r: bool)
        ensures
            !r,
    {
        false
    }

    /// The device takes no parameter.
    pub fn give_param(&mut self, param: usize) -> (r: usize)
        ensures
            r == usize::MAX,
    {
        usize::MAX
    }
}

} // verus!
