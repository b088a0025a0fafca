//! The mouse as a file: reading it gives the queued movement packets.
use vstd::prelude::*;
use crossbeam_queue::ArrayQueue;
use crate::bounded_queue::{packet_queue_capacity, packet_queue_contents};
use crate::data_storage::path::{split_path, Path};
use crate::filesystem::fsflags::OpenFlags;
use crate::filesystem::partition::IoError;
use crate::hardware::mouse::{get_packet, spec_flags_byte, MousePacket};

verus! {

/// The three bytes of each packet of `ps`, in order.
pub open spec fn packets_bytes(ps: Seq<MousePacket>) -> Seq<u8>
    decreases ps.len(),
{
    if ps.len() == 0 {
        Seq::empty()
    } else {
        packets_bytes(ps.drop_last()) + seq![spec_flags_byte(ps.last()), ps.last().x_movement, ps.last().y_movement]
    }
}

/// The mouse device.
pub struct MouseDriver;

impl MouseDriver {
    /// The mouse device.
    pub fn new() -> (d: Self) {
        MouseDriver
    }

    /// Opening the mouse needs a path of no segment; a path always has
    /// one, so nothing opens.
    pub fn open(&mut self, path: &Path, flags: OpenFlags) -> (r: Option<usize>)
        ensures
            r == if split_path(path@).len() != 0 {
                None
            } else {
                Some(0usize)
            },
    {
        if path.len() != 0 {
            None
        } else {
            Some(0)
        }
    }

    /// Reads as many whole packets as `size` bytes hold, and as the queue
    /// has: three bytes each, taken out of the queue.
    pub fn read(&mut self, queue: &mut Option<ArrayQueue<MousePacket>>, size: usize) -> (r: Result<Vec<u8>, IoError>)
        ensures
            *old(queue) is None ==> (r matches Ok(v) && v@.len() == 0) && *final(queue) is None,
            *old(queue) is Some ==> ({
                let q = packet_queue_contents(old(queue)->Some_0);
                let n = if size / 3 < q.len() { (size / 3) as int } else { q.len() as int };
                &&& *final(queue) is Some
                &&& packet_queue_capacity(final(queue)->Some_0) == packet_queue_capacity(old(queue)->Some_0)
                &&& packet_queue_contents(final(queue)->Some_0) == q.skip(n)
                &&& r matches Ok(v) && v@ == packets_bytes(q.take(n))
            }),
    {
        let packet_number = size / 3;
        let mut res: Vec<u8> = Vec::new();
        let mut i: usize = 0;
        let ghost q0 = if *old(queue) is Some { packet_queue_contents(old(queue)->Some_0) } else { Seq::empty() };
        assert(q0.take(0) =~= Seq::<MousePacket>::empty());
        assert(q0.skip(0) =~= q0);
        while i < packet_number
            invariant_except_break
                i <= packet_number,
                *old(queue) is None ==> *queue is None && res@.len() == 0,
                *old(queue) is Some ==> *queue is Some && i <= q0.len()
                    && packet_queue_capacity(queue->Some_0) == packet_queue_capacity(old(queue)->Some_0)
                    && packet_queue_contents(queue->Some_0) == q0.skip(i as int)
                    && res@ == packets_bytes(q0.take(i as int)),
                q0 == if *old(queue) is Some { packet_queue_contents(old(queue)->Some_0) } else { Seq::empty() },
            ensures
                *old(queue) is None ==> *queue is None && res@.len() == 0,
                *old(queue) is Some ==> ({
                    let n = if packet_number < q0.len() { packet_number as int } else { q0.len() as int };
                    *queue is Some && packet_queue_capacity(queue->Some_0) == packet_queue_capacity(old(queue)->Some_0)
                        && packet_queue_contents(queue->Some_0) == q0.skip(n) && res@ == packets_bytes(q0.take(n))
                }),
            decreases packet_number - i,
        {
            match get_packet(queue) {
                Some(packet) => {
                    let (p1, p2, p3) = packet.to_bytes();
                    res.push(p1);
                    res.push(p2);
                    res.push(p3);
                    proof {
                        assert(q0.take(i + 1).drop_last() =~= q0.take(i as int));
                        assert(q0.skip(i as int).drop_first() =~= q0.skip(i + 1));
                    }
                },
                None => {
                    break;
                },
            }
            i += 1;
        }
        Ok(res)
    }

    /// Nothing can be written to the mouse.
    pub fn write(&mut self, buffer: &[u8]) -> (r: isize)
        ensures
            r == -1,
    {
        -1
    }

    /// Closing the mouse does nothing.
    pub fn close(&mut self) -> (r: bool)
        ensures
            !r,
    {
        false
    }

    /// The mouse takes no parameter.
    pub fn give_param(&mut self, param: usize) -> (r: usize)
        ensures
            r == usize::MAX,
    {
        usize::MAX
    }
}

} // verus!
