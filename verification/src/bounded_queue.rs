//! Bounded queues of bytes, of mouse packets and of key events, from the
//! `crossbeam_queue` crate.
use vstd::prelude::*;
use crossbeam_queue::ArrayQueue;
use crate::hardware::mouse::MousePacket;
use crate::keyboard::keyboard_layout::KeyEvent;

verus! {

/// The bounded queue type of `crossbeam_queue`.
#[verifier::external_type_specification]
#[verifier::external_body]
#[verifier::reject_recursive_types(T)]
pub struct ExArrayQueue<T>(ArrayQueue<T>);

/// The bytes a queue holds, oldest first.
pub uninterp spec fn byte_queue_contents(q: ArrayQueue<u8>) -> Seq<u8>;

/// The capacity a queue was made with.
pub uninterp spec fn byte_queue_capacity(q: ArrayQueue<u8>) -> nat;

/// `ArrayQueue::new`: an empty queue holding at most `cap` bytes. The crate
/// panics when `cap` is 0.
#[verifier::external_body]
pub(crate) fn byte_queue_new(cap: usize) -> (q: ArrayQueue<u8>)
    requires
        cap > 0,
    ensures
        byte_queue_contents(q) == Seq::<u8>::empty(),
        byte_queue_capacity(q) == cap,
{
    ArrayQueue::new(cap)
}

/// `ArrayQueue::push`: appends `v` unless the queue is full, in which case
/// `v` comes back as the error.
#[verifier::external_body]
pub(crate) fn byte_queue_push(q: &mut ArrayQueue<u8>, v: u8) -> (r: Result<(), u8>)
    ensures
        byte_queue_capacity(*final(q)) == byte_queue_capacity(*old(q)),
        byte_queue_contents(*old(q)).len() < byte_queue_capacity(*old(q)) ==> r is Ok
            && byte_queue_contents(*final(q)) == byte_queue_contents(*old(q)).push(v),
        byte_queue_contents(*old(q)).len() >= byte_queue_capacity(*old(q)) ==> (r matches Err(e) && e == v)
            && byte_queue_contents(*final(q)) == byte_queue_contents(*old(q)),
{
    q.push(v).map_err(|e| e.0)
}

/// `ArrayQueue::pop`: removes and returns the oldest byte; `None` when the
/// queue is empty.
#[verifier::external_body]
pub(crate) fn byte_queue_pop(q: &mut ArrayQueue<u8>) -> (r: Option<u8>)
    ensures
        byte_queue_capacity(*final(q)) == byte_queue_capacity(*old(q)),
        byte_queue_contents(*old(q)).len() == 0 ==> r is None && byte_queue_contents(*final(q))
            == byte_queue_contents(*old(q)),
        byte_queue_contents(*old(q)).len() > 0 ==> r == Some(byte_queue_contents(*old(q))[0])
            && byte_queue_contents(*final(q)) == byte_queue_contents(*old(q)).drop_first(),
{
    q.pop().ok()
}

/// `ArrayQueue::len`: number of bytes held.
#[verifier::external_body]
pub(crate) fn byte_queue_len(q: &ArrayQueue<u8>) -> (n: usize)
    ensures
        n == byte_queue_contents(*q).len(),
{
    q.len()
}

/// The packets a queue holds, oldest first.
pub uninterp spec fn packet_queue_contents(q: ArrayQueue<MousePacket>) -> Seq<MousePacket>;

/// The capacity a queue of packets was made with.
pub uninterp spec fn packet_queue_capacity(q: ArrayQueue<MousePacket>) -> nat;

/// `ArrayQueue::new`: an empty queue holding at most `cap` packets. The
/// crate panics when `cap` is 0.
#[verifier::external_body]
pub(crate) fn packet_queue_new(cap: usize) -> (q: ArrayQueue<MousePacket>)
    requires
        cap > 0,
    ensures
        packet_queue_contents(q) == Seq::<MousePacket>::empty(),
        packet_queue_capacity(q) == cap,
{
    ArrayQueue::new(cap)
}

/// `ArrayQueue::push`: appends `v` unless the queue is full, in which case
/// `v` comes back as the error.
#[verifier::external_body]
pub(crate) fn packet_queue_push(q: &mut ArrayQueue<MousePacket>, v: MousePacket) -> (r: Result<(), MousePacket>)
    ensures
        packet_queue_capacity(*final(q)) == packet_queue_capacity(*old(q)),
        packet_queue_contents(*old(q)).len() < packet_queue_capacity(*old(q)) ==> r is Ok
            && packet_queue_contents(*final(q)) == packet_queue_contents(*old(q)).push(v),
        packet_queue_contents(*old(q)).len() >= packet_queue_capacity(*old(q)) ==> (r matches Err(e) && e == v)
            && packet_queue_contents(*final(q)) == packet_queue_contents(*old(q)),
{
    q.push(v).map_err(|e| e.0)
}

/// `ArrayQueue::pop`: removes and returns the oldest packet; `None` when
/// the queue is empty.
#[verifier::external_body]
pub(crate) fn packet_queue_pop(q: &mut ArrayQueue<MousePacket>) -> (r: Option<MousePacket>)
    ensures
        packet_queue_capacity(*final(q)) == packet_queue_capacity(*old(q)),
        packet_queue_contents(*old(q)).len() == 0 ==> r is None && packet_queue_contents(*final(q))
            == packet_queue_contents(*old(q)),
        packet_queue_contents(*old(q)).len() > 0 ==> r == Some(packet_queue_contents(*old(q))[0])
            && packet_queue_contents(*final(q)) == packet_queue_contents(*old(q)).drop_first(),
{
    q.pop().ok()
}

/// `ArrayQueue::len`: number of packets held.
#[verifier::external_body]
pub(crate) fn packet_queue_len(q: &ArrayQueue<MousePacket>) -> (n: usize)
    ensures
        n == packet_queue_contents(*q).len(),
{
    q.len()
}

/// The key events a queue holds, oldest first.
pub uninterp spec fn key_queue_contents(q: ArrayQueue<KeyEvent>) -> Seq<KeyEvent>;

/// The capacity a queue of key events was made with.
pub uninterp spec fn key_queue_capacity(q: ArrayQueue<KeyEvent>) -> nat;

/// `ArrayQueue::new`: an empty queue holding at most `cap` key events. The
/// crate panics when `cap` is 0.
#[verifier::external_body]
pub(crate) fn key_queue_new(cap: usize) -> (q: ArrayQueue<KeyEvent>)
    requires
        cap > 0,
    ensures
        key_queue_contents(q) == Seq::<KeyEvent>::empty(),
        key_queue_capacity(q) == cap,
{
    ArrayQueue::new(cap)
}

/// `ArrayQueue::push`: appends `v` unless the queue is full, in which case
/// `v` comes back as the error.
#[verifier::external_body]
pub(crate) fn key_queue_push(q: &mut ArrayQueue<KeyEvent>, v: KeyEvent) -> (r: Result<(), KeyEvent>)
    ensures
        key_queue_capacity(*final(q)) == key_queue_capacity(*old(q)),
        key_queue_contents(*old(q)).len() < key_queue_capacity(*old(q)) ==> r is Ok
            && key_queue_contents(*final(q)) == key_queue_contents(*old(q)).push(v),
        key_queue_contents(*old(q)).len() >= key_queue_capacity(*old(q)) ==> (r matches Err(e) && e == v)
            && key_queue_contents(*final(q)) == key_queue_contents(*old(q)),
{
    q.push(v).map_err(|e| e.0)
}

/// `ArrayQueue::pop`: removes and returns the oldest key event; `None` when
/// the queue is empty.
#[verifier::external_body]
pub(crate) fn key_queue_pop(q: &mut ArrayQueue<KeyEvent>) -> (r: Option<KeyEvent>)
    ensures
        key_queue_capacity(*final(q)) == key_queue_capacity(*old(q)),
        key_queue_contents(*old(q)).len() == 0 ==> r is None && key_queue_contents(*final(q))
            == key_queue_contents(*old(q)),
        key_queue_contents(*old(q)).len() > 0 ==> r == Some(key_queue_contents(*old(q))[0])
            && key_queue_contents(*final(q)) == key_queue_contents(*old(q)).drop_first(),
{
    q.pop().ok()
}

} // verus!
