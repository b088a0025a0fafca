//! Mouse packets and the command bytes of the mouse controller.
use vstd::prelude::*;
use crate::bits::{u8_get_bit, u8_set_bit};
use crossbeam_queue::ArrayQueue;
use crate::bounded_queue::{packet_queue_capacity, packet_queue_contents, packet_queue_len, packet_queue_pop, packet_queue_push};

verus! {

/// Command and answer bytes of the mouse.
#[derive(Debug, Copy, Clone, PartialEq, Eq, Structural)]
pub enum MouseBytes {
    CommandByte,
    ACK,
    Reset,
    Resend,
    DisablePacketStreaming,
    EnablePacketStreaming,
    SetSampleRate,
    GetID,
    RequestPacket,
    StatusRequest,
    SetResolution,
}

impl MouseBytes {
    /// The byte sent or received on the wire.
    pub open spec fn spec_byte(self) -> u8 {
        match self {
            MouseBytes::CommandByte => 0xD4,
            MouseBytes::ACK => 0xFA,
            MouseBytes::Reset => 0xFF,
            MouseBytes::Resend => 0xFE,
            MouseBytes::DisablePacketStreaming => 0xF5,
            MouseBytes::EnablePacketStreaming => 0xF4,
            MouseBytes::SetSampleRate => 0xF3,
            MouseBytes::GetID => 0xF2,
            MouseBytes::RequestPacket => 0xEB,
            MouseBytes::StatusRequest => 0xE9,
            MouseBytes::SetResolution => 0xE8,
        }
    }

    /// The byte sent or received on the wire.
    pub fn to_byte(&self) -> (b: u8)
        ensures
            b == self.spec_byte(),
    {
        match self {
            MouseBytes::CommandByte => 0xD4,
            MouseBytes::ACK => 0xFA,
            MouseBytes::Reset => 0xFF,
            MouseBytes::Resend => 0xFE,
            MouseBytes::DisablePacketStreaming => 0xF5,
            MouseBytes::EnablePacketStreaming => 0xF4,
            MouseBytes::SetSampleRate => 0xF3,
            MouseBytes::GetID => 0xF2,
            MouseBytes::RequestPacket => 0xEB,
            MouseBytes::StatusRequest => 0xE9,
            MouseBytes::SetResolution => 0xE8,
        }
    }
}

/// Errors of the mouse driver.
#[derive(Debug, Copy, Clone, PartialEq, Eq, Structural)]
pub enum MouseError {
    MouseNotPresent,
    UnknownError,
    FailedIRQInit,
    QueueNotPresent,
    QueueFull,
}

/// A movement packet of the mouse.
#[derive(Debug, Copy, Clone, PartialEq, Eq, Structural)]
pub struct MousePacket {
    pub y_overflow: bool,
    pub x_overflow: bool,
    pub y_sign: bool,
    pub x_sign: bool,
    pub always_on: bool,
    pub middle_button: bool,
    pub right_button: bool,
    pub left_button: bool,
    pub x_movement: u8,
    pub y_movement: u8,
}

/// Whether bit `i` of `b` is set.
pub open spec fn bit(b: u8, i: u8) -> bool {
    b & (1u8 << i) != 0
}

/// The first byte of a packet: one bit per flag, left button lowest.
pub open spec fn spec_flags_byte(p: MousePacket) -> u8 {
    (if p.left_button { 1u8 } else { 0u8 }) | (if p.middle_button { 2u8 } else { 0u8 }) | (if p.right_button {
        4u8
    } else {
        0u8
    }) | (if p.always_on { 8u8 } else { 0u8 }) | (if p.x_sign { 16u8 } else { 0u8 }) | (if p.y_sign {
        32u8
    } else {
        0u8
    }) | (if p.x_overflow { 64u8 } else { 0u8 }) | (if p.y_overflow { 128u8 } else { 0u8 })
}

impl MousePacket {
    /// A packet with the given flags and movements.
    pub fn new(
        y_overflow: bool,
        x_overflow: bool,
        y_sign: bool,
        x_sign: bool,
        always_on: bool,
        middle_button: bool,
        right_button: bool,
        left_button: bool,
        x_movement: u8,
        y_movement: u8,
    ) -> (p: Self)
        ensures
            p == (MousePacket {
                y_overflow,
                x_overflow,
                y_sign,
                x_sign,
                always_on,
                middle_button,
                right_button,
                left_button,
                x_movement,
                y_movement,
            }),
    {
        Self {
            y_overflow,
            x_overflow,
            y_sign,
            x_sign,
            always_on,
            middle_button,
            right_button,
            left_button,
            x_movement,
            y_movement,
        }
    }

    /// The three bytes of the packet: the flags, then the two movements.
    pub fn to_bytes(&self) -> (r: (u8, u8, u8))
        ensures
            r == (spec_flags_byte(*self), self.x_movement, self.y_movement),
    {
        let mut first = 0_u8;
        u8_set_bit(&mut first, 0, self.left_button);
        let ghost x0 = first;
        u8_set_bit(&mut first, 1, self.middle_button);
        let ghost x1 = first;
        u8_set_bit(&mut first, 2, self.right_button);
        let ghost x2 = first;
        u8_set_bit(&mut first, 3, self.always_on);
        let ghost x3 = first;
        u8_set_bit(&mut first, 4, self.x_sign);
        let ghost x4 = first;
        u8_set_bit(&mut first, 5, self.y_sign);
        let ghost x5 = first;
        u8_set_bit(&mut first, 6, self.x_overflow);
        let ghost x6 = first;
        u8_set_bit(&mut first, 7, self.y_overflow);
        let ghost x7 = first;
        let ghost (b0, b1, b2, b3, b4, b5, b6, b7) = (
            self.left_button, self.middle_button, self.right_button, self.always_on,
            self.x_sign, self.y_sign, self.x_overflow, self.y_overflow);
        assert(x7 == (if b0 { 1u8 } else { 0u8 }) | (if b1 { 2u8 } else { 0u8 }) | (if b2 { 4u8 } else { 0u8 })
            | (if b3 { 8u8 } else { 0u8 }) | (if b4 { 16u8 } else { 0u8 }) | (if b5 { 32u8 } else { 0u8 })
            | (if b6 { 64u8 } else { 0u8 }) | (if b7 { 128u8 } else { 0u8 })) by (bit_vector)
            requires
                x0 == if b0 { 0u8 | (1u8 << 0u8) } else { 0u8 & !(1u8 << 0u8) },
                x1 == if b1 { x0 | (1u8 << 1u8) } else { x0 & !(1u8 << 1u8) },
                x2 == if b2 { x1 | (1u8 << 2u8) } else { x1 & !(1u8 << 2u8) },
                x3 == if b3 { x2 | (1u8 << 3u8) } else { x2 & !(1u8 << 3u8) },
                x4 == if b4 { x3 | (1u8 << 4u8) } else { x3 & !(1u8 << 4u8) },
                x5 == if b5 { x4 | (1u8 << 5u8) } else { x4 & !(1u8 << 5u8) },
                x6 == if b6 { x5 | (1u8 << 6u8) } else { x5 & !(1u8 << 6u8) },
                x7 == if b7 { x6 | (1u8 << 7u8) } else { x6 & !(1u8 << 7u8) },
        ;
        (first, self.x_movement, self.y_movement)
    }
}

/// The packet carried by the three bytes the mouse sends.
pub open spec fn spec_decode(misc: u8, x: u8, y: u8) -> MousePacket {
    MousePacket {
        y_overflow: bit(misc, 7),
        x_overflow: bit(misc, 6),
        y_sign: bit(misc, 5),
        x_sign: bit(misc, 4),
        always_on: bit(misc, 3),
        middle_button: bit(misc, 2),
        right_button: bit(misc, 1),
        left_button: bit(misc, 0),
        x_movement: x,
        y_movement: y,
    }
}

/// Decoding the bytes of a packet gives the packet back, except that the
/// middle and right buttons trade places: encoding puts the middle button in
/// bit 1 and the right one in bit 2, decoding reads them the other way.
pub proof fn lemma_decode_to_bytes(p: MousePacket)
    ensures
        spec_decode(spec_flags_byte(p), p.x_movement, p.y_movement) == (MousePacket {
            middle_button: p.right_button,
            right_button: p.middle_button,
            ..p
        }),
{
    let f = spec_flags_byte(p);
    let (b0, b1, b2, b3, b4, b5, b6, b7) = (
        p.left_button, p.middle_button, p.right_button, p.always_on,
        p.x_sign, p.y_sign, p.x_overflow, p.y_overflow);
    assert(bit(f, 0) == b0 && bit(f, 1) == b1 && bit(f, 2) == b2 && bit(f, 3) == b3 && bit(f, 4) == b4
        && bit(f, 5) == b5 && bit(f, 6) == b6 && bit(f, 7) == b7) by (bit_vector)
        requires
            f == (if b0 { 1u8 } else { 0u8 }) | (if b1 { 2u8 } else { 0u8 }) | (if b2 { 4u8 } else { 0u8 })
                | (if b3 { 8u8 } else { 0u8 }) | (if b4 { 16u8 } else { 0u8 }) | (if b5 { 32u8 } else { 0u8 })
                | (if b6 { 64u8 } else { 0u8 }) | (if b7 { 128u8 } else { 0u8 }),
    ;
}

/// Encoding a decoded packet gives back the flags byte the mouse sent, when
/// its middle- and right-button bits (1 and 2) agree.
pub proof fn lemma_to_bytes_decode(misc: u8, x: u8, y: u8)
    requires
        bit(misc, 1) == bit(misc, 2),
    ensures
        spec_flags_byte(spec_decode(misc, x, y)) == misc,
{
    let (b0, b1, b2, b3, b4, b5, b6, b7) = (
        bit(misc, 0), bit(misc, 2), bit(misc, 1), bit(misc, 3),
        bit(misc, 4), bit(misc, 5), bit(misc, 6), bit(misc, 7));
    assert((if b0 { 1u8 } else { 0u8 }) | (if b1 { 2u8 } else { 0u8 }) | (if b2 { 4u8 } else { 0u8 })
        | (if b3 { 8u8 } else { 0u8 }) | (if b4 { 16u8 } else { 0u8 }) | (if b5 { 32u8 } else { 0u8 })
        | (if b6 { 64u8 } else { 0u8 }) | (if b7 { 128u8 } else { 0u8 }) == misc) by (bit_vector)
        requires
            b0 == (misc & (1u8 << 0u8) != 0),
            b1 == (misc & (1u8 << 2u8) != 0),
            b2 == (misc & (1u8 << 1u8) != 0),
            b3 == (misc & (1u8 << 3u8) != 0),
            b4 == (misc & (1u8 << 4u8) != 0),
            b5 == (misc & (1u8 << 5u8) != 0),
            b6 == (misc & (1u8 << 6u8) != 0),
            b7 == (misc & (1u8 << 7u8) != 0),
            (misc & (1u8 << 1u8) != 0) == (misc & (1u8 << 2u8) != 0),
    ;
}

/// Builds the packet carried by the three bytes the mouse sends: flags,
/// horizontal movement, vertical movement.
pub fn decode_simple_packet(misc: u8, x: u8, y: u8) -> (p: MousePacket)
    ensures
        p == spec_decode(misc, x, y),
{
    MousePacket::new(
        u8_get_bit(misc, 7),
        u8_get_bit(misc, 6),
        u8_get_bit(misc, 5),
        u8_get_bit(misc, 4),
        u8_get_bit(misc, 3),
        u8_get_bit(misc, 2),
        u8_get_bit(misc, 1),
        u8_get_bit(misc, 0),
        x,
        y,
    )
}

/// Most packets the queue of mouse packets keeps.
pub const MOUSE_QUEUE_CAP: usize = 256;

/// Puts `packet` at the end of the queue of mouse packets: `QueueNotPresent`
/// when there is no queue yet, `QueueFull` when it holds
/// `MOUSE_QUEUE_CAP` packets, `UnknownError` when the queue itself is full.
pub fn enqueue_packet(queue: &mut Option<ArrayQueue<MousePacket>>, packet: MousePacket) -> (r: Result<(), MouseError>)
    ensures
        *old(queue) is None ==> r == Err::<(), MouseError>(MouseError::QueueNotPresent) && *final(queue) is None,
        *old(queue) is Some ==> ({
            let q = old(queue)->Some_0;
            let n = packet_queue_contents(q).len();
            &&& *final(queue) is Some
            &&& packet_queue_capacity(final(queue)->Some_0) == packet_queue_capacity(q)
            &&& n >= MOUSE_QUEUE_CAP ==> r == Err::<(), MouseError>(MouseError::QueueFull)
                && packet_queue_contents(final(queue)->Some_0) == packet_queue_contents(q)
            &&& n < MOUSE_QUEUE_CAP && n < packet_queue_capacity(q) ==> r is Ok
                && packet_queue_contents(final(queue)->Some_0) == packet_queue_contents(q).push(packet)
            &&& n < MOUSE_QUEUE_CAP && n >= packet_queue_capacity(q) ==> r == Err::<(), MouseError>(MouseError::UnknownError)
                && packet_queue_contents(final(queue)->Some_0) == packet_queue_contents(q)
        }),
{
    match queue {
        Some(q) => {
            if packet_queue_len(q) >= MOUSE_QUEUE_CAP {
                return Err(MouseError::QueueFull);
            }
            match packet_queue_push(q, packet) {
                Ok(()) => Ok(()),
                Err(_) => Err(MouseError::UnknownError),
            }
        },
        None => Err(MouseError::QueueNotPresent),
    }
}

/// Takes the oldest packet out of the queue of mouse packets; `None` when
/// there is no queue or no packet.
pub fn get_packet(queue: &mut Option<ArrayQueue<MousePacket>>) -> (r: Option<MousePacket>)
    ensures
        *old(queue) is None ==> r is None && *final(queue) is None,
        *old(queue) is Some ==> ({
            let q = old(queue)->Some_0;
            &&& *final(queue) is Some
            &&& packet_queue_capacity(final(queue)->Some_0) == packet_queue_capacity(q)
            &&& packet_queue_contents(q).len() == 0 ==> r is None
                && packet_queue_contents(final(queue)->Some_0) == packet_queue_contents(q)
            &&& packet_queue_contents(q).len() > 0 ==> r == Some(packet_queue_contents(q)[0])
                && packet_queue_contents(final(queue)->Some_0) == packet_queue_contents(q).drop_first()
        }),
{
    match queue {
        Some(q) => packet_queue_pop(q),
        None => None,
    }
}

/// Queues the packet carried by the three bytes the mouse sent (flags,
/// horizontal and vertical movement). The queue must exist and have room,
/// as the driver takes for granted.
pub fn read_simple_packet(queue: &mut Option<ArrayQueue<MousePacket>>, misc: u8, x: u8, y: u8)
    requires
        *old(queue) is Some,
        packet_queue_contents(old(queue)->Some_0).len() < MOUSE_QUEUE_CAP,
        packet_queue_contents(old(queue)->Some_0).len() < packet_queue_capacity(old(queue)->Some_0),
    ensures
        *final(queue) is Some,
        packet_queue_capacity(final(queue)->Some_0) == packet_queue_capacity(old(queue)->Some_0),
        packet_queue_contents(final(queue)->Some_0) == packet_queue_contents(old(queue)->Some_0).push(
            spec_decode(misc, x, y),
        ),
{
    let packet = decode_simple_packet(misc, x, y);
    let r = enqueue_packet(queue, packet);
    assert(r is Ok);
}

} // verus!
