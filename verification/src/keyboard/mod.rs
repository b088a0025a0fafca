//! Keyboard handling: from scancodes to key events.
use vstd::prelude::*;
use crossbeam_queue::ArrayQueue;
use crate::bounded_queue::{
    byte_queue_capacity, byte_queue_contents, byte_queue_new, byte_queue_pop, byte_queue_push,
    key_queue_capacity, key_queue_contents, key_queue_new, key_queue_pop, key_queue_push,
};
use self::keyboard_layout::{
    spec_other_layout, spec_status_process, Effect, KeyBoardStatus, KeyBoardView, KeyEvent, Layout,
};

pub mod keyboard_interaction;
pub mod keyboard_layout;

verus! {

/// Number of layouts the keyboard can switch between.
pub const MAX_LAYOUT: u8 = 2;

/// Number of key events waiting at most; twice as many scancodes may wait.
pub const SCANCODE_QUEUE_CAP: usize = 10;

/// Scancode of the tabulation key, which switches the layout.
pub const TAB_SCANCODE: u8 = 15;

/// Returned when no scancode or key event is waiting.
#[derive(Copy, Clone, Debug, PartialEq, Eq, Structural)]
pub struct PopError;

/// The scancodes received from the keyboard and the key events decoded from
/// them, each in a bounded queue, oldest first.
pub struct ScancodeStream {
    scancodes: ArrayQueue<u8>,
    keys: ArrayQueue<KeyEvent>,
}

/// `keys` with `e` appended; when `keys` is full, its oldest event makes room.
pub open spec fn spec_push_evicting(keys: Seq<KeyEvent>, e: KeyEvent) -> Seq<KeyEvent> {
    if keys.len() < SCANCODE_QUEUE_CAP {
        keys.push(e)
    } else {
        keys.drop_first().push(e)
    }
}

/// One step of the keyboard: the oldest waiting scancode is taken out; the
/// tabulation key switches the layout, any other scancode goes through the
/// keyboard status, and the key event it gives, if any, joins the key events.
/// With no scancode waiting, nothing changes.
pub open spec fn spec_process_step(scancodes: Seq<u8>, keys: Seq<KeyEvent>, v: KeyBoardView) -> (
    Seq<u8>,
    Seq<KeyEvent>,
    KeyBoardView,
) {
    if scancodes.len() == 0 {
        (scancodes, keys, v)
    } else {
        let key = scancodes[0];
        if key == TAB_SCANCODE {
            (scancodes.drop_first(), keys, KeyBoardView { layout: spec_other_layout(v.layout), ..v })
        } else {
            let (e, v2) = spec_status_process(v, key);
            (
                scancodes.drop_first(),
                match e {
                    Effect::Value(ev) => spec_push_evicting(keys, ev),
                    Effect::Nothing => keys,
                },
                v2,
            )
        }
    }
}

/// The layout numbered `code`, as long as `code < MAX_LAYOUT`.
pub open spec fn spec_layout_of(code: u8) -> Layout {
    if code == 0 {
        Layout::Fr
    } else {
        Layout::Us
    }
}

impl ScancodeStream {
    /// The waiting scancodes, oldest first.
    pub closed spec fn scancodes(&self) -> Seq<u8> {
        byte_queue_contents(self.scancodes)
    }

    /// The waiting key events, oldest first.
    pub closed spec fn keys(&self) -> Seq<KeyEvent> {
        key_queue_contents(self.keys)
    }

    /// The queues have their capacities and hold no more than them.
    pub closed spec fn wf(&self) -> bool {
        &&& byte_queue_capacity(self.scancodes) == 2 * SCANCODE_QUEUE_CAP
        &&& key_queue_capacity(self.keys) == SCANCODE_QUEUE_CAP
        &&& self.scancodes().len() <= 2 * SCANCODE_QUEUE_CAP
        &&& self.keys().len() <= SCANCODE_QUEUE_CAP
    }

    /// Empty queues.
    pub fn new() -> (s: Self)
        ensures
            s.wf(),
            s.scancodes() == Seq::<u8>::empty(),
            s.keys() == Seq::<KeyEvent>::empty(),
    {
        ScancodeStream {
            scancodes: byte_queue_new(2 * SCANCODE_QUEUE_CAP),
            keys: key_queue_new(SCANCODE_QUEUE_CAP),
        }
    }
}

/// Appends `e` to the key events; when they are full, the oldest one is
/// dropped first.
fn push_evicting(q: &mut ArrayQueue<KeyEvent>, e: KeyEvent)
    requires
        key_queue_capacity(*old(q)) == SCANCODE_QUEUE_CAP,
        key_queue_contents(*old(q)).len() <= SCANCODE_QUEUE_CAP,
    ensures
        key_queue_capacity(*final(q)) == SCANCODE_QUEUE_CAP,
        key_queue_contents(*final(q)) == spec_push_evicting(key_queue_contents(*old(q)), e),
{
    let ghost start = key_queue_contents(*q);
    let mut v = e;
    loop
        invariant_except_break
            key_queue_capacity(*q) == SCANCODE_QUEUE_CAP,
            key_queue_contents(*q).len() <= SCANCODE_QUEUE_CAP,
            v == e,
            start.len() <= SCANCODE_QUEUE_CAP,
            key_queue_contents(*q) == start || (start.len() >= SCANCODE_QUEUE_CAP
                && key_queue_contents(*q) == start.drop_first()),
        ensures
            key_queue_capacity(*q) == SCANCODE_QUEUE_CAP,
            key_queue_contents(*q) == spec_push_evicting(start, e),
        decreases key_queue_contents(*q).len() + (if key_queue_contents(*q).len()
            >= SCANCODE_QUEUE_CAP {
            2int
        } else {
            0int
        }),
    {
        match key_queue_push(q, v) {
            Ok(()) => {
                break ;
            },
            Err(back) => {
                let _ = key_queue_pop(q);
                v = back;
            },
        }
    }
}

/// Queues `scancode`, or drops it when the scancode queue is full. Before the
/// queues exist, makes them and drops the scancode.
pub fn add_scancode(stream: &mut Option<ScancodeStream>, scancode: u8)
    requires
        *old(stream) matches Some(s) ==> s.wf(),
    ensures
        *final(stream) matches Some(s) && s.wf(),
        *old(stream) is None ==> final(stream)->Some_0.scancodes() == Seq::<u8>::empty()
            && final(stream)->Some_0.keys() == Seq::<KeyEvent>::empty(),
        *old(stream) matches Some(s0) ==> ({
            let s1 = final(stream)->Some_0;
            &&& s1.keys() == s0.keys()
            &&& s1.scancodes() == if s0.scancodes().len() < 2 * SCANCODE_QUEUE_CAP {
                s0.scancodes().push(scancode)
            } else {
                s0.scancodes()
            }
        }),
{
    match stream {
        Some(s) => {
            let _ = byte_queue_push(&mut s.scancodes, scancode);
        },
        None => {
            *stream = Some(ScancodeStream::new());
        },
    }
}

/// Handles the oldest waiting scancode, as `spec_process_step` says. Without
/// queues nothing happens.
pub fn process(stream: &mut Option<ScancodeStream>, status: &mut KeyBoardStatus)
    requires
        *old(stream) matches Some(s) ==> s.wf(),
    ensures
        *old(stream) is None ==> *final(stream) is None && final(status)@ == old(status)@,
        *old(stream) matches Some(s0) ==> ({
            let s1 = final(stream)->Some_0;
            &&& *final(stream) is Some
            &&& s1.wf()
            &&& (s1.scancodes(), s1.keys(), final(status)@) == spec_process_step(
                s0.scancodes(),
                s0.keys(),
                old(status)@,
            )
        }),
{
    match stream {
        Some(s) => {
            match byte_queue_pop(&mut s.scancodes) {
                None => {},
                Some(key) => {
                    if key == TAB_SCANCODE {
                        status.change_layout();
                    } else {
                        match status.process(key) {
                            Effect::Nothing => {},
                            Effect::Value(e) => {
                                push_evicting(&mut s.keys, e);
                            },
                        }
                    }
                },
            }
        },
        None => {},
    }
}

/// Handles the oldest waiting scancode, then takes out the oldest key event.
pub fn get_top_value(stream: &mut Option<ScancodeStream>, status: &mut KeyBoardStatus) -> (r: Result<
    KeyEvent,
    PopError,
>)
    requires
        *old(stream) matches Some(s) ==> s.wf(),
    ensures
        *old(stream) is None ==> r == Err::<KeyEvent, PopError>(PopError) && *final(stream) is None
            && final(status)@ == old(status)@,
        *old(stream) matches Some(s0) ==> ({
            let (scancodes, keys, v) = spec_process_step(s0.scancodes(), s0.keys(), old(status)@);
            let s1 = final(stream)->Some_0;
            &&& *final(stream) is Some
            &&& s1.wf()
            &&& s1.scancodes() == scancodes
            &&& final(status)@ == v
            &&& keys.len() == 0 ==> r == Err::<KeyEvent, PopError>(PopError) && s1.keys() == keys
            &&& keys.len() > 0 ==> r == Ok::<KeyEvent, PopError>(keys[0]) && s1.keys()
                == keys.drop_first()
        }),
{
    process(stream, status);
    match stream {
        Some(s) => match key_queue_pop(&mut s.keys) {
            Some(e) => Ok(e),
            None => Err(PopError),
        },
        None => Err(PopError),
    }
}

/// Takes out the oldest waiting scancode, untouched by the keyboard status.
pub fn get_top_key_event(stream: &mut Option<ScancodeStream>) -> (r: Result<u8, PopError>)
    requires
        *old(stream) matches Some(s) ==> s.wf(),
    ensures
        *old(stream) is None ==> r == Err::<u8, PopError>(PopError) && *final(stream) is None,
        *old(stream) matches Some(s0) ==> ({
            let s1 = final(stream)->Some_0;
            &&& *final(stream) is Some
            &&& s1.wf()
            &&& s1.keys() == s0.keys()
            &&& s0.scancodes().len() == 0 ==> r == Err::<u8, PopError>(PopError) && s1.scancodes()
                == s0.scancodes()
            &&& s0.scancodes().len() > 0 ==> r == Ok::<u8, PopError>(s0.scancodes()[0])
                && s1.scancodes() == s0.scancodes().drop_first()
        }),
{
    match stream {
        Some(s) => match byte_queue_pop(&mut s.scancodes) {
            Some(k) => Ok(k),
            None => Err(PopError),
        },
        None => Err(PopError),
    }
}

/// Selects layout number `code` (0 French, 1 US); other codes are ignored.
pub fn set_layout(status: &mut KeyBoardStatus, code: u8)
    ensures
        code < MAX_LAYOUT ==> final(status)@ == (KeyBoardView { layout: spec_layout_of(code), ..old(status)@ }),
        code >= MAX_LAYOUT ==> final(status)@ == old(status)@,
{
    if code < MAX_LAYOUT {
        let layout = if code == 0 {
            Layout::Fr
        } else {
            Layout::Us
        };
        status.set_layout(layout);
    }
}

} // verus!
