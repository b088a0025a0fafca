//! Reading a line typed at the keyboard: what each key event does to the
//! line being typed and what is shown.
use vstd::prelude::*;
use crate::keyboard::keyboard_layout::KeyEvent;

verus! {

/// `String::pop` removes the last character, if any, and returns it.
pub assume_specification[ String::pop ](s: &mut String) -> (r: Option<char>)
    ensures
        old(s)@.len() == 0 ==> r is None && final(s)@ == old(s)@,
        old(s)@.len() > 0 ==> r == Some(old(s)@.last()) && final(s)@ == old(s)@.drop_last(),
;

/// What is shown, or whether the line is complete, after a key event.
#[derive(Copy, Clone, Debug, PartialEq, Eq, Structural)]
pub enum InputAction {
    /// The line is complete: a new line is shown and the line is returned.
    Done,
    /// The character is shown after the line.
    Echo(char),
    /// The line is shown again from the start of the screen line, erasing
    /// the character after it.
    Redraw,
    /// Nothing is shown.
    Nothing,
}

/// The line after key event `e`, and what is shown: a new line completes a
/// non-empty line; backspace and the special key 0 erase the last
/// character; any other character is appended. With `cache` set, the line
/// is not echoed.
pub open spec fn spec_input_step(line: Seq<char>, e: KeyEvent, cache: bool) -> (Seq<char>, InputAction) {
    match e {
        KeyEvent::Character(c) => if c == '\n' {
            (line, if line.len() != 0 { InputAction::Done } else { InputAction::Nothing })
        } else if c == '\x08' {
            (if line.len() > 0 { line.drop_last() } else { line }, if cache {
                InputAction::Nothing
            } else {
                InputAction::Redraw
            })
        } else {
            (line.push(c), if cache { InputAction::Nothing } else { InputAction::Echo(c) })
        },
        KeyEvent::SpecialKey(k) => if k == 0 {
            (if line.len() > 0 { line.drop_last() } else { line }, if cache {
                InputAction::Nothing
            } else {
                InputAction::Redraw
            })
        } else {
            (line, InputAction::Nothing)
        },
    }
}

/// Applies key event `e` to the line being typed.
pub fn input_step(line: &mut String, e: KeyEvent, cache: bool) -> (a: InputAction)
    ensures
        (final(line)@, a) == spec_input_step(old(line)@, e, cache),
{
    match e {
        KeyEvent::Character(c) => {
            if c == '\n' {
                if !line.as_str().is_empty() {
                    InputAction::Done
                } else {
                    InputAction::Nothing
                }
            } else if c == '\x08' {
                let _ = line.pop();
                if cache {
                    InputAction::Nothing
                } else {
                    InputAction::Redraw
                }
            } else {
                line.push(c);
                if cache {
                    InputAction::Nothing
                } else {
                    InputAction::Echo(c)
                }
            }
        },
        KeyEvent::SpecialKey(k) => {
            if k == 0 {
                let _ = line.pop();
                if cache {
                    InputAction::Nothing
                } else {
                    InputAction::Redraw
                }
            } else {
                InputAction::Nothing
            }
        },
    }
}

/// Echo mode changes only what is shown, never the line: with or without
/// `cache`, a key event leaves the same line.
pub proof fn lemma_echo_mode_keeps_line(line: Seq<char>, e: KeyEvent)
    ensures
        spec_input_step(line, e, true).0 == spec_input_step(line, e, false).0,
{
}

/// The erase key (special key 0) removes the last character of a
/// non-empty line, whatever the echo mode: the line is one shorter and
/// agrees with the old one on what is left; an empty line stays empty.
pub proof fn lemma_erase_key_removes_last(line: Seq<char>, cache: bool)
    ensures
        ({
            let after = spec_input_step(line, KeyEvent::SpecialKey(0), cache).0;
            &&& line.len() > 0 ==> after.len() == line.len() - 1
            &&& forall|i: int| 0 <= i < after.len() ==> after[i] == line[i]
            &&& line.len() == 0 ==> after.len() == 0
        }),
{
}

/// Typing an ordinary character and then the erase key gives the line
/// back, in either echo mode.
pub proof fn lemma_type_then_erase(line: Seq<char>, c: char, cache: bool)
    requires
        c != '\n',
        c != '\x08',
    ensures
        spec_input_step(
            spec_input_step(line, KeyEvent::Character(c), cache).0,
            KeyEvent::SpecialKey(0),
            cache,
        ).0 == line,
{
    assert(line.push(c).drop_last() =~= line);
}

/// An ordinary character is added at the end of the line, and shown
/// unless echo is off; the new line completes a non-empty line and leaves
/// it as it is.
pub proof fn lemma_typing_and_enter(line: Seq<char>, c: char, cache: bool)
    ensures
        c != '\n' && c != '\x08' ==> {
            let (after, a) = spec_input_step(line, KeyEvent::Character(c), cache);
            &&& after.len() == line.len() + 1
            &&& after[line.len() as int] == c
            &&& forall|i: int| 0 <= i < line.len() ==> after[i] == line[i]
            &&& a == if cache { InputAction::Nothing } else { InputAction::Echo(c) }
        },
        spec_input_step(line, KeyEvent::Character('\n'), cache).0 == line,
        (spec_input_step(line, KeyEvent::Character('\n'), cache).1 == InputAction::Done) <==> line.len() > 0,
{
}

} // verus!
