//! Keyboard status (modifier keys, pressed keys, layout) and the decoding
//! of scancodes into key events.
use vstd::prelude::*;

verus! {

/// What a key press produces.
#[derive(Copy, Clone, Debug, PartialEq, Eq, Structural)]
pub enum KeyEvent {
    Character(char),
    SpecialKey(u8),
}

/// The effect of a scancode.
#[derive(Copy, Clone, Debug, PartialEq, Eq, Structural)]
pub enum Effect {
    Nothing,
    Value(KeyEvent),
}

/// Keyboard layouts.
#[derive(Copy, Clone, Debug, PartialEq, Eq, Structural)]
pub enum Layout {
    Fr,
    Us,
}

/// Lower-case French layout.
pub open spec fn spec_lower_case_fr(key: u8) -> Effect {
    match key {
        2 => Effect::Value(KeyEvent::Character('&')),
        3 => Effect::Value(KeyEvent::Character('\u{e9}')),
        4 => Effect::Value(KeyEvent::Character('"')),
        5 => Effect::Value(KeyEvent::Character('\'')),
        6 => Effect::Value(KeyEvent::Character('(')),
        7 => Effect::Value(KeyEvent::Character('-')),
        8 => Effect::Value(KeyEvent::Character('\u{e8}')),
        9 => Effect::Value(KeyEvent::Character('_')),
        10 => Effect::Value(KeyEvent::Character('\u{e7}')),
        11 => Effect::Value(KeyEvent::Character('\u{e0}')),
        12 => Effect::Value(KeyEvent::Character(')')),
        13 => Effect::Value(KeyEvent::Character('=')),
        16 => Effect::Value(KeyEvent::Character('a')),
        17 => Effect::Value(KeyEvent::Character('z')),
        18 => Effect::Value(KeyEvent::Character('e')),
        19 => Effect::Value(KeyEvent::Character('r')),
        20 => Effect::Value(KeyEvent::Character('t')),
        21 => Effect::Value(KeyEvent::Character('y')),
        22 => Effect::Value(KeyEvent::Character('u')),
        23 => Effect::Value(KeyEvent::Character('i')),
        24 => Effect::Value(KeyEvent::Character('o')),
        25 => Effect::Value(KeyEvent::Character('p')),
        26 => Effect::Value(KeyEvent::Character('^')),
        27 => Effect::Value(KeyEvent::Character('$')),
        28 => Effect::Value(KeyEvent::Character('\n')),
        30 => Effect::Value(KeyEvent::Character('q')),
        31 => Effect::Value(KeyEvent::Character('s')),
        32 => Effect::Value(KeyEvent::Character('d')),
        33 => Effect::Value(KeyEvent::Character('f')),
        34 => Effect::Value(KeyEvent::Character('g')),
        35 => Effect::Value(KeyEvent::Character('h')),
        36 => Effect::Value(KeyEvent::Character('j')),
        37 => Effect::Value(KeyEvent::Character('k')),
        38 => Effect::Value(KeyEvent::Character('l')),
        39 => Effect::Value(KeyEvent::Character('m')),
        40 => Effect::Value(KeyEvent::Character('%')),
        44 => Effect::Value(KeyEvent::Character('w')),
        45 => Effect::Value(KeyEvent::Character('x')),
        46 => Effect::Value(KeyEvent::Character('c')),
        47 => Effect::Value(KeyEvent::Character('v')),
        48 => Effect::Value(KeyEvent::Character('b')),
        49 => Effect::Value(KeyEvent::Character('n')),
        50 => Effect::Value(KeyEvent::Character(',')),
        51 => Effect::Value(KeyEvent::Character(';')),
        52 => Effect::Value(KeyEvent::Character('/')),
        53 => Effect::Value(KeyEvent::Character('!')),
        57 => Effect::Value(KeyEvent::Character(' ')),
        14 => Effect::Value(KeyEvent::SpecialKey(0)),
        15 => Effect::Value(KeyEvent::SpecialKey(1)),
        _ => Effect::Nothing,
    }
}

/// Lower-case French layout.
pub fn lower_case_fr(key: u8) -> (e: Effect)
    ensures
        e == spec_lower_case_fr(key),
{
    match key {
        2 => Effect::Value(KeyEvent::Character('&')),
        3 => Effect::Value(KeyEvent::Character('\u{e9}')),
        4 => Effect::Value(KeyEvent::Character('"')),
        5 => Effect::Value(KeyEvent::Character('\'')),
        6 => Effect::Value(KeyEvent::Character('(')),
        7 => Effect::Value(KeyEvent::Character('-')),
        8 => Effect::Value(KeyEvent::Character('\u{e8}')),
        9 => Effect::Value(KeyEvent::Character('_')),
        10 => Effect::Value(KeyEvent::Character('\u{e7}')),
        11 => Effect::Value(KeyEvent::Character('\u{e0}')),
        12 => Effect::Value(KeyEvent::Character(')')),
        13 => Effect::Value(KeyEvent::Character('=')),
        16 => Effect::Value(KeyEvent::Character('a')),
        17 => Effect::Value(KeyEvent::Character('z')),
        18 => Effect::Value(KeyEvent::Character('e')),
        19 => Effect::Value(KeyEvent::Character('r')),
        20 => Effect::Value(KeyEvent::Character('t')),
        21 => Effect::Value(KeyEvent::Character('y')),
        22 => Effect::Value(KeyEvent::Character('u')),
        23 => Effect::Value(KeyEvent::Character('i')),
        24 => Effect::Value(KeyEvent::Character('o')),
        25 => Effect::Value(KeyEvent::Character('p')),
        26 => Effect::Value(KeyEvent::Character('^')),
        27 => Effect::Value(KeyEvent::Character('$')),
        28 => Effect::Value(KeyEvent::Character('\n')),
        30 => Effect::Value(KeyEvent::Character('q')),
        31 => Effect::Value(KeyEvent::Character('s')),
        32 => Effect::Value(KeyEvent::Character('d')),
        33 => Effect::Value(KeyEvent::Character('f')),
        34 => Effect::Value(KeyEvent::Character('g')),
        35 => Effect::Value(KeyEvent::Character('h')),
        36 => Effect::Value(KeyEvent::Character('j')),
        37 => Effect::Value(KeyEvent::Character('k')),
        38 => Effect::Value(KeyEvent::Character('l')),
        39 => Effect::Value(KeyEvent::Character('m')),
        40 => Effect::Value(KeyEvent::Character('%')),
        44 => Effect::Value(KeyEvent::Character('w')),
        45 => Effect::Value(KeyEvent::Character('x')),
        46 => Effect::Value(KeyEvent::Character('c')),
        47 => Effect::Value(KeyEvent::Character('v')),
        48 => Effect::Value(KeyEvent::Character('b')),
        49 => Effect::Value(KeyEvent::Character('n')),
        50 => Effect::Value(KeyEvent::Character(',')),
        51 => Effect::Value(KeyEvent::Character(';')),
        52 => Effect::Value(KeyEvent::Character('/')),
        53 => Effect::Value(KeyEvent::Character('!')),
        57 => Effect::Value(KeyEvent::Character(' ')),
        14 => Effect::Value(KeyEvent::SpecialKey(0)),
        15 => Effect::Value(KeyEvent::SpecialKey(1)),
        _ => Effect::Nothing,
    }
}

/// Upper-case French layout.
pub open spec fn spec_upper_case_fr(key: u8) -> Effect {
    match key {
        2 => Effect::Value(KeyEvent::Character('1')),
        3 => Effect::Value(KeyEvent::Character('2')),
        4 => Effect::Value(KeyEvent::Character('3')),
        5 => Effect::Value(KeyEvent::Character('4')),
        6 => Effect::Value(KeyEvent::Character('5')),
        7 => Effect::Value(KeyEvent::Character('6')),
        8 => Effect::Value(KeyEvent::Character('7')),
        9 => Effect::Value(KeyEvent::Character('8')),
        10 => Effect::Value(KeyEvent::Character('9')),
        11 => Effect::Value(KeyEvent::Character('0')),
        12 => Effect::Value(KeyEvent::Character('\u{b0}')),
        13 => Effect::Value(KeyEvent::Character('+')),
        16 => Effect::Value(KeyEvent::Character('A')),
        17 => Effect::Value(KeyEvent::Character('Z')),
        18 => Effect::Value(KeyEvent::Character('E')),
        19 => Effect::Value(KeyEvent::Character('R')),
        20 => Effect::Value(KeyEvent::Character('T')),
        21 => Effect::Value(KeyEvent::Character('Y')),
        22 => Effect::Value(KeyEvent::Character('U')),
        23 => Effect::Value(KeyEvent::Character('I')),
        24 => Effect::Value(KeyEvent::Character('O')),
        25 => Effect::Value(KeyEvent::Character('P')),
        26 => Effect::Value(KeyEvent::Character('\u{a8}')),
        27 => Effect::Value(KeyEvent::Character('\u{a3}')),
        28 => Effect::Value(KeyEvent::Character('\n')),
        30 => Effect::Value(KeyEvent::Character('Q')),
        31 => Effect::Value(KeyEvent::Character('S')),
        32 => Effect::Value(KeyEvent::Character('D')),
        33 => Effect::Value(KeyEvent::Character('F')),
        34 => Effect::Value(KeyEvent::Character('G')),
        35 => Effect::Value(KeyEvent::Character('H')),
        36 => Effect::Value(KeyEvent::Character('J')),
        37 => Effect::Value(KeyEvent::Character('K')),
        38 => Effect::Value(KeyEvent::Character('L')),
        39 => Effect::Value(KeyEvent::Character('M')),
        40 => Effect::Value(KeyEvent::Character('%')),
        44 => Effect::Value(KeyEvent::Character('W')),
        45 => Effect::Value(KeyEvent::Character('X')),
        46 => Effect::Value(KeyEvent::Character('C')),
        47 => Effect::Value(KeyEvent::Character('V')),
        48 => Effect::Value(KeyEvent::Character('B')),
        49 => Effect::Value(KeyEvent::Character('N')),
        50 => Effect::Value(KeyEvent::Character('?')),
        51 => Effect::Value(KeyEvent::Character('.')),
        52 => Effect::Value(KeyEvent::Character(':')),
        53 => Effect::Value(KeyEvent::Character('\u{a7}')),
        57 => Effect::Value(KeyEvent::Character(' ')),
        14 => Effect::Value(KeyEvent::SpecialKey(0)),
        15 => Effect::Value(KeyEvent::SpecialKey(1)),
        _ => Effect::Nothing,
    }
}

/// Upper-case French layout.
pub fn upper_case_fr(key: u8) -> (e: Effect)
    ensures
        e == spec_upper_case_fr(key),
{
    match key {
        2 => Effect::Value(KeyEvent::Character('1')),
        3 => Effect::Value(KeyEvent::Character('2')),
        4 => Effect::Value(KeyEvent::Character('3')),
        5 => Effect::Value(KeyEvent::Character('4')),
        6 => Effect::Value(KeyEvent::Character('5')),
        7 => Effect::Value(KeyEvent::Character('6')),
        8 => Effect::Value(KeyEvent::Character('7')),
        9 => Effect::Value(KeyEvent::Character('8')),
        10 => Effect::Value(KeyEvent::Character('9')),
        11 => Effect::Value(KeyEvent::Character('0')),
        12 => Effect::Value(KeyEvent::Character('\u{b0}')),
        13 => Effect::Value(KeyEvent::Character('+')),
        16 => Effect::Value(KeyEvent::Character('A')),
        17 => Effect::Value(KeyEvent::Character('Z')),
        18 => Effect::Value(KeyEvent::Character('E')),
        19 => Effect::Value(KeyEvent::Character('R')),
        20 => Effect::Value(KeyEvent::Character('T')),
        21 => Effect::Value(KeyEvent::Character('Y')),
        22 => Effect::Value(KeyEvent::Character('U')),
        23 => Effect::Value(KeyEvent::Character('I')),
        24 => Effect::Value(KeyEvent::Character('O')),
        25 => Effect::Value(KeyEvent::Character('P')),
        26 => Effect::Value(KeyEvent::Character('\u{a8}')),
        27 => Effect::Value(KeyEvent::Character('\u{a3}')),
        28 => Effect::Value(KeyEvent::Character('\n')),
        30 => Effect::Value(KeyEvent::Character('Q')),
        31 => Effect::Value(KeyEvent::Character('S')),
        32 => Effect::Value(KeyEvent::Character('D')),
        33 => Effect::Value(KeyEvent::Character('F')),
        34 => Effect::Value(KeyEvent::Character('G')),
        35 => Effect::Value(KeyEvent::Character('H')),
        36 => Effect::Value(KeyEvent::Character('J')),
        37 => Effect::Value(KeyEvent::Character('K')),
        38 => Effect::Value(KeyEvent::Character('L')),
        39 => Effect::Value(KeyEvent::Character('M')),
        40 => Effect::Value(KeyEvent::Character('%')),
        44 => Effect::Value(KeyEvent::Character('W')),
        45 => Effect::Value(KeyEvent::Character('X')),
        46 => Effect::Value(KeyEvent::Character('C')),
        47 => Effect::Value(KeyEvent::Character('V')),
        48 => Effect::Value(KeyEvent::Character('B')),
        49 => Effect::Value(KeyEvent::Character('N')),
        50 => Effect::Value(KeyEvent::Character('?')),
        51 => Effect::Value(KeyEvent::Character('.')),
        52 => Effect::Value(KeyEvent::Character(':')),
        53 => Effect::Value(KeyEvent::Character('\u{a7}')),
        57 => Effect::Value(KeyEvent::Character(' ')),
        14 => Effect::Value(KeyEvent::SpecialKey(0)),
        15 => Effect::Value(KeyEvent::SpecialKey(1)),
        _ => Effect::Nothing,
    }
}

/// Layout used for the French numeric and alternate tables and for every US table.
pub open spec fn spec_base_layout(key: u8) -> Effect {
    match key {
        2 => Effect::Value(KeyEvent::Character('&')),
        3 => Effect::Value(KeyEvent::Character('\u{e9}')),
        4 => Effect::Value(KeyEvent::Character('"')),
        5 => Effect::Value(KeyEvent::Character('\'')),
        6 => Effect::Value(KeyEvent::Character('(')),
        7 => Effect::Value(KeyEvent::Character('-')),
        8 => Effect::Value(KeyEvent::Character('\u{e8}')),
        9 => Effect::Value(KeyEvent::Character('_')),
        10 => Effect::Value(KeyEvent::Character('\u{e7}')),
        11 => Effect::Value(KeyEvent::Character('\u{e0}')),
        12 => Effect::Value(KeyEvent::Character(')')),
        13 => Effect::Value(KeyEvent::Character('=')),
        16 => Effect::Value(KeyEvent::Character('a')),
        17 => Effect::Value(KeyEvent::Character('z')),
        18 => Effect::Value(KeyEvent::Character('e')),
        19 => Effect::Value(KeyEvent::Character('r')),
        20 => Effect::Value(KeyEvent::Character('t')),
        21 => Effect::Value(KeyEvent::Character('y')),
        22 => Effect::Value(KeyEvent::Character('u')),
        23 => Effect::Value(KeyEvent::Character('i')),
        24 => Effect::Value(KeyEvent::Character('o')),
        25 => Effect::Value(KeyEvent::Character('p')),
        26 => Effect::Value(KeyEvent::Character('^')),
        27 => Effect::Value(KeyEvent::Character('$')),
        28 => Effect::Value(KeyEvent::Character('\n')),
        30 => Effect::Value(KeyEvent::Character('q')),
        31 => Effect::Value(KeyEvent::Character('s')),
        32 => Effect::Value(KeyEvent::Character('d')),
        33 => Effect::Value(KeyEvent::Character('f')),
        34 => Effect::Value(KeyEvent::Character('g')),
        35 => Effect::Value(KeyEvent::Character('h')),
        36 => Effect::Value(KeyEvent::Character('j')),
        37 => Effect::Value(KeyEvent::Character('k')),
        38 => Effect::Value(KeyEvent::Character('l')),
        39 => Effect::Value(KeyEvent::Character('m')),
        40 => Effect::Value(KeyEvent::Character('%')),
        44 => Effect::Value(KeyEvent::Character('w')),
        45 => Effect::Value(KeyEvent::Character('x')),
        46 => Effect::Value(KeyEvent::Character('c')),
        47 => Effect::Value(KeyEvent::Character('v')),
        48 => Effect::Value(KeyEvent::Character('b')),
        49 => Effect::Value(KeyEvent::Character('n')),
        50 => Effect::Value(KeyEvent::Character('?')),
        51 => Effect::Value(KeyEvent::Character('.')),
        52 => Effect::Value(KeyEvent::Character('/')),
        53 => Effect::Value(KeyEvent::Character('=')),
        57 => Effect::Value(KeyEvent::Character(' ')),
        14 => Effect::Value(KeyEvent::SpecialKey(0)),
        15 => Effect::Value(KeyEvent::SpecialKey(1)),
        _ => Effect::Nothing,
    }
}

/// Layout used for the French numeric and alternate tables and for every US table.
pub fn base_layout(key: u8) -> (e: Effect)
    ensures
        e == spec_base_layout(key),
{
    match key {
        2 => Effect::Value(KeyEvent::Character('&')),
        3 => Effect::Value(KeyEvent::Character('\u{e9}')),
        4 => Effect::Value(KeyEvent::Character('"')),
        5 => Effect::Value(KeyEvent::Character('\'')),
        6 => Effect::Value(KeyEvent::Character('(')),
        7 => Effect::Value(KeyEvent::Character('-')),
        8 => Effect::Value(KeyEvent::Character('\u{e8}')),
        9 => Effect::Value(KeyEvent::Character('_')),
        10 => Effect::Value(KeyEvent::Character('\u{e7}')),
        11 => Effect::Value(KeyEvent::Character('\u{e0}')),
        12 => Effect::Value(KeyEvent::Character(')')),
        13 => Effect::Value(KeyEvent::Character('=')),
        16 => Effect::Value(KeyEvent::Character('a')),
        17 => Effect::Value(KeyEvent::Character('z')),
        18 => Effect::Value(KeyEvent::Character('e')),
        19 => Effect::Value(KeyEvent::Character('r')),
        20 => Effect::Value(KeyEvent::Character('t')),
        21 => Effect::Value(KeyEvent::Character('y')),
        22 => Effect::Value(KeyEvent::Character('u')),
        23 => Effect::Value(KeyEvent::Character('i')),
        24 => Effect::Value(KeyEvent::Character('o')),
        25 => Effect::Value(KeyEvent::Character('p')),
        26 => Effect::Value(KeyEvent::Character('^')),
        27 => Effect::Value(KeyEvent::Character('$')),
        28 => Effect::Value(KeyEvent::Character('\n')),
        30 => Effect::Value(KeyEvent::Character('q')),
        31 => Effect::Value(KeyEvent::Character('s')),
        32 => Effect::Value(KeyEvent::Character('d')),
        33 => Effect::Value(KeyEvent::Character('f')),
        34 => Effect::Value(KeyEvent::Character('g')),
        35 => Effect::Value(KeyEvent::Character('h')),
        36 => Effect::Value(KeyEvent::Character('j')),
        37 => Effect::Value(KeyEvent::Character('k')),
        38 => Effect::Value(KeyEvent::Character('l')),
        39 => Effect::Value(KeyEvent::Character('m')),
        40 => Effect::Value(KeyEvent::Character('%')),
        44 => Effect::Value(KeyEvent::Character('w')),
        45 => Effect::Value(KeyEvent::Character('x')),
        46 => Effect::Value(KeyEvent::Character('c')),
        47 => Effect::Value(KeyEvent::Character('v')),
        48 => Effect::Value(KeyEvent::Character('b')),
        49 => Effect::Value(KeyEvent::Character('n')),
        50 => Effect::Value(KeyEvent::Character('?')),
        51 => Effect::Value(KeyEvent::Character('.')),
        52 => Effect::Value(KeyEvent::Character('/')),
        53 => Effect::Value(KeyEvent::Character('=')),
        57 => Effect::Value(KeyEvent::Character(' ')),
        14 => Effect::Value(KeyEvent::SpecialKey(0)),
        15 => Effect::Value(KeyEvent::SpecialKey(1)),
        _ => Effect::Nothing,
    }
}

/// The effect of pressing `key` under `layout`, in numeric, alternate or
/// upper-case mode, or else lower case.
pub open spec fn spec_key_effect(layout: Layout, num: bool, alt: bool, maj: bool, key: u8) -> Effect {
    match layout {
        Layout::Fr => if num || alt {
            spec_base_layout(key)
        } else if maj {
            spec_upper_case_fr(key)
        } else {
            spec_lower_case_fr(key)
        },
        Layout::Us => spec_base_layout(key),
    }
}

/// The layout that a layout switch leads to.
pub open spec fn spec_other_layout(l: Layout) -> Layout {
    match l {
        Layout::Fr => Layout::Us,
        Layout::Us => Layout::Fr,
    }
}

/// What scancode `key` gives on a keyboard in status `v`, and the status
/// after it. A release code (above 127) marks its key up and releases shift
/// or alt; a press code marks its key down and gives the key's value in the
/// current layout and mode.
pub open spec fn spec_status_process(v: KeyBoardView, key: u8) -> (Effect, KeyBoardView) {
    if key > 127 {
        (Effect::Nothing, KeyBoardView {
            table_status: v.table_status.update(key - 128, false),
            shift_r: if key - 128 == 54 { false } else { v.shift_r },
            shift_l: if key - 128 == 42 { false } else { v.shift_l },
            alt: if key - 128 == 56 { false } else { v.alt },
            ..v
        })
    } else {
        (spec_key_effect(
            v.layout,
            v.num_lock || v.shift_l || v.shift_r || v.maj,
            v.alt,
            v.maj || v.shift_l || v.shift_r,
            key,
        ), KeyBoardView { table_status: v.table_status.update(key as int, true), ..v })
    }
}

/// State of the keyboard: modifier keys, which keys are down, and the layout.
pub struct KeyBoardStatus {
    maj: bool,
    shift_l: bool,
    shift_r: bool,
    num_lock: bool,
    control: bool,
    alt: bool,
    alt_gr: bool,
    fn_key: bool,
    table_status: [bool; 128],
    layout: Layout,
}

/// Plain view of the keyboard status.
pub struct KeyBoardView {
    pub maj: bool,
    pub shift_l: bool,
    pub shift_r: bool,
    pub num_lock: bool,
    pub control: bool,
    pub alt: bool,
    pub alt_gr: bool,
    pub fn_key: bool,
    pub table_status: Seq<bool>,
    pub layout: Layout,
}

impl KeyBoardStatus {
    /// The status as plain values.
    pub closed spec fn view(&self) -> KeyBoardView {
        KeyBoardView {
            maj: self.maj,
            shift_l: self.shift_l,
            shift_r: self.shift_r,
            num_lock: self.num_lock,
            control: self.control,
            alt: self.alt,
            alt_gr: self.alt_gr,
            fn_key: self.fn_key,
            table_status: self.table_status@,
            layout: self.layout,
        }
    }

    /// No modifier active, no key down, French layout.
    pub fn new() -> (k: Self)
        ensures
            k@ == (KeyBoardView {
                maj: false,
                shift_l: false,
                shift_r: false,
                num_lock: false,
                control: false,
                alt: false,
                alt_gr: false,
                fn_key: false,
                table_status: Seq::new(128, |i: int| false),
                layout: Layout::Fr,
            }),
    {
        let k = KeyBoardStatus {
            maj: false,
            shift_l: false,
            shift_r: false,
            num_lock: false,
            control: false,
            alt: false,
            alt_gr: false,
            fn_key: false,
            table_status: [false; 128],
            layout: Layout::Fr,
        };
        assert(k.table_status@ =~= Seq::new(128, |i: int| false));
        k
    }

    /// Left shift pressed.
    pub fn shift_l_down(&mut self)
        ensures
            final(self)@ == (KeyBoardView { shift_l: true, ..old(self)@ }),
    {
        self.shift_l = true;
    }

    /// Left shift released.
    pub fn shift_l_up(&mut self)
        ensures
            final(self)@ == (KeyBoardView { shift_l: false, ..old(self)@ }),
    {
        self.shift_l = false;
    }

    /// Right shift pressed.
    pub fn shift_r_down(&mut self)
        ensures
            final(self)@ == (KeyBoardView { shift_r: true, ..old(self)@ }),
    {
        self.shift_r = true;
    }

    /// Right shift released.
    pub fn shift_r_up(&mut self)
        ensures
            final(self)@ == (KeyBoardView { shift_r: false, ..old(self)@ }),
    {
        self.shift_r = false;
    }

    /// Alt pressed.
    pub fn alt_down(&mut self)
        ensures
            final(self)@ == (KeyBoardView { alt: true, ..old(self)@ }),
    {
        self.alt = true;
    }

    /// Alt released.
    pub fn alt_up(&mut self)
        ensures
            final(self)@ == (KeyBoardView { alt: false, ..old(self)@ }),
    {
        self.alt = false;
    }

    /// Toggles caps lock.
    pub fn maj_s(&mut self)
        ensures
            final(self)@ == (KeyBoardView { maj: !old(self)@.maj, ..old(self)@ }),
    {
        self.maj = !self.maj;
    }

    /// Toggles num lock.
    pub fn num_lock(&mut self)
        ensures
            final(self)@ == (KeyBoardView { num_lock: !old(self)@.num_lock, ..old(self)@ }),
    {
        self.num_lock = !self.num_lock;
    }

    /// Function key released.
    pub fn fn_up(&mut self)
        ensures
            final(self)@ == (KeyBoardView { fn_key: false, ..old(self)@ }),
    {
        self.fn_key = false;
    }

    /// Function key pressed.
    pub fn fn_down(&mut self)
        ensures
            final(self)@ == (KeyBoardView { fn_key: true, ..old(self)@ }),
    {
        self.fn_key = true;
    }

    /// Toggles control.
    pub fn control_s(&mut self)
        ensures
            final(self)@ == (KeyBoardView { control: !old(self)@.control, ..old(self)@ }),
    {
        self.control = !self.control;
    }

    /// Selects the layout.
    pub fn set_layout(&mut self, layout: Layout)
        ensures
            final(self)@ == (KeyBoardView { layout: layout, ..old(self)@ }),
    {
        self.layout = layout;
    }

    /// The current layout.
    pub fn get_layout(&self) -> (l: Layout)
        ensures
            l == self@.layout,
    {
        self.layout
    }

    /// Switches to the other layout.
    pub fn change_layout(&mut self)
        ensures
            final(self)@ == (KeyBoardView { layout: spec_other_layout(old(self)@.layout), ..old(self)@ }),
    {
        let current_layout = self.get_layout();
        let new_layout = match current_layout {
            Layout::Fr => Layout::Us,
            Layout::Us => Layout::Fr,
        };
        self.set_layout(new_layout);
    }

    /// Upper case: caps lock or either shift.
    pub fn maj(&self) -> (b: bool)
        ensures
            b == (self@.maj || self@.shift_l || self@.shift_r),
    {
        self.maj || self.shift_l || self.shift_r
    }

    /// Numeric mode: num lock, either shift, or caps lock.
    pub fn num(&self) -> (b: bool)
        ensures
            b == (self@.num_lock || self@.shift_l || self@.shift_r || self@.maj),
    {
        self.num_lock || self.shift_l || self.shift_r || self.maj
    }

    /// Whether the function key is down.
    pub fn function(&self) -> (b: bool)
        ensures
            b == self@.fn_key,
    {
        self.fn_key
    }

    /// Whether either shift is down.
    pub fn shift(&self) -> (b: bool)
        ensures
            b == (self@.shift_r || self@.shift_l),
    {
        self.shift_r || self.shift_l
    }

    /// Whether alt is down.
    pub fn alt(&self) -> (b: bool)
        ensures
            b == self@.alt,
    {
        self.alt
    }

    /// Handles scancode `key`. A release code (above 127) marks its key up
    /// and releases shift or alt; a press code marks its key down and gives
    /// the key's value in the current layout and mode.
    pub fn process(&mut self, key: u8) -> (e: Effect)
        ensures
            (e, final(self)@) == spec_status_process(old(self)@, key),
    {
        if key > 127u8 {
            self.table_status[(key - 128) as usize] = false;
            match key - 128 {
                54 => self.shift_r_up(),
                42 => self.shift_l_up(),
                56 => self.alt_up(),
                _ => (),
            };
            assert(self.table_status@ =~= old(self)@.table_status.update(key - 128, false));
            Effect::Nothing
        } else {
            self.table_status[key as usize] = true;
            assert(self.table_status@ =~= old(self)@.table_status.update(key as int, true));
            let is_fr = match self.layout {
                Layout::Fr => true,
                Layout::Us => false,
            };
            if self.num() {
                base_layout(key)
            } else if self.alt {
                base_layout(key)
            } else if self.maj() {
                if is_fr {
                    upper_case_fr(key)
                } else {
                    base_layout(key)
                }
            } else {
                if is_fr {
                    lower_case_fr(key)
                } else {
                    base_layout(key)
                }
            }
        }
    }
}

/// The letters of the three letter rows of an AZERTY keyboard, left to
/// right, with the scancode of the first key of each row.
pub open spec fn azerty_rows() -> Seq<(u8, Seq<char>)> {
    seq![
        (16u8, seq!['a', 'z', 'e', 'r', 't', 'y', 'u', 'i', 'o', 'p']),
        (30u8, seq!['q', 's', 'd', 'f', 'g', 'h', 'j', 'k', 'l', 'm']),
        (44u8, seq!['w', 'x', 'c', 'v', 'b', 'n']),
    ]
}

/// Every letter key of the French layout gives, in lower case, the letter
/// printed on that AZERTY key.
pub proof fn lemma_lower_case_fr_letters()
    ensures
        forall|r: int, i: int|
            0 <= r < 3 && 0 <= i < azerty_rows()[r].1.len() ==> spec_lower_case_fr(
                (azerty_rows()[r].0 + i) as u8,
            ) == Effect::Value(KeyEvent::Character(#[trigger] azerty_rows()[r].1[i])),
{
    let rows = azerty_rows();
    assert(rows[0].1.len() == 10 && rows[1].1.len() == 10 && rows[2].1.len() == 6);
    assert forall|r: int, i: int|
        0 <= r < 3 && 0 <= i < azerty_rows()[r].1.len() implies spec_lower_case_fr(
            (azerty_rows()[r].0 + i) as u8,
        ) == Effect::Value(KeyEvent::Character(#[trigger] azerty_rows()[r].1[i])) by {
        if r == 0 {
            assert(rows[0].1 == seq!['a', 'z', 'e', 'r', 't', 'y', 'u', 'i', 'o', 'p']);
        } else if r == 1 {
            assert(rows[1].1 == seq!['q', 's', 'd', 'f', 'g', 'h', 'j', 'k', 'l', 'm']);
        } else {
            assert(rows[2].1 == seq!['w', 'x', 'c', 'v', 'b', 'n']);
        }
    }
}

/// Where the upper-case French table gives a capital letter, the
/// lower-case table gives the same letter in lower case.
pub proof fn lemma_lower_case_fr_is_lowered_upper(key: u8, c: char)
    requires
        spec_upper_case_fr(key) == Effect::Value(KeyEvent::Character(c)),
        'A' <= c <= 'Z',
    ensures
        spec_lower_case_fr(key) == Effect::Value(KeyEvent::Character(((c as u32) + 32) as char)),
{
}

/// On a French keyboard with no modifier on, pressing a letter key gives
/// the lower-case letter printed on it.
pub proof fn lemma_plain_french_letter_press(v: KeyBoardView, r: int, i: int)
    requires
        v.layout == Layout::Fr,
        !v.num_lock,
        !v.shift_l,
        !v.shift_r,
        !v.maj,
        !v.alt,
        0 <= r < 3,
        0 <= i < azerty_rows()[r].1.len(),
    ensures
        spec_status_process(v, (azerty_rows()[r].0 + i) as u8).0 == Effect::Value(
            KeyEvent::Character(azerty_rows()[r].1[i]),
        ),
{
    lemma_lower_case_fr_letters();
    assert(azerty_rows()[r].0 + i < 128);
}

/// Every letter key gives in upper case the capital of the letter printed
/// on that AZERTY key, and in the base table (numeric, alternate and US
/// modes) the letter itself.
pub proof fn lemma_french_letter_cases()
    ensures
        forall|r: int, i: int|
            0 <= r < 3 && 0 <= i < azerty_rows()[r].1.len() ==> {
                let key = (azerty_rows()[r].0 + i) as u8;
                let c = #[trigger] azerty_rows()[r].1[i];
                &&& spec_upper_case_fr(key) == Effect::Value(KeyEvent::Character(((c as u32) - 32) as char))
                &&& spec_base_layout(key) == Effect::Value(KeyEvent::Character(c))
            },
{
    let rows = azerty_rows();
    assert(rows[0].1.len() == 10 && rows[1].1.len() == 10 && rows[2].1.len() == 6);
    assert forall|r: int, i: int|
        0 <= r < 3 && 0 <= i < azerty_rows()[r].1.len() implies {
            let key = (azerty_rows()[r].0 + i) as u8;
            let c = #[trigger] azerty_rows()[r].1[i];
            &&& spec_upper_case_fr(key) == Effect::Value(KeyEvent::Character(((c as u32) - 32) as char))
            &&& spec_base_layout(key) == Effect::Value(KeyEvent::Character(c))
        } by {
        if r == 0 {
            assert(rows[0].1 == seq!['a', 'z', 'e', 'r', 't', 'y', 'u', 'i', 'o', 'p']);
        } else if r == 1 {
            assert(rows[1].1 == seq!['q', 's', 'd', 'f', 'g', 'h', 'j', 'k', 'l', 'm']);
        } else {
            assert(rows[2].1 == seq!['w', 'x', 'c', 'v', 'b', 'n']);
        }
    }
}

/// The number row of an AZERTY keyboard (scancodes 2 to 13): its
/// unshifted characters, and its shifted ones.
pub open spec fn azerty_number_row() -> (Seq<char>, Seq<char>) {
    (
        seq!['&', '\u{e9}', '"', '\'', '(', '-', '\u{e8}', '_', '\u{e7}', '\u{e0}', ')', '='],
        seq!['1', '2', '3', '4', '5', '6', '7', '8', '9', '0', '\u{b0}', '+'],
    )
}

/// The number row gives its unshifted characters in lower case and in the
/// base table, its shifted ones in upper case.
pub proof fn lemma_french_number_row()
    ensures
        forall|i: int|
            0 <= i < 12 ==> {
                let key = (2 + i) as u8;
                &&& spec_lower_case_fr(key) == Effect::Value(KeyEvent::Character(#[trigger] azerty_number_row().0[i]))
                &&& spec_base_layout(key) == Effect::Value(KeyEvent::Character(azerty_number_row().0[i]))
                &&& spec_upper_case_fr(key) == Effect::Value(KeyEvent::Character(azerty_number_row().1[i]))
            },
{
}

} // verus!
