//! From key symbols to keycodes: the transitions of texts and chords, shared by
//! every route so that all pick the same keys and hold Shift for the glyphs of
//! the shifted level.

use vstd::prelude::*;
use xkeysym::Keysym;

use crate::desktop::keys::{KeyName, Modifiers};
use crate::unicode::chars_of;

verus! {

/// What `Keysym::from_char` yields, as a number.
pub uninterp spec fn char_keysym(c: char) -> u32;

/// `Keysym::from_char`: the symbol depends on the character alone; a printable
/// Latin-1 character is its own symbol.
#[verifier::external_body]
fn keysym_of_char(c: char) -> (sym: u32)
    ensures
        sym == char_keysym(c),
        (0x20 <= c as u32 && c as u32 <= 0x7e) || (0xa0 <= c as u32 && c as u32 <= 0xff) ==> sym
            == c as u32,
{
    Keysym::from_char(c).raw()
}

/// The symbols of the two Shift keys.
pub const SHIFT_L: u32 = 0xffe1;

pub const SHIFT_R: u32 = 0xffe2;

/// The symbol of a key.
pub open spec fn key_symbol(key: KeyName) -> u32 {
    match key {
        KeyName::Ctrl => 0xffe3u32,
        KeyName::Alt => 0xffe9u32,
        KeyName::Shift => 0xffe1u32,
        KeyName::Meta => 0xffebu32,
        KeyName::Enter => 0xff0du32,
        KeyName::Escape => 0xff1bu32,
        KeyName::Tab => 0xff09u32,
        KeyName::Space => 0x20u32,
        KeyName::Backspace => 0xff08u32,
        KeyName::Delete => 0xffffu32,
        KeyName::Insert => 0xff63u32,
        KeyName::Home => 0xff50u32,
        KeyName::End => 0xff57u32,
        KeyName::PageUp => 0xff55u32,
        KeyName::PageDown => 0xff56u32,
        KeyName::Up => 0xff52u32,
        KeyName::Down => 0xff54u32,
        KeyName::Left => 0xff51u32,
        KeyName::Right => 0xff53u32,
        KeyName::CapsLock => 0xffe5u32,
        KeyName::NumLock => 0xff7fu32,
        KeyName::PrintScreen => 0xff61u32,
        KeyName::F1 => 0xffbeu32,
        KeyName::F2 => 0xffbfu32,
        KeyName::F3 => 0xffc0u32,
        KeyName::F4 => 0xffc1u32,
        KeyName::F5 => 0xffc2u32,
        KeyName::F6 => 0xffc3u32,
        KeyName::F7 => 0xffc4u32,
        KeyName::F8 => 0xffc5u32,
        KeyName::F9 => 0xffc6u32,
        KeyName::F10 => 0xffc7u32,
        KeyName::F11 => 0xffc8u32,
        KeyName::F12 => 0xffc9u32,
        KeyName::F13 => 0xffcau32,
        KeyName::F14 => 0xffcbu32,
        KeyName::F15 => 0xffccu32,
        KeyName::F16 => 0xffcdu32,
        KeyName::F17 => 0xffceu32,
        KeyName::F18 => 0xffcfu32,
        KeyName::F19 => 0xffd0u32,
        KeyName::F20 => 0xffd1u32,
        KeyName::F21 => 0xffd2u32,
        KeyName::F22 => 0xffd3u32,
        KeyName::F23 => 0xffd4u32,
        KeyName::F24 => 0xffd5u32,
        KeyName::Char(c) => if c == '\n' || c == '\r' {
            0xff0d
        } else if c == '\t' {
            0xff09
        } else {
            char_keysym(c)
        },
    }
}

/// The symbol of a key: line breaks and tabs are the Return and Tab keys, any
/// other character has a symbol of its own.
pub fn keysym_for_key(key: KeyName) -> (sym: u32)
    ensures
        sym == key_symbol(key),
{
    match key {
        KeyName::Ctrl => 0xffe3u32,
        KeyName::Alt => 0xffe9u32,
        KeyName::Shift => 0xffe1u32,
        KeyName::Meta => 0xffebu32,
        KeyName::Enter => 0xff0du32,
        KeyName::Escape => 0xff1bu32,
        KeyName::Tab => 0xff09u32,
        KeyName::Space => 0x20u32,
        KeyName::Backspace => 0xff08u32,
        KeyName::Delete => 0xffffu32,
        KeyName::Insert => 0xff63u32,
        KeyName::Home => 0xff50u32,
        KeyName::End => 0xff57u32,
        KeyName::PageUp => 0xff55u32,
        KeyName::PageDown => 0xff56u32,
        KeyName::Up => 0xff52u32,
        KeyName::Down => 0xff54u32,
        KeyName::Left => 0xff51u32,
        KeyName::Right => 0xff53u32,
        KeyName::CapsLock => 0xffe5u32,
        KeyName::NumLock => 0xff7fu32,
        KeyName::PrintScreen => 0xff61u32,
        KeyName::F1 => 0xffbeu32,
        KeyName::F2 => 0xffbfu32,
        KeyName::F3 => 0xffc0u32,
        KeyName::F4 => 0xffc1u32,
        KeyName::F5 => 0xffc2u32,
        KeyName::F6 => 0xffc3u32,
        KeyName::F7 => 0xffc4u32,
        KeyName::F8 => 0xffc5u32,
        KeyName::F9 => 0xffc6u32,
        KeyName::F10 => 0xffc7u32,
        KeyName::F11 => 0xffc8u32,
        KeyName::F12 => 0xffc9u32,
        KeyName::F13 => 0xffcau32,
        KeyName::F14 => 0xffcbu32,
        KeyName::F15 => 0xffccu32,
        KeyName::F16 => 0xffcdu32,
        KeyName::F17 => 0xffceu32,
        KeyName::F18 => 0xffcfu32,
        KeyName::F19 => 0xffd0u32,
        KeyName::F20 => 0xffd1u32,
        KeyName::F21 => 0xffd2u32,
        KeyName::F22 => 0xffd3u32,
        KeyName::F23 => 0xffd4u32,
        KeyName::F24 => 0xffd5u32,
        KeyName::Char(c) => if c == '\n' || c == '\r' {
            0xff0d
        } else if c == '\t' {
            0xff09
        } else {
            keysym_of_char(c)
        },
    }
}

/// One key goes down or up.
#[derive(Clone, Copy, Debug, PartialEq, Eq, Structural)]
pub struct KeyStep {
    pub keycode: u8,
    pub press: bool,
}

/// Why keys cannot be planned.
#[derive(Clone, Copy, Debug, PartialEq, Eq, Structural)]
pub enum KeymapError {
    /// No keycode has the symbol.
    NoKeycode(u32),
    /// No keycode is a Shift key.
    NoShift,
}

/// A keyboard's symbols, and the modifier bits that its keys set.
pub struct Keymap {
    pub min_keycode: u8,
    pub keysyms_per_keycode: u8,
    pub keysyms: Vec<u32>,
    /// A keycode and the modifier bit that it sets while held.
    pub modifier_masks: Vec<(u8, u16)>,
}

/// The first row at or after `r` with the symbol on the level, where rows have
/// `width` symbols.
pub open spec fn row_with(keysyms: Seq<u32>, width: int, level: int, sym: u32, r: int) -> Option<int>
    decreases keysyms.len() as int / width - r,
{
    if r < 0 || width <= 0 || r >= keysyms.len() as int / width {
        None
    } else if level < width && keysyms[r * width + level] == sym {
        Some(r)
    } else {
        row_with(keysyms, width, level, sym, r + 1)
    }
}

/// A row's keycode.
pub open spec fn row_keycode(min: u8, row: int, shift: bool) -> Option<(u8, bool)> {
    if row <= 255 && min + row <= 255 {
        Some(((min + row) as u8, shift))
    } else {
        None
    }
}

/// The number of keycodes from `min` to `max`, as it is asked for.
pub fn keycode_count(min: u8, max: u8) -> (n: u8)
    ensures
        n == (if max < min {
            1
        } else if max - min == 255 {
            255
        } else {
            max - min + 1
        }),
{
    if max < min {
        1
    } else if max - min == 255 {
        255
    } else {
        max - min + 1
    }
}

/// The bit of a modifier.
pub open spec fn modifier_bit(index: int) -> u16 {
    if index == 0 {
        1
    } else if index == 1 {
        2
    } else if index == 2 {
        4
    } else if index == 3 {
        8
    } else if index == 4 {
        16
    } else if index == 5 {
        32
    } else if index == 6 {
        64
    } else {
        128
    }
}

/// The modifier keys among the first `k` entries of a modifier map of `per` keys
/// to each of eight modifiers.
pub open spec fn modifier_entries(keycodes: Seq<u8>, per: int, k: int) -> Seq<(u8, u16)>
    decreases k,
{
    if k <= 0 {
        Seq::empty()
    } else {
        let before = modifier_entries(keycodes, per, k - 1);
        if keycodes[k - 1] != 0 && (k - 1) / per < 8 {
            before.push((keycodes[k - 1], modifier_bit((k - 1) / per)))
        } else {
            before
        }
    }
}

/// The modifier keys of a modifier map, with the bits that they set.
pub fn modifier_map(per: u8, keycodes: &Vec<u8>) -> (out: Vec<(u8, u16)>)
    ensures
        out@ == modifier_entries(
            keycodes@,
            if per == 0 {
                1
            } else {
                per as int
            },
            keycodes@.len() as int,
        ),
{
    let width: usize = if per == 0 {
        1
    } else {
        per as usize
    };
    let mut out: Vec<(u8, u16)> = Vec::new();
    let mut i: usize = 0;
    assert(out@ =~= Seq::<(u8, u16)>::empty());
    while i < keycodes.len()
        invariant
            1 <= width,
            i <= keycodes@.len(),
            out@ == modifier_entries(keycodes@, width as int, i as int),
        decreases keycodes@.len() - i,
    {
        let index: usize = i / width;
        if keycodes[i] != 0 && index < 8 {
            let bit: u16 = match index {
                0 => 1,
                1 => 2,
                2 => 4,
                3 => 8,
                4 => 16,
                5 => 32,
                6 => 64,
                _ => 128,
            };
            out.push((keycodes[i], bit));
        }
        i = i + 1;
    }
    out
}

/// All of `codes` go down, in order.
pub open spec fn downs(codes: Seq<u8>) -> Seq<KeyStep> {
    codes.map_values(|keycode: u8| KeyStep { keycode, press: true })
}

/// All of `codes` go up, in reverse order.
pub open spec fn ups(codes: Seq<u8>) -> Seq<KeyStep> {
    Seq::new(codes.len(), |i: int| KeyStep { keycode: codes[codes.len() - 1 - i], press: false })
}

fn push_downs(codes: &Vec<u8>, out: &mut Vec<KeyStep>)
    ensures
        final(out)@ == old(out)@ + downs(codes@),
{
    let ghost before = out@;
    let mut i: usize = 0;
    assert(before + downs(codes@).take(0) =~= before);
    while i < codes.len()
        invariant
            i <= codes@.len(),
            out@ == before + downs(codes@).take(i as int),
        decreases codes@.len() - i,
    {
        out.push(KeyStep { keycode: codes[i], press: true });
        assert(out@ =~= before + downs(codes@).take(i + 1));
        i = i + 1;
    }
    assert(downs(codes@).take(i as int) =~= downs(codes@));
}

fn push_ups(codes: &Vec<u8>, out: &mut Vec<KeyStep>)
    ensures
        final(out)@ == old(out)@ + ups(codes@),
{
    let ghost before = out@;
    let n: usize = codes.len();
    let mut i: usize = 0;
    assert(before + ups(codes@).take(0) =~= before);
    while i < n
        invariant
            n == codes@.len(),
            i <= n,
            out@ == before + ups(codes@).take(i as int),
        decreases n - i,
    {
        out.push(KeyStep { keycode: codes[n - 1 - i], press: false });
        assert(out@ =~= before + ups(codes@).take(i + 1));
        i = i + 1;
    }
    assert(ups(codes@).take(i as int) =~= ups(codes@));
}

fn has_code(codes: &Vec<u8>, code: u8) -> (r: bool)
    ensures
        r == codes@.contains(code),
{
    let mut i: usize = 0;
    while i < codes.len()
        invariant
            i <= codes@.len(),
            forall|k: int| 0 <= k < i ==> codes@[k] != code,
        decreases codes@.len() - i,
    {
        if codes[i] == code {
            assert(codes@[i as int] == code);
            return true;
        }
        i = i + 1;
    }
    false
}

/// `codes` with `code`, unless it is there.
pub open spec fn with_code(codes: Seq<u8>, code: u8) -> Seq<u8> {
    if codes.contains(code) {
        codes
    } else {
        codes.push(code)
    }
}

impl Keymap {
    /// The keycode that emits a symbol, and whether Shift must be held for it. The
    /// unshifted level wins where a symbol is on both.
    pub open spec fn found(&self, sym: u32) -> Option<(u8, bool)> {
        let width = self.keysyms_per_keycode as int;
        match row_with(self.keysyms@, width, 0, sym, 0) {
            Some(row) => row_keycode(self.min_keycode, row, false),
            None => match row_with(self.keysyms@, width, 1, sym, 0) {
                Some(row) => row_keycode(self.min_keycode, row, true),
                None => None,
            },
        }
    }

    /// The keycode of a Shift key.
    pub open spec fn shift(&self) -> Option<u8> {
        match self.found(SHIFT_L) {
            Some((code, _)) => Some(code),
            None => match self.found(SHIFT_R) {
                Some((code, _)) => Some(code),
                None => None,
            },
        }
    }

    fn find_row(&self, level: usize, sym: u32) -> (row: Option<usize>)
        requires
            self.keysyms_per_keycode > 0,
        ensures
            match row {
                Some(r) => row_with(
                    self.keysyms@,
                    self.keysyms_per_keycode as int,
                    level as int,
                    sym,
                    0,
                ) == Some(r as int),
                None => row_with(
                    self.keysyms@,
                    self.keysyms_per_keycode as int,
                    level as int,
                    sym,
                    0,
                ) is None,
            },
    {
        let width: usize = self.keysyms_per_keycode as usize;
        let total: usize = self.keysyms.len();
        let rows: usize = total / width;
        let ghost w = width as int;
        let mut r: usize = 0;
        while r < rows
            invariant
                width == self.keysyms_per_keycode,
                0 < width <= 255,
                w == width,
                total == self.keysyms@.len(),
                rows == total / width,
                r <= rows,
                row_with(self.keysyms@, w, level as int, sym, 0) == row_with(
                    self.keysyms@,
                    w,
                    level as int,
                    sym,
                    r as int,
                ),
            decreases rows - r,
        {
            proof {
                assert(r * width + width <= total) by (nonlinear_arith)
                    requires
                        0 < width,
                        r < rows,
                        rows == total / width,
                {}
            }
            if level < width && self.keysyms[r * width + level] == sym {
                return Some(r);
            }
            r = r + 1;
        }
        None
    }

    fn code_of_row(&self, row: usize, shift: bool) -> (r: Option<(u8, bool)>)
        ensures
            r == row_keycode(self.min_keycode, row as int, shift),
    {
        if row <= 255 && self.min_keycode as usize + row <= 255 {
            Some((self.min_keycode + row as u8, shift))
        } else {
            None
        }
    }

    /// The keycode that emits a symbol, and whether Shift must be held for it.
    pub fn lookup(&self, sym: u32) -> (r: Option<(u8, bool)>)
        ensures
            r == self.found(sym),
    {
        if self.keysyms_per_keycode == 0 {
            return None;
        }
        match self.find_row(0, sym) {
            Some(row) => self.code_of_row(row, false),
            None => match self.find_row(1, sym) {
                Some(row) => self.code_of_row(row, true),
                None => None,
            },
        }
    }

    /// The keycode of a key, and whether Shift must be held for it.
    pub fn resolve(&self, key: KeyName) -> (r: Result<(u8, bool), KeymapError>)
        ensures
            match r {
                Ok(found) => self.found(key_symbol(key)) == Some(found),
                Err(e) => self.found(key_symbol(key)) is None && e == KeymapError::NoKeycode(
                    key_symbol(key),
                ),
            },
    {
        let sym = keysym_for_key(key);
        match self.lookup(sym) {
            Some(found) => Ok(found),
            None => Err(KeymapError::NoKeycode(sym)),
        }
    }

    /// The keycode of a Shift key.
    pub fn shift_keycode(&self) -> (r: Result<u8, KeymapError>)
        ensures
            match r {
                Ok(code) => self.shift() == Some(code),
                Err(e) => self.shift() is None && e == KeymapError::NoShift,
            },
    {
        match self.lookup(SHIFT_L) {
            Some((code, _)) => Ok(code),
            None => match self.lookup(SHIFT_R) {
                Some((code, _)) => Ok(code),
                None => Err(KeymapError::NoShift),
            },
        }
    }

    /// What is wrong with typing a key.
    pub open spec fn key_error(&self, key: KeyName, needs_shift: bool) -> Option<KeymapError> {
        match self.found(key_symbol(key)) {
            None => Some(KeymapError::NoKeycode(key_symbol(key))),
            Some((_, shifted)) => if shifted && needs_shift && self.shift() is None {
                Some(KeymapError::NoShift)
            } else {
                None
            },
        }
    }

    /// What is wrong with the first character, from `i` on, that cannot be typed.
    pub open spec fn text_error(&self, text: Seq<char>, i: int) -> Option<KeymapError>
        decreases text.len() - i,
    {
        if i < 0 || i >= text.len() {
            None
        } else if self.key_error(KeyName::Char(text[i]), true) is Some {
            self.key_error(KeyName::Char(text[i]), true)
        } else {
            self.text_error(text, i + 1)
        }
    }

    /// The transitions of one character; a shifted glyph is wrapped in Shift.
    pub open spec fn char_steps(&self, c: char) -> Seq<KeyStep> {
        let (keycode, shifted) = self.found(key_symbol(KeyName::Char(c)))->0;
        let pair = seq![KeyStep { keycode, press: true }, KeyStep { keycode, press: false }];
        if shifted {
            let shift = self.shift()->0;
            seq![KeyStep { keycode: shift, press: true }] + pair + seq![
                KeyStep { keycode: shift, press: false },
            ]
        } else {
            pair
        }
    }

    /// The transitions of the first `k` characters.
    pub open spec fn text_steps(&self, text: Seq<char>, k: int) -> Seq<KeyStep>
        decreases k,
    {
        if k <= 0 {
            Seq::empty()
        } else {
            self.text_steps(text, k - 1) + self.char_steps(text[k - 1])
        }
    }

    /// The transitions that type a text. Nothing is planned when a character has
    /// no keycode.
    pub fn plan_text(&self, text: &str) -> (r: Result<Vec<KeyStep>, KeymapError>)
        ensures
            match r {
                Ok(steps) => {
                    &&& self.text_error(text@, 0) is None
                    &&& steps@ == self.text_steps(text@, text@.len() as int)
                },
                Err(e) => self.text_error(text@, 0) == Some(e),
            },
    {
        let chars = chars_of(text);
        let mut steps: Vec<KeyStep> = Vec::new();
        let mut i: usize = 0;
        assert(steps@ =~= Seq::<KeyStep>::empty());
        while i < chars.len()
            invariant
                chars@ == text@,
                i <= chars@.len(),
                self.text_error(text@, 0) == self.text_error(text@, i as int),
                steps@ == self.text_steps(text@, i as int),
            decreases chars@.len() - i,
        {
            let c: char = chars[i];
            let ghost before = steps@;
            let (keycode, shifted) = match self.resolve(KeyName::Char(c)) {
                Ok(found) => found,
                Err(e) => {
                    return Err(e);
                },
            };
            if shifted {
                let shift = match self.shift_keycode() {
                    Ok(shift) => shift,
                    Err(e) => {
                        return Err(e);
                    },
                };
                steps.push(KeyStep { keycode: shift, press: true });
                steps.push(KeyStep { keycode, press: true });
                steps.push(KeyStep { keycode, press: false });
                steps.push(KeyStep { keycode: shift, press: false });
            } else {
                steps.push(KeyStep { keycode, press: true });
                steps.push(KeyStep { keycode, press: false });
            }
            assert(steps@ =~= before + self.char_steps(c));
            i = i + 1;
        }
        Ok(steps)
    }

    /// What is wrong with the first key, from `i` on, that cannot join a chord.
    pub open spec fn chord_error(&self, keys: Seq<KeyName>, needs_shift: bool, i: int) -> Option<
        KeymapError,
    >
        decreases keys.len() - i,
    {
        if i < 0 || i >= keys.len() {
            None
        } else if self.key_error(keys[i], needs_shift) is Some {
            self.key_error(keys[i], needs_shift)
        } else {
            self.chord_error(keys, needs_shift, i + 1)
        }
    }

    /// The keycodes that the first `k` keys of a chord hold, in order: Shift comes
    /// once, before the first shifted glyph, unless the chord has it.
    pub open spec fn chord_codes(&self, keys: Seq<KeyName>, needs_shift: bool, k: int) -> Seq<u8>
        decreases k,
    {
        if k <= 0 {
            Seq::empty()
        } else {
            let before = self.chord_codes(keys, needs_shift, k - 1);
            let (keycode, shifted) = self.found(key_symbol(keys[k - 1]))->0;
            let held = if shifted && needs_shift {
                with_code(before, self.shift()->0)
            } else {
                before
            };
            with_code(held, keycode)
        }
    }

    /// The transitions of a chord: keys go down in order and up in reverse.
    pub fn plan_chord(&self, keys: &Vec<KeyName>) -> (r: Result<Vec<KeyStep>, KeymapError>)
        ensures
            ({
                let needs_shift = !keys@.contains(KeyName::Shift);
                match r {
                    Ok(steps) => {
                        let codes = self.chord_codes(keys@, needs_shift, keys@.len() as int);
                        &&& self.chord_error(keys@, needs_shift, 0) is None
                        &&& steps@ == downs(codes) + ups(codes)
                    },
                    Err(e) => self.chord_error(keys@, needs_shift, 0) == Some(e),
                }
            }),
    {
        let mut has_shift = false;
        let mut j: usize = 0;
        while j < keys.len()
            invariant
                j <= keys@.len(),
                has_shift == keys@.take(j as int).contains(KeyName::Shift),
            decreases keys@.len() - j,
        {
            let here = keys[j] == KeyName::Shift;
            proof {
                assert(keys@.take(j + 1) =~= keys@.take(j as int).push(keys@[j as int]));
                if has_shift {
                    let k = choose|k: int|
                        0 <= k < keys@.take(j as int).len() && keys@.take(j as int)[k]
                            == KeyName::Shift;
                    assert(keys@.take(j + 1)[k] == KeyName::Shift);
                }
                if here {
                    assert(keys@.take(j + 1)[j as int] == KeyName::Shift);
                }
            }
            has_shift = has_shift || here;
            j = j + 1;
        }
        assert(keys@.take(j as int) =~= keys@);
        let needs_shift = !has_shift;
        let mut held: Vec<u8> = Vec::new();
        let mut i: usize = 0;
        assert(held@ =~= Seq::<u8>::empty());
        while i < keys.len()
            invariant
                i <= keys@.len(),
                self.chord_error(keys@, needs_shift, 0) == self.chord_error(
                    keys@,
                    needs_shift,
                    i as int,
                ),
                held@ == self.chord_codes(keys@, needs_shift, i as int),
                needs_shift == !keys@.contains(KeyName::Shift),
            decreases keys@.len() - i,
        {
            let (keycode, shifted) = match self.resolve(keys[i]) {
                Ok(found) => found,
                Err(e) => {
                    return Err(e);
                },
            };
            if shifted && needs_shift {
                let shift = match self.shift_keycode() {
                    Ok(shift) => shift,
                    Err(e) => {
                        return Err(e);
                    },
                };
                if !has_code(&held, shift) {
                    held.push(shift);
                }
            }
            if !has_code(&held, keycode) {
                held.push(keycode);
            }
            i = i + 1;
        }
        let mut steps: Vec<KeyStep> = Vec::new();
        push_downs(&held, &mut steps);
        push_ups(&held, &mut steps);
        assert(steps@ =~= downs(held@) + ups(held@));
        Ok(steps)
    }

    /// The modifiers that are held, in order.
    pub open spec fn modifier_names(m: Modifiers) -> Seq<KeyName> {
        let none = Seq::<KeyName>::empty();
        (if m.ctrl {
            seq![KeyName::Ctrl]
        } else {
            none
        }) + (if m.alt {
            seq![KeyName::Alt]
        } else {
            none
        }) + (if m.shift {
            seq![KeyName::Shift]
        } else {
            none
        }) + (if m.meta {
            seq![KeyName::Meta]
        } else {
            none
        })
    }

    /// The keycodes of some keys.
    pub open spec fn codes_of(&self, names: Seq<KeyName>) -> Seq<u8> {
        names.map_values(
            |key: KeyName|
                {
                    let (code, _) = self.found(key_symbol(key))->0;
                    code
                },
        )
    }

    /// What is wrong with the first key, from `i` on, without a keycode.
    pub open spec fn names_error(&self, names: Seq<KeyName>, i: int) -> Option<KeymapError>
        decreases names.len() - i,
    {
        if i < 0 || i >= names.len() {
            None
        } else if self.found(key_symbol(names[i])) is None {
            Some(KeymapError::NoKeycode(key_symbol(names[i])))
        } else {
            self.names_error(names, i + 1)
        }
    }

    /// The keycodes to hold for a gesture with modifiers.
    pub fn modifier_keycodes(&self, m: Modifiers) -> (r: Result<Vec<u8>, KeymapError>)
        ensures
            ({
                let names = Keymap::modifier_names(m);
                match r {
                    Ok(codes) => self.names_error(names, 0) is None && codes@ == self.codes_of(
                        names,
                    ),
                    Err(e) => self.names_error(names, 0) == Some(e),
                }
            }),
    {
        let mut names: Vec<KeyName> = Vec::new();
        if m.ctrl {
            names.push(KeyName::Ctrl);
        }
        if m.alt {
            names.push(KeyName::Alt);
        }
        if m.shift {
            names.push(KeyName::Shift);
        }
        if m.meta {
            names.push(KeyName::Meta);
        }
        assert(names@ =~= Keymap::modifier_names(m));
        let mut codes: Vec<u8> = Vec::new();
        let mut i: usize = 0;
        while i < names.len()
            invariant
                names@ == Keymap::modifier_names(m),
                i <= names@.len(),
                self.names_error(names@, 0) == self.names_error(names@, i as int),
                codes@ == self.codes_of(names@).take(i as int),
            decreases names@.len() - i,
        {
            match self.resolve(names[i]) {
                Ok((code, _)) => {
                    codes.push(code);
                    assert(codes@ =~= self.codes_of(names@).take(i + 1));
                },
                Err(e) => {
                    return Err(e);
                },
            }
            i = i + 1;
        }
        assert(self.codes_of(names@).take(i as int) =~= self.codes_of(names@));
        Ok(codes)
    }

    /// The modifier bits that a keycode sets, among the first `k` entries.
    pub open spec fn mask_of(&self, keycode: u8, k: int) -> u16
        decreases k,
    {
        if k <= 0 {
            0
        } else if self.modifier_masks@[k - 1].0 == keycode {
            self.mask_of(keycode, k - 1) | self.modifier_masks@[k - 1].1
        } else {
            self.mask_of(keycode, k - 1)
        }
    }

    /// The modifier bits that a keycode sets while held; none for other keys.
    pub fn modifier_mask(&self, keycode: u8) -> (mask: u16)
        ensures
            mask == self.mask_of(keycode, self.modifier_masks@.len() as int),
    {
        let mut mask: u16 = 0;
        let mut i: usize = 0;
        while i < self.modifier_masks.len()
            invariant
                i <= self.modifier_masks@.len(),
                mask == self.mask_of(keycode, i as int),
            decreases self.modifier_masks@.len() - i,
        {
            let (code, bit) = self.modifier_masks[i];
            if code == keycode {
                mask = mask | bit;
            }
            i = i + 1;
        }
        mask
    }

    /// The modifier state behind a transition.
    pub open spec fn stepped(&self, state: u16, step: KeyStep) -> u16 {
        let mask = self.mask_of(step.keycode, self.modifier_masks@.len() as int);
        if step.press {
            state | mask
        } else {
            state & !mask
        }
    }

    /// The modifier state before the transition `k`.
    pub open spec fn state_before(&self, steps: Seq<KeyStep>, k: int) -> u16
        decreases k,
    {
        if k <= 0 {
            0
        } else {
            self.stepped(self.state_before(steps, k - 1), steps[k - 1])
        }
    }
}

// ---------------------------------------------------------------------------
// Running transitions
// ---------------------------------------------------------------------------
/// `codes` without `code`.
pub open spec fn without_code(codes: Seq<u8>, code: u8) -> Seq<u8>
    decreases codes.len(),
{
    if codes.len() == 0 {
        Seq::empty()
    } else if codes.last() == code {
        without_code(codes.drop_last(), code)
    } else {
        without_code(codes.drop_last(), code).push(codes.last())
    }
}

/// The keys held after the first `k` transitions.
pub open spec fn held_after(steps: Seq<KeyStep>, k: int) -> Seq<u8>
    decreases k,
{
    if k <= 0 {
        Seq::empty()
    } else {
        let before = held_after(steps, k - 1);
        if steps[k - 1].press {
            with_code(before, steps[k - 1].keycode)
        } else {
            without_code(before, steps[k - 1].keycode)
        }
    }
}

/// The keys that may be held when the transition `k` failed: a press may have
/// been queued before it failed.
pub open spec fn held_at_failure(steps: Seq<KeyStep>, k: int) -> Seq<u8> {
    let before = held_after(steps, k);
    if steps[k].press {
        with_code(before, steps[k].keycode)
    } else {
        before
    }
}

fn drop_code(codes: &Vec<u8>, code: u8) -> (out: Vec<u8>)
    ensures
        out@ == without_code(codes@, code),
{
    let mut out: Vec<u8> = Vec::new();
    let mut i: usize = 0;
    assert(codes@.take(0) =~= Seq::<u8>::empty());
    assert(out@ =~= Seq::<u8>::empty());
    while i < codes.len()
        invariant
            i <= codes@.len(),
            out@ == without_code(codes@.take(i as int), code),
        decreases codes@.len() - i,
    {
        proof {
            assert(codes@.take(i + 1).drop_last() =~= codes@.take(i as int));
            assert(codes@.take(i + 1).last() == codes@[i as int]);
        }
        if codes[i] != code {
            out.push(codes[i]);
        }
        i = i + 1;
    }
    assert(codes@.take(i as int) =~= codes@);
    out
}

/// What to release when the transition `failed` of a run could not be sent: the
/// keys that the run may still hold, the attempted one included, in reverse.
pub fn cleanup(steps: &Vec<KeyStep>, failed: usize) -> (out: Vec<KeyStep>)
    requires
        failed < steps@.len(),
    ensures
        out@ == ups(held_at_failure(steps@, failed as int)),
{
    let mut held: Vec<u8> = Vec::new();
    let mut i: usize = 0;
    assert(held@ =~= Seq::<u8>::empty());
    while i < failed
        invariant
            i <= failed < steps@.len(),
            held@ == held_after(steps@, i as int),
        decreases failed - i,
    {
        let step: KeyStep = steps[i];
        if step.press {
            if !has_code(&held, step.keycode) {
                held.push(step.keycode);
            }
        } else {
            held = drop_code(&held, step.keycode);
        }
        i = i + 1;
    }
    if steps[failed].press && !has_code(&held, steps[failed].keycode) {
        held.push(steps[failed].keycode);
    }
    let mut out: Vec<KeyStep> = Vec::new();
    push_ups(&held, &mut out);
    assert(out@ =~= ups(held@));
    out
}

/// A run of transitions that are sent one at a time. Once one fails, the keys
/// that may still be held are released, whatever becomes of the releases, and
/// the run has failed.
pub struct StepRun {
    pub steps: Vec<KeyStep>,
    /// The transition that failed.
    pub failed: Option<usize>,
    /// How many were sent of the steps, or of the releases after a failure.
    pub at: usize,
    /// What to release after a failure.
    pub releases: Vec<KeyStep>,
}

impl StepRun {
    /// What there is to send: the steps, or the releases after a failure.
    pub open spec fn sending(&self) -> Seq<KeyStep> {
        match self.failed {
            None => self.steps@,
            Some(i) => ups(held_at_failure(self.steps@, i as int)),
        }
    }

    /// The releases are those that the failure asks for.
    pub open spec fn wf(&self) -> bool {
        &&& self.at <= self.sending().len()
        &&& self.failed matches Some(i) ==> i < self.steps@.len() && self.releases@
            == self.sending()
    }

    /// Nothing has been sent.
    pub fn new(steps: Vec<KeyStep>) -> (run: StepRun)
        ensures
            run.wf(),
            run.steps == steps,
            run.failed is None,
            run.at == 0,
    {
        StepRun { steps, failed: None, at: 0, releases: Vec::new() }
    }

    /// The transition to send next; nothing once the run is over.
    pub fn upcoming(&self) -> (step: Option<KeyStep>)
        requires
            self.wf(),
        ensures
            step == (if self.at < self.sending().len() {
                Some(self.sending()[self.at as int])
            } else {
                None
            }),
    {
        if self.failed.is_none() {
            if self.at < self.steps.len() {
                Some(self.steps[self.at])
            } else {
                None
            }
        } else if self.at < self.releases.len() {
            Some(self.releases[self.at])
        } else {
            None
        }
    }

    /// Takes note of what became of the transition.
    pub fn sent(&mut self, ok: bool)
        requires
            old(self).wf(),
            old(self).at < old(self).sending().len(),
        ensures
            final(self).wf(),
            final(self).steps == old(self).steps,
            if old(self).failed is Some || ok {
                final(self).failed == old(self).failed && final(self).at == old(self).at + 1
            } else {
                final(self).failed == Some(old(self).at) && final(self).at == 0
            },
    {
        assert(self.at < self.steps.len() || self.at < self.releases.len());
        if self.failed.is_some() || ok {
            self.at = self.at + 1;
        } else {
            self.releases = cleanup(&self.steps, self.at);
            self.failed = Some(self.at);
            self.at = 0;
        }
    }
}

/// A run whose transitions carry the modifier state that those before it would
/// have produced. A transition that fails does not change the state.
pub struct QualifiedRun {
    pub run: StepRun,
    pub state: u16,
}

impl QualifiedRun {
    /// Until one fails, the state is what all transitions before have produced.
    pub open spec fn wf(&self, map: &Keymap) -> bool {
        &&& self.run.wf()
        &&& self.run.failed is None ==> self.state == map.state_before(
            self.run.steps@,
            self.run.at as int,
        )
    }

    /// Nothing has been sent.
    pub fn new(steps: Vec<KeyStep>) -> (q: QualifiedRun)
        ensures
            forall|map: &Keymap| #[trigger] q.wf(map),
            q.run.steps == steps,
            q.run.failed is None,
            q.run.at == 0,
            q.state == 0,
    {
        QualifiedRun { run: StepRun::new(steps), state: 0 }
    }

    /// The transition to send next, with the state that it carries; nothing once
    /// the run is over.
    pub fn upcoming(&self) -> (next: Option<(KeyStep, u16)>)
        requires
            self.run.wf(),
        ensures
            next == (if self.run.at < self.run.sending().len() {
                Some((self.run.sending()[self.run.at as int], self.state))
            } else {
                None
            }),
    {
        match self.run.upcoming() {
            Some(step) => Some((step, self.state)),
            None => None,
        }
    }

    /// Takes note of what became of the transition.
    pub fn sent(&mut self, map: &Keymap, ok: bool)
        requires
            old(self).wf(map),
            old(self).run.at < old(self).run.sending().len(),
        ensures
            final(self).wf(map),
            final(self).run.steps == old(self).run.steps,
            if old(self).run.failed is Some || ok {
                final(self).run.failed == old(self).run.failed && final(self).run.at
                    == old(self).run.at + 1
            } else {
                final(self).run.failed == Some(old(self).run.at) && final(self).run.at == 0
            },
            final(self).state == (if ok {
                map.stepped(old(self).state, old(self).run.sending()[old(self).run.at as int])
            } else {
                old(self).state
            }),
    {
        if ok {
            if let Some(step) = self.run.upcoming() {
                let mask = map.modifier_mask(step.keycode);
                if step.press {
                    self.state = self.state | mask;
                } else {
                    self.state = self.state & !mask;
                }
            }
        }
        self.run.sent(ok);
    }
}

/// Every key pressed before a failure, and the one that failed, is released
/// again or was released already.
pub proof fn law_failed_run_releases_every_attempted_key(steps: Seq<KeyStep>, failed: int, i: int)
    requires
        0 <= i <= failed < steps.len(),
        steps[i].press,
        forall|j: int| i < j < failed ==> (#[trigger] steps[j]).keycode != steps[i].keycode || steps[j].press,
    ensures
        held_at_failure(steps, failed).contains(steps[i].keycode),
        ups(held_at_failure(steps, failed)).contains(
            KeyStep { keycode: steps[i].keycode, press: false },
        ),
{
    let code = steps[i].keycode;
    let held = held_at_failure(steps, failed);
    if i < failed {
        lemma_stays_held(steps, i, failed);
        if steps[failed].press {
            lemma_with_code(held_after(steps, failed), steps[failed].keycode, code);
        }
    } else {
        lemma_with_code(held_after(steps, failed), code, code);
    }
    let k = choose|k: int| 0 <= k < held.len() && held[k] == code;
    assert(ups(held)[held.len() - 1 - k] == (KeyStep { keycode: code, press: false }));
}

proof fn lemma_with_code(codes: Seq<u8>, code: u8, kept: u8)
    requires
        codes.contains(kept) || code == kept,
    ensures
        with_code(codes, code).contains(kept),
{
    if codes.contains(kept) {
        let k = choose|k: int| 0 <= k < codes.len() && codes[k] == kept;
        assert(with_code(codes, code)[k] == kept);
    } else if !codes.contains(code) {
        assert(with_code(codes, code)[codes.len() as int] == code);
    }
}

proof fn lemma_without_code(codes: Seq<u8>, code: u8, kept: u8)
    requires
        codes.contains(kept),
        code != kept,
    ensures
        without_code(codes, code).contains(kept),
    decreases codes.len(),
{
    let k = choose|k: int| 0 <= k < codes.len() && codes[k] == kept;
    let head = codes.drop_last();
    if k < codes.len() - 1 {
        assert(head[k] == kept);
        lemma_without_code(head, code, kept);
        let rest = without_code(head, code);
        let j = choose|j: int| 0 <= j < rest.len() && rest[j] == kept;
        assert(without_code(codes, code)[j] == kept);
    } else {
        let rest = without_code(head, code);
        assert(without_code(codes, code)[rest.len() as int] == kept);
    }
}

proof fn lemma_stays_held(steps: Seq<KeyStep>, i: int, k: int)
    requires
        0 <= i < k <= steps.len(),
        steps[i].press,
        forall|j: int| i < j < k ==> (#[trigger] steps[j]).keycode != steps[i].keycode || steps[j].press,
    ensures
        held_after(steps, k).contains(steps[i].keycode),
    decreases k,
{
    let code = steps[i].keycode;
    let before = held_after(steps, k - 1);
    if i == k - 1 {
        lemma_with_code(before, code, code);
    } else {
        lemma_stays_held(steps, i, k - 1);
        assert(steps[k - 1].keycode != code || steps[k - 1].press);
        if steps[k - 1].press {
            lemma_with_code(before, steps[k - 1].keycode, code);
        } else {
            lemma_without_code(before, steps[k - 1].keycode, code);
        }
    }
}

/// A chord holds nothing once it has run.
pub proof fn law_chord_ends_with_nothing_held(codes: Seq<u8>, k: int)
    requires
        0 <= k <= codes.len(),
        forall|a: int, b: int| 0 <= a < b < codes.len() ==> codes[a] != codes[b],
    ensures
        held_after(downs(codes) + ups(codes), codes.len() + k) == codes.take(codes.len() - k),
    decreases k,
{
    let all = downs(codes) + ups(codes);
    let n = codes.len() as int;
    if k == 0 {
        lemma_downs_held(codes, n);
    } else {
        law_chord_ends_with_nothing_held(codes, k - 1);
        let before = codes.take(n - (k - 1));
        assert(all[n + k - 1] == ups(codes)[k - 1]);
        assert(all[n + k - 1] == (KeyStep { keycode: codes[n - k], press: false }));
        assert(before.last() == codes[n - k]);
        assert(before.drop_last() =~= codes.take(n - k));
        lemma_without_absent(codes.take(n - k), codes[n - k]);
    }
}

proof fn lemma_without_absent(codes: Seq<u8>, code: u8)
    requires
        !codes.contains(code),
    ensures
        without_code(codes, code) == codes,
    decreases codes.len(),
{
    if codes.len() > 0 {
        assert(codes[codes.len() - 1] == codes.last());
        assert forall|k: int| 0 <= k < codes.len() - 1 implies codes.drop_last()[k] != code by {
            assert(codes[k] != code);
        }
        lemma_without_absent(codes.drop_last(), code);
        assert(codes.drop_last().push(codes.last()) =~= codes);
    }
}

proof fn lemma_downs_held(codes: Seq<u8>, k: int)
    requires
        0 <= k <= codes.len(),
        forall|a: int, b: int| 0 <= a < b < codes.len() ==> codes[a] != codes[b],
    ensures
        held_after(downs(codes) + ups(codes), k) == codes.take(k),
    decreases k,
{
    let all = downs(codes) + ups(codes);
    if k > 0 {
        lemma_downs_held(codes, k - 1);
        assert(all[k - 1] == downs(codes)[k - 1]);
        let before = codes.take(k - 1);
        assert(!before.contains(codes[k - 1]));
        assert(before.push(codes[k - 1]) =~= codes.take(k));
    } else {
        assert(codes.take(0) =~= Seq::<u8>::empty());
    }
}

/// The key is down in a bit vector of keys.
pub open spec fn key_down(keys: Seq<u8>, code: u8) -> bool {
    keys[(code / 8) as int] & (1u8 << (code % 8)) != 0
}

/// Whether any of the keys is physically held: it must not be released for the
/// user.
pub fn any_down(keys: &Vec<u8>, codes: &Vec<u8>) -> (r: bool)
    requires
        keys@.len() == 32,
    ensures
        r == exists|i: int| 0 <= i < codes@.len() && key_down(keys@, #[trigger] codes@[i]),
{
    let mut i: usize = 0;
    while i < codes.len()
        invariant
            keys@.len() == 32,
            i <= codes@.len(),
            forall|k: int| 0 <= k < i ==> !key_down(keys@, #[trigger] codes@[k]),
        decreases codes@.len() - i,
    {
        let code: u8 = codes[i];
        let byte: u8 = keys[(code / 8) as usize];
        if byte & (1u8 << (code % 8)) != 0 {
            assert(key_down(keys@, codes@[i as int]));
            return true;
        }
        i = i + 1;
    }
    false
}

} // verus!
