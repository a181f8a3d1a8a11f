//! Input through emulated input devices of a compositor: which device takes a
//! gesture, and the transitions to send.

use vstd::prelude::*;

use super::keys::{KeyName, Modifiers, MouseButton};

verus! {

// ---------------------------------------------------------------------------
// Keycodes
// ---------------------------------------------------------------------------
/// The kernel keycode of a character on the US layout, and whether it needs
/// Shift.
pub open spec fn us_key(c: char) -> Option<(u32, bool)> {
    match c {
        'a' => Some((30u32, false)),
        'A' => Some((30u32, true)),
        'b' => Some((48u32, false)),
        'B' => Some((48u32, true)),
        'c' => Some((46u32, false)),
        'C' => Some((46u32, true)),
        'd' => Some((32u32, false)),
        'D' => Some((32u32, true)),
        'e' => Some((18u32, false)),
        'E' => Some((18u32, true)),
        'f' => Some((33u32, false)),
        'F' => Some((33u32, true)),
        'g' => Some((34u32, false)),
        'G' => Some((34u32, true)),
        'h' => Some((35u32, false)),
        'H' => Some((35u32, true)),
        'i' => Some((23u32, false)),
        'I' => Some((23u32, true)),
        'j' => Some((36u32, false)),
        'J' => Some((36u32, true)),
        'k' => Some((37u32, false)),
        'K' => Some((37u32, true)),
        'l' => Some((38u32, false)),
        'L' => Some((38u32, true)),
        'm' => Some((50u32, false)),
        'M' => Some((50u32, true)),
        'n' => Some((49u32, false)),
        'N' => Some((49u32, true)),
        'o' => Some((24u32, false)),
        'O' => Some((24u32, true)),
        'p' => Some((25u32, false)),
        'P' => Some((25u32, true)),
        'q' => Some((16u32, false)),
        'Q' => Some((16u32, true)),
        'r' => Some((19u32, false)),
        'R' => Some((19u32, true)),
        's' => Some((31u32, false)),
        'S' => Some((31u32, true)),
        't' => Some((20u32, false)),
        'T' => Some((20u32, true)),
        'u' => Some((22u32, false)),
        'U' => Some((22u32, true)),
        'v' => Some((47u32, false)),
        'V' => Some((47u32, true)),
        'w' => Some((17u32, false)),
        'W' => Some((17u32, true)),
        'x' => Some((45u32, false)),
        'X' => Some((45u32, true)),
        'y' => Some((21u32, false)),
        'Y' => Some((21u32, true)),
        'z' => Some((44u32, false)),
        'Z' => Some((44u32, true)),
        '1' => Some((2u32, false)),
        '2' => Some((3u32, false)),
        '3' => Some((4u32, false)),
        '4' => Some((5u32, false)),
        '5' => Some((6u32, false)),
        '6' => Some((7u32, false)),
        '7' => Some((8u32, false)),
        '8' => Some((9u32, false)),
        '9' => Some((10u32, false)),
        '0' => Some((11u32, false)),
        ' ' => Some((57u32, false)),
        '\n' | '\r' => Some((28u32, false)),
        '\t' => Some((15u32, false)),
        '-' => Some((12u32, false)),
        '_' => Some((12u32, true)),
        '=' => Some((13u32, false)),
        '+' => Some((13u32, true)),
        '[' => Some((26u32, false)),
        '{' => Some((26u32, true)),
        ']' => Some((27u32, false)),
        '}' => Some((27u32, true)),
        '\\' => Some((43u32, false)),
        '|' => Some((43u32, true)),
        ';' => Some((39u32, false)),
        ':' => Some((39u32, true)),
        '\'' => Some((40u32, false)),
        '"' => Some((40u32, true)),
        '`' => Some((41u32, false)),
        '~' => Some((41u32, true)),
        ',' => Some((51u32, false)),
        '<' => Some((51u32, true)),
        '.' => Some((52u32, false)),
        '>' => Some((52u32, true)),
        '/' => Some((53u32, false)),
        '?' => Some((53u32, true)),
        '!' => Some((2u32, true)),
        '@' => Some((3u32, true)),
        '#' => Some((4u32, true)),
        '$' => Some((5u32, true)),
        '%' => Some((6u32, true)),
        '^' => Some((7u32, true)),
        '&' => Some((8u32, true)),
        '*' => Some((9u32, true)),
        '(' => Some((10u32, true)),
        ')' => Some((11u32, true)),
        _ => None,
    }
}

/// The kernel keycode of a character on the US layout, and whether it needs
/// Shift.
pub fn evdev_char(c: char) -> (r: Option<(u32, bool)>)
    ensures
        r == us_key(c),
{
    match c {
        'a' => Some((30u32, false)),
        'A' => Some((30u32, true)),
        'b' => Some((48u32, false)),
        'B' => Some((48u32, true)),
        'c' => Some((46u32, false)),
        'C' => Some((46u32, true)),
        'd' => Some((32u32, false)),
        'D' => Some((32u32, true)),
        'e' => Some((18u32, false)),
        'E' => Some((18u32, true)),
        'f' => Some((33u32, false)),
        'F' => Some((33u32, true)),
        'g' => Some((34u32, false)),
        'G' => Some((34u32, true)),
        'h' => Some((35u32, false)),
        'H' => Some((35u32, true)),
        'i' => Some((23u32, false)),
        'I' => Some((23u32, true)),
        'j' => Some((36u32, false)),
        'J' => Some((36u32, true)),
        'k' => Some((37u32, false)),
        'K' => Some((37u32, true)),
        'l' => Some((38u32, false)),
        'L' => Some((38u32, true)),
        'm' => Some((50u32, false)),
        'M' => Some((50u32, true)),
        'n' => Some((49u32, false)),
        'N' => Some((49u32, true)),
        'o' => Some((24u32, false)),
        'O' => Some((24u32, true)),
        'p' => Some((25u32, false)),
        'P' => Some((25u32, true)),
        'q' => Some((16u32, false)),
        'Q' => Some((16u32, true)),
        'r' => Some((19u32, false)),
        'R' => Some((19u32, true)),
        's' => Some((31u32, false)),
        'S' => Some((31u32, true)),
        't' => Some((20u32, false)),
        'T' => Some((20u32, true)),
        'u' => Some((22u32, false)),
        'U' => Some((22u32, true)),
        'v' => Some((47u32, false)),
        'V' => Some((47u32, true)),
        'w' => Some((17u32, false)),
        'W' => Some((17u32, true)),
        'x' => Some((45u32, false)),
        'X' => Some((45u32, true)),
        'y' => Some((21u32, false)),
        'Y' => Some((21u32, true)),
        'z' => Some((44u32, false)),
        'Z' => Some((44u32, true)),
        '1' => Some((2u32, false)),
        '2' => Some((3u32, false)),
        '3' => Some((4u32, false)),
        '4' => Some((5u32, false)),
        '5' => Some((6u32, false)),
        '6' => Some((7u32, false)),
        '7' => Some((8u32, false)),
        '8' => Some((9u32, false)),
        '9' => Some((10u32, false)),
        '0' => Some((11u32, false)),
        ' ' => Some((57u32, false)),
        '\n' | '\r' => Some((28u32, false)),
        '\t' => Some((15u32, false)),
        '-' => Some((12u32, false)),
        '_' => Some((12u32, true)),
        '=' => Some((13u32, false)),
        '+' => Some((13u32, true)),
        '[' => Some((26u32, false)),
        '{' => Some((26u32, true)),
        ']' => Some((27u32, false)),
        '}' => Some((27u32, true)),
        '\\' => Some((43u32, false)),
        '|' => Some((43u32, true)),
        ';' => Some((39u32, false)),
        ':' => Some((39u32, true)),
        '\'' => Some((40u32, false)),
        '"' => Some((40u32, true)),
        '`' => Some((41u32, false)),
        '~' => Some((41u32, true)),
        ',' => Some((51u32, false)),
        '<' => Some((51u32, true)),
        '.' => Some((52u32, false)),
        '>' => Some((52u32, true)),
        '/' => Some((53u32, false)),
        '?' => Some((53u32, true)),
        '!' => Some((2u32, true)),
        '@' => Some((3u32, true)),
        '#' => Some((4u32, true)),
        '$' => Some((5u32, true)),
        '%' => Some((6u32, true)),
        '^' => Some((7u32, true)),
        '&' => Some((8u32, true)),
        '*' => Some((9u32, true)),
        '(' => Some((10u32, true)),
        ')' => Some((11u32, true)),
        _ => None,
    }
}

/// The kernel keycode of a named key.
pub open spec fn named_key(key: KeyName) -> Option<u32> {
    match key {
        KeyName::Ctrl => Some(29u32),
        KeyName::Alt => Some(56u32),
        KeyName::Shift => Some(42u32),
        KeyName::Meta => Some(125u32),
        KeyName::Enter => Some(28u32),
        KeyName::Escape => Some(1u32),
        KeyName::Tab => Some(15u32),
        KeyName::Space => Some(57u32),
        KeyName::Backspace => Some(14u32),
        KeyName::Delete => Some(111u32),
        KeyName::Insert => Some(110u32),
        KeyName::Home => Some(102u32),
        KeyName::End => Some(107u32),
        KeyName::PageUp => Some(104u32),
        KeyName::PageDown => Some(109u32),
        KeyName::Up => Some(103u32),
        KeyName::Down => Some(108u32),
        KeyName::Left => Some(105u32),
        KeyName::Right => Some(106u32),
        KeyName::CapsLock => Some(58u32),
        KeyName::NumLock => Some(69u32),
        KeyName::PrintScreen => Some(99u32),
        KeyName::F1 => Some(59u32),
        KeyName::F2 => Some(60u32),
        KeyName::F3 => Some(61u32),
        KeyName::F4 => Some(62u32),
        KeyName::F5 => Some(63u32),
        KeyName::F6 => Some(64u32),
        KeyName::F7 => Some(65u32),
        KeyName::F8 => Some(66u32),
        KeyName::F9 => Some(67u32),
        KeyName::F10 => Some(68u32),
        KeyName::F11 => Some(87u32),
        KeyName::F12 => Some(88u32),
        KeyName::F13 => Some(183u32),
        KeyName::F14 => Some(184u32),
        KeyName::F15 => Some(185u32),
        KeyName::F16 => Some(186u32),
        KeyName::F17 => Some(187u32),
        KeyName::F18 => Some(188u32),
        KeyName::F19 => Some(189u32),
        KeyName::F20 => Some(190u32),
        KeyName::F21 => Some(191u32),
        KeyName::F22 => Some(192u32),
        KeyName::F23 => Some(193u32),
        KeyName::F24 => Some(194u32),
        KeyName::Char(c) => match us_key(c) {
            Some((code, _)) => Some(code),
            None => None,
        },
    }
}

/// Why input cannot be planned.
#[derive(Clone, Copy, Debug, PartialEq, Eq, Structural)]
pub enum InputError {
    /// The character has no keycode.
    NoKeycode(char),
    /// The character is not in the active group of the layout.
    NotInGroup(char, u32),
    /// No layout was announced.
    NoLayout(char),
    /// A drag without points.
    EmptyPath,
    /// No running pointer can do all of the gesture.
    NoPointer,
    /// No running keyboard on the pointer's seat.
    NoKeyboard,
    /// The compositor ended the connection.
    Disconnected,
}

/// The kernel keycode of a key.
pub fn evdev_keycode(key: KeyName) -> (r: Result<u32, InputError>)
    ensures
        match r {
            Ok(code) => named_key(key) == Some(code),
            Err(e) => {
                &&& named_key(key) is None
                &&& key matches KeyName::Char(c)
                &&& e == InputError::NoKeycode(c)
            },
        },
{
    match key {
        KeyName::Ctrl => Ok(29u32),
        KeyName::Alt => Ok(56u32),
        KeyName::Shift => Ok(42u32),
        KeyName::Meta => Ok(125u32),
        KeyName::Enter => Ok(28u32),
        KeyName::Escape => Ok(1u32),
        KeyName::Tab => Ok(15u32),
        KeyName::Space => Ok(57u32),
        KeyName::Backspace => Ok(14u32),
        KeyName::Delete => Ok(111u32),
        KeyName::Insert => Ok(110u32),
        KeyName::Home => Ok(102u32),
        KeyName::End => Ok(107u32),
        KeyName::PageUp => Ok(104u32),
        KeyName::PageDown => Ok(109u32),
        KeyName::Up => Ok(103u32),
        KeyName::Down => Ok(108u32),
        KeyName::Left => Ok(105u32),
        KeyName::Right => Ok(106u32),
        KeyName::CapsLock => Ok(58u32),
        KeyName::NumLock => Ok(69u32),
        KeyName::PrintScreen => Ok(99u32),
        KeyName::F1 => Ok(59u32),
        KeyName::F2 => Ok(60u32),
        KeyName::F3 => Ok(61u32),
        KeyName::F4 => Ok(62u32),
        KeyName::F5 => Ok(63u32),
        KeyName::F6 => Ok(64u32),
        KeyName::F7 => Ok(65u32),
        KeyName::F8 => Ok(66u32),
        KeyName::F9 => Ok(67u32),
        KeyName::F10 => Ok(68u32),
        KeyName::F11 => Ok(87u32),
        KeyName::F12 => Ok(88u32),
        KeyName::F13 => Ok(183u32),
        KeyName::F14 => Ok(184u32),
        KeyName::F15 => Ok(185u32),
        KeyName::F16 => Ok(186u32),
        KeyName::F17 => Ok(187u32),
        KeyName::F18 => Ok(188u32),
        KeyName::F19 => Ok(189u32),
        KeyName::F20 => Ok(190u32),
        KeyName::F21 => Ok(191u32),
        KeyName::F22 => Ok(192u32),
        KeyName::F23 => Ok(193u32),
        KeyName::F24 => Ok(194u32),
        KeyName::Char(c) => match evdev_char(c) {
            Some((code, _)) => Ok(code),
            None => Err(InputError::NoKeycode(c)),
        },
    }
}

/// A key and the modifiers to hold for it.
pub struct KeyStroke {
    pub keycode: u32,
    pub modifiers: Vec<u32>,
}

/// The keycode of Shift.
pub const SHIFT: u32 = 42;

/// What a layout says of one character.
pub struct LayoutAnswer {
    /// The layout has the keys of the US layout for ASCII.
    pub us_ascii: bool,
    /// The stroke in the active group.
    pub stroke: Option<KeyStroke>,
    /// The active group.
    pub group: u32,
}

/// A control character.
pub open spec fn control(c: char) -> bool {
    (c as u32) < 0x20 || 0x7f <= (c as u32) <= 0x9f
}

/// The modifiers of a US key.
pub open spec fn us_modifiers(shift: bool) -> Seq<u32> {
    if shift {
        seq![SHIFT]
    } else {
        Seq::empty()
    }
}

/// The character goes by its US key: with a layout that has those keys, or as a
/// control character that the layout lacks.
pub open spec fn goes_by_us_key(layout: Option<LayoutAnswer>, c: char) -> bool {
    us_key(c) is Some && match layout {
        Some(l) => (l.us_ascii && (c as u32) < 0x80) || (l.stroke is None && control(c)),
        None => control(c),
    }
}

fn us_stroke(code: u32, shift: bool) -> (s: KeyStroke)
    ensures
        s.keycode == code,
        s.modifiers@ == us_modifiers(shift),
{
    let mut modifiers: Vec<u32> = Vec::new();
    if shift {
        modifiers.push(SHIFT);
    }
    assert(modifiers@ =~= us_modifiers(shift));
    KeyStroke { keycode: code, modifiers }
}

/// The stroke of a character in the active group of the layout. A key of another
/// group would give another glyph, so a printable character that the group lacks
/// is an error; so is any printable character without a layout.
pub fn char_stroke(layout: Option<LayoutAnswer>, c: char) -> (r: Result<KeyStroke, InputError>)
    ensures
        match r {
            Ok(s) => if goes_by_us_key(layout, c) {
                &&& us_key(c) matches Some((code, shift))
                &&& s.keycode == code
                &&& s.modifiers@ == us_modifiers(shift)
            } else {
                &&& layout matches Some(l)
                &&& l.stroke == Some(s)
            },
            Err(e) => {
                &&& !goes_by_us_key(layout, c)
                &&& match layout {
                    Some(l) => l.stroke is None && e == InputError::NotInGroup(c, l.group),
                    None => e == InputError::NoLayout(c),
                }
            },
        },
{
    let code: u32 = c as u32;
    let is_control = code < 0x20 || (0x7f <= code && code <= 0x9f);
    match layout {
        Some(l) => {
            if code < 0x80 && l.us_ascii {
                match evdev_char(c) {
                    Some((key, shift)) => {
                        return Ok(us_stroke(key, shift));
                    },
                    None => {},
                }
            }
            match l.stroke {
                Some(s) => {
                    return Ok(s);
                },
                None => {},
            }
            if is_control {
                match evdev_char(c) {
                    Some((key, shift)) => {
                        return Ok(us_stroke(key, shift));
                    },
                    None => {},
                }
            }
            Err(InputError::NotInGroup(c, l.group))
        },
        None => {
            if is_control {
                match evdev_char(c) {
                    Some((key, shift)) => {
                        return Ok(us_stroke(key, shift));
                    },
                    None => {},
                }
            }
            Err(InputError::NoLayout(c))
        },
    }
}

/// Without a layout only control characters can be typed: a printable character
/// never assumes the US layout.
pub proof fn law_printable_text_needs_a_layout(c: char)
    requires
        !control(c),
    ensures
        !goes_by_us_key(None, c),
{
}

// ---------------------------------------------------------------------------
// Transitions
// ---------------------------------------------------------------------------
/// One thing to send.
#[derive(Clone, Copy, Debug, PartialEq, Eq, Structural)]
pub enum Action {
    /// A key goes down or up.
    Key { code: u32, press: bool },
    /// The pointer moves to a point of the gesture.
    Move { point: usize },
    /// A button goes down or up.
    Button { code: u32, press: bool },
    /// The wheel turns, in 120ths of a detent.
    Scroll { dx: i32, dy: i32 },
}

/// All of `codes` go down, in order.
pub open spec fn keys_down(codes: Seq<u32>) -> Seq<Action> {
    codes.map_values(|code: u32| Action::Key { code, press: true })
}

/// All of `codes` go up, in reverse order.
pub open spec fn keys_up(codes: Seq<u32>) -> Seq<Action> {
    Seq::new(
        codes.len(),
        |i: int| Action::Key { code: codes[codes.len() - 1 - i], press: false },
    )
}

fn push_down(codes: &Vec<u32>, out: &mut Vec<Action>)
    ensures
        final(out)@ == old(out)@ + keys_down(codes@),
{
    let ghost before = out@;
    let mut i: usize = 0;
    assert(before + keys_down(codes@).take(0) =~= before);
    while i < codes.len()
        invariant
            i <= codes@.len(),
            out@ == before + keys_down(codes@).take(i as int),
        decreases codes@.len() - i,
    {
        out.push(Action::Key { code: codes[i], press: true });
        assert(out@ =~= before + keys_down(codes@).take(i + 1));
        i = i + 1;
    }
    assert(keys_down(codes@).take(i as int) =~= keys_down(codes@));
}

fn push_up(codes: &Vec<u32>, out: &mut Vec<Action>)
    ensures
        final(out)@ == old(out)@ + keys_up(codes@),
{
    let ghost before = out@;
    let n: usize = codes.len();
    let mut i: usize = 0;
    assert(before + keys_up(codes@).take(0) =~= before);
    while i < n
        invariant
            n == codes@.len(),
            i <= n,
            out@ == before + keys_up(codes@).take(i as int),
        decreases n - i,
    {
        out.push(Action::Key { code: codes[n - 1 - i], press: false });
        assert(out@ =~= before + keys_up(codes@).take(i + 1));
        i = i + 1;
    }
    assert(keys_up(codes@).take(i as int) =~= keys_up(codes@));
}

/// The codes of a chord: of every stroke its modifiers, then its key, each code
/// once, where it comes first.
pub open spec fn chord_of(strokes: Seq<KeyStroke>, k: int) -> Seq<u32>
    decreases k,
{
    if k <= 0 {
        Seq::empty()
    } else {
        let stroke = strokes[k - 1];
        with_codes(
            chord_of(strokes, k - 1),
            stroke.modifiers@.push(stroke.keycode),
            stroke.modifiers@.len() as int + 1,
        )
    }
}

/// `codes` and those of the first `n` of `more` that are not there yet.
pub open spec fn with_codes(codes: Seq<u32>, more: Seq<u32>, n: int) -> Seq<u32>
    decreases n,
{
    if n <= 0 {
        codes
    } else {
        let before = with_codes(codes, more, n - 1);
        if before.contains(more[n - 1]) {
            before
        } else {
            before.push(more[n - 1])
        }
    }
}

fn add_code(codes: &mut Vec<u32>, code: u32)
    ensures
        final(codes)@ == (if old(codes)@.contains(code) {
            old(codes)@
        } else {
            old(codes)@.push(code)
        }),
{
    let mut i: usize = 0;
    while i < codes.len()
        invariant
            codes@ == old(codes)@,
            i <= codes@.len(),
            forall|k: int| 0 <= k < i ==> codes@[k] != code,
        decreases codes@.len() - i,
    {
        if codes[i] == code {
            assert(codes@[i as int] == code);
            return ;
        }
        i = i + 1;
    }
    codes.push(code);
}

/// The transitions of a chord: all keys go down in order and up in reverse.
pub fn chord(strokes: &Vec<KeyStroke>) -> (out: Vec<Action>)
    ensures
        out@ == keys_down(chord_of(strokes@, strokes@.len() as int)) + keys_up(
            chord_of(strokes@, strokes@.len() as int),
        ),
{
    let mut codes: Vec<u32> = Vec::new();
    let mut k: usize = 0;
    assert(codes@ =~= Seq::<u32>::empty());
    while k < strokes.len()
        invariant
            k <= strokes@.len(),
            codes@ == chord_of(strokes@, k as int),
        decreases strokes@.len() - k,
    {
        let stroke = &strokes[k];
        let ghost before = codes@;
        let ghost more = stroke.modifiers@.push(stroke.keycode);
        let mut i: usize = 0;
        while i < stroke.modifiers.len()
            invariant
                i <= stroke.modifiers@.len(),
                more == stroke.modifiers@.push(stroke.keycode),
                codes@ == with_codes(before, more, i as int),
            decreases stroke.modifiers@.len() - i,
        {
            add_code(&mut codes, stroke.modifiers[i]);
            i = i + 1;
        }
        add_code(&mut codes, stroke.keycode);
        assert(codes@ == with_codes(before, more, stroke.modifiers@.len() as int + 1));
        k = k + 1;
    }
    let mut out: Vec<Action> = Vec::new();
    push_down(&codes, &mut out);
    push_up(&codes, &mut out);
    out
}

/// The transitions of one stroke.
pub open spec fn stroke_actions(stroke: KeyStroke) -> Seq<Action> {
    keys_down(stroke.modifiers@) + seq![
        Action::Key { code: stroke.keycode, press: true },
        Action::Key { code: stroke.keycode, press: false },
    ] + keys_up(stroke.modifiers@)
}

/// The transitions of the first `k` strokes of a text.
pub open spec fn text_actions(strokes: Seq<KeyStroke>, k: int) -> Seq<Action>
    decreases k,
{
    if k <= 0 {
        Seq::empty()
    } else {
        text_actions(strokes, k - 1) + stroke_actions(strokes[k - 1])
    }
}

/// The transitions that type a text: one stroke after the other, each with its
/// modifiers held around it.
pub fn typing(strokes: &Vec<KeyStroke>) -> (out: Vec<Action>)
    ensures
        out@ == text_actions(strokes@, strokes@.len() as int),
{
    let mut out: Vec<Action> = Vec::new();
    let mut k: usize = 0;
    assert(out@ =~= Seq::<Action>::empty());
    while k < strokes.len()
        invariant
            k <= strokes@.len(),
            out@ == text_actions(strokes@, k as int),
        decreases strokes@.len() - k,
    {
        let stroke = &strokes[k];
        let ghost before = out@;
        push_down(&stroke.modifiers, &mut out);
        out.push(Action::Key { code: stroke.keycode, press: true });
        out.push(Action::Key { code: stroke.keycode, press: false });
        push_up(&stroke.modifiers, &mut out);
        assert(out@ =~= before + stroke_actions(*stroke));
        k = k + 1;
    }
    out
}

// ---------------------------------------------------------------------------
// Gestures
// ---------------------------------------------------------------------------
/// A pointer gesture. Its points are numbered; where they are is known outside.
#[derive(Clone, Copy, Debug, PartialEq, Eq, Structural)]
pub enum Gesture {
    Move,
    Click { button: MouseButton, modifiers: Modifiers, count: u32 },
    /// A drag along so many points.
    Drag { button: MouseButton, modifiers: Modifiers, points: usize },
    /// A turn of the wheel, in 120ths of a detent.
    Scroll { dx: i32, dy: i32 },
}

/// What a device can do.
#[derive(Clone, Copy, Debug, PartialEq, Eq, Structural)]
pub struct DeviceTraits {
    /// The compositor lets it run.
    pub resumed: bool,
    pub pointer: bool,
    pub button: bool,
    pub scroll: bool,
    pub keyboard: bool,
    /// The seat that it belongs to.
    pub seat: u64,
    /// Its regions hold every point of the gesture.
    pub covers: bool,
}

/// The kernel code of a button.
pub open spec fn button_code(button: MouseButton) -> u32 {
    match button {
        MouseButton::Left => 0x110,
        MouseButton::Right => 0x111,
        MouseButton::Middle => 0x112,
    }
}

/// The button of a gesture.
pub open spec fn gesture_button(gesture: Gesture) -> Option<u32> {
    match gesture {
        Gesture::Click { button, .. } => Some(button_code(button)),
        Gesture::Drag { button, .. } => Some(button_code(button)),
        _ => None,
    }
}

/// The modifiers of a gesture.
pub open spec fn gesture_modifiers(gesture: Gesture) -> Modifiers {
    match gesture {
        Gesture::Click { modifiers, .. } => modifiers,
        Gesture::Drag { modifiers, .. } => modifiers,
        _ => Modifiers::none(),
    }
}

/// The keycodes of the modifiers that are held, in order.
pub open spec fn modifier_codes(m: Modifiers) -> Seq<u32> {
    let none = Seq::<u32>::empty();
    (if m.ctrl {
        seq![29u32]
    } else {
        none
    }) + (if m.alt {
        seq![56u32]
    } else {
        none
    }) + (if m.shift {
        seq![SHIFT]
    } else {
        none
    }) + (if m.meta {
        seq![125u32]
    } else {
        none
    })
}

/// The keycodes of the modifiers that are held, in order.
pub fn modifier_keys(m: Modifiers) -> (codes: Vec<u32>)
    ensures
        codes@ == modifier_codes(m),
{
    let mut codes: Vec<u32> = Vec::new();
    if m.ctrl {
        codes.push(29);
    }
    if m.alt {
        codes.push(56);
    }
    if m.shift {
        codes.push(SHIFT);
    }
    if m.meta {
        codes.push(125);
    }
    assert(codes@ =~= modifier_codes(m));
    codes
}

/// The device runs and can do all of the gesture at every point of it.
pub open spec fn serves(d: DeviceTraits, gesture: Gesture) -> bool {
    &&& d.resumed
    &&& d.pointer
    &&& gesture_button(gesture) is Some ==> d.button
    &&& gesture is Scroll ==> d.scroll
    &&& d.covers
}

/// The first device at or after `i` that serves the gesture.
pub open spec fn pointer_at(devices: Seq<DeviceTraits>, gesture: Gesture, i: int) -> Option<int>
    decreases devices.len() - i,
{
    if i < 0 || i >= devices.len() {
        None
    } else if serves(devices[i], gesture) {
        Some(i)
    } else {
        pointer_at(devices, gesture, i + 1)
    }
}

/// The first running keyboard at or after `i` on the seat; on any seat where
/// none is asked for.
pub open spec fn keyboard_at(devices: Seq<DeviceTraits>, seat: Option<u64>, i: int) -> Option<int>
    decreases devices.len() - i,
{
    if i < 0 || i >= devices.len() {
        None
    } else if devices[i].resumed && devices[i].keyboard && (seat is Some ==> seat == Some(
        devices[i].seat,
    )) {
        Some(i)
    } else {
        keyboard_at(devices, seat, i + 1)
    }
}

/// The first running keyboard on the seat; on any seat where none is asked for.
pub fn find_keyboard(devices: &Vec<DeviceTraits>, seat: Option<u64>) -> (found: Option<usize>)
    ensures
        match found {
            Some(i) => i < devices@.len() && keyboard_at(devices@, seat, 0) == Some(i as int),
            None => keyboard_at(devices@, seat, 0) is None,
        },
{
    let mut i: usize = 0;
    while i < devices.len()
        invariant
            i <= devices@.len(),
            keyboard_at(devices@, seat, 0) == keyboard_at(devices@, seat, i as int),
        decreases devices@.len() - i,
    {
        let d: DeviceTraits = devices[i];
        let fits = match seat {
            Some(s) => s == d.seat,
            None => true,
        };
        if d.resumed && d.keyboard && fits {
            return Some(i);
        }
        i = i + 1;
    }
    None
}

/// The first device that serves the gesture.
fn find_pointer(devices: &Vec<DeviceTraits>, gesture: Gesture) -> (found: Option<usize>)
    ensures
        match found {
            Some(i) => i < devices@.len() && pointer_at(devices@, gesture, 0) == Some(i as int),
            None => pointer_at(devices@, gesture, 0) is None,
        },
{
    let buttons = matches!(gesture, Gesture::Click { .. }) || matches!(gesture, Gesture::Drag { .. });
    let scrolls = matches!(gesture, Gesture::Scroll { .. });
    let mut i: usize = 0;
    while i < devices.len()
        invariant
            i <= devices@.len(),
            buttons == (gesture_button(gesture) is Some),
            scrolls == (gesture is Scroll),
            pointer_at(devices@, gesture, 0) == pointer_at(devices@, gesture, i as int),
        decreases devices@.len() - i,
    {
        let d: DeviceTraits = devices[i];
        if d.resumed && d.pointer && (!buttons || d.button) && (!scrolls || d.scroll) && d.covers {
            return Some(i);
        }
        i = i + 1;
    }
    None
}

/// So many presses and releases of a button.
pub open spec fn clicks(code: u32, n: int) -> Seq<Action>
    decreases n,
{
    if n <= 0 {
        Seq::empty()
    } else {
        clicks(code, n - 1) + seq![
            Action::Button { code, press: true },
            Action::Button { code, press: false },
        ]
    }
}

/// Moves to the points from `a` up to `b`.
pub open spec fn moves(a: int, b: int) -> Seq<Action> {
    Seq::new((if a < b { b - a } else { 0 }) as nat, |i: int| Action::Move { point: (a + i) as usize })
}

/// What a gesture does between its modifiers.
pub open spec fn core_actions(gesture: Gesture) -> Seq<Action> {
    let first = seq![Action::Move { point: 0 }];
    match gesture {
        Gesture::Move => first,
        Gesture::Scroll { dx, dy } => first.push(Action::Scroll { dx, dy }),
        Gesture::Click { button, count, .. } => first + clicks(
            button_code(button),
            if count == 0 {
                1
            } else {
                count as int
            },
        ),
        Gesture::Drag { button, points, .. } => first.push(
            Action::Button { code: button_code(button), press: true },
        ) + moves(1, points as int).push(
            Action::Button { code: button_code(button), press: false },
        ),
    }
}

/// A gesture with its modifiers held around it.
pub open spec fn gesture_actions(gesture: Gesture) -> Seq<Action> {
    let codes = modifier_codes(gesture_modifiers(gesture));
    keys_down(codes) + core_actions(gesture) + keys_up(codes)
}

/// A gesture ready to be sent.
pub struct PointerPlan {
    /// The pointer device.
    pub pointer: usize,
    /// The keyboard that holds the modifiers, where there are any.
    pub keyboard: Option<usize>,
    pub actions: Vec<Action>,
}

/// What keeps a gesture from being sent.
pub open spec fn gesture_error(devices: Seq<DeviceTraits>, gesture: Gesture) -> Option<InputError> {
    if gesture matches Gesture::Drag { points, .. } && points == 0 {
        Some(InputError::EmptyPath)
    } else {
        match pointer_at(devices, gesture, 0) {
            None => Some(InputError::NoPointer),
            Some(i) => if gesture_modifiers(gesture) != Modifiers::none() && keyboard_at(
                devices,
                Some(devices[i].seat),
                0,
            ) is None {
                Some(InputError::NoKeyboard)
            } else {
                None
            },
        }
    }
}

/// Plans a whole gesture before anything is sent: a pointer that can do all of
/// it, a keyboard on the same seat for its modifiers, and the transitions.
pub fn pointer(devices: &Vec<DeviceTraits>, gesture: Gesture) -> (r: Result<PointerPlan, InputError>)
    ensures
        match r {
            Ok(plan) => {
                &&& gesture_error(devices@, gesture) is None
                &&& plan.pointer < devices@.len()
                &&& pointer_at(devices@, gesture, 0) == Some(plan.pointer as int)
                &&& match plan.keyboard {
                    Some(k) => {
                        &&& gesture_modifiers(gesture) != Modifiers::none()
                        &&& k < devices@.len()
                        &&& keyboard_at(
                            devices@,
                            Some(devices@[plan.pointer as int].seat),
                            0,
                        ) == Some(k as int)
                    },
                    None => gesture_modifiers(gesture) == Modifiers::none(),
                }
                &&& plan.actions@ == gesture_actions(gesture)
            },
            Err(e) => gesture_error(devices@, gesture) == Some(e),
        },
{
    let modifiers: Modifiers = match gesture {
        Gesture::Click { modifiers, .. } => modifiers,
        Gesture::Drag { modifiers, .. } => modifiers,
        _ => Modifiers::default(),
    };
    match gesture {
        Gesture::Drag { points, .. } => {
            if points == 0 {
                return Err(InputError::EmptyPath);
            }
        },
        _ => {},
    }
    let device: usize = match find_pointer(devices, gesture) {
        Some(p) => p,
        None => {
            return Err(InputError::NoPointer);
        },
    };
    let mut keyboard: Option<usize> = None;
    if modifiers.any() {
        let seat: u64 = devices[device].seat;
        match find_keyboard(devices, Some(seat)) {
            Some(k) => {
                keyboard = Some(k);
            },
            None => {
                return Err(InputError::NoKeyboard);
            },
        }
    }
    let codes = modifier_keys(modifiers);
    let mut actions: Vec<Action> = Vec::new();
    push_down(&codes, &mut actions);
    let ghost down = keys_down(codes@);
    assert(actions@ =~= down);
    actions.push(Action::Move { point: 0 });
    match gesture {
        Gesture::Move => {},
        Gesture::Scroll { dx, dy } => {
            actions.push(Action::Scroll { dx, dy });
        },
        Gesture::Click { button, count, .. } => {
            let button: u32 = code_of(button);
            let times: u32 = if count == 0 {
                1
            } else {
                count
            };
            let ghost base = actions@;
            let mut n: u32 = 0;
            assert(base + clicks(button, 0) =~= base);
            while n < times
                invariant
                    n <= times,
                    actions@ == base + clicks(button, n as int),
                decreases times - n,
            {
                actions.push(Action::Button { code: button, press: true });
                actions.push(Action::Button { code: button, press: false });
                assert(actions@ =~= base + clicks(button, n + 1));
                n = n + 1;
            }
        },
        Gesture::Drag { button, points, .. } => {
            let button: u32 = code_of(button);
            actions.push(Action::Button { code: button, press: true });
            let ghost base = actions@;
            let mut p: usize = 1;
            assert(base + moves(1, 1) =~= base);
            while p < points
                invariant
                    1 <= p <= points,
                    actions@ == base + moves(1, p as int),
                decreases points - p,
            {
                actions.push(Action::Move { point: p });
                assert(actions@ =~= base + moves(1, p + 1));
                p = p + 1;
            }
            actions.push(Action::Button { code: button, press: false });
        },
    }
    assert(actions@ =~= down + core_actions(gesture));
    push_up(&codes, &mut actions);
    Ok(PointerPlan { pointer: device, keyboard, actions })
}

fn code_of(button: MouseButton) -> (code: u32)
    ensures
        code == button_code(button),
{
    match button {
        MouseButton::Left => 0x110,
        MouseButton::Right => 0x111,
        MouseButton::Middle => 0x112,
    }
}

/// Presses less releases of a key among the first `n` actions.
pub open spec fn key_balance(actions: Seq<Action>, key: u32, n: int) -> int
    decreases n,
{
    if n <= 0 {
        0
    } else {
        key_balance(actions, key, n - 1) + match actions[n - 1] {
            Action::Key { code, press } => if code != key {
                0int
            } else if press {
                1int
            } else {
                -1int
            },
            _ => 0int,
        }
    }
}

/// Presses less releases of a button among the first `n` actions.
pub open spec fn button_balance(actions: Seq<Action>, button: u32, n: int) -> int
    decreases n,
{
    if n <= 0 {
        0
    } else {
        button_balance(actions, button, n - 1) + match actions[n - 1] {
            Action::Button { code, press } => if code != button {
                0int
            } else if press {
                1int
            } else {
                -1int
            },
            _ => 0int,
        }
    }
}

/// Nothing is held after the actions.
pub open spec fn releases_all(actions: Seq<Action>) -> bool {
    forall|code: u32|
        #![trigger key_balance(actions, code, actions.len() as int)]
        #![trigger button_balance(actions, code, actions.len() as int)]
        key_balance(actions, code, actions.len() as int) == 0 && button_balance(
            actions,
            code,
            actions.len() as int,
        ) == 0
}

proof fn lemma_balance_concat(a: Seq<Action>, b: Seq<Action>, code: u32, n: int)
    requires
        0 <= n <= b.len(),
    ensures
        key_balance(a + b, code, a.len() + n) == key_balance(a, code, a.len() as int) + key_balance(
            b,
            code,
            n,
        ),
        button_balance(a + b, code, a.len() + n) == button_balance(a, code, a.len() as int)
            + button_balance(b, code, n),
    decreases n,
{
    if n > 0 {
        lemma_balance_concat(a, b, code, n - 1);
        assert((a + b)[a.len() + n - 1] == b[n - 1]);
    } else {
        lemma_balance_prefix(a + b, a, code, a.len() as int);
    }
}

proof fn lemma_balance_prefix(a: Seq<Action>, b: Seq<Action>, code: u32, n: int)
    requires
        0 <= n <= a.len(),
        n <= b.len(),
        forall|i: int| 0 <= i < n ==> #[trigger] a[i] == b[i],
    ensures
        key_balance(a, code, n) == key_balance(b, code, n),
        button_balance(a, code, n) == button_balance(b, code, n),
    decreases n,
{
    if n > 0 {
        lemma_balance_prefix(a, b, code, n - 1);
        assert(a[n - 1] == b[n - 1]);
    }
}

proof fn lemma_down_up(codes: Seq<u32>, code: u32, k: int)
    requires
        0 <= k <= codes.len(),
    ensures
        key_balance(keys_up(codes), code, k) == key_balance(
            keys_down(codes),
            code,
            codes.len() - k,
        ) - key_balance(keys_down(codes), code, codes.len() as int),
        button_balance(keys_down(codes), code, k) == 0,
        button_balance(keys_up(codes), code, k) == 0,
    decreases k,
{
    if k > 0 {
        lemma_down_up(codes, code, k - 1);
        assert(keys_up(codes)[k - 1] == (Action::Key { code: codes[codes.len() - k], press: false }));
        assert(keys_down(codes)[codes.len() - k] == (Action::Key {
            code: codes[codes.len() - k],
            press: true,
        }));
        assert(keys_down(codes)[k - 1] == (Action::Key { code: codes[k - 1], press: true }));
    }
}

/// A chord releases every key that it presses.
pub proof fn law_chord_releases_everything(codes: Seq<u32>)
    ensures
        releases_all(keys_down(codes) + keys_up(codes)),
{
    let all = keys_down(codes) + keys_up(codes);
    assert forall|code: u32|
        #![trigger key_balance(all, code, all.len() as int)]
        #![trigger button_balance(all, code, all.len() as int)]
        key_balance(all, code, all.len() as int) == 0 && button_balance(
            all,
            code,
            all.len() as int,
        ) == 0 by {
        lemma_balance_concat(keys_down(codes), keys_up(codes), code, codes.len() as int);
        lemma_down_up(codes, code, codes.len() as int);
    }
}

proof fn lemma_clicks(button: u32, n: int, code: u32)
    requires
        0 <= n,
    ensures
        key_balance(clicks(button, n), code, clicks(button, n).len() as int) == 0,
        button_balance(clicks(button, n), code, clicks(button, n).len() as int) == 0,
    decreases n,
{
    if n > 0 {
        lemma_clicks(button, n - 1, code);
        let pair = seq![
            Action::Button { code: button, press: true },
            Action::Button { code: button, press: false },
        ];
        lemma_balance_concat(clicks(button, n - 1), pair, code, 2);
        reveal_with_fuel(button_balance, 3);
        reveal_with_fuel(key_balance, 3);
    }
}

proof fn lemma_moves(a: int, b: int, code: u32, n: int)
    requires
        0 <= n <= moves(a, b).len(),
    ensures
        key_balance(moves(a, b), code, n) == 0,
        button_balance(moves(a, b), code, n) == 0,
    decreases n,
{
    if n > 0 {
        lemma_moves(a, b, code, n - 1);
    }
}

proof fn lemma_one(action: Action, code: u32)
    ensures
        key_balance(seq![action], code, 1) == match action {
            Action::Key { code: c, press } => if c != code {
                0int
            } else if press {
                1int
            } else {
                -1int
            },
            _ => 0int,
        },
        button_balance(seq![action], code, 1) == match action {
            Action::Button { code: c, press } => if c != code {
                0int
            } else if press {
                1int
            } else {
                -1int
            },
            _ => 0int,
        },
{
    reveal_with_fuel(key_balance, 2);
    reveal_with_fuel(button_balance, 2);
}

proof fn lemma_core_balance(gesture: Gesture, code: u32)
    ensures
        key_balance(core_actions(gesture), code, core_actions(gesture).len() as int) == 0,
        button_balance(core_actions(gesture), code, core_actions(gesture).len() as int) == 0,
{
    let first = seq![Action::Move { point: 0 }];
    lemma_one(Action::Move { point: 0 }, code);
    match gesture {
        Gesture::Move => {},
        Gesture::Scroll { dx, dy } => {
            let turn = Action::Scroll { dx, dy };
            lemma_one(turn, code);
            lemma_balance_concat(first, seq![turn], code, 1);
            assert(first.push(turn) =~= first + seq![turn]);
        },
        Gesture::Click { button, count, .. } => {
            let n = if count == 0 {
                1
            } else {
                count as int
            };
            let all = clicks(button_code(button), n);
            lemma_clicks(button_code(button), n, code);
            lemma_balance_concat(first, all, code, all.len() as int);
        },
        Gesture::Drag { button, points, .. } => {
            let down = Action::Button { code: button_code(button), press: true };
            let up = Action::Button { code: button_code(button), press: false };
            let path = moves(1, points as int);
            lemma_one(down, code);
            lemma_one(up, code);
            lemma_moves(1, points as int, code, path.len() as int);
            lemma_balance_concat(first, seq![down], code, 1);
            assert(first.push(down) =~= first + seq![down]);
            lemma_balance_concat(path, seq![up], code, 1);
            assert(path.push(up) =~= path + seq![up]);
            lemma_balance_concat(first.push(down), path.push(up), code, path.len() as int + 1);
        },
    }
}

/// A gesture releases every key and button that it presses.
pub proof fn law_gesture_releases_everything(gesture: Gesture)
    ensures
        releases_all(gesture_actions(gesture)),
{
    let codes = modifier_codes(gesture_modifiers(gesture));
    let down = keys_down(codes);
    let core = core_actions(gesture);
    let up = keys_up(codes);
    let all = gesture_actions(gesture);
    assert forall|code: u32|
        #![trigger key_balance(all, code, all.len() as int)]
        #![trigger button_balance(all, code, all.len() as int)]
        key_balance(all, code, all.len() as int) == 0 && button_balance(
            all,
            code,
            all.len() as int,
        ) == 0 by {
        lemma_down_up(codes, code, codes.len() as int);
        lemma_core_balance(gesture, code);
        lemma_balance_concat(down, core, code, core.len() as int);
        lemma_balance_concat(down + core, up, code, up.len() as int);
    }
}

/// What `n` actions of the middle part of a gesture add to the balances.
proof fn lemma_gesture_parts(gesture: Gesture, code: u32, n: int)
    requires
        0 <= n <= core_actions(gesture).len(),
    ensures
        ({
            let codes = modifier_codes(gesture_modifiers(gesture));
            let all = gesture_actions(gesture);
            &&& button_balance(all, code, codes.len() + n) == button_balance(
                core_actions(gesture),
                code,
                n,
            )
            &&& key_balance(all, code, codes.len() + n) == key_balance(
                keys_down(codes),
                code,
                codes.len() as int,
            ) + key_balance(core_actions(gesture), code, n)
        }),
{
    let codes = modifier_codes(gesture_modifiers(gesture));
    let down = keys_down(codes);
    let core = core_actions(gesture);
    let all = gesture_actions(gesture);
    lemma_down_up(codes, code, codes.len() as int);
    lemma_balance_concat(down, core, code, n);
    lemma_balance_prefix(all, down + core, code, codes.len() + n);
}

/// Where the actions of a gesture stand: its keys before and behind the rest.
proof fn lemma_gesture_place(gesture: Gesture, i: int)
    requires
        0 <= i < gesture_actions(gesture).len(),
    ensures
        ({
            let m = modifier_codes(gesture_modifiers(gesture)).len() as int;
            let core = core_actions(gesture);
            let all = gesture_actions(gesture);
            &&& all.len() == 2 * m + core.len()
            &&& i < m ==> all[i] == (Action::Key {
                code: modifier_codes(gesture_modifiers(gesture))[i],
                press: true,
            })
            &&& m <= i < m + core.len() ==> all[i] == core[i - m]
            &&& m + core.len() <= i ==> all[i] == (Action::Key {
                code: modifier_codes(gesture_modifiers(gesture))[2 * m + core.len() - 1 - i],
                press: false,
            })
        }),
{
    let codes = modifier_codes(gesture_modifiers(gesture));
    let core = core_actions(gesture);
    let all = gesture_actions(gesture);
    if i < codes.len() {
        assert(all[i] == keys_down(codes)[i]);
    } else if i < codes.len() + core.len() {
        assert(all[i] == core[i - codes.len()]);
    } else {
        assert(all[i] == keys_up(codes)[i - codes.len() - core.len()]);
    }
}

proof fn lemma_core_drag(gesture: Gesture, code: u32, n: int)
    requires
        gesture is Drag,
        gesture->Drag_points >= 1,
        code == button_code(gesture->Drag_button),
        0 <= n <= core_actions(gesture).len(),
    ensures
        core_actions(gesture).len() == gesture->Drag_points + 2,
        button_balance(core_actions(gesture), code, n) == (if 2 <= n <= gesture->Drag_points + 1 {
            1int
        } else {
            0int
        }),
    decreases n,
{
    if n > 0 {
        lemma_core_drag(gesture, code, n - 1);
    }
}

spec fn drag_step(code: u32, points: usize, i: int) -> Action {
    if i == 0 {
        Action::Move { point: 0 }
    } else if i == 1 {
        Action::Button { code, press: true }
    } else if i <= points {
        Action::Move { point: (i - 1) as usize }
    } else {
        Action::Button { code, press: false }
    }
}

proof fn lemma_drag_places(gesture: Gesture)
    requires
        gesture is Drag,
        gesture->Drag_points >= 1,
    ensures
        ({
            let all = gesture_actions(gesture);
            let m = modifier_codes(gesture_modifiers(gesture)).len() as int;
            let points = gesture->Drag_points;
            let code = button_code(gesture->Drag_button);
            &&& all.len() == 2 * m + points + 2
            &&& forall|i: int|
                0 <= i < all.len() ==> (#[trigger] all[i] is Key || (m <= i < m + points + 2
                    && all[i] == drag_step(code, points, i - m)))
            &&& forall|i: int|
                m <= i < m + points + 2 ==> #[trigger] all[i] == drag_step(code, points, i - m)
        }),
{
    let all = gesture_actions(gesture);
    let core = core_actions(gesture);
    let m = modifier_codes(gesture_modifiers(gesture)).len() as int;
    let points = gesture->Drag_points;
    let code = button_code(gesture->Drag_button);
    lemma_core_drag(gesture, code, 0);
    lemma_gesture_place(gesture, 0);
    assert forall|i: int| m <= i < m + points + 2 implies #[trigger] all[i] == drag_step(
        code,
        points,
        i - m,
    ) by {
        lemma_gesture_place(gesture, i);
        assert(all[i] == core[i - m]);
    }
    assert forall|i: int| 0 <= i < all.len() implies (#[trigger] all[i] is Key || (m <= i < m + points
        + 2 && all[i] == drag_step(code, points, i - m))) by {
        lemma_gesture_place(gesture, i);
    }
}

/// A drag holds its button along the path: it starts at the first point with
/// the button up, the presses of the button exceed its releases by one when it
/// moves to each later point, it goes to the points one after the other and to
/// all of them, and the button is let go of only behind the last of them.
pub proof fn law_drag_holds_its_button(gesture: Gesture)
    requires
        gesture is Drag,
        gesture->Drag_points >= 1,
    ensures
        ({
            let all = gesture_actions(gesture);
            let points = gesture->Drag_points;
            let code: u32 = match gesture->Drag_button {
                MouseButton::Left => 0x110,
                MouseButton::Right => 0x111,
                MouseButton::Middle => 0x112,
            };
            &&& forall|i: int|
                0 <= i < all.len() && (#[trigger] all[i] is Move) ==> all[i]->Move_point < points
                    && button_balance(all, code, i) == (if all[i]->Move_point == 0 {
                    0int
                } else {
                    1int
                })
            &&& forall|i: int, j: int|
                0 <= i < j < all.len() && (#[trigger] all[i] is Move) && (#[trigger] all[j] is Move)
                    ==> all[i]->Move_point < all[j]->Move_point
            &&& forall|p: usize|
                p < points ==> #[trigger] all.contains(Action::Move { point: p })
            &&& forall|i: int, j: int|
                0 <= i < all.len() && 0 <= j < all.len() && #[trigger] all[i] == (Action::Button {
                    code,
                    press: false,
                }) && (#[trigger] all[j] is Move) ==> j < i
            &&& forall|i: int|
                0 <= i < all.len() && (#[trigger] all[i] is Button) ==> all[i]->Button_code == code
            &&& all.contains(Action::Button { code, press: true })
            &&& all.contains(Action::Button { code, press: false })
        }),
{
    let all = gesture_actions(gesture);
    let m = modifier_codes(gesture_modifiers(gesture)).len() as int;
    let points = gesture->Drag_points;
    let code = button_code(gesture->Drag_button);
    lemma_drag_places(gesture);
    assert forall|i: int| 0 <= i < all.len() && (#[trigger] all[i] is Move) implies all[i]->Move_point
        < points && button_balance(all, code, i) == (if all[i]->Move_point == 0 {
        0int
    } else {
        1int
    }) by {
        lemma_core_drag(gesture, code, i - m);
        lemma_gesture_parts(gesture, code, i - m);
        assert(drag_step(code, points, i - m) == all[i]);
    }
    assert forall|p: usize| p < points implies #[trigger] all.contains(
        Action::Move { point: p },
    ) by {
        let i = if p == 0 {
            m
        } else {
            m + p + 1
        };
        assert(all[i] == drag_step(code, points, i - m));
    }
    assert(all[m + 1] == drag_step(code, points, 1));
    assert(all[m + points + 1] == drag_step(code, points, points + 1));
}

proof fn lemma_clicks_places(code: u32, n: int)
    requires
        0 <= n,
    ensures
        clicks(code, n).len() == 2 * n,
        forall|k: int|
            0 <= k < 2 * n ==> #[trigger] clicks(code, n)[k] == (Action::Button {
                code,
                press: k % 2 == 0,
            }),
    decreases n,
{
    if n > 0 {
        lemma_clicks_places(code, n - 1);
    }
}

/// A click goes to its point and presses and releases its button there as
/// often as asked, one press after the other, and once where no count is given;
/// its modifiers go down before and up behind that.
pub proof fn law_click_presses_as_often_as_asked(gesture: Gesture)
    requires
        gesture is Click,
    ensures
        ({
            let all = gesture_actions(gesture);
            let held = gesture->Click_modifiers;
            let m = (if held.ctrl { 1int } else { 0 }) + (if held.alt { 1int } else { 0 }) + (
            if held.shift { 1int } else { 0 }) + (if held.meta { 1int } else { 0 });
            let times = if gesture->Click_count == 0 {
                1
            } else {
                gesture->Click_count as int
            };
            let code: u32 = match gesture->Click_button {
                MouseButton::Left => 0x110,
                MouseButton::Right => 0x111,
                MouseButton::Middle => 0x112,
            };
            &&& all.len() == 2 * m + 1 + 2 * times
            &&& all[m] == (Action::Move { point: 0 })
            &&& forall|i: int|
                m < i <= m + 2 * times ==> #[trigger] all[i] == (Action::Button {
                    code,
                    press: (i - m) % 2 == 1,
                })
        }),
{
    let all = gesture_actions(gesture);
    let core = core_actions(gesture);
    let m = modifier_codes(gesture_modifiers(gesture)).len() as int;
    let times = if gesture->Click_count == 0 {
        1
    } else {
        gesture->Click_count as int
    };
    let code = button_code(gesture->Click_button);
    lemma_clicks_places(code, times);
    lemma_gesture_place(gesture, 0);
    lemma_gesture_place(gesture, m);
    assert forall|i: int| m < i <= m + 2 * times implies #[trigger] all[i] == (Action::Button {
        code,
        press: (i - m) % 2 == 1,
    }) by {
        lemma_gesture_place(gesture, i);
        assert(core[i - m] == clicks(code, times)[i - m - 1]);
    }
}

/// A move goes to its point, and a scroll turns the wheel there by the two
/// distances asked for.
pub proof fn law_move_and_scroll_do_no_more(dx: i32, dy: i32)
    ensures
        gesture_actions(Gesture::Move) =~= seq![Action::Move { point: 0 }],
        gesture_actions(Gesture::Scroll { dx, dy }) =~= seq![
            Action::Move { point: 0 },
            Action::Scroll { dx, dy },
        ],
{
}

/// Every other transition of a gesture is made while exactly its modifiers are
/// held, each by its own key.
pub proof fn law_modifiers_are_held_throughout(gesture: Gesture, i: int)
    requires
        0 <= i < gesture_actions(gesture).len(),
        !(gesture_actions(gesture)[i] is Key),
    ensures
        ({
            let all = gesture_actions(gesture);
            let held = gesture_modifiers(gesture);
            &&& key_balance(all, 29, i) == (if held.ctrl { 1int } else { 0int })
            &&& key_balance(all, 56, i) == (if held.alt { 1int } else { 0int })
            &&& key_balance(all, 42, i) == (if held.shift { 1int } else { 0int })
            &&& key_balance(all, 125, i) == (if held.meta { 1int } else { 0int })
            &&& forall|code: u32|
                code != 29 && code != 56 && code != 42 && code != 125 ==> #[trigger] key_balance(
                    all,
                    code,
                    i,
                ) == 0
        }),
{
    let codes = modifier_codes(gesture_modifiers(gesture));
    let m = codes.len() as int;
    let core = core_actions(gesture);
    let all = gesture_actions(gesture);
    lemma_gesture_place(gesture, i);
    assert forall|code: u32| #[trigger] key_balance(all, code, i) == key_balance(
        keys_down(codes),
        code,
        m,
    ) by {
        lemma_gesture_parts(gesture, code, i - m);
        lemma_core_has_no_keys(gesture, code, i - m);
    }
    assert(codes.len() <= 4);
    reveal_with_fuel(key_balance, 5);
}

proof fn lemma_core_has_no_keys(gesture: Gesture, code: u32, n: int)
    requires
        0 <= n <= core_actions(gesture).len(),
    ensures
        key_balance(core_actions(gesture), code, n) == 0,
    decreases n,
{
    match gesture {
        Gesture::Click { button, count, .. } => {
            lemma_clicks_places(
                button_code(button),
                if count == 0 {
                    1
                } else {
                    count as int
                },
            );
        },
        _ => {},
    }
    if n > 0 {
        lemma_core_has_no_keys(gesture, code, n - 1);
    }
}

// ---------------------------------------------------------------------------
// Devices
// ---------------------------------------------------------------------------
/// Which kinds of device the user granted.
#[derive(Clone, Copy, Debug, PartialEq, Eq, Structural)]
pub struct DiscoveryTargets {
    pub pointer: bool,
    pub keyboard: bool,
}

impl DiscoveryTargets {
    /// Whether every granted kind is there.
    pub fn is_complete(self, pointer: bool, keyboard: bool) -> (r: bool)
        ensures
            r == ((self.pointer ==> pointer) && (self.keyboard ==> keyboard)),
    {
        (!self.pointer || pointer) && (!self.keyboard || keyboard)
    }
}

/// How long devices are waited for, in milliseconds.
pub const DISCOVERY: u64 = 5000;

/// How long others are waited for once every granted kind is there: more monitors
/// and the modifier state can follow the first devices.
pub const DISCOVERY_DRAIN: u64 = 500;

/// How many events may come in before a gesture until the devices count as
/// unsettled.
pub const SETTLE_EVENTS: usize = 256;

/// The search for the granted devices.
#[derive(Clone, Copy, Debug, PartialEq, Eq, Structural)]
pub struct Discovery {
    pub targets: DiscoveryTargets,
    /// When the search ends although the time is not up.
    pub drain: Option<u64>,
}

impl Discovery {
    /// Starts a search; there is none where nothing was granted.
    pub fn start(targets: DiscoveryTargets) -> (d: Option<Discovery>)
        ensures
            d == (if targets.pointer || targets.keyboard {
                Some(Discovery { targets, drain: None })
            } else {
                None
            }),
    {
        if targets.is_complete(false, false) {
            None
        } else {
            Some(Discovery { targets, drain: None })
        }
    }

    /// When the search ends, in milliseconds from its start.
    pub fn until(&self) -> (ms: u64)
        ensures
            ms <= DISCOVERY,
            ms == (match self.drain {
                Some(end) => if end < DISCOVERY {
                    end
                } else {
                    DISCOVERY
                },
                None => DISCOVERY,
            }),
    {
        match self.drain {
            Some(end) => if end < DISCOVERY {
                end
            } else {
                DISCOVERY
            },
            None => DISCOVERY,
        }
    }

    /// Takes note of the kinds that are there after so many milliseconds.
    pub fn saw(&mut self, pointer: bool, keyboard: bool, elapsed: u64)
        ensures
            final(self).targets == old(self).targets,
            final(self).drain == (if old(self).drain is None && (old(self).targets.pointer
                ==> pointer) && (old(self).targets.keyboard ==> keyboard) {
                Some(
                    if elapsed + DISCOVERY_DRAIN <= u64::MAX {
                        (elapsed + DISCOVERY_DRAIN) as u64
                    } else {
                        u64::MAX
                    },
                )
            } else {
                old(self).drain
            }),
    {
        if self.drain.is_none() && self.targets.is_complete(pointer, keyboard) {
            let end: u64 = match elapsed.checked_add(DISCOVERY_DRAIN) {
                Some(end) => end,
                None => u64::MAX,
            };
            self.drain = Some(end);
        }
    }
}

/// A device that the compositor announced.
#[derive(Clone, Copy, Debug, PartialEq, Eq, Structural)]
pub struct DeviceState {
    pub id: u64,
    pub seat: u64,
    pub resumed: bool,
}

/// What the compositor tells of its devices.
#[derive(Clone, Copy, Debug, PartialEq, Eq, Structural)]
pub enum DeviceEvent {
    SeatAdded { seat: u64 },
    SeatRemoved { seat: u64 },
    DeviceAdded { id: u64, seat: u64 },
    DeviceResumed { id: u64 },
    DevicePaused { id: u64 },
    DeviceRemoved { id: u64 },
    Disconnected,
    Other,
}

/// What to answer.
#[derive(Clone, Copy, Debug, PartialEq, Eq, Structural)]
pub enum DeviceReply {
    Nothing,
    /// Ask for the capabilities of a seat.
    Bind { seat: u64 },
    /// Start emulating, with this sequence number.
    Start { id: u64, sequence: u32 },
}

/// The devices behind an event.
pub open spec fn devices_after(devices: Seq<DeviceState>, event: DeviceEvent) -> Seq<DeviceState> {
    match event {
        DeviceEvent::SeatRemoved { seat } => without(devices, None, Some(seat), devices.len() as int),
        DeviceEvent::DeviceRemoved { id } => without(devices, Some(id), None, devices.len() as int),
        DeviceEvent::DeviceAdded { id, seat } => devices.push(
            DeviceState { id, seat, resumed: false },
        ),
        DeviceEvent::DeviceResumed { id } => with_resumed(devices, id, true),
        DeviceEvent::DevicePaused { id } => with_resumed(devices, id, false),
        DeviceEvent::Disconnected => Seq::empty(),
        _ => devices,
    }
}

/// The first device numbered `id` at or after `i`.
pub open spec fn device_at(devices: Seq<DeviceState>, id: u64, i: int) -> Option<int>
    decreases devices.len() - i,
{
    if i < 0 || i >= devices.len() {
        None
    } else if devices[i].id == id {
        Some(i)
    } else {
        device_at(devices, id, i + 1)
    }
}

/// The devices with one of them running or not.
pub open spec fn with_resumed(devices: Seq<DeviceState>, id: u64, resumed: bool) -> Seq<DeviceState> {
    match device_at(devices, id, 0) {
        Some(i) => devices.update(
            i,
            DeviceState { id: devices[i].id, seat: devices[i].seat, resumed },
        ),
        None => devices,
    }
}

/// The first `k` devices but those of a number or a seat.
pub open spec fn without(devices: Seq<DeviceState>, id: Option<u64>, seat: Option<u64>, k: int) -> Seq<
    DeviceState,
>
    decreases k,
{
    if k <= 0 {
        Seq::empty()
    } else if Some(devices[k - 1].id) == id || Some(devices[k - 1].seat) == seat {
        without(devices, id, seat, k - 1)
    } else {
        without(devices, id, seat, k - 1).push(devices[k - 1])
    }
}

/// The announced devices and the next sequence number.
pub struct Devices {
    pub list: Vec<DeviceState>,
    pub sequence: u32,
}

impl Devices {
    /// No device yet.
    pub fn new() -> (d: Devices)
        ensures
            d.list@ == Seq::<DeviceState>::empty(),
            d.sequence == 1,
    {
        Devices { list: Vec::new(), sequence: 1 }
    }

    fn position(&self, id: u64) -> (found: Option<usize>)
        ensures
            match found {
                Some(i) => i < self.list@.len() && device_at(self.list@, id, 0) == Some(i as int),
                None => device_at(self.list@, id, 0) is None,
            },
    {
        let mut i: usize = 0;
        while i < self.list.len()
            invariant
                i <= self.list@.len(),
                device_at(self.list@, id, 0) == device_at(self.list@, id, i as int),
            decreases self.list@.len() - i,
        {
            if self.list[i].id == id {
                return Some(i);
            }
            i = i + 1;
        }
        None
    }

    fn retain(&mut self, id: Option<u64>, seat: Option<u64>)
        ensures
            final(self).list@ == without(old(self).list@, id, seat, old(self).list@.len() as int),
            final(self).sequence == old(self).sequence,
    {
        let mut kept: Vec<DeviceState> = Vec::new();
        let mut i: usize = 0;
        assert(kept@ =~= Seq::<DeviceState>::empty());
        while i < self.list.len()
            invariant
                *self == *old(self),
                i <= self.list@.len(),
                kept@ == without(self.list@, id, seat, i as int),
            decreases self.list@.len() - i,
        {
            let d: DeviceState = self.list[i];
            let same_id = match id {
                Some(x) => x == d.id,
                None => false,
            };
            let same_seat = match seat {
                Some(x) => x == d.seat,
                None => false,
            };
            if !same_id && !same_seat {
                kept.push(d);
            }
            i = i + 1;
        }
        self.list = kept;
    }

    /// Follows an event. A device that starts to run is told so once, with the
    /// next sequence number; a lost connection leaves no device.
    pub fn follow(&mut self, event: DeviceEvent) -> (r: Result<DeviceReply, InputError>)
        ensures
            final(self).list@ == devices_after(old(self).list@, event),
            match r {
                Ok(reply) => {
                    &&& event != DeviceEvent::Disconnected
                    &&& reply == match event {
                        DeviceEvent::SeatAdded { seat } => DeviceReply::Bind { seat },
                        DeviceEvent::DeviceResumed { id } => if device_at(old(self).list@, id, 0)
                            is Some {
                            DeviceReply::Start { id, sequence: old(self).sequence }
                        } else {
                            DeviceReply::Nothing
                        },
                        _ => DeviceReply::Nothing,
                    }
                    &&& final(self).sequence == (if reply is Start {
                        (if old(self).sequence == u32::MAX {
                            0
                        } else {
                            (old(self).sequence + 1) as u32
                        })
                    } else {
                        old(self).sequence
                    })
                },
                Err(e) => {
                    &&& event == DeviceEvent::Disconnected
                    &&& e == InputError::Disconnected
                    &&& final(self).sequence == old(self).sequence
                },
            },
    {
        match event {
            DeviceEvent::SeatAdded { seat } => {
                return Ok(DeviceReply::Bind { seat });
            },
            DeviceEvent::DeviceAdded { id, seat } => {
                self.list.push(DeviceState { id, seat, resumed: false });
            },
            DeviceEvent::DeviceResumed { id } => {
                match self.position(id) {
                    Some(i) => {
                        let d: DeviceState = self.list[i];
                        self.list.set(i, DeviceState { id: d.id, seat: d.seat, resumed: true });
                        let sequence: u32 = self.sequence;
                        self.sequence = sequence.wrapping_add(1);
                        return Ok(DeviceReply::Start { id, sequence });
                    },
                    None => {},
                }
            },
            DeviceEvent::DevicePaused { id } => {
                match self.position(id) {
                    Some(i) => {
                        let d: DeviceState = self.list[i];
                        self.list.set(i, DeviceState { id: d.id, seat: d.seat, resumed: false });
                    },
                    None => {},
                }
            },
            DeviceEvent::DeviceRemoved { id } => {
                self.retain(Some(id), None);
            },
            DeviceEvent::SeatRemoved { seat } => {
                self.retain(None, Some(seat));
            },
            DeviceEvent::Disconnected => {
                self.list = Vec::new();
                assert(self.list@ =~= Seq::<DeviceState>::empty());
                return Err(InputError::Disconnected);
            },
            DeviceEvent::Other => {},
        }
        Ok(DeviceReply::Nothing)
    }
}

} // verus!
