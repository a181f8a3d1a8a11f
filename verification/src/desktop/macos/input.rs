//! Keys and pointer gestures on macOS: key codes, chords, the steps of a gesture,
//! and what is refused in the background.

use vstd::prelude::*;

use crate::desktop::keys::{KeyName, Modifiers, MouseButton};
use crate::desktop::macos::skylight::{after_cleanup, Joined};
use crate::strings::{contains, contains_text, number, parse};
use crate::unicode::{ascii_lower, ascii_lower_all, chars_of, lower_chars, to_ascii_lower};

verus! {

// ---------------------------------------------------------------------------
// Key codes
// ---------------------------------------------------------------------------
/// The code of a character's key, by its lower-case letter.
pub open spec fn lower_code(c: char) -> Option<u16> {
    if c == 'a' {
        Some(0)
    } else if c == 's' {
        Some(1)
    } else if c == 'd' {
        Some(2)
    } else if c == 'f' {
        Some(3)
    } else if c == 'h' {
        Some(4)
    } else if c == 'g' {
        Some(5)
    } else if c == 'z' {
        Some(6)
    } else if c == 'x' {
        Some(7)
    } else if c == 'c' {
        Some(8)
    } else if c == 'v' {
        Some(9)
    } else if c == 'b' {
        Some(11)
    } else if c == 'q' {
        Some(12)
    } else if c == 'w' {
        Some(13)
    } else if c == 'e' {
        Some(14)
    } else if c == 'r' {
        Some(15)
    } else if c == 'y' {
        Some(16)
    } else if c == 't' {
        Some(17)
    } else if c == '1' {
        Some(18)
    } else if c == '2' {
        Some(19)
    } else if c == '3' {
        Some(20)
    } else if c == '4' {
        Some(21)
    } else if c == '6' {
        Some(22)
    } else if c == '5' {
        Some(23)
    } else if c == '=' {
        Some(24)
    } else if c == '9' {
        Some(25)
    } else if c == '7' {
        Some(26)
    } else if c == '-' {
        Some(27)
    } else if c == '8' {
        Some(28)
    } else if c == '0' {
        Some(29)
    } else if c == ']' {
        Some(30)
    } else if c == 'o' {
        Some(31)
    } else if c == 'u' {
        Some(32)
    } else if c == '[' {
        Some(33)
    } else if c == 'i' {
        Some(34)
    } else if c == 'p' {
        Some(35)
    } else if c == 'l' {
        Some(37)
    } else if c == 'j' {
        Some(38)
    } else if c == '\'' {
        Some(39)
    } else if c == 'k' {
        Some(40)
    } else if c == ';' {
        Some(41)
    } else if c == '\\' {
        Some(42)
    } else if c == ',' {
        Some(43)
    } else if c == '/' {
        Some(44)
    } else if c == 'n' {
        Some(45)
    } else if c == 'm' {
        Some(46)
    } else if c == '.' {
        Some(47)
    } else if c == '`' {
        Some(50)
    } else {
        None
    }
}

/// The code of a key.
pub open spec fn code_of(key: KeyName) -> Option<u16> {
    match key {
        KeyName::Ctrl => Some(59),
        KeyName::Alt => Some(58),
        KeyName::Shift => Some(56),
        KeyName::Meta => Some(55),
        KeyName::Enter => Some(36),
        KeyName::Escape => Some(53),
        KeyName::Tab => Some(48),
        KeyName::Space => Some(49),
        KeyName::Backspace => Some(51),
        KeyName::Delete => Some(117),
        KeyName::Insert => Some(114),
        KeyName::Home => Some(115),
        KeyName::End => Some(119),
        KeyName::PageUp => Some(116),
        KeyName::PageDown => Some(121),
        KeyName::Up => Some(126),
        KeyName::Down => Some(125),
        KeyName::Left => Some(123),
        KeyName::Right => Some(124),
        KeyName::CapsLock => Some(57),
        KeyName::NumLock => Some(71),
        KeyName::PrintScreen => Some(105),
        KeyName::F1 => Some(122),
        KeyName::F2 => Some(120),
        KeyName::F3 => Some(99),
        KeyName::F4 => Some(118),
        KeyName::F5 => Some(96),
        KeyName::F6 => Some(97),
        KeyName::F7 => Some(98),
        KeyName::F8 => Some(100),
        KeyName::F9 => Some(101),
        KeyName::F10 => Some(109),
        KeyName::F11 => Some(103),
        KeyName::F12 => Some(111),
        KeyName::F13 => Some(105),
        KeyName::F14 => Some(107),
        KeyName::F15 => Some(113),
        KeyName::F16 => Some(106),
        KeyName::F17 => Some(64),
        KeyName::F18 => Some(79),
        KeyName::F19 => Some(80),
        KeyName::F20 => Some(90),
        KeyName::F21 => Some(110),
        KeyName::F22 => Some(111),
        KeyName::F23 => Some(112),
        KeyName::F24 => Some(113),
        KeyName::Char(c) => lower_code(ascii_lower(c)),
    }
}

/// The code of a character's key.
pub fn char_key_code(character: char) -> (code: Option<u16>)
    ensures
        code == lower_code(ascii_lower(character)),
{
    let c: char = to_ascii_lower(character);
    if c == 'a' {
        Some(0)
    } else if c == 's' {
        Some(1)
    } else if c == 'd' {
        Some(2)
    } else if c == 'f' {
        Some(3)
    } else if c == 'h' {
        Some(4)
    } else if c == 'g' {
        Some(5)
    } else if c == 'z' {
        Some(6)
    } else if c == 'x' {
        Some(7)
    } else if c == 'c' {
        Some(8)
    } else if c == 'v' {
        Some(9)
    } else if c == 'b' {
        Some(11)
    } else if c == 'q' {
        Some(12)
    } else if c == 'w' {
        Some(13)
    } else if c == 'e' {
        Some(14)
    } else if c == 'r' {
        Some(15)
    } else if c == 'y' {
        Some(16)
    } else if c == 't' {
        Some(17)
    } else if c == '1' {
        Some(18)
    } else if c == '2' {
        Some(19)
    } else if c == '3' {
        Some(20)
    } else if c == '4' {
        Some(21)
    } else if c == '6' {
        Some(22)
    } else if c == '5' {
        Some(23)
    } else if c == '=' {
        Some(24)
    } else if c == '9' {
        Some(25)
    } else if c == '7' {
        Some(26)
    } else if c == '-' {
        Some(27)
    } else if c == '8' {
        Some(28)
    } else if c == '0' {
        Some(29)
    } else if c == ']' {
        Some(30)
    } else if c == 'o' {
        Some(31)
    } else if c == 'u' {
        Some(32)
    } else if c == '[' {
        Some(33)
    } else if c == 'i' {
        Some(34)
    } else if c == 'p' {
        Some(35)
    } else if c == 'l' {
        Some(37)
    } else if c == 'j' {
        Some(38)
    } else if c == '\'' {
        Some(39)
    } else if c == 'k' {
        Some(40)
    } else if c == ';' {
        Some(41)
    } else if c == '\\' {
        Some(42)
    } else if c == ',' {
        Some(43)
    } else if c == '/' {
        Some(44)
    } else if c == 'n' {
        Some(45)
    } else if c == 'm' {
        Some(46)
    } else if c == '.' {
        Some(47)
    } else if c == '`' {
        Some(50)
    } else {
        None
    }
}

/// The code of a key; characters without a key have none.
pub fn key_code(key: KeyName) -> (code: Option<u16>)
    ensures
        code == code_of(key),
{
    match key {
        KeyName::Ctrl => Some(59),
        KeyName::Alt => Some(58),
        KeyName::Shift => Some(56),
        KeyName::Meta => Some(55),
        KeyName::Enter => Some(36),
        KeyName::Escape => Some(53),
        KeyName::Tab => Some(48),
        KeyName::Space => Some(49),
        KeyName::Backspace => Some(51),
        KeyName::Delete => Some(117),
        KeyName::Insert => Some(114),
        KeyName::Home => Some(115),
        KeyName::End => Some(119),
        KeyName::PageUp => Some(116),
        KeyName::PageDown => Some(121),
        KeyName::Up => Some(126),
        KeyName::Down => Some(125),
        KeyName::Left => Some(123),
        KeyName::Right => Some(124),
        KeyName::CapsLock => Some(57),
        KeyName::NumLock => Some(71),
        KeyName::PrintScreen => Some(105),
        KeyName::F1 => Some(122),
        KeyName::F2 => Some(120),
        KeyName::F3 => Some(99),
        KeyName::F4 => Some(118),
        KeyName::F5 => Some(96),
        KeyName::F6 => Some(97),
        KeyName::F7 => Some(98),
        KeyName::F8 => Some(100),
        KeyName::F9 => Some(101),
        KeyName::F10 => Some(109),
        KeyName::F11 => Some(103),
        KeyName::F12 => Some(111),
        KeyName::F13 => Some(105),
        KeyName::F14 => Some(107),
        KeyName::F15 => Some(113),
        KeyName::F16 => Some(106),
        KeyName::F17 => Some(64),
        KeyName::F18 => Some(79),
        KeyName::F19 => Some(80),
        KeyName::F20 => Some(90),
        KeyName::F21 => Some(110),
        KeyName::F22 => Some(111),
        KeyName::F23 => Some(112),
        KeyName::F24 => Some(113),
        KeyName::Char(c) => char_key_code(c),
    }
}

/// The character on the same key without Shift.
pub open spec fn unshifted(c: char) -> Option<char> {
    if c == '_' {
        Some('-')
    } else if c == '+' {
        Some('=')
    } else if c == '{' {
        Some('[')
    } else if c == '}' {
        Some(']')
    } else if c == '|' {
        Some('\\')
    } else if c == ':' {
        Some(';')
    } else if c == '"' {
        Some('\'')
    } else if c == '<' {
        Some(',')
    } else if c == '>' {
        Some('.')
    } else if c == '?' {
        Some('/')
    } else if c == '~' {
        Some('`')
    } else if c == '!' {
        Some('1')
    } else if c == '@' {
        Some('2')
    } else if c == '#' {
        Some('3')
    } else if c == '$' {
        Some('4')
    } else if c == '%' {
        Some('5')
    } else if c == '^' {
        Some('6')
    } else if c == '&' {
        Some('7')
    } else if c == '*' {
        Some('8')
    } else if c == '(' {
        Some('9')
    } else if c == ')' {
        Some('0')
    } else {
        None
    }
}

fn without_shift(c: char) -> (r: Option<char>)
    ensures
        r == unshifted(c),
{
    if c == '_' {
        Some('-')
    } else if c == '+' {
        Some('=')
    } else if c == '{' {
        Some('[')
    } else if c == '}' {
        Some(']')
    } else if c == '|' {
        Some('\\')
    } else if c == ':' {
        Some(';')
    } else if c == '"' {
        Some('\'')
    } else if c == '<' {
        Some(',')
    } else if c == '>' {
        Some('.')
    } else if c == '?' {
        Some('/')
    } else if c == '~' {
        Some('`')
    } else if c == '!' {
        Some('1')
    } else if c == '@' {
        Some('2')
    } else if c == '#' {
        Some('3')
    } else if c == '$' {
        Some('4')
    } else if c == '%' {
        Some('5')
    } else if c == '^' {
        Some('6')
    } else if c == '&' {
        Some('7')
    } else if c == '*' {
        Some('8')
    } else if c == '(' {
        Some('9')
    } else if c == ')' {
        Some('0')
    } else {
        None
    }
}

/// The key of a character on the US layout, and whether Shift is held.
pub open spec fn stroke_of(c: char) -> Option<(u16, bool)> {
    if c == '\n' || c == '\r' {
        Some((36, false))
    } else if c == '\t' {
        Some((48, false))
    } else if c == ' ' {
        Some((49, false))
    } else {
        let (base, shifted) = if 'A' <= c && c <= 'Z' {
            (ascii_lower(c), true)
        } else {
            match unshifted(c) {
                Some(b) => (b, true),
                None => (c, false),
            }
        };
        match lower_code(ascii_lower(base)) {
            Some(code) => Some((code, shifted)),
            None => None,
        }
    }
}

/// The key of a character on the US layout, and whether Shift is held.
pub fn physical_key(character: char) -> (r: Option<(u16, bool)>)
    ensures
        r == stroke_of(character),
{
    let c: char = character;
    if c == '\n' || c == '\r' {
        return Some((36, false));
    }
    if c == '\t' {
        return Some((48, false));
    }
    if c == ' ' {
        return Some((49, false));
    }
    let mut base: char = c;
    let mut shifted = false;
    if 'A' <= c && c <= 'Z' {
        base = to_ascii_lower(c);
        shifted = true;
    } else {
        match without_shift(c) {
            Some(b) => {
                base = b;
                shifted = true;
            },
            None => {},
        }
    }
    match char_key_code(base) {
        Some(code) => Some((code, shifted)),
        None => None,
    }
}

/// The transitions that type the first `k` characters.
pub open spec fn transitions(text: Seq<char>, k: int) -> Seq<(u16, bool)>
    decreases k,
{
    if k <= 0 {
        Seq::empty()
    } else {
        let head = transitions(text, k - 1);
        match stroke_of(text[k - 1]) {
            Some((code, shifted)) => if shifted {
                head + seq![(56u16, true), (code, true), (code, false), (56u16, false)]
            } else {
                head + seq![(code, true), (code, false)]
            },
            None => head,
        }
    }
}

/// The key transitions that type a text on the US layout, with Shift around the
/// shifted characters. A character without a key refuses the whole text.
pub fn physical_transitions(text: &str) -> (r: Result<Vec<(u16, bool)>, char>)
    ensures
        match r {
            Ok(out) => {
                &&& forall|i: int| 0 <= i < text@.len() ==> stroke_of(#[trigger] text@[i]) is Some
                &&& out@ == transitions(text@, text@.len() as int)
            },
            Err(c) => exists|i: int|
                0 <= i < text@.len() && #[trigger] text@[i] == c && stroke_of(c) is None && forall|
                    j: int,
                | 0 <= j < i ==> stroke_of(#[trigger] text@[j]) is Some,
        },
{
    let chars = chars_of(text);
    let mut out: Vec<(u16, bool)> = Vec::new();
    let mut i: usize = 0;
    while i < chars.len()
        invariant
            chars@ == text@,
            i <= chars@.len(),
            forall|k: int| 0 <= k < i ==> stroke_of(#[trigger] text@[k]) is Some,
            out@ == transitions(text@, i as int),
        decreases chars@.len() - i,
    {
        let c: char = chars[i];
        assert(text@[i as int] == c);
        match physical_key(c) {
            None => {
                return Err(c);
            },
            Some((code, shifted)) => {
                if shifted {
                    out.push((56, true));
                }
                out.push((code, true));
                out.push((code, false));
                if shifted {
                    out.push((56, false));
                }
                assert(out@ =~= transitions(text@, i + 1));
            },
        }
        i = i + 1;
    }
    Ok(out)
}

proof fn lemma_alternating(text: Seq<char>, k: int)
    requires
        0 <= k <= text.len(),
        forall|i: int| 0 <= i < text.len() ==> stroke_of(#[trigger] text[i]) is Some,
    ensures
        balanced(transitions(text, k)),
    decreases k,
{
    if k > 0 {
        lemma_alternating(text, k - 1);
        let head = transitions(text, k - 1);
        let (code, shifted) = stroke_of(text[k - 1])->0;
        let tail = if shifted {
            seq![(56u16, true), (code, true), (code, false), (56u16, false)]
        } else {
            seq![(code, true), (code, false)]
        };
        assert(transitions(text, k) =~= head + tail);
        assert forall|c: u16| #[trigger] ups(head + tail, c, (head + tail).len() as int) == downs(
            head + tail,
            c,
            (head + tail).len() as int,
        ) by {
            lemma_counts(head, tail, c, tail.len() as int);
            assert(ups(head, c, head.len() as int) == downs(head, c, head.len() as int));
            reveal_with_fuel(ups, 5);
            reveal_with_fuel(downs, 5);
        }
    }
}

/// How often a key goes down in the first `k` transitions.
pub open spec fn downs(list: Seq<(u16, bool)>, code: u16, k: int) -> int
    decreases k,
{
    if k <= 0 {
        0
    } else {
        downs(list, code, k - 1) + if list[k - 1] == (code, true) {
            1int
        } else {
            0int
        }
    }
}

/// How often a key goes up in the first `k` transitions.
pub open spec fn ups(list: Seq<(u16, bool)>, code: u16, k: int) -> int
    decreases k,
{
    if k <= 0 {
        0
    } else {
        ups(list, code, k - 1) + if list[k - 1] == (code, false) {
            1int
        } else {
            0int
        }
    }
}

/// Every key goes up as often as it goes down.
pub open spec fn balanced(list: Seq<(u16, bool)>) -> bool {
    forall|c: u16| #[trigger]
        ups(list, c, list.len() as int) == downs(list, c, list.len() as int)
}

proof fn lemma_counts(a: Seq<(u16, bool)>, b: Seq<(u16, bool)>, c: u16, k: int)
    requires
        0 <= k <= b.len(),
    ensures
        ups(a + b, c, a.len() + k) == ups(a, c, a.len() as int) + ups(b, c, k),
        downs(a + b, c, a.len() + k) == downs(a, c, a.len() as int) + downs(b, c, k),
    decreases k,
{
    if k > 0 {
        lemma_counts(a, b, c, k - 1);
        assert((a + b)[a.len() + k - 1] == b[k - 1]);
    } else {
        lemma_counts_prefix(a, b, c, a.len() as int);
    }
}

proof fn lemma_counts_prefix(a: Seq<(u16, bool)>, b: Seq<(u16, bool)>, c: u16, k: int)
    requires
        0 <= k <= a.len(),
    ensures
        ups(a + b, c, k) == ups(a, c, k),
        downs(a + b, c, k) == downs(a, c, k),
    decreases k,
{
    if k > 0 {
        lemma_counts_prefix(a, b, c, k - 1);
        assert((a + b)[k - 1] == a[k - 1]);
    }
}

/// Typing leaves no key down: each goes up as often as it goes down.
pub proof fn law_typing_releases_every_key(text: Seq<char>)
    requires
        forall|i: int| 0 <= i < text.len() ==> stroke_of(#[trigger] text[i]) is Some,
    ensures
        balanced(transitions(text, text.len() as int)),
{
    lemma_alternating(text, text.len() as int);
}

// ---------------------------------------------------------------------------
// Chords
// ---------------------------------------------------------------------------
/// The key is a modifier.
pub open spec fn modifier_key(key: KeyName) -> bool {
    key is Ctrl || key is Alt || key is Shift || key is Meta
}

/// Whether the key is a modifier.
pub fn is_modifier(key: KeyName) -> (r: bool)
    ensures
        r == modifier_key(key),
{
    match key {
        KeyName::Ctrl => true,
        KeyName::Alt => true,
        KeyName::Shift => true,
        KeyName::Meta => true,
        _ => false,
    }
}

/// The modifiers once a key went down or up.
pub open spec fn with_key(m: Modifiers, key: KeyName, down: bool) -> Modifiers {
    match key {
        KeyName::Ctrl => Modifiers { ctrl: down, ..m },
        KeyName::Alt => Modifiers { alt: down, ..m },
        KeyName::Shift => Modifiers { shift: down, ..m },
        KeyName::Meta => Modifiers { meta: down, ..m },
        _ => m,
    }
}

/// Notes that a key went down or up.
pub fn update_modifier(modifiers: &mut Modifiers, key: KeyName, down: bool)
    ensures
        *final(modifiers) == with_key(*old(modifiers), key, down),
{
    match key {
        KeyName::Ctrl => {
            modifiers.ctrl = down;
        },
        KeyName::Alt => {
            modifiers.alt = down;
        },
        KeyName::Shift => {
            modifiers.shift = down;
        },
        KeyName::Meta => {
            modifiers.meta = down;
        },
        _ => {},
    }
}

/// The modifier is held.
pub open spec fn holds(m: Modifiers, key: KeyName) -> bool {
    match key {
        KeyName::Ctrl => m.ctrl,
        KeyName::Alt => m.alt,
        KeyName::Shift => m.shift,
        KeyName::Meta => m.meta,
        _ => false,
    }
}

/// Whether the modifier is held.
pub fn modifier_held(modifiers: Modifiers, key: KeyName) -> (r: bool)
    ensures
        r == holds(modifiers, key),
{
    match key {
        KeyName::Ctrl => modifiers.ctrl,
        KeyName::Alt => modifiers.alt,
        KeyName::Shift => modifiers.shift,
        KeyName::Meta => modifiers.meta,
        _ => false,
    }
}

/// A key that goes down or up, with the modifiers that its event carries.
#[derive(Clone, Copy, Debug, PartialEq, Eq, Structural)]
pub struct KeyPost {
    pub key: KeyName,
    pub down: bool,
    pub held: Modifiers,
}

/// The modifiers once the first `k` keys are down.
pub open spec fn held_after(keys: Seq<KeyName>, k: int) -> Modifiers
    decreases k,
{
    if k <= 0 {
        Modifiers::none()
    } else {
        with_key(held_after(keys, k - 1), keys[k - 1], true)
    }
}

/// The presses of the first `k` keys.
pub open spec fn press_posts(keys: Seq<KeyName>, k: int) -> Seq<KeyPost>
    decreases k,
{
    if k <= 0 {
        Seq::empty()
    } else {
        press_posts(keys, k - 1).push(
            KeyPost { key: keys[k - 1], down: true, held: held_after(keys, k) },
        )
    }
}

/// The modifiers once the last `j` of the first `n` keys are up again.
pub open spec fn held_back(keys: Seq<KeyName>, n: int, j: int) -> Modifiers
    decreases j,
{
    if j <= 0 {
        held_after(keys, n)
    } else {
        with_key(held_back(keys, n, j - 1), keys[n - j], false)
    }
}

/// The releases of the last `j` of the first `n` keys, the last one first.
pub open spec fn release_posts(keys: Seq<KeyName>, n: int, j: int) -> Seq<KeyPost>
    decreases j,
{
    if j <= 0 {
        Seq::empty()
    } else {
        release_posts(keys, n, j - 1).push(
            KeyPost { key: keys[n - j], down: false, held: held_back(keys, n, j) },
        )
    }
}

/// What a chord attempts when `n` keys were pressed: their presses, and the
/// releases of all of them.
pub open spec fn chord_posts(keys: Seq<KeyName>, n: int) -> Seq<KeyPost> {
    press_posts(keys, n) + release_posts(keys, n, n)
}

/// A chord without keys.
#[derive(Clone, Copy, Debug, PartialEq, Eq, Structural)]
pub struct EmptyChord;

fn push_presses(keys: &[KeyName], n: usize, out: &mut Vec<KeyPost>) -> (held: Modifiers)
    requires
        n <= keys@.len(),
    ensures
        final(out)@ == old(out)@ + press_posts(keys@, n as int),
        held == held_after(keys@, n as int),
{
    let ghost base = out@;
    let mut held: Modifiers = Modifiers { ctrl: false, alt: false, shift: false, meta: false };
    let mut i: usize = 0;
    assert(base + press_posts(keys@, 0) =~= base);
    while i < n
        invariant
            i <= n <= keys@.len(),
            held == held_after(keys@, i as int),
            out@ == base + press_posts(keys@, i as int),
        decreases n - i,
    {
        let key: KeyName = keys[i];
        update_modifier(&mut held, key, true);
        out.push(KeyPost { key, down: true, held });
        assert(out@ =~= base + press_posts(keys@, i + 1));
        i = i + 1;
    }
    held
}

fn push_releases(keys: &[KeyName], n: usize, start: Modifiers, out: &mut Vec<KeyPost>)
    requires
        n <= keys@.len(),
        start == held_after(keys@, n as int),
    ensures
        final(out)@ == old(out)@ + release_posts(keys@, n as int, n as int),
{
    let ghost base = out@;
    let mut held: Modifiers = start;
    let mut j: usize = 0;
    assert(base + release_posts(keys@, n as int, 0) =~= base);
    while j < n
        invariant
            j <= n <= keys@.len(),
            held == held_back(keys@, n as int, j as int),
            out@ == base + release_posts(keys@, n as int, j as int),
        decreases n - j,
    {
        let key: KeyName = keys[n - 1 - j];
        update_modifier(&mut held, key, false);
        out.push(KeyPost { key, down: false, held });
        assert(out@ =~= base + release_posts(keys@, n as int, j + 1));
        j = j + 1;
    }
}

/// What a chord attempts: the presses up to the last one that was tried, and the
/// releases of every key that was tried, the last one first.
pub fn key_chord(keys: &[KeyName], attempted: usize) -> (r: Result<Vec<KeyPost>, EmptyChord>)
    requires
        attempted <= keys@.len(),
    ensures
        match r {
            Ok(posts) => keys@.len() > 0 && posts@ == chord_posts(keys@, attempted as int),
            Err(_) => keys@.len() == 0,
        },
{
    if keys.len() == 0 {
        return Err(EmptyChord);
    }
    let mut out: Vec<KeyPost> = Vec::new();
    let held = push_presses(keys, attempted, &mut out);
    push_releases(keys, attempted, held, &mut out);
    assert(out@ =~= chord_posts(keys@, attempted as int));
    Ok(out)
}

/// A chord whose events are posted one at a time. A press that fails is the last
/// one tried; every key that was tried is released, whatever becomes of the
/// releases.
pub struct ChordRun {
    pub keys: Vec<KeyName>,
    /// How many keys go down.
    pub tried: usize,
    /// How many events were posted.
    pub at: usize,
    /// No press has failed.
    pub pressed: bool,
    /// No release has failed.
    pub released: bool,
    /// The events of the chord.
    pub posts: Vec<KeyPost>,
}

impl ChordRun {
    /// The events are those of the keys that go down.
    pub open spec fn wf(&self) -> bool {
        &&& 0 < self.keys@.len()
        &&& self.tried <= self.keys@.len()
        &&& self.posts@ == chord_posts(self.keys@, self.tried as int)
        &&& self.at <= self.posts@.len()
    }

    /// Nothing has been posted.
    pub fn start(keys: Vec<KeyName>) -> (r: Result<ChordRun, EmptyChord>)
        ensures
            match r {
                Ok(run) => keys@.len() > 0 && run.wf() && run.keys == keys && run.tried
                    == keys@.len() && run.at == 0 && run.pressed && run.released,
                Err(_) => keys@.len() == 0,
            },
    {
        let tried: usize = keys.len();
        match key_chord(keys.as_slice(), tried) {
            Ok(posts) => Ok(
                ChordRun { keys, tried, at: 0, pressed: true, released: true, posts },
            ),
            Err(e) => Err(e),
        }
    }

    /// The event to post next; nothing once the chord is over.
    pub fn upcoming(&self) -> (post: Option<KeyPost>)
        requires
            self.wf(),
        ensures
            post == (if self.at < chord_posts(self.keys@, self.tried as int).len() {
                Some(chord_posts(self.keys@, self.tried as int)[self.at as int])
            } else {
                None
            }),
    {
        if self.at < self.posts.len() {
            Some(self.posts[self.at])
        } else {
            None
        }
    }

    /// Takes note of what became of the event.
    pub fn posted(&mut self, ok: bool)
        requires
            old(self).wf(),
            old(self).at < chord_posts(old(self).keys@, old(self).tried as int).len(),
        ensures
            final(self).wf(),
            final(self).keys == old(self).keys,
            final(self).at == old(self).at + 1,
            ({
                let press = old(self).at < old(self).tried;
                &&& final(self).tried == (if press && !ok {
                    (old(self).at + 1) as usize
                } else {
                    old(self).tried
                })
                &&& final(self).pressed == (old(self).pressed && (ok || !press))
                &&& final(self).released == (old(self).released && (ok || press))
            }),
    {
        proof {
            lemma_chord_len(self.keys@, self.tried as int);
            assert(self.posts.len() == self.posts@.len());
        }
        if self.at < self.tried {
            if !ok {
                let tried: usize = self.at + 1;
                let mut posts: Vec<KeyPost> = Vec::new();
                let held = push_presses(self.keys.as_slice(), tried, &mut posts);
                push_releases(self.keys.as_slice(), tried, held, &mut posts);
                assert(posts@ =~= chord_posts(self.keys@, tried as int));
                proof {
                    lemma_chord_len(self.keys@, tried as int);
                }
                self.posts = posts;
                self.tried = tried;
                self.pressed = false;
            }
        } else if !ok {
            self.released = false;
        }
        assert(self.at < self.posts.len());
        self.at = self.at + 1;
    }

    /// How the presses and the releases went.
    pub fn outcome(&self) -> (r: Joined)
        ensures
            r == (if self.pressed && self.released {
                Joined::Done
            } else if self.released {
                Joined::ActionFailed
            } else if self.pressed {
                Joined::CleanupFailed
            } else {
                Joined::BothFailed
            }),
    {
        after_cleanup(self.pressed, self.released)
    }
}

proof fn lemma_chord_len(keys: Seq<KeyName>, n: int)
    requires
        0 <= n <= keys.len(),
    ensures
        press_posts(keys, n).len() == n,
        chord_posts(keys, n).len() == 2 * n,
    decreases n,
{
    if n > 0 {
        lemma_chord_len(keys, n - 1);
    }
    lemma_releases(keys, n, n);
}

proof fn lemma_held_after(keys: Seq<KeyName>, k: int, key: KeyName)
    requires
        0 <= k <= keys.len(),
        holds(held_after(keys, k), key),
    ensures
        exists|i: int| 0 <= i < k && #[trigger] keys[i] == key,
    decreases k,
{
    if k > 0 {
        if keys[k - 1] != key {
            lemma_held_after(keys, k - 1, key);
        }
    }
}

proof fn lemma_held_back(keys: Seq<KeyName>, n: int, j: int, key: KeyName)
    requires
        0 <= j <= n <= keys.len(),
        holds(held_back(keys, n, j), key),
    ensures
        exists|i: int| 0 <= i < n - j && #[trigger] keys[i] == key,
    decreases j,
{
    if j <= 0 {
        lemma_held_after(keys, n, key);
    } else {
        lemma_held_back(keys, n, j - 1, key);
        let i = choose|i: int| 0 <= i < n - j + 1 && #[trigger] keys[i] == key;
        if i == n - j {
            assert(false);
        }
    }
}

/// However early a chord stops, no modifier is held at its end, and every key that
/// was tried is released.
pub proof fn law_chord_ends_with_nothing_held(keys: Seq<KeyName>, n: int, i: int)
    requires
        0 <= i < n <= keys.len(),
    ensures
        held_back(keys, n, n) == Modifiers::none(),
        release_posts(keys, n, n).len() == n,
        release_posts(keys, n, n)[n - 1 - i].key == keys[i],
        !release_posts(keys, n, n)[n - 1 - i].down,
{
    let end = held_back(keys, n, n);
    if holds(end, KeyName::Ctrl) {
        lemma_held_back(keys, n, n, KeyName::Ctrl);
    }
    if holds(end, KeyName::Alt) {
        lemma_held_back(keys, n, n, KeyName::Alt);
    }
    if holds(end, KeyName::Shift) {
        lemma_held_back(keys, n, n, KeyName::Shift);
    }
    if holds(end, KeyName::Meta) {
        lemma_held_back(keys, n, n, KeyName::Meta);
    }
    lemma_releases(keys, n, n);
}

proof fn lemma_releases(keys: Seq<KeyName>, n: int, j: int)
    requires
        0 <= j <= n <= keys.len(),
    ensures
        release_posts(keys, n, j).len() == j,
        forall|k: int|
            0 <= k < j ==> (#[trigger] release_posts(keys, n, j)[k]).key == keys[n - 1 - k]
                && !release_posts(keys, n, j)[k].down,
    decreases j,
{
    if j > 0 {
        lemma_releases(keys, n, j - 1);
    }
}

// ---------------------------------------------------------------------------
// Gestures
// ---------------------------------------------------------------------------
/// A pointer gesture; its points are numbered.
#[derive(Clone, Copy, Debug, PartialEq, Eq, Structural)]
pub enum Gesture {
    Click { button: MouseButton, count: u32, modifiers: Modifiers },
    Move,
    Drag { button: MouseButton, modifiers: Modifiers, points: usize },
    Scroll,
}

/// A kind of pointer event.
#[derive(Clone, Copy, Debug, PartialEq, Eq, Structural)]
pub enum MouseKind {
    Moved,
    Down,
    Up,
    Dragged,
}

/// A step of a gesture.
#[derive(Clone, Copy, Debug, PartialEq, Eq, Structural)]
pub enum Step {
    /// Put the real pointer at a point.
    Warp(usize),
    Key(KeyPost),
    /// A pointer event, with its click count and the modifiers it carries.
    Mouse { kind: MouseKind, button: MouseButton, point: usize, state: u32, held: Modifiers },
    /// Turn the wheel at a point.
    Wheel(usize),
    /// Wait so many milliseconds.
    Wait(u32),
}

/// The number of a button.
pub fn button_number(button: MouseButton) -> (n: i64)
    ensures
        n == (match button {
            MouseButton::Left => 0i64,
            MouseButton::Right => 1,
            MouseButton::Middle => 2,
        }),
{
    match button {
        MouseButton::Left => 0,
        MouseButton::Right => 1,
        MouseButton::Middle => 2,
    }
}

/// The keys of some modifiers, in the order in which they are pressed.
pub open spec fn modifier_list(m: Modifiers) -> Seq<KeyName> {
    let none = Seq::<KeyName>::empty();
    (if m.ctrl {
        seq![KeyName::Ctrl]
    } else {
        none
    }) + (if m.alt {
        seq![KeyName::Alt]
    } else {
        none
    }) + (if m.shift {
        seq![KeyName::Shift]
    } else {
        none
    }) + (if m.meta {
        seq![KeyName::Meta]
    } else {
        none
    })
}

/// The keys of some modifiers, in the order in which they are pressed.
pub fn modifier_order(m: Modifiers) -> (out: Vec<KeyName>)
    ensures
        out@ == modifier_list(m),
{
    let mut out: Vec<KeyName> = Vec::new();
    if m.ctrl {
        out.push(KeyName::Ctrl);
    }
    if m.alt {
        out.push(KeyName::Alt);
    }
    if m.shift {
        out.push(KeyName::Shift);
    }
    if m.meta {
        out.push(KeyName::Meta);
    }
    assert(out@ =~= modifier_list(m));
    out
}

/// The first `k` key events, each with a wait behind it.
pub open spec fn timed(posts: Seq<KeyPost>, k: int) -> Seq<Step>
    decreases k,
{
    if k <= 0 {
        Seq::empty()
    } else {
        timed(posts, k - 1).push(Step::Key(posts[k - 1])).push(Step::Wait(8))
    }
}

fn push_timed(posts: &Vec<KeyPost>, out: &mut Vec<Step>)
    ensures
        final(out)@ == old(out)@ + timed(posts@, posts@.len() as int),
{
    let ghost base = out@;
    let mut i: usize = 0;
    assert(base + timed(posts@, 0) =~= base);
    while i < posts.len()
        invariant
            i <= posts@.len(),
            out@ == base + timed(posts@, i as int),
        decreases posts@.len() - i,
    {
        out.push(Step::Key(posts[i]));
        out.push(Step::Wait(8));
        assert(out@ =~= base + timed(posts@, i + 1));
        i = i + 1;
    }
}

/// The presses of some modifiers.
pub open spec fn modifier_presses(m: Modifiers) -> Seq<Step> {
    let keys = modifier_list(m);
    let posts = press_posts(keys, keys.len() as int);
    timed(posts, posts.len() as int)
}

/// The releases of the first `n` modifiers that were tried.
pub open spec fn modifier_releases(m: Modifiers, n: int) -> Seq<Step> {
    let posts = release_posts(modifier_list(m), n, n);
    timed(posts, posts.len() as int)
}

/// The clicks up to the number `k` of `count`.
pub open spec fn click_steps(button: MouseButton, held: Modifiers, count: int, k: int) -> Seq<Step>
    decreases k,
{
    if k <= 0 {
        Seq::empty()
    } else {
        let state = k as u32;
        let click = click_steps(button, held, count, k - 1) + seq![
            Step::Mouse { kind: MouseKind::Down, button, point: 0, state, held },
            Step::Wait(28),
            Step::Mouse { kind: MouseKind::Up, button, point: 0, state, held },
        ];
        if k < count {
            click.push(Step::Wait(80))
        } else {
            click
        }
    }
}

/// The drags along the points up to `k`.
pub open spec fn drag_steps(button: MouseButton, held: Modifiers, k: int) -> Seq<Step>
    decreases k,
{
    if k <= 1 {
        Seq::empty()
    } else {
        drag_steps(button, held, k - 1).push(Step::Wait(16)).push(
            Step::Mouse {
                kind: MouseKind::Dragged,
                button,
                point: (k - 1) as usize,
                state: 1,
                held,
            },
        )
    }
}

/// How often a click clicks: at least once.
pub open spec fn click_count(count: u32) -> int {
    if count == 0 {
        1
    } else {
        count as int
    }
}

/// What a gesture does between its modifiers.
pub open spec fn core_steps(gesture: Gesture) -> Seq<Step> {
    match gesture {
        Gesture::Click { button, count, modifiers } => {
            let list = modifier_list(modifiers);
            let held = held_after(list, list.len() as int);
            (if held != Modifiers::none() {
                seq![
                    Step::Mouse {
                        kind: MouseKind::Moved,
                        button: MouseButton::Left,
                        point: 0,
                        state: 0,
                        held,
                    },
                    Step::Wait(12),
                ]
            } else {
                Seq::empty()
            }) + click_steps(button, held, click_count(count), click_count(count))
        },
        Gesture::Drag { button, modifiers, points } => {
            let list = modifier_list(modifiers);
            let held = held_after(list, list.len() as int);
            seq![
                Step::Mouse { kind: MouseKind::Moved, button, point: 0, state: 0, held },
                Step::Wait(30),
                Step::Mouse { kind: MouseKind::Down, button, point: 0, state: 1, held },
            ] + drag_steps(button, held, points as int) + seq![
                Step::Wait(50),
                Step::Mouse {
                    kind: MouseKind::Up,
                    button,
                    point: (points - 1) as usize,
                    state: 0,
                    held,
                },
            ]
        },
        Gesture::Move => seq![
            Step::Mouse {
                kind: MouseKind::Moved,
                button: MouseButton::Left,
                point: 0,
                state: 0,
                held: Modifiers::none(),
            },
        ],
        Gesture::Scroll => seq![Step::Warp(0), Step::Wait(40), Step::Wheel(0)],
    }
}

/// The steps of a gesture with the user's own pointer. A click or drag puts the
/// pointer at its start first and waits at its end.
pub open spec fn global_steps(gesture: Gesture) -> Seq<Step> {
    match gesture {
        Gesture::Click { modifiers, .. } => seq![Step::Warp(0), Step::Wait(40)]
            + modifier_presses(modifiers) + core_steps(gesture) + modifier_releases(
            modifiers,
            modifier_list(modifiers).len() as int,
        ) + seq![Step::Wait(40)],
        Gesture::Drag { modifiers, .. } => seq![Step::Warp(0), Step::Wait(40)] + modifier_presses(
            modifiers,
        ) + core_steps(gesture) + modifier_releases(
            modifiers,
            modifier_list(modifiers).len() as int,
        ) + seq![Step::Wait(100)],
        _ => core_steps(gesture),
    }
}

/// A drag along fewer than two points.
#[derive(Clone, Copy, Debug, PartialEq, Eq, Structural)]
pub struct ShortPath;

fn no_modifiers() -> (m: Modifiers)
    ensures
        m == Modifiers::none(),
{
    Modifiers { ctrl: false, alt: false, shift: false, meta: false }
}

/// The steps of a gesture with the user's own pointer.
pub fn global_pointer(gesture: Gesture) -> (r: Result<Vec<Step>, ShortPath>)
    ensures
        match r {
            Ok(steps) => {
                &&& !(gesture matches Gesture::Drag { points, .. } && points < 2)
                &&& steps@ == global_steps(gesture)
            },
            Err(_) => gesture matches Gesture::Drag { points, .. } && points < 2,
        },
{
    let mut out: Vec<Step> = Vec::new();
    match gesture {
        Gesture::Move => {
            out.push(
                Step::Mouse {
                    kind: MouseKind::Moved,
                    button: MouseButton::Left,
                    point: 0,
                    state: 0,
                    held: no_modifiers(),
                },
            );
            assert(out@ =~= global_steps(gesture));
            Ok(out)
        },
        Gesture::Scroll => {
            out.push(Step::Warp(0));
            out.push(Step::Wait(40));
            out.push(Step::Wheel(0));
            assert(out@ =~= global_steps(gesture));
            Ok(out)
        },
        Gesture::Click { button, count, modifiers } => Ok(global_click(button, count, modifiers)),
        Gesture::Drag { button, modifiers, points } => if points < 2 {
            Err(ShortPath)
        } else {
            Ok(global_drag(button, modifiers, points))
        },
    }
}

fn push_start(keys: &Vec<KeyName>, out: &mut Vec<Step>) -> (held: Modifiers)
    ensures
        held == held_after(keys@, keys@.len() as int),
        ({
            let posts = press_posts(keys@, keys@.len() as int);
            final(out)@ == old(out)@ + seq![Step::Warp(0), Step::Wait(40)] + timed(
                posts,
                posts.len() as int,
            )
        }),
{
    let ghost base = out@;
    out.push(Step::Warp(0));
    out.push(Step::Wait(40));
    assert(out@ =~= base + seq![Step::Warp(0), Step::Wait(40)]);
    let mut presses: Vec<KeyPost> = Vec::new();
    let held = push_presses(keys.as_slice(), keys.len(), &mut presses);
    assert(presses@ =~= press_posts(keys@, keys@.len() as int));
    push_timed(&presses, out);
    held
}

fn push_click_core(button: MouseButton, count: u32, modifiers: Modifiers, held: Modifiers, out: &mut Vec<Step>)
    requires
        held == held_after(modifier_list(modifiers), modifier_list(modifiers).len() as int),
    ensures
        final(out)@ == old(out)@ + core_steps(Gesture::Click { button, count, modifiers }),
{
    let ghost base = out@;
    if held.any() {
        out.push(
            Step::Mouse {
                kind: MouseKind::Moved,
                button: MouseButton::Left,
                point: 0,
                state: 0,
                held,
            },
        );
        out.push(Step::Wait(12));
    }
    let times: u32 = if count == 0 {
        1
    } else {
        count
    };
    push_clicks(button, held, times, out);
    assert(out@ =~= base + core_steps(Gesture::Click { button, count, modifiers }));
}

fn push_drag_core(button: MouseButton, modifiers: Modifiers, points: usize, held: Modifiers, out: &mut Vec<Step>)
    requires
        points >= 2,
        held == held_after(modifier_list(modifiers), modifier_list(modifiers).len() as int),
    ensures
        final(out)@ == old(out)@ + core_steps(Gesture::Drag { button, modifiers, points }),
{
    let ghost base = out@;
    out.push(Step::Mouse { kind: MouseKind::Moved, button, point: 0, state: 0, held });
    out.push(Step::Wait(30));
    out.push(Step::Mouse { kind: MouseKind::Down, button, point: 0, state: 1, held });
    push_drags(button, held, points, out);
    out.push(Step::Wait(50));
    out.push(Step::Mouse { kind: MouseKind::Up, button, point: points - 1, state: 0, held });
    assert(out@ =~= base + core_steps(Gesture::Drag { button, modifiers, points }));
}

fn global_click(button: MouseButton, count: u32, modifiers: Modifiers) -> (out: Vec<Step>)
    ensures
        out@ == global_steps(Gesture::Click { button, count, modifiers }),
{
    let mut out: Vec<Step> = Vec::new();
    let keys = modifier_order(modifiers);
    let held = push_start(&keys, &mut out);
    assert(out@ =~= seq![Step::Warp(0), Step::Wait(40)] + modifier_presses(modifiers));
    push_click_core(button, count, modifiers, held, &mut out);
    push_modifier_releases(&keys, keys.len(), held, &mut out);
    out.push(Step::Wait(40));
    assert(out@ =~= global_steps(Gesture::Click { button, count, modifiers }));
    out
}

fn global_drag(button: MouseButton, modifiers: Modifiers, points: usize) -> (out: Vec<Step>)
    requires
        points >= 2,
    ensures
        out@ == global_steps(Gesture::Drag { button, modifiers, points }),
{
    let mut out: Vec<Step> = Vec::new();
    let keys = modifier_order(modifiers);
    let held = push_start(&keys, &mut out);
    assert(out@ =~= seq![Step::Warp(0), Step::Wait(40)] + modifier_presses(modifiers));
    push_drag_core(button, modifiers, points, held, &mut out);
    push_modifier_releases(&keys, keys.len(), held, &mut out);
    out.push(Step::Wait(100));
    assert(out@ =~= global_steps(Gesture::Drag { button, modifiers, points }));
    out
}

fn push_clicks(button: MouseButton, held: Modifiers, times: u32, out: &mut Vec<Step>)
    ensures
        final(out)@ == old(out)@ + click_steps(button, held, times as int, times as int),
{
    let ghost base = out@;
    let mut k: u32 = 0;
    assert(base + click_steps(button, held, times as int, 0) =~= base);
    while k < times
        invariant
            k <= times,
            out@ == base + click_steps(button, held, times as int, k as int),
        decreases times - k,
    {
        let state: u32 = k + 1;
        out.push(Step::Mouse { kind: MouseKind::Down, button, point: 0, state, held });
        out.push(Step::Wait(28));
        out.push(Step::Mouse { kind: MouseKind::Up, button, point: 0, state, held });
        if state < times {
            out.push(Step::Wait(80));
        }
        assert(out@ =~= base + click_steps(button, held, times as int, k + 1));
        k = k + 1;
    }
}

fn push_drags(button: MouseButton, held: Modifiers, points: usize, out: &mut Vec<Step>)
    requires
        points >= 1,
    ensures
        final(out)@ == old(out)@ + drag_steps(button, held, points as int),
{
    let ghost base = out@;
    let mut k: usize = 1;
    assert(base + drag_steps(button, held, 1) =~= base);
    while k < points
        invariant
            1 <= k <= points,
            out@ == base + drag_steps(button, held, k as int),
        decreases points - k,
    {
        out.push(Step::Wait(16));
        out.push(Step::Mouse { kind: MouseKind::Dragged, button, point: k, state: 1, held });
        assert(out@ =~= base + drag_steps(button, held, k + 1));
        k = k + 1;
    }
}

fn push_modifier_releases(keys: &Vec<KeyName>, n: usize, held: Modifiers, out: &mut Vec<Step>)
    requires
        n <= keys@.len(),
        held == held_after(keys@, n as int),
    ensures
        ({
            let posts = release_posts(keys@, n as int, n as int);
            final(out)@ == old(out)@ + timed(posts, posts.len() as int)
        }),
{
    let mut posts: Vec<KeyPost> = Vec::new();
    push_releases(keys.as_slice(), n, held, &mut posts);
    assert(posts@ =~= release_posts(keys@, n as int, n as int));
    push_timed(&posts, out);
}

/// The releases that are left when a gesture stops after so many modifiers were
/// tried.
pub fn release_modifiers(modifiers: Modifiers, attempted: usize) -> (out: Vec<Step>)
    requires
        attempted <= modifier_list(modifiers).len(),
    ensures
        out@ == modifier_releases(modifiers, attempted as int),
{
    let keys = modifier_order(modifiers);
    let mut presses: Vec<KeyPost> = Vec::new();
    let held = push_presses(keys.as_slice(), attempted, &mut presses);
    let mut out: Vec<Step> = Vec::new();
    push_modifier_releases(&keys, attempted, held, &mut out);
    assert(out@ =~= modifier_releases(modifiers, attempted as int));
    out
}

/// What is held down: modifiers, and a button.
#[derive(Clone, Copy, Debug, PartialEq, Eq, Structural)]
pub struct Pressed {
    pub modifiers: Modifiers,
    pub button: Option<MouseButton>,
}

/// What is held down behind a step.
pub open spec fn pressed_by(before: Pressed, step: Step) -> Pressed {
    match step {
        Step::Key(post) => Pressed {
            modifiers: with_key(before.modifiers, post.key, post.down),
            button: before.button,
        },
        Step::Mouse { kind: MouseKind::Down, button, .. } => Pressed {
            modifiers: before.modifiers,
            button: Some(button),
        },
        Step::Mouse { kind: MouseKind::Up, .. } => Pressed {
            modifiers: before.modifiers,
            button: None,
        },
        _ => before,
    }
}

/// What is held down behind the first `n` steps.
pub open spec fn pressed_after(before: Pressed, steps: Seq<Step>, n: int) -> Pressed
    decreases n,
{
    if n <= 0 {
        before
    } else {
        pressed_by(pressed_after(before, steps, n - 1), steps[n - 1])
    }
}

/// What is held down behind all of the steps.
pub open spec fn pressed_at_end(before: Pressed, steps: Seq<Step>) -> Pressed {
    pressed_after(before, steps, steps.len() as int)
}

proof fn lemma_pressed_prefix(before: Pressed, a: Seq<Step>, b: Seq<Step>, n: int)
    requires
        n <= a.len(),
    ensures
        pressed_after(before, a + b, n) == pressed_after(before, a, n),
    decreases n,
{
    if n > 0 {
        lemma_pressed_prefix(before, a, b, n - 1);
    }
}

proof fn lemma_pressed_tail(before: Pressed, a: Seq<Step>, b: Seq<Step>, n: int)
    requires
        0 <= n <= b.len(),
    ensures
        pressed_after(before, a + b, a.len() + n) == pressed_after(pressed_at_end(before, a), b, n),
    decreases n,
{
    if n > 0 {
        lemma_pressed_tail(before, a, b, n - 1);
    } else {
        lemma_pressed_prefix(before, a, b, a.len() as int);
    }
}

proof fn lemma_pressed_joined(before: Pressed, a: Seq<Step>, b: Seq<Step>)
    ensures
        pressed_at_end(before, a + b) == pressed_at_end(pressed_at_end(before, a), b),
{
    lemma_pressed_tail(before, a, b, b.len() as int);
}

proof fn lemma_pressed_push(before: Pressed, a: Seq<Step>, step: Step)
    ensures
        pressed_at_end(before, a.push(step)) == pressed_by(pressed_at_end(before, a), step),
{
    lemma_pressed_joined(before, a, seq![step]);
    assert(a.push(step) =~= a + seq![step]);
    let start = pressed_at_end(before, a);
    assert(pressed_after(start, seq![step], 0) == start);
    assert(pressed_at_end(start, seq![step]) == pressed_by(start, step));
}

proof fn lemma_timed_tail(posts: Seq<KeyPost>, more: KeyPost, k: int)
    requires
        k <= posts.len(),
    ensures
        timed(posts.push(more), k) == timed(posts, k),
    decreases k,
{
    if k > 0 {
        lemma_timed_tail(posts, more, k - 1);
    }
}

proof fn lemma_timed_push(before: Pressed, posts: Seq<KeyPost>, post: KeyPost)
    ensures
        ({
            let all = posts.push(post);
            pressed_at_end(before, timed(all, all.len() as int)) == pressed_by(
                pressed_at_end(before, timed(posts, posts.len() as int)),
                Step::Key(post),
            )
        }),
{
    let n = posts.len() as int;
    lemma_timed_tail(posts, post, n);
    let start = timed(posts, n);
    lemma_pressed_push(before, start, Step::Key(post));
    lemma_pressed_push(before, start.push(Step::Key(post)), Step::Wait(8));
}

proof fn lemma_presses_press(keys: Seq<KeyName>, button: Option<MouseButton>, k: int)
    requires
        0 <= k <= keys.len(),
    ensures
        ({
            let posts = press_posts(keys, k);
            pressed_at_end((Pressed { modifiers: Modifiers::none(), button }), timed(posts, posts.len() as int))
                == (Pressed { modifiers: held_after(keys, k), button })
        }),
    decreases k,
{
    let before = Pressed { modifiers: Modifiers::none(), button };
    if k > 0 {
        lemma_presses_press(keys, button, k - 1);
        lemma_timed_push(
            before,
            press_posts(keys, k - 1),
            KeyPost { key: keys[k - 1], down: true, held: held_after(keys, k) },
        );
    }
}

proof fn lemma_releases_release(keys: Seq<KeyName>, button: Option<MouseButton>, n: int, j: int)
    requires
        0 <= j <= n <= keys.len(),
    ensures
        ({
            let posts = release_posts(keys, n, j);
            pressed_at_end((Pressed { modifiers: held_after(keys, n), button }), timed(posts, posts.len() as int))
                == (Pressed { modifiers: held_back(keys, n, j), button })
        }),
    decreases j,
{
    let before = Pressed { modifiers: held_after(keys, n), button };
    if j > 0 {
        lemma_releases_release(keys, button, n, j - 1);
        lemma_timed_push(
            before,
            release_posts(keys, n, j - 1),
            KeyPost { key: keys[n - j], down: false, held: held_back(keys, n, j) },
        );
    }
}

proof fn lemma_clicks_release(before: Pressed, button: MouseButton, held: Modifiers, count: int, k: int)
    requires
        0 <= k,
        before.button is None,
    ensures
        pressed_at_end(before, click_steps(button, held, count, k)) == before,
    decreases k,
{
    if k > 0 {
        lemma_clicks_release(before, button, held, count, k - 1);
        let earlier = click_steps(button, held, count, k - 1);
        let down = Step::Mouse { kind: MouseKind::Down, button, point: 0, state: k as u32, held };
        let up = Step::Mouse { kind: MouseKind::Up, button, point: 0, state: k as u32, held };
        lemma_pressed_push(before, earlier, down);
        lemma_pressed_push(before, earlier.push(down), Step::Wait(28));
        lemma_pressed_push(before, earlier.push(down).push(Step::Wait(28)), up);
        let click = earlier.push(down).push(Step::Wait(28)).push(up);
        assert(click =~= earlier + seq![down, Step::Wait(28), up]);
        lemma_pressed_push(before, click, Step::Wait(80));
    }
}

proof fn lemma_drags_hold(before: Pressed, button: MouseButton, held: Modifiers, k: int)
    ensures
        pressed_at_end(before, drag_steps(button, held, k)) == before,
    decreases k,
{
    if k > 1 {
        lemma_drags_hold(before, button, held, k - 1);
        let earlier = drag_steps(button, held, k - 1);
        let drag = Step::Mouse {
            kind: MouseKind::Dragged,
            button,
            point: (k - 1) as usize,
            state: 1,
            held,
        };
        lemma_pressed_push(before, earlier, Step::Wait(16));
        lemma_pressed_push(before, earlier.push(Step::Wait(16)), drag);
    }
}

proof fn lemma_core_releases(gesture: Gesture, before: Pressed)
    requires
        before.button is None,
    ensures
        pressed_at_end(before, core_steps(gesture)) == before,
{
    match gesture {
        Gesture::Click { button, count, modifiers } => {
            let list = modifier_list(modifiers);
            let held = held_after(list, list.len() as int);
            let clicks = click_steps(button, held, click_count(count), click_count(count));
            lemma_clicks_release(before, button, held, click_count(count), click_count(count));
            if held != Modifiers::none() {
                let moved = Step::Mouse {
                    kind: MouseKind::Moved,
                    button: MouseButton::Left,
                    point: 0,
                    state: 0,
                    held,
                };
                let lead = seq![moved, Step::Wait(12)];
                lemma_pressed_joined(before, lead, clicks);
                reveal_with_fuel(pressed_after, 3);
            } else {
                assert(Seq::<Step>::empty() + clicks =~= clicks);
            }
        },
        Gesture::Drag { button, modifiers, points } => {
            let list = modifier_list(modifiers);
            let held = held_after(list, list.len() as int);
            let down = seq![
                Step::Mouse { kind: MouseKind::Moved, button, point: 0, state: 0, held },
                Step::Wait(30),
                Step::Mouse { kind: MouseKind::Down, button, point: 0, state: 1, held },
            ];
            let drags = drag_steps(button, held, points as int);
            let up = seq![
                Step::Wait(50),
                Step::Mouse {
                    kind: MouseKind::Up,
                    button,
                    point: (points - 1) as usize,
                    state: 0,
                    held,
                },
            ];
            lemma_pressed_joined(before, down + drags, up);
            lemma_pressed_joined(before, down, drags);
            reveal_with_fuel(pressed_after, 4);
            lemma_drags_hold(pressed_at_end(before, down), button, held, points as int);
        },
        _ => {
            reveal_with_fuel(pressed_after, 4);
        },
    }
}

/// Once a gesture with the user's own pointer is over, it holds no modifier and
/// no button.
pub proof fn law_gesture_releases_everything(gesture: Gesture)
    ensures
        ({
            let free = Pressed { modifiers: Modifiers::none(), button: None };
            pressed_at_end(free, global_steps(gesture)) == free
        }),
{
    let free = Pressed { modifiers: Modifiers::none(), button: None };
    match gesture {
        Gesture::Click { modifiers, .. } => {
            lemma_wrapped_releases(gesture, modifiers, 40);
        },
        Gesture::Drag { modifiers, .. } => {
            lemma_wrapped_releases(gesture, modifiers, 100);
        },
        _ => {
            lemma_core_releases(gesture, free);
        },
    }
}

proof fn lemma_wrapped_releases(gesture: Gesture, modifiers: Modifiers, wait: u32)
    ensures
        ({
            let free = Pressed { modifiers: Modifiers::none(), button: None };
            pressed_at_end(
                free,
                seq![Step::Warp(0), Step::Wait(40)] + modifier_presses(modifiers) + core_steps(gesture)
                    + modifier_releases(modifiers, modifier_list(modifiers).len() as int)
                    + seq![Step::Wait(wait)],
            ) == free
        }),
{
    let free = Pressed { modifiers: Modifiers::none(), button: None };
    let keys = modifier_list(modifiers);
    let n = keys.len() as int;
    let holding = Pressed { modifiers: held_after(keys, n), button: None };
    let lead = seq![Step::Warp(0), Step::Wait(40)];
    let presses = modifier_presses(modifiers);
    let releases = modifier_releases(modifiers, n);
    assert(pressed_at_end(free, lead) == free) by {
        reveal_with_fuel(pressed_after, 3);
    }
    lemma_pressed_joined(free, lead, presses);
    lemma_presses_press(keys, None, n);
    assert(pressed_at_end(free, lead + presses) == holding);
    lemma_pressed_joined(free, lead + presses, core_steps(gesture));
    lemma_core_releases(gesture, holding);
    lemma_pressed_joined(free, lead + presses + core_steps(gesture), releases);
    lemma_releases_release(keys, None, n, n);
    if n > 0 {
        law_chord_ends_with_nothing_held(keys, n, 0);
    }
    let all = lead + presses + core_steps(gesture) + releases;
    assert(all.push(Step::Wait(wait)) =~= all + seq![Step::Wait(wait)]);
    lemma_pressed_push(free, all, Step::Wait(wait));
}

// ---------------------------------------------------------------------------
// Background clicks
// ---------------------------------------------------------------------------
/// A step of a click that is routed to a process.
#[derive(Clone, Copy, Debug, PartialEq, Eq, Structural)]
pub enum BackStep {
    /// A pointer event at the target or off the screen.
    Mouse { kind: MouseKind, button: MouseButton, offscreen: bool, phase: u32, state: u32 },
    Wait(u32),
}

/// The presses up to the number `k` of `count`, with the gap between press and
/// release.
pub open spec fn back_presses(button: MouseButton, phase: u32, gap: u32, count: int, k: int) -> Seq<
    BackStep,
>
    decreases k,
{
    if k <= 0 {
        Seq::empty()
    } else {
        let state = k as u32;
        let click = back_presses(button, phase, gap, count, k - 1) + seq![
            BackStep::Mouse { kind: MouseKind::Down, button, offscreen: false, phase, state },
            BackStep::Wait(gap),
            BackStep::Mouse { kind: MouseKind::Up, button, offscreen: false, phase, state },
        ];
        if k < count {
            click.push(BackStep::Wait(80))
        } else {
            click
        }
    }
}

/// A left click that browsers take: a hover, a press off the screen that counts as
/// the user's, and the real presses.
pub open spec fn left_click(count: u32) -> Seq<BackStep> {
    let button = MouseButton::Left;
    seq![
        BackStep::Mouse { kind: MouseKind::Moved, button, offscreen: false, phase: 2, state: 0 },
        BackStep::Wait(15),
        BackStep::Mouse { kind: MouseKind::Down, button, offscreen: true, phase: 1, state: 1 },
        BackStep::Wait(1),
        BackStep::Mouse { kind: MouseKind::Up, button, offscreen: true, phase: 2, state: 1 },
        BackStep::Wait(100),
    ] + back_presses(button, 3, 1, click_count(count), click_count(count))
}

/// A click of another button: a hover and the presses.
pub open spec fn button_click(button: MouseButton, count: u32) -> Seq<BackStep> {
    seq![
        BackStep::Mouse {
            kind: MouseKind::Moved,
            button: MouseButton::Left,
            offscreen: false,
            phase: 0,
            state: 0,
        },
        BackStep::Wait(12),
    ] + back_presses(button, 0, 28, click_count(count), click_count(count))
}

fn push_back_presses(button: MouseButton, phase: u32, gap: u32, times: u32, out: &mut Vec<BackStep>)
    ensures
        final(out)@ == old(out)@ + back_presses(button, phase, gap, times as int, times as int),
{
    let ghost base = out@;
    let mut k: u32 = 0;
    assert(base + back_presses(button, phase, gap, times as int, 0) =~= base);
    while k < times
        invariant
            k <= times,
            out@ == base + back_presses(button, phase, gap, times as int, k as int),
        decreases times - k,
    {
        let state: u32 = k + 1;
        out.push(
            BackStep::Mouse { kind: MouseKind::Down, button, offscreen: false, phase, state },
        );
        out.push(BackStep::Wait(gap));
        out.push(BackStep::Mouse { kind: MouseKind::Up, button, offscreen: false, phase, state });
        if state < times {
            out.push(BackStep::Wait(80));
        }
        assert(out@ =~= base + back_presses(button, phase, gap, times as int, k + 1));
        k = k + 1;
    }
}

/// The steps of a left click in the background.
pub fn background_left_click(count: u32) -> (out: Vec<BackStep>)
    ensures
        out@ == left_click(count),
{
    let button = MouseButton::Left;
    let mut out: Vec<BackStep> = Vec::new();
    out.push(
        BackStep::Mouse { kind: MouseKind::Moved, button, offscreen: false, phase: 2, state: 0 },
    );
    out.push(BackStep::Wait(15));
    out.push(
        BackStep::Mouse { kind: MouseKind::Down, button, offscreen: true, phase: 1, state: 1 },
    );
    out.push(BackStep::Wait(1));
    out.push(
        BackStep::Mouse { kind: MouseKind::Up, button, offscreen: true, phase: 2, state: 1 },
    );
    out.push(BackStep::Wait(100));
    let times: u32 = if count == 0 {
        1
    } else {
        count
    };
    push_back_presses(button, 3, 1, times, &mut out);
    assert(out@ =~= left_click(count));
    out
}

/// The steps of a click of another button in the background.
pub fn background_button_click(button: MouseButton, count: u32) -> (out: Vec<BackStep>)
    ensures
        out@ == button_click(button, count),
{
    let mut out: Vec<BackStep> = Vec::new();
    out.push(
        BackStep::Mouse {
            kind: MouseKind::Moved,
            button: MouseButton::Left,
            offscreen: false,
            phase: 0,
            state: 0,
        },
    );
    out.push(BackStep::Wait(12));
    let times: u32 = if count == 0 {
        1
    } else {
        count
    };
    push_back_presses(button, 0, 28, times, &mut out);
    assert(out@ =~= button_click(button, count));
    out
}

/// The fields that route a pointer event to a window.
pub open spec fn routing_fields(
    phase: Option<i64>,
    state: i64,
    number: i64,
    pid: i32,
    wid: u32,
    group: i64,
) -> Seq<(u32, i64)> {
    (match phase {
        Some(p) => seq![(0u32, p)],
        None => Seq::empty(),
    }) + seq![
        (1u32, state),
        (3u32, number),
        (7u32, 3i64),
        (40u32, pid as i64),
        (51u32, wid as i64),
        (58u32, group),
        (91u32, wid as i64),
        (92u32, wid as i64),
    ]
}

/// The fields that route a pointer event to a window.
pub fn pointer_fields(
    phase: Option<i64>,
    state: i64,
    number: i64,
    pid: i32,
    wid: u32,
    group: i64,
) -> (out: Vec<(u32, i64)>)
    ensures
        out@ == routing_fields(phase, state, number, pid, wid, group),
{
    let mut out: Vec<(u32, i64)> = Vec::new();
    match phase {
        Some(p) => {
            out.push((0, p));
        },
        None => {},
    }
    out.push((1, state));
    out.push((3, number));
    out.push((7, 3));
    out.push((40, pid as i64));
    out.push((51, wid as i64));
    out.push((58, group));
    out.push((91, wid as i64));
    out.push((92, wid as i64));
    assert(out@ =~= routing_fields(phase, state, number, pid, wid, group));
    out
}

// ---------------------------------------------------------------------------
// Refusals
// ---------------------------------------------------------------------------
/// Why a gesture is not sent in the background.
#[derive(Clone, Copy, Debug, PartialEq, Eq, Structural)]
pub enum Refusal {
    /// A drag needs the real pointer.
    Drag,
    /// Modifiers cannot be held for one process.
    ModifiedClick,
    /// Right clicks would become left clicks.
    RightClick,
    /// A canvas or game reads other events.
    Canvas,
    /// Clicks would land where the user's pointer is.
    HardwarePointer,
    /// Wheel events are dropped.
    Wheel,
}

/// What is known of a process.
#[derive(Clone, Copy, Debug, PartialEq, Eq, Structural)]
pub struct ProcessTraits {
    pub chromium: bool,
    pub electron: bool,
    /// It reads the position of the user's pointer.
    pub hardware_pointer: bool,
}

/// The application draws its own canvas or game.
pub open spec fn canvas_app(app: Seq<char>) -> bool {
    let lower = ascii_lower_all(app);
    ||| contains_text(lower, "blender"@)
    ||| contains_text(lower, "unity"@)
    ||| contains_text(lower, "godot"@)
    ||| contains_text(lower, "unreal"@)
}

/// Why a gesture is not sent to a window in the background.
pub open spec fn refusal_of(gesture: Gesture, app: Seq<char>, traits: ProcessTraits) -> Option<
    Refusal,
> {
    if gesture is Drag {
        Some(Refusal::Drag)
    } else if gesture matches Gesture::Click { modifiers, .. } && modifiers != Modifiers::none() {
        Some(Refusal::ModifiedClick)
    } else if traits.chromium && (gesture matches Gesture::Click { button, .. }
        && button is Right) {
        Some(Refusal::RightClick)
    } else if canvas_app(app) {
        Some(Refusal::Canvas)
    } else if gesture is Click && traits.hardware_pointer {
        Some(Refusal::HardwarePointer)
    } else if gesture is Scroll && traits.electron {
        Some(Refusal::Wheel)
    } else {
        None
    }
}

fn has(text: &[char], part: &str) -> (r: bool)
    ensures
        r == contains_text(text@, part@),
{
    let chars = chars_of(part);
    contains(text, chars.as_slice())
}

fn is_canvas(app: &str) -> (r: bool)
    ensures
        r == canvas_app(app@),
{
    let chars = chars_of(app);
    let lower = lower_chars(chars.as_slice());
    let text: &[char] = lower.as_slice();
    has(text, "blender") || has(text, "unity") || has(text, "godot") || has(text, "unreal")
}

/// Why a gesture is not sent to a window in the background: what the target is
/// known to drop or misplace.
pub fn background_guard(gesture: Gesture, app: &str, traits: ProcessTraits) -> (r: Option<Refusal>)
    ensures
        r == refusal_of(gesture, app@, traits),
{
    match gesture {
        Gesture::Drag { .. } => {
            return Some(Refusal::Drag);
        },
        Gesture::Click { button, modifiers, .. } => {
            if modifiers.any() {
                return Some(Refusal::ModifiedClick);
            }
            let right = match button {
                MouseButton::Right => true,
                _ => false,
            };
            if traits.chromium && right {
                return Some(Refusal::RightClick);
            }
        },
        _ => {},
    }
    if is_canvas(app) {
        return Some(Refusal::Canvas);
    }
    match gesture {
        Gesture::Click { .. } => if traits.hardware_pointer {
            Some(Refusal::HardwarePointer)
        } else {
            None
        },
        Gesture::Scroll => if traits.electron {
            Some(Refusal::Wheel)
        } else {
            None
        },
        _ => None,
    }
}

/// The name of a gesture.
pub fn pointer_kind(gesture: Gesture) -> (name: &'static str)
    ensures
        name@ == (match gesture {
            Gesture::Click { .. } => "click"@,
            Gesture::Move => "pointer move"@,
            Gesture::Drag { .. } => "drag"@,
            Gesture::Scroll => "scroll"@,
        }),
{
    match gesture {
        Gesture::Click { .. } => "click",
        Gesture::Move => "pointer move",
        Gesture::Drag { .. } => "drag",
        Gesture::Scroll => "scroll",
    }
}

/// Why a window cannot be addressed.
#[derive(Clone, Copy, Debug, PartialEq, Eq, Structural)]
pub enum IdentityError {
    NoProcess,
    InvalidProcess,
    InvalidId,
}

/// The process and the number of a window.
pub fn window_identity(id: &str, pid: Option<u32>) -> (r: Result<(i32, u32), IdentityError>)
    ensures
        r == (match pid {
            None => Err::<(i32, u32), IdentityError>(IdentityError::NoProcess),
            Some(p) => if p > i32::MAX {
                Err(IdentityError::InvalidProcess)
            } else {
                match number(id@, 10, u32::MAX as int) {
                    Some(wid) => Ok((p as i32, wid as u32)),
                    None => Err(IdentityError::InvalidId),
                }
            },
        }),
{
    let p: u32 = match pid {
        None => {
            return Err(IdentityError::NoProcess);
        },
        Some(p) => p,
    };
    if p > i32::MAX as u32 {
        return Err(IdentityError::InvalidProcess);
    }
    let chars = chars_of(id);
    match parse(chars.as_slice(), 10, u32::MAX as u64) {
        Some(wid) => Ok((p as i32, wid as u32)),
        None => Err(IdentityError::InvalidId),
    }
}

/// A window of an application, and whether it is minimized, where that can be
/// told.
#[derive(Clone, Copy, Debug, PartialEq, Eq, Structural)]
pub struct AxWindowRecord {
    pub id: u32,
    pub minimized: Option<bool>,
}

/// Why keys for a process could reach another of its windows.
#[derive(Clone, Copy, Debug, PartialEq, Eq, Structural)]
pub enum KeyboardConflict {
    /// The target is not among the windows.
    Unmapped,
    /// So many other windows could have the keyboard.
    Siblings(usize),
}

/// How many of the first `k` windows could have the keyboard instead: a minimized
/// one cannot.
pub open spec fn siblings(records: Seq<AxWindowRecord>, wid: u32, k: int) -> int
    decreases k,
{
    if k <= 0 {
        0
    } else {
        siblings(records, wid, k - 1) + if records[k - 1].id != wid && records[k - 1].minimized
            != Some(true) {
            1int
        } else {
            0int
        }
    }
}

/// Why keys for a process could reach another window than the target.
pub fn keyboard_conflict(wid: u32, records: &[AxWindowRecord]) -> (r: Option<KeyboardConflict>)
    ensures
        ({
            let listed = exists|i: int| 0 <= i < records@.len() && (#[trigger] records@[i]).id == wid;
            let others = siblings(records@, wid, records@.len() as int);
            r == (if !listed {
                Some(KeyboardConflict::Unmapped)
            } else if others > 0 {
                Some(KeyboardConflict::Siblings(others as usize))
            } else {
                None
            })
        }),
{
    let n: usize = records.len();
    let mut listed = false;
    let mut others: usize = 0;
    let mut i: usize = 0;
    while i < n
        invariant
            n == records@.len(),
            i <= n,
            listed == exists|k: int| 0 <= k < i && (#[trigger] records@[k]).id == wid,
            others == siblings(records@, wid, i as int),
            others <= i,
        decreases n - i,
    {
        let record = records[i];
        if record.id == wid {
            assert(records@[i as int].id == wid);
            listed = true;
        } else {
            let hidden = match record.minimized {
                Some(m) => m,
                None => false,
            };
            if !hidden {
                others = others + 1;
            }
        }
        i = i + 1;
    }
    if !listed {
        Some(KeyboardConflict::Unmapped)
    } else if others > 0 {
        Some(KeyboardConflict::Siblings(others))
    } else {
        None
    }
}

/// How text goes to a window in the background.
#[derive(Clone, Copy, Debug, PartialEq, Eq, Structural)]
pub enum TextRoute {
    /// Keys that are relayed elsewhere cannot carry it.
    Refuse,
    /// Write it into the focused element, or type it where that is not possible.
    InsertOrType,
    Type,
}

/// How text goes to a window in the background.
pub fn background_text(screen_sharing: bool, terminal: bool) -> (r: TextRoute)
    ensures
        r == (if screen_sharing {
            TextRoute::Refuse
        } else if terminal {
            TextRoute::Type
        } else {
            TextRoute::InsertOrType
        }),
{
    if screen_sharing {
        TextRoute::Refuse
    } else if terminal {
        TextRoute::Type
    } else {
        TextRoute::InsertOrType
    }
}

/// What is typed into a window that was brought to the front: key transitions
/// where keys are relayed elsewhere, mapped before anything is activated, and
/// characters otherwise.
pub fn foreground_text(screen_sharing: bool, text: &str) -> (r: Result<Option<Vec<(u16, bool)>>, char>)
    ensures
        match r {
            Ok(Some(keys)) => {
                &&& screen_sharing
                &&& forall|i: int| 0 <= i < text@.len() ==> stroke_of(#[trigger] text@[i]) is Some
                &&& keys@ == transitions(text@, text@.len() as int)
            },
            Ok(None) => !screen_sharing,
            Err(c) => screen_sharing && exists|i: int|
                0 <= i < text@.len() && #[trigger] text@[i] == c && stroke_of(c) is None && forall|
                    j: int,
                | 0 <= j < i ==> stroke_of(#[trigger] text@[j]) is Some,
        },
{
    if !screen_sharing {
        return Ok(None);
    }
    match physical_transitions(text) {
        Ok(keys) => Ok(Some(keys)),
        Err(c) => Err(c),
    }
}

/// Whether a chord is refused in the background: where keys are relayed, its
/// modifiers would be lost.
pub fn background_chord_refused(keys: &[KeyName], screen_sharing: bool) -> (r: bool)
    ensures
        r == (screen_sharing && exists|i: int|
            0 <= i < keys@.len() && modifier_key(#[trigger] keys@[i])),
{
    if !screen_sharing {
        return false;
    }
    let mut i: usize = 0;
    while i < keys.len()
        invariant
            i <= keys@.len(),
            screen_sharing,
            forall|k: int| 0 <= k < i ==> !modifier_key(#[trigger] keys@[k]),
        decreases keys@.len() - i,
    {
        if is_modifier(keys[i]) {
            assert(modifier_key(keys@[i as int]));
            return true;
        }
        i = i + 1;
    }
    false
}

/// The wait before the first key of a takeover, in milliseconds.
pub fn first_key_settle(activated: bool) -> (ms: u32)
    ensures
        ms == (if activated {
            200u32
        } else {
            20u32
        }),
{
    if activated {
        200
    } else {
        20
    }
}

// ---------------------------------------------------------------------------
// Covered targets
// ---------------------------------------------------------------------------
/// Who owns what is visible at a point.
#[derive(Clone, Copy, Debug, PartialEq, Eq, Structural)]
pub struct PointOwner {
    pub pid: i32,
    pub window: Option<u32>,
}

/// The point is not exactly the target window's.
pub open spec fn covered_by(owner: PointOwner, pid: i32, wid: u32) -> bool {
    owner.pid != pid || owner.window != Some(wid)
}

/// Whether a point is not exactly the target window's.
pub fn covers(owner: &PointOwner, pid: i32, wid: u32) -> (r: bool)
    ensures
        r == covered_by(*owner, pid, wid),
{
    let own = match owner.window {
        Some(w) => w == wid,
        None => false,
    };
    owner.pid != pid || !own
}

/// Why the owners of a gesture's points cannot be told.
#[derive(Clone, Copy, Debug, PartialEq, Eq, Structural)]
pub enum OwnerError {
    NoOwner,
    NoWindow,
}

/// The first owner that covers one of the first `k` points, or why that cannot be
/// told; a point that cannot be told counts first.
pub open spec fn covering_at(owners: Seq<Option<PointOwner>>, pid: i32, wid: u32, k: int) -> Result<
    Option<PointOwner>,
    OwnerError,
>
    decreases k,
{
    if k <= 0 {
        Ok(None)
    } else {
        match covering_at(owners, pid, wid, k - 1) {
            Err(e) => Err(e),
            Ok(first) => match owners[k - 1] {
                None => Err(OwnerError::NoOwner),
                Some(owner) => if owner.window is None {
                    Err(OwnerError::NoWindow)
                } else if first is None && covered_by(owner, pid, wid) {
                    Ok(Some(owner))
                } else {
                    Ok(first)
                },
            },
        }
    }
}

/// The first owner that covers one of a gesture's points.
pub fn covering(owners: &Vec<Option<PointOwner>>, pid: i32, wid: u32) -> (r: Result<
    Option<PointOwner>,
    OwnerError,
>)
    ensures
        r == covering_at(owners@, pid, wid, owners@.len() as int),
{
    let mut first: Option<PointOwner> = None;
    let mut i: usize = 0;
    while i < owners.len()
        invariant
            i <= owners@.len(),
            covering_at(owners@, pid, wid, i as int) == Ok::<Option<PointOwner>, OwnerError>(first),
        decreases owners@.len() - i,
    {
        let stop = match owners[i] {
            None => Some(OwnerError::NoOwner),
            Some(owner) => {
                if owner.window.is_none() {
                    Some(OwnerError::NoWindow)
                } else {
                    if first.is_none() && covers(&owner, pid, wid) {
                        first = Some(owner);
                    }
                    None
                }
            },
        };
        match stop {
            Some(e) => {
                proof {
                    lemma_covering_fails(owners@, pid, wid, i + 1, owners@.len() as int);
                }
                return Err(e);
            },
            None => {},
        }
        i = i + 1;
    }
    Ok(first)
}

proof fn lemma_covering_fails(owners: Seq<Option<PointOwner>>, pid: i32, wid: u32, i: int, k: int)
    requires
        i <= k,
        covering_at(owners, pid, wid, i) is Err,
    ensures
        covering_at(owners, pid, wid, k) == covering_at(owners, pid, wid, i),
    decreases k - i,
{
    if i < k {
        lemma_covering_fails(owners, pid, wid, i, k - 1);
        reveal_with_fuel(covering_at, 2);
        if k <= 0 {
            assert(covering_at(owners, pid, wid, i) is Ok);
        }
    }
}

/// What comes after a look at who covers the raised target.
#[derive(Clone, Copy, Debug, PartialEq, Eq, Structural)]
pub enum Uncovering {
    /// Nothing does: the input may go out.
    Clear,
    /// Look again.
    Wait,
    /// It stays covered: nothing is sent.
    Covered { pid: i32 },
    /// Who owns a point cannot be told: nothing is sent.
    Unknown(OwnerError),
}

/// What comes after a look at who covers the raised target.
pub fn uncovering(seen: Result<Option<PointOwner>, OwnerError>, expired: bool) -> (u: Uncovering)
    ensures
        u == (match seen {
            Err(e) => Uncovering::Unknown(e),
            Ok(None) => Uncovering::Clear,
            Ok(Some(owner)) => if expired {
                Uncovering::Covered { pid: owner.pid }
            } else {
                Uncovering::Wait
            },
        }),
{
    match seen {
        Err(e) => Uncovering::Unknown(e),
        Ok(None) => Uncovering::Clear,
        Ok(Some(owner)) => if expired {
            Uncovering::Covered { pid: owner.pid }
        } else {
            Uncovering::Wait
        },
    }
}

/// Takeover input goes out only when every point is exactly the target window's.
pub proof fn law_covered_points_get_no_input(
    owners: Seq<Option<PointOwner>>,
    pid: i32,
    wid: u32,
    i: int,
)
    requires
        0 <= i < owners.len(),
        covering_at(owners, pid, wid, owners.len() as int) == Ok::<Option<PointOwner>, OwnerError>(
            None,
        ),
    ensures
        owners[i] == Some(PointOwner { pid, window: Some(wid) }),
{
    lemma_clear_points(owners, pid, wid, owners.len() as int, i);
}

proof fn lemma_clear_points(owners: Seq<Option<PointOwner>>, pid: i32, wid: u32, k: int, i: int)
    requires
        0 <= i < k <= owners.len(),
        covering_at(owners, pid, wid, k) == Ok::<Option<PointOwner>, OwnerError>(None),
    ensures
        owners[i] == Some(PointOwner { pid, window: Some(wid) }),
    decreases k,
{
    if i < k - 1 {
        lemma_clear_points(owners, pid, wid, k - 1, i);
    }
}

} // verus!
