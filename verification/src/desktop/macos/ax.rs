//! Accessibility text: which elements take it, where a selection lies, and how
//! actions are named.

use vstd::prelude::*;

use crate::strings::{is_at, number, parse, stands_at, trim, trimmed};
use crate::unicode::{
    ascii_lower_all, char_utf16_len, chars_of, lemma_utf16_push, lower_chars, same_chars, same_text,
    string_of, utf16_len,
};

verus! {

/// How far up the tree an element's window is looked for.
pub const MAX_ANCESTRY_DEPTH: usize = 40;

// ---------------------------------------------------------------------------
// Selections
// ---------------------------------------------------------------------------
/// The character, from `i` on, before which there are so many UTF-16 units; the
/// end of the text counts.
pub open spec fn unit_index(text: Seq<char>, units: int, i: int) -> Option<int>
    decreases text.len() + 1 - i,
{
    if i < 0 || i > text.len() {
        None
    } else if utf16_len(text.take(i)) == units {
        Some(i)
    } else {
        unit_index(text, units, i + 1)
    }
}

/// The text with a selection, in UTF-16 units, replaced; `None` where the
/// selection is negative, out of the text, or ends inside a character.
pub open spec fn replaced(before: Seq<char>, location: int, length: int, text: Seq<char>) -> Option<
    Seq<char>,
> {
    if location < 0 || length < 0 {
        None
    } else {
        match (unit_index(before, location, 0), unit_index(before, location + length, 0)) {
            (Some(a), Some(b)) => Some(before.take(a) + text + before.skip(b)),
            _ => None,
        }
    }
}

fn find_unit(chars: &[char], units: usize) -> (r: Option<usize>)
    ensures
        match r {
            Some(i) => unit_index(chars@, units as int, 0) == Some(i as int) && i <= chars@.len(),
            None => unit_index(chars@, units as int, 0) is None,
        },
{
    let mut i: usize = 0;
    let mut seen: usize = 0;
    assert(chars@.take(0) =~= Seq::<char>::empty());
    while i < chars.len() && seen < units
        invariant
            i <= chars@.len(),
            seen == utf16_len(chars@.take(i as int)),
            seen <= units || i > 0,
            unit_index(chars@, units as int, 0) == unit_index(chars@, units as int, i as int),
        decreases chars@.len() - i,
    {
        let c: char = chars[i];
        let n: usize = char_utf16_len(c);
        proof {
            lemma_utf16_push(chars@.take(i as int), c);
            assert(chars@.take(i + 1) =~= chars@.take(i as int).push(c));
        }
        if seen > usize::MAX - n {
            proof {
                lemma_unit_index_past(chars@, units as int, i + 1);
            }
            return None;
        }
        seen = seen + n;
        i = i + 1;
    }
    if seen == units {
        return Some(i);
    }
    proof {
        if seen > units {
            lemma_unit_index_past(chars@, units as int, i as int);
        } else {
            assert(unit_index(chars@, units as int, i + 1) is None);
        }
    }
    None
}

proof fn lemma_unit_index_past(text: Seq<char>, units: int, i: int)
    requires
        0 <= i <= text.len(),
        utf16_len(text.take(i)) > units,
    ensures
        unit_index(text, units, i) is None,
    decreases text.len() - i,
{
    if i < text.len() {
        lemma_utf16_push(text.take(i), text[i]);
        assert(text.take(i + 1) =~= text.take(i).push(text[i]));
        lemma_unit_index_past(text, units, i + 1);
    } else {
        assert(unit_index(text, units, i + 1) is None);
    }
}

/// Replaces a selection that is given in UTF-16 units.
pub fn replace_utf16_selection(before: &str, location: isize, length: isize, text: &str) -> (r:
    Option<String>)
    ensures
        match r {
            Some(out) => replaced(before@, location as int, length as int, text@) == Some(out@),
            None => replaced(before@, location as int, length as int, text@) is None,
        },
{
    if location < 0 || length < 0 {
        return None;
    }
    let chars = chars_of(before);
    let start: usize = location as usize;
    let end: usize = start + length as usize;
    let a = match find_unit(chars.as_slice(), start) {
        Some(i) => i,
        None => {
            return None;
        },
    };
    let b = match find_unit(chars.as_slice(), end) {
        Some(i) => i,
        None => {
            return None;
        },
    };
    let mut out: Vec<char> = Vec::new();
    push_part(chars.as_slice(), 0, a, &mut out);
    let middle = chars_of(text);
    push_part(middle.as_slice(), 0, middle.len(), &mut out);
    push_part(chars.as_slice(), b, chars.len(), &mut out);
    assert(out@ =~= before@.take(a as int) + text@ + before@.skip(b as int));
    Some(string_of(out.as_slice()))
}

fn push_part(chars: &[char], from: usize, to: usize, out: &mut Vec<char>)
    requires
        from <= to <= chars@.len(),
    ensures
        final(out)@ == old(out)@ + chars@.subrange(from as int, to as int),
{
    let ghost base = out@;
    let mut i: usize = from;
    assert(base + chars@.subrange(from as int, from as int) =~= base);
    while i < to
        invariant
            from <= i <= to <= chars@.len(),
            out@ == base + chars@.subrange(from as int, i as int),
        decreases to - i,
    {
        out.push(chars[i]);
        assert(out@ =~= base + chars@.subrange(from as int, i + 1));
        i = i + 1;
    }
}

proof fn lemma_unit_index(text: Seq<char>, units: int, i: int)
    requires
        0 <= i,
    ensures
        unit_index(text, units, i) matches Some(k) ==> i <= k <= text.len() && utf16_len(
            text.take(k),
        ) == units,
    decreases text.len() + 1 - i,
{
    if i <= text.len() && utf16_len(text.take(i)) != units {
        lemma_unit_index(text, units, i + 1);
    }
}

/// A replacement loses nothing around the selection: what is before it, as many
/// units as its start says, stays in front, and what is behind it stays behind.
pub proof fn law_replacement_keeps_the_surroundings(
    before: Seq<char>,
    location: int,
    length: int,
    text: Seq<char>,
)
    requires
        replaced(before, location, length, text) is Some,
    ensures
        exists|a: int, b: int|
            #![trigger before.take(a), before.skip(b)]
            0 <= a <= before.len() && 0 <= b <= before.len() && utf16_len(before.take(a))
                == location && utf16_len(before.take(b)) == location + length && replaced(
                before,
                location,
                length,
                text,
            ) == Some(before.take(a) + text + before.skip(b)),
{
    lemma_unit_index(before, location, 0);
    lemma_unit_index(before, location + length, 0);
    let a = unit_index(before, location, 0)->0;
    let b = unit_index(before, location + length, 0)->0;
    assert(before.take(a) == before.take(a) && before.skip(b) == before.skip(b));
}

// ---------------------------------------------------------------------------
// Elements
// ---------------------------------------------------------------------------
/// What an element's text belongs to.
#[derive(Clone, Copy, Debug, PartialEq, Eq, Structural)]
pub enum TextSurface {
    Native,
    Web,
    Unknown,
}

/// The role of an element, as far as walks tell them apart.
#[derive(Clone, Copy, Debug, PartialEq, Eq, Structural)]
pub enum Role {
    WebArea,
    Window,
    Application,
    TextField,
    TextArea,
    ComboBox,
    Other,
}

/// The name of a role, where it has one.
pub open spec fn role_word(role: Role) -> Option<Seq<char>> {
    match role {
        Role::WebArea => Some("AXWebArea"@),
        Role::Window => Some("AXWindow"@),
        Role::Application => Some("AXApplication"@),
        Role::TextField => Some("AXTextField"@),
        Role::TextArea => Some("AXTextArea"@),
        Role::ComboBox => Some("AXComboBox"@),
        Role::Other => None,
    }
}

fn is_word(text: &[char], word: &str) -> (r: bool)
    ensures
        r == (text@ == word@),
{
    let chars = chars_of(word);
    same_chars(text, chars.as_slice())
}

impl Role {
    /// The role of a name.
    pub fn parse(name: &str) -> (role: Role)
        ensures
            role != Role::Other ==> role_word(role) == Some(name@),
            role == Role::Other ==> forall|other: Role| #[trigger]
                role_word(other) != Some(name@),
    {
        let chars = chars_of(name);
        let text: &[char] = chars.as_slice();
        if is_word(text, "AXWebArea") {
            Role::WebArea
        } else if is_word(text, "AXWindow") {
            Role::Window
        } else if is_word(text, "AXApplication") {
            Role::Application
        } else if is_word(text, "AXTextField") {
            Role::TextField
        } else if is_word(text, "AXTextArea") {
            Role::TextArea
        } else if is_word(text, "AXComboBox") {
            Role::ComboBox
        } else {
            Role::Other
        }
    }
}

/// What the text of an element belongs to, by the roles of it and its ancestors
/// from `i` on; a role that cannot be read is none.
pub open spec fn surface_from(roles: Seq<Option<Role>>, i: int) -> TextSurface
    decreases roles.len() - i,
{
    if i < 0 || i >= roles.len() || i >= MAX_ANCESTRY_DEPTH {
        TextSurface::Unknown
    } else {
        match roles[i] {
            None => TextSurface::Unknown,
            Some(Role::WebArea) => TextSurface::Web,
            Some(Role::Window) => TextSurface::Native,
            Some(Role::Application) => TextSurface::Native,
            Some(_) => surface_from(roles, i + 1),
        }
    }
}

/// What the text of an element belongs to.
pub fn text_surface(roles: &Vec<Option<Role>>) -> (s: TextSurface)
    ensures
        s == surface_from(roles@, 0),
{
    let mut i: usize = 0;
    while i < roles.len() && i < MAX_ANCESTRY_DEPTH
        invariant
            i <= roles@.len(),
            surface_from(roles@, 0) == surface_from(roles@, i as int),
        decreases roles@.len() - i,
    {
        match roles[i] {
            None => {
                return TextSurface::Unknown;
            },
            Some(Role::WebArea) => {
                return TextSurface::Web;
            },
            Some(Role::Window) => {
                return TextSurface::Native;
            },
            Some(Role::Application) => {
                return TextSurface::Native;
            },
            Some(_) => {},
        }
        i = i + 1;
    }
    TextSurface::Unknown
}

/// Which of an element and its ancestors, from `i` on, is its window.
pub open spec fn window_from(roles: Seq<Option<Role>>, i: int) -> Option<int>
    decreases roles.len() - i,
{
    if i < 0 || i >= roles.len() || i >= MAX_ANCESTRY_DEPTH {
        None
    } else {
        match roles[i] {
            Some(Role::Window) => Some(i),
            Some(Role::Application) => None,
            None => None,
            Some(_) => window_from(roles, i + 1),
        }
    }
}

/// Which of an element and its ancestors is its window.
pub fn element_window(roles: &Vec<Option<Role>>) -> (r: Option<usize>)
    ensures
        match r {
            Some(i) => window_from(roles@, 0) == Some(i as int),
            None => window_from(roles@, 0) is None,
        },
{
    let mut i: usize = 0;
    while i < roles.len() && i < MAX_ANCESTRY_DEPTH
        invariant
            i <= roles@.len(),
            window_from(roles@, 0) == window_from(roles@, i as int),
        decreases roles@.len() - i,
    {
        match roles[i] {
            None => {
                return None;
            },
            Some(Role::Window) => {
                return Some(i);
            },
            Some(Role::Application) => {
                return None;
            },
            Some(_) => {},
        }
        i = i + 1;
    }
    None
}

/// Whether text may be written into the focused element: it lies in the target
/// window, is a native text element, and its selection can be set.
pub fn takes_text(window: Option<u32>, wid: u32, surface: TextSurface, role: Option<Role>, settable: bool) -> (r:
    bool)
    ensures
        r == (window == Some(wid) && surface == TextSurface::Native && (role == Some(
            Role::TextField,
        ) || role == Some(Role::TextArea) || role == Some(Role::ComboBox)) && settable),
{
    let own = match window {
        Some(w) => w == wid,
        None => false,
    };
    let native = match surface {
        TextSurface::Native => true,
        _ => false,
    };
    let field = match role {
        Some(Role::TextField) => true,
        Some(Role::TextArea) => true,
        Some(Role::ComboBox) => true,
        _ => false,
    };
    own && native && field && settable
}

/// Why the value of an element is not written.
#[derive(Clone, Copy, Debug, PartialEq, Eq, Structural)]
pub enum TextRefusal {
    /// A terminal shows something else than it reads.
    Terminal,
    /// The write could not be verified.
    NotNative,
}

/// Whether the value of an element may be written.
pub fn native_text_target(terminal: bool, surface: TextSurface) -> (r: Result<(), TextRefusal>)
    ensures
        r == (if terminal {
            Err::<(), TextRefusal>(TextRefusal::Terminal)
        } else if surface != TextSurface::Native {
            Err(TextRefusal::NotNative)
        } else {
            Ok(())
        }),
{
    if terminal {
        return Err(TextRefusal::Terminal);
    }
    match surface {
        TextSurface::Native => Ok(()),
        _ => Err(TextRefusal::NotNative),
    }
}

/// What looking for the one match gives.
#[derive(Clone, Copy, Debug, PartialEq, Eq, Structural)]
pub enum Match {
    Only(usize),
    Missing,
    Several,
}

/// What the first `k` of a list of answers say of the one match.
pub open spec fn match_of(fits: Seq<bool>, k: int) -> Match
    decreases k,
{
    if k <= 0 {
        Match::Missing
    } else {
        let before = match_of(fits, k - 1);
        if !fits[k - 1] {
            before
        } else if before is Missing {
            Match::Only((k - 1) as usize)
        } else {
            Match::Several
        }
    }
}

/// The one window that fits by title and frame: two are as bad as none.
pub fn unique_match(fits: &Vec<bool>) -> (m: Match)
    ensures
        m == match_of(fits@, fits@.len() as int),
{
    let mut m: Match = Match::Missing;
    let mut i: usize = 0;
    while i < fits.len()
        invariant
            i <= fits@.len(),
            m == match_of(fits@, i as int),
        decreases fits@.len() - i,
    {
        if fits[i] {
            m = match m {
                Match::Missing => Match::Only(i),
                _ => Match::Several,
            };
        }
        i = i + 1;
    }
    m
}

/// The first place from `i` on that holds the number.
pub open spec fn id_at(ids: Seq<Option<u32>>, id: u32, i: int) -> Option<int>
    decreases ids.len() - i,
{
    if i < 0 || i >= ids.len() {
        None
    } else if ids[i] == Some(id) {
        Some(i)
    } else {
        id_at(ids, id, i + 1)
    }
}

/// The accessibility window of a native one. Where native numbers can be had,
/// the number decides alone; else the one that fits by title and frame, for a
/// window of the same title must not take a stale target's place.
pub fn window_root(expected: Option<u32>, ids: Option<&Vec<Option<u32>>>, fits: &Vec<bool>) -> (m: Match)
    ensures
        m == (match (expected, ids) {
            (Some(id), Some(list)) => match id_at(list@, id, 0) {
                Some(i) => Match::Only(i as usize),
                None => Match::Missing,
            },
            _ => match_of(fits@, fits@.len() as int),
        }),
{
    if let (Some(id), Some(list)) = (expected, ids) {
        let mut i: usize = 0;
        while i < list.len()
            invariant
                i <= list@.len(),
                expected == Some(id),
                ids == Some(list),
                id_at(list@, id, 0) == id_at(list@, id, i as int),
            decreases list@.len() - i,
        {
            if let Some(own) = list[i] {
                if own == id {
                    return Match::Only(i);
                }
            }
            i = i + 1;
        }
        return Match::Missing;
    }
    unique_match(fits)
}

/// The whole value that a text element has once text was written over its
/// selection, where that may be done: in the target window's focused native text
/// element, whose selection can be set and whose value and selection are known.
pub fn insertion(
    window: Option<u32>,
    wid: u32,
    surface: TextSurface,
    role: Option<Role>,
    settable: bool,
    before: Option<&str>,
    selection: Option<(isize, isize)>,
    text: &str,
) -> (expected: Option<String>)
    ensures
        ({
            let field = role == Some(Role::TextField) || role == Some(Role::TextArea) || role
                == Some(Role::ComboBox);
            let takes = window == Some(wid) && surface == TextSurface::Native && field && settable;
            let whole = match (before, selection) {
                (Some(value), Some((location, length))) => replaced(
                    value@,
                    location as int,
                    length as int,
                    text@,
                ),
                _ => None,
            };
            match expected {
                Some(value) => takes && whole == Some(value@),
                None => !takes || whole is None,
            }
        }),
{
    if !takes_text(window, wid, surface, role, settable) {
        return None;
    }
    match (before, selection) {
        (Some(value), Some((location, length))) => replace_utf16_selection(
            value,
            location,
            length,
            text,
        ),
        _ => None,
    }
}

/// A window as the desktop lists it.
pub struct ListedWindow {
    pub id: String,
    pub pid: Option<u32>,
}

/// The listed window is the one of the process.
pub open spec fn is_listed(w: ListedWindow, wid: u32, pid: i32) -> bool {
    number(w.id@, 10, u32::MAX as int) == Some(wid as int) && (w.pid matches Some(p) && p == pid)
}

/// The first listed window from `i` on that is the one of the process.
pub open spec fn listed_from(list: Seq<ListedWindow>, wid: u32, pid: i32, i: int) -> Option<int>
    decreases list.len() - i,
{
    if i < 0 || i >= list.len() {
        None
    } else if is_listed(list[i], wid, pid) {
        Some(i)
    } else {
        listed_from(list, wid, pid, i + 1)
    }
}

/// The listed window of a number and a process.
pub fn window_id(list: &Vec<ListedWindow>, wid: u32, pid: i32) -> (r: Option<usize>)
    ensures
        match r {
            Some(i) => listed_from(list@, wid, pid, 0) == Some(i as int),
            None => listed_from(list@, wid, pid, 0) is None,
        },
{
    let mut i: usize = 0;
    while i < list.len()
        invariant
            i <= list@.len(),
            listed_from(list@, wid, pid, 0) == listed_from(list@, wid, pid, i as int),
        decreases list@.len() - i,
    {
        let chars = chars_of(list[i].id.as_str());
        let owned = match list[i].pid {
            Some(p) => pid >= 0 && p == pid as u32,
            None => false,
        };
        match parse(chars.as_slice(), 10, u32::MAX as u64) {
            Some(v) => {
                if v == wid as u64 && owned {
                    return Some(i);
                }
            },
            None => {},
        }
        i = i + 1;
    }
    None
}

// ---------------------------------------------------------------------------
// Names
// ---------------------------------------------------------------------------
/// The native name of an action: some have short names, and the others get their
/// prefix where they lack it.
pub open spec fn native_action(action: Seq<char>) -> Seq<char> {
    let word = ascii_lower_all(trimmed(action));
    if word == "press"@ {
        "AXPress"@
    } else if word == "raise"@ {
        "AXRaise"@
    } else if word == "showmenu"@ || word == "show_menu"@ {
        "AXShowMenu"@
    } else if stands_at(action, "AX"@, 0) {
        action
    } else {
        "AX"@ + action
    }
}

/// The native name of an action.
pub fn action_name(action: &str) -> (name: String)
    ensures
        name@ == native_action(action@),
{
    let chars = chars_of(action);
    let cut = trim(chars.as_slice());
    let lower = lower_chars(cut.as_slice());
    let word: &[char] = lower.as_slice();
    if is_word(word, "press") {
        let name = chars_of("AXPress");
        return string_of(name.as_slice());
    }
    if is_word(word, "raise") {
        let name = chars_of("AXRaise");
        return string_of(name.as_slice());
    }
    if is_word(word, "showmenu") || is_word(word, "show_menu") {
        let name = chars_of("AXShowMenu");
        return string_of(name.as_slice());
    }
    let mut prefix = chars_of("AX");
    if is_at(chars.as_slice(), prefix.as_slice(), 0) {
        return string_of(chars.as_slice());
    }
    push_part(chars.as_slice(), 0, chars.len(), &mut prefix);
    assert(prefix@ =~= "AX"@ + action@);
    string_of(prefix.as_slice())
}

/// A text that is there and not empty.
pub fn nonempty(value: Option<String>) -> (r: Option<String>)
    ensures
        match value {
            Some(text) => if text@.len() > 0 {
                r == Some(text)
            } else {
                r is None
            },
            None => r is None,
        },
{
    match value {
        Some(text) => {
            let chars = chars_of(text.as_str());
            if chars.len() > 0 {
                Some(text)
            } else {
                None
            }
        },
        None => None,
    }
}

/// A text of at most so many characters: a longer one loses its end to an
/// ellipsis.
pub open spec fn cut_to(text: Seq<char>, max: int) -> Seq<char> {
    if text.len() <= max {
        text
    } else if max > 0 {
        text.take(max - 1).push('\u{2026}')
    } else {
        seq!['\u{2026}']
    }
}

/// Cuts a text to so many characters.
pub fn truncate_chars(value: &str, max: usize) -> (out: String)
    ensures
        out@ == cut_to(value@, max as int),
{
    let chars = chars_of(value);
    if chars.len() <= max {
        return string_of(chars.as_slice());
    }
    let keep: usize = if max > 0 {
        max - 1
    } else {
        0
    };
    let mut out: Vec<char> = Vec::new();
    push_part(chars.as_slice(), 0, keep, &mut out);
    out.push('\u{2026}');
    assert(out@ =~= cut_to(value@, max as int));
    string_of(out.as_slice())
}

/// The window that takes an application's keys: the focused one where its id
/// is known, else the main one.
pub fn key_window_id(focused: Option<u32>, main: Option<u32>) -> (r: Option<u32>)
    ensures
        r == (if focused is Some {
            focused
        } else {
            main
        }),
{
    if focused.is_some() {
        focused
    } else {
        main
    }
}

/// What an attribute is shown as: its text, cut to 200 characters.
pub open spec fn shown_value(value: Option<String>) -> Seq<char> {
    match value {
        Some(text) => cut_to(text@, 200),
        None => cut_to("<no value>"@, 200),
    }
}

/// The attributes of an element as they are shown, each with its name and in the
/// element's order. An attribute without a value says so.
pub fn attributes(read: &Vec<(String, Option<String>)>) -> (out: Vec<(String, String)>)
    ensures
        out@.len() == read@.len(),
        forall|i: int|
            0 <= i < read@.len() ==> (#[trigger] out@[i]).0@ == read@[i].0@ && out@[i].1@ == shown_value(
                read@[i].1,
            ),
{
    let mut out: Vec<(String, String)> = Vec::new();
    let mut i: usize = 0;
    while i < read.len()
        invariant
            i <= read@.len(),
            out@.len() == i,
            forall|k: int|
                0 <= k < i ==> (#[trigger] out@[k]).0@ == read@[k].0@ && out@[k].1@ == shown_value(
                    read@[k].1,
                ),
        decreases read@.len() - i,
    {
        let name = chars_of(read[i].0.as_str());
        let value = match &read[i].1 {
            Some(text) => truncate_chars(text.as_str(), 200),
            None => truncate_chars("<no value>", 200),
        };
        out.push((string_of(name.as_slice()), value));
        i = i + 1;
    }
    out
}

/// How an action is performed.
#[derive(Clone, Copy, Debug, PartialEq, Eq, Structural)]
pub enum Performing {
    /// The element does not have it.
    Unsupported,
    /// As it is: raising a window is meant to change the stacking.
    Plain,
    /// With the user's focus guarded.
    Guarded,
}

/// How an action is performed on an element that offers `actions`.
pub fn perform(action: &str, actions: &Vec<String>) -> (r: (String, Performing))
    ensures
        r.0@ == native_action(action@),
        r.1 == (if !(exists|i: int| 0 <= i < actions@.len() && (#[trigger] actions@[i])@ == r.0@) {
            Performing::Unsupported
        } else if r.0@ == "AXRaise"@ {
            Performing::Plain
        } else {
            Performing::Guarded
        }),
{
    let native = action_name(action);
    let mut i: usize = 0;
    while i < actions.len()
        invariant
            i <= actions@.len(),
            native@ == native_action(action@),
            forall|k: int| 0 <= k < i ==> (#[trigger] actions@[k])@ != native@,
        decreases actions@.len() - i,
    {
        if same_text(actions[i].as_str(), native.as_str()) {
            assert(actions@[i as int]@ == native@);
            let raise = same_text(native.as_str(), "AXRaise");
            return (
                native,
                if raise {
                    Performing::Plain
                } else {
                    Performing::Guarded
                },
            );
        }
        i = i + 1;
    }
    (native, Performing::Unsupported)
}

} // verus!
