//! What class names, mapped libraries, command lines and the environment tell of
//! how a window takes input.

use vstd::prelude::*;

use super::mpx::version_suffices;
use crate::strings::{
    contains, contains_text, eq_ignore_ascii_case, number, parse, part_views, parts,
    same_but_ascii_case, split, trim, trimmed, words, words_from,
};
use crate::unicode::{ascii_lower_all, chars_of, lower_chars, same_chars, string_of};

verus! {

fn has(text: &[char], part: &str) -> (r: bool)
    ensures
        r == contains_text(text@, part@),
{
    let chars = chars_of(part);
    contains(text, chars.as_slice())
}

fn is_text(text: &[char], other: &str) -> (r: bool)
    ensures
        r == (text@ == other@),
{
    let chars = chars_of(other);
    same_chars(text, chars.as_slice())
}

/// The class of a client that is known to discard synthetic events.
pub open spec fn dropping_class(class: Seq<char>) -> bool {
    let lower = ascii_lower_all(class);
    ||| contains_text(lower, "gtk"@)
    ||| contains_text(lower, "gdk"@)
    ||| contains_text(lower, "qt"@)
    ||| contains_text(lower, "chrome"@)
    ||| contains_text(lower, "chromium"@)
    ||| contains_text(lower, "firefox"@)
    ||| contains_text(lower, "mozilla"@)
    ||| contains_text(lower, "xterm"@)
}

/// Whether the class is of a client that is known to discard synthetic events.
pub fn class_drops_synthetic(wm_class: &str) -> (r: bool)
    ensures
        r == dropping_class(wm_class@),
{
    let chars = chars_of(wm_class);
    let lower = lower_chars(chars.as_slice());
    let text: &[char] = lower.as_slice();
    has(text, "gtk")
        || has(text, "gdk")
        || has(text, "qt")
        || has(text, "chrome")
        || has(text, "chromium")
        || has(text, "firefox")
        || has(text, "mozilla")
        || has(text, "xterm")
}

/// A library of a toolkit that discards synthetic events is mapped.
pub open spec fn dropping_maps(maps: Seq<char>) -> bool {
    ||| contains_text(maps, "libgtk-3.so"@)
    ||| contains_text(maps, "libgtk-4.so"@)
    ||| contains_text(maps, "libvcl"@)
    ||| contains_text(maps, "libmergedlo"@)
    ||| contains_text(maps, "libQt5Gui"@)
    ||| contains_text(maps, "libQt6Gui"@)
    ||| contains_text(maps, "libxul.so"@)
    ||| contains_text(maps, "libcef.so"@)
}

/// Whether a library of a toolkit that discards synthetic events is mapped.
pub fn maps_drop_synthetic(maps: &str) -> (r: bool)
    ensures
        r == dropping_maps(maps@),
{
    let chars = chars_of(maps);
    let text: &[char] = chars.as_slice();
    has(text, "libgtk-3.so")
        || has(text, "libgtk-4.so")
        || has(text, "libvcl")
        || has(text, "libmergedlo")
        || has(text, "libQt5Gui")
        || has(text, "libQt6Gui")
        || has(text, "libxul.so")
        || has(text, "libcef.so")
}

/// One part of a class that is of a client without the newer input extension.
pub open spec fn core_part(part: Seq<char>) -> bool {
    ||| part == "xterm"@
    ||| part == "uxterm"@
    ||| part == "rxvt"@
    ||| part == "urxvt"@
    ||| part == "xev"@
    ||| part == "tk"@
}

/// A library of a toolkit without the newer input extension is mapped.
pub open spec fn core_maps(maps: Seq<char>) -> bool {
    ||| contains_text(maps, "/libtk8"@)
    ||| contains_text(maps, "/libtk9"@)
    ||| contains_text(maps, "/libXm.so"@)
}

/// The client takes core events only.
pub open spec fn needs_core(class: Seq<char>, maps: Option<Seq<char>>) -> bool {
    let list = parts(ascii_lower_all(class), seq!['\0']);
    ||| exists|i: int| 0 <= i < list.len() && core_part(#[trigger] list[i])
    ||| maps matches Some(text) && core_maps(text)
}

/// Whether the client takes core events only, by its class and, where they can be
/// read, by its process's mapped libraries.
pub fn requires_core_events(wm_class: &str, maps: Option<&str>) -> (r: bool)
    ensures
        r == needs_core(
            wm_class@,
            match maps {
                Some(text) => Some(text@),
                None => None,
            },
        ),
{
    let chars = chars_of(wm_class);
    let lower = lower_chars(chars.as_slice());
    let mut seps: Vec<char> = Vec::new();
    seps.push('\0');
    assert(seps@ =~= seq!['\0']);
    let list = split(lower.as_slice(), seps.as_slice());
    let ghost views = parts(ascii_lower_all(wm_class@), seq!['\0']);
    let mut i: usize = 0;
    while i < list.len()
        invariant
            part_views(list@) == views,
            views == parts(ascii_lower_all(wm_class@), seq!['\0']),
            i <= list@.len(),
            forall|k: int| 0 <= k < i ==> !core_part(#[trigger] views[k]),
        decreases list@.len() - i,
    {
        let part: &[char] = list[i].as_slice();
        assert(views[i as int] == part@);
        if is_text(part, "xterm")
            || is_text(part, "uxterm")
            || is_text(part, "rxvt")
            || is_text(part, "urxvt")
            || is_text(part, "xev")
            || is_text(part, "tk") {
            return true;
        }
        i = i + 1;
    }
    match maps {
        Some(text) => {
            let chars = chars_of(text);
            let all: &[char] = chars.as_slice();
            has(all, "/libtk8")
                || has(all, "/libtk9")
                || has(all, "/libXm.so")
        },
        None => false,
    }
}

/// The switch of a browser's helper processes.
pub open spec fn helper_switch() -> Seq<u8> {
    seq![45u8, 45u8, 116u8, 121u8, 112u8, 101u8, 61u8]
}

/// An argument that begins with the switch begins at `i`; arguments end with a
/// zero byte.
pub open spec fn switch_at(raw: Seq<u8>, i: int) -> bool {
    0 <= i && i + 7 <= raw.len() && (i == 0 || raw[i - 1] == 0) && raw.subrange(i, i + 7)
        == helper_switch()
}

/// A command line of a browser's helper process.
pub open spec fn helper_cmdline(raw: Seq<u8>) -> bool {
    exists|i: int| switch_at(raw, i)
}

/// Whether some argument of a raw command line begins with `--type=`.
pub fn cmdline_is_chromium_helper(raw: &Vec<u8>) -> (r: bool)
    ensures
        r == helper_cmdline(raw@),
{
    let n: usize = raw.len();
    let mut i: usize = 0;
    while i < n && n - i >= 7
        invariant
            n == raw@.len(),
            i <= n,
            forall|k: int| 0 <= k < i ==> !switch_at(raw@, k),
        decreases n - i,
    {
        if (i == 0 || raw[i - 1] == 0) && raw[i] == 45 && raw[i + 1] == 45 && raw[i + 2] == 116
            && raw[i + 3] == 121 && raw[i + 4] == 112 && raw[i + 5] == 101 && raw[i + 6] == 61 {
            assert(raw@.subrange(i as int, i + 7) =~= helper_switch());
            assert(switch_at(raw@, i as int));
            return true;
        }
        proof {
            if switch_at(raw@, i as int) {
                let part = raw@.subrange(i as int, i + 7);
                assert(part[0] == raw@[i as int] && part[1] == raw@[i + 1] && part[2] == raw@[i + 2]
                    && part[3] == raw@[i + 3] && part[4] == raw@[i + 4] && part[5] == raw@[i + 5]
                    && part[6] == raw@[i + 6]);
            }
        }
        i = i + 1;
    }
    false
}

/// The process numbers among the first `k` words.
pub open spec fn pids_of(list: Seq<Seq<char>>, k: int) -> Seq<u32>
    decreases k,
{
    if k <= 0 {
        Seq::empty()
    } else {
        match number(list[k - 1], 10, u32::MAX as int) {
            Some(pid) => pids_of(list, k - 1).push(pid as u32),
            None => pids_of(list, k - 1),
        }
    }
}

/// The process numbers in a list of children.
pub fn child_pids(children: &str) -> (out: Vec<u32>)
    ensures
        ({
            let list = words_from(children@, 0);
            out@ == pids_of(list, list.len() as int)
        }),
{
    let chars = chars_of(children);
    let list = words(chars.as_slice());
    let ghost views = words_from(children@, 0);
    let mut out: Vec<u32> = Vec::new();
    let mut i: usize = 0;
    while i < list.len()
        invariant
            part_views(list@) == views,
            i <= list@.len(),
            out@ == pids_of(views, i as int),
        decreases list@.len() - i,
    {
        assert(views[i as int] == list@[i as int]@);
        match parse(list[i].as_slice(), 10, u32::MAX as u64) {
            Some(pid) => {
                out.push(pid as u32);
            },
            None => {},
        }
        i = i + 1;
    }
    out
}

/// Whether a process runs a toolkit that discards synthetic events: by its mapped
/// libraries, or because it or one of its children is a browser's helper.
pub fn process_drops_synthetic(maps: Option<&str>, cmdlines: &Vec<Vec<u8>>) -> (r: bool)
    ensures
        r == ((maps matches Some(text) && dropping_maps(text@)) || exists|i: int|
            0 <= i < cmdlines@.len() && helper_cmdline(#[trigger] cmdlines@[i]@)),
{
    match maps {
        Some(text) => {
            if maps_drop_synthetic(text) {
                return true;
            }
        },
        None => {},
    }
    let mut i: usize = 0;
    while i < cmdlines.len()
        invariant
            i <= cmdlines@.len(),
            forall|k: int| 0 <= k < i ==> !helper_cmdline(#[trigger] cmdlines@[k]@),
        decreases cmdlines@.len() - i,
    {
        if cmdline_is_chromium_helper(&cmdlines[i]) {
            return true;
        }
        i = i + 1;
    }
    false
}

// ---------------------------------------------------------------------------
// The session
// ---------------------------------------------------------------------------
/// The view of an optional text.
pub open spec fn text_of(value: Option<&str>) -> Option<Seq<char>> {
    match value {
        Some(text) => Some(text@),
        None => None,
    }
}

/// The value is there and is more than blanks.
pub open spec fn filled(value: Option<Seq<char>>) -> bool {
    value matches Some(text) && trimmed(text).len() > 0
}

/// The value is there and is the word, in any ASCII case.
pub open spec fn says(value: Option<Seq<char>>, word: Seq<char>) -> bool {
    value matches Some(text) && same_but_ascii_case(text, word)
}

/// The word is KDE or Plasma.
pub open spec fn kde_word(word: Seq<char>) -> bool {
    same_but_ascii_case(trimmed(word), "kde"@) || same_but_ascii_case(trimmed(word), "plasma"@)
}

/// The text lists KDE or Plasma.
pub open spec fn text_names_kde(text: Seq<char>) -> bool {
    let list = parts(text, seq![':', ';', ',']);
    exists|i: int| 0 <= i < list.len() && kde_word(#[trigger] list[i])
}

/// The value lists KDE or Plasma.
pub open spec fn names_kde(value: Option<Seq<char>>) -> bool {
    value matches Some(text) && text_names_kde(text)
}

/// The value says that a full KDE session runs.
pub open spec fn full_kde(value: Option<Seq<char>>) -> bool {
    value matches Some(text) && {
        let word = ascii_lower_all(trimmed(text));
        word == "1"@ || word == "true"@ || word == "yes"@
    }
}

fn is_filled(value: Option<&str>) -> (r: bool)
    ensures
        r == filled(text_of(value)),
{
    match value {
        Some(text) => {
            let chars = chars_of(text);
            trim(chars.as_slice()).len() > 0
        },
        None => false,
    }
}

fn is_word(value: Option<&str>, word: &str) -> (r: bool)
    ensures
        r == says(text_of(value), word@),
{
    match value {
        Some(text) => {
            let chars = chars_of(text);
            let other = chars_of(word);
            eq_ignore_ascii_case(chars.as_slice(), other.as_slice())
        },
        None => false,
    }
}

fn kde_in(text: &str) -> (r: bool)
    ensures
        r == text_names_kde(text@),
{
    let chars = chars_of(text);
    let mut seps: Vec<char> = Vec::new();
    seps.push(':');
    seps.push(';');
    seps.push(',');
    assert(seps@ =~= seq![':', ';', ',']);
    let list = split(chars.as_slice(), seps.as_slice());
    let ghost views = parts(text@, seq![':', ';', ',']);
    let kde = chars_of("kde");
    let plasma = chars_of("plasma");
    let mut i: usize = 0;
    while i < list.len()
        invariant
            part_views(list@) == views,
            views == parts(text@, seq![':', ';', ',']),
            kde@ == "kde"@,
            plasma@ == "plasma"@,
            i <= list@.len(),
            forall|k: int| 0 <= k < i ==> !kde_word(#[trigger] views[k]),
        decreases list@.len() - i,
    {
        assert(views[i as int] == list@[i as int]@);
        let word = trim(list[i].as_slice());
        if eq_ignore_ascii_case(word.as_slice(), kde.as_slice()) || eq_ignore_ascii_case(
            word.as_slice(),
            plasma.as_slice(),
        ) {
            assert(kde_word(views[i as int]));
            return true;
        }
        i = i + 1;
    }
    false
}

fn lists_kde(value: Option<&str>) -> (r: bool)
    ensures
        r == names_kde(text_of(value)),
{
    match value {
        Some(text) => kde_in(text),
        None => false,
    }
}

fn is_full_kde(value: Option<&str>) -> (r: bool)
    ensures
        r == full_kde(text_of(value)),
{
    match value {
        Some(text) => {
            let chars = chars_of(text);
            let cut = trim(chars.as_slice());
            let lower = lower_chars(cut.as_slice());
            let word: &[char] = lower.as_slice();
            is_text(word, "1") || is_text(word, "true") || is_text(word, "yes")
        },
        None => false,
    }
}

/// The session is KDE's on X11: an explicit session type wins over the displays.
pub open spec fn kde_on_x11(
    session_type: Option<Seq<char>>,
    kde: bool,
    display: Option<Seq<char>>,
    wayland_display: Option<Seq<char>>,
) -> bool {
    let x11 = says(session_type, "x11"@);
    if says(session_type, "wayland"@) || (!x11 && filled(wayland_display)) {
        false
    } else {
        (x11 || filled(display)) && kde
    }
}

/// Whether plugging in a kernel input device can bring the session down, as it
/// can on KDE Plasma under X11.
pub fn kde_x11_uinput_hotplug_is_unsafe(
    session_type: Option<&str>,
    desktops: [Option<&str>; 3],
    kde_full_session: Option<&str>,
    display: Option<&str>,
    wayland_display: Option<&str>,
) -> (r: bool)
    ensures
        r == kde_on_x11(
            text_of(session_type),
            names_kde(text_of(desktops@[0])) || names_kde(text_of(desktops@[1])) || names_kde(
                text_of(desktops@[2]),
            ) || full_kde(text_of(kde_full_session)),
            text_of(display),
            text_of(wayland_display),
        ),
{
    let x11 = is_word(session_type, "x11");
    let wayland = is_word(session_type, "wayland");
    if wayland || (!x11 && is_filled(wayland_display)) {
        return false;
    }
    let kde = lists_kde(desktops[0]) || lists_kde(desktops[1]) || lists_kde(desktops[2])
        || is_full_kde(kde_full_session);
    (x11 || is_filled(display)) && kde
}

// ---------------------------------------------------------------------------
// The server
// ---------------------------------------------------------------------------
/// Behind the last colon of the first `k` characters.
pub open spec fn after_colon(text: Seq<char>, k: int) -> int
    decreases k,
{
    if k <= 0 {
        0
    } else if text[k - 1] == ':' {
        k
    } else {
        after_colon(text, k - 1)
    }
}

/// The number of a display: between the last colon and the next dot.
pub open spec fn number_of_display(display: Seq<char>) -> Option<Seq<char>> {
    let rest = display.skip(after_colon(display, display.len() as int));
    let word = trimmed(parts(rest, seq!['.'])[0]);
    if word.len() == 0 {
        None
    } else {
        Some(word)
    }
}

/// The number of a display, as text.
pub fn display_number(display: &str) -> (r: Option<String>)
    ensures
        match r {
            Some(text) => number_of_display(display@) == Some(text@),
            None => number_of_display(display@) is None,
        },
{
    let chars = chars_of(display);
    let mut k: usize = chars.len();
    while k > 0 && chars[k - 1] != ':'
        invariant
            chars@ == display@,
            k <= chars@.len(),
            after_colon(display@, display@.len() as int) == after_colon(display@, k as int),
        decreases k,
    {
        k = k - 1;
    }
    let rest: &[char] = &chars[k..chars.len()];
    assert(rest@ =~= display@.skip(k as int));
    let mut seps: Vec<char> = Vec::new();
    seps.push('.');
    assert(seps@ =~= seq!['.']);
    let list = split(rest, seps.as_slice());
    proof {
        assert(parts(rest@, seq!['.']).len() > 0);
        assert(part_views(list@)[0] == list@[0]@);
    }
    let word = trim(list[0].as_slice());
    if word.len() == 0 {
        None
    } else {
        Some(string_of(word.as_slice()))
    }
}

/// The process number in a lock file.
pub fn lock_pid(lock: &str) -> (pid: Option<u32>)
    ensures
        match pid {
            Some(p) => number(trimmed(lock@), 10, u32::MAX as int) == Some(p as int),
            None => number(trimmed(lock@), 10, u32::MAX as int) is None,
        },
{
    let chars = chars_of(lock);
    let word = trim(chars.as_slice());
    match parse(word.as_slice(), 10, u32::MAX as u64) {
        Some(p) => Some(p as u32),
        None => None,
    }
}

/// Why the virtual pair cannot be used at all.
#[derive(Clone, Copy, Debug, PartialEq, Eq, Structural)]
pub enum ProbeRefusal {
    /// Plugging in a device can crash the session.
    KdeSession,
    /// The kernel's input device cannot be written.
    NotWritable,
    /// The server never turns a kernel device into one of its own.
    Server,
    /// The server's vendor is one of those.
    Vendor,
    /// The input extension is missing or too old.
    OldExtension,
}

/// The server never turns a kernel device into one of its own.
pub open spec fn static_server(name: Seq<char>) -> bool {
    name == "Xvfb"@ || name == "Xtigervnc"@ || name == "Xvnc"@
}

/// What speaks against the virtual pair, in this order.
pub open spec fn probe_result(
    kde: bool,
    writable: bool,
    server: Option<Seq<char>>,
    vendor: Seq<char>,
    version: Option<(u16, u16)>,
) -> Result<(), ProbeRefusal> {
    if kde {
        Err(ProbeRefusal::KdeSession)
    } else if !writable {
        Err(ProbeRefusal::NotWritable)
    } else if server matches Some(name) && static_server(name) {
        Err(ProbeRefusal::Server)
    } else if contains_text(ascii_lower_all(vendor), "tigervnc"@) {
        Err(ProbeRefusal::Vendor)
    } else if version matches Some(v) && (v.0 > 2 || (v.0 == 2 && v.1 >= 2)) {
        Ok(())
    } else {
        Err(ProbeRefusal::OldExtension)
    }
}

/// Whether the virtual pair can work on this host, before any device is created.
pub fn mpx_probe(
    kde: bool,
    writable: bool,
    server: Option<&str>,
    vendor: &str,
    version: Option<(u16, u16)>,
) -> (r: Result<(), ProbeRefusal>)
    ensures
        r == probe_result(kde, writable, text_of(server), vendor@, version),
{
    if kde {
        return Err(ProbeRefusal::KdeSession);
    }
    if !writable {
        return Err(ProbeRefusal::NotWritable);
    }
    match server {
        Some(name) => {
            let chars = chars_of(name);
            let text: &[char] = chars.as_slice();
            if is_text(text, "Xvfb") || is_text(text, "Xtigervnc") || is_text(text, "Xvnc") {
                return Err(ProbeRefusal::Server);
            }
        },
        None => {},
    }
    let chars = chars_of(vendor);
    let lower = lower_chars(chars.as_slice());
    if has(lower.as_slice(), "tigervnc") {
        return Err(ProbeRefusal::Vendor);
    }
    match version {
        Some((major, minor)) => if version_suffices(major, minor) {
            Ok(())
        } else {
            Err(ProbeRefusal::OldExtension)
        },
        None => Err(ProbeRefusal::OldExtension),
    }
}

} // verus!
