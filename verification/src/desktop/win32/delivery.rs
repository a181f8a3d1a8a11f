//! Which posted events a toolkit takes, and how text and clicks are posted.

use vstd::prelude::*;

use crate::strings::{is_at, stands_at};
use crate::unicode::{chars_of, same_chars};

verus! {

/// A kind of posted event.
#[derive(Clone, Copy, Debug, PartialEq, Eq, Structural)]
pub enum EventKind {
    MouseClick,
    MouseMove,
    MouseScroll,
    Keystroke,
    KeyCombo,
    TextInput,
}

impl EventKind {
    /// The name of the kind.
    pub open spec fn word(self) -> Seq<char> {
        match self {
            EventKind::MouseClick => "mouse_click"@,
            EventKind::MouseMove => "mouse_move"@,
            EventKind::MouseScroll => "mouse_scroll"@,
            EventKind::Keystroke => "keystroke"@,
            EventKind::KeyCombo => "key_combo"@,
            EventKind::TextInput => "text_input"@,
        }
    }

    /// The name of the kind.
    pub fn name(self) -> (name: &'static str)
        ensures
            name@ == self.word(),
    {
        match self {
            EventKind::MouseClick => "mouse_click",
            EventKind::MouseMove => "mouse_move",
            EventKind::MouseScroll => "mouse_scroll",
            EventKind::Keystroke => "keystroke",
            EventKind::KeyCombo => "key_combo",
            EventKind::TextInput => "text_input",
        }
    }
}

/// What decides whether posted input reaches the toolkit of a window.
#[derive(Clone, Copy, Debug)]
pub struct TargetTraits<'a> {
    /// The class of the top-level window.
    pub class: &'a str,
    /// A browser's renderer lives in a window below it.
    pub chromium_descendant: bool,
    /// The top-level window owns the foreground.
    pub foreground: bool,
    /// The window renders content that reads the keyboard from the system's input
    /// queue only.
    pub xaml_host: bool,
}

fn begins(class: &str, prefix: &str) -> (r: bool)
    ensures
        r == stands_at(class@, prefix@, 0),
{
    let text = chars_of(class);
    let part = chars_of(prefix);
    is_at(text.as_slice(), part.as_slice(), 0)
}

fn is_exactly(class: &str, other: &str) -> (r: bool)
    ensures
        r == (class@ == other@),
{
    let text = chars_of(class);
    let part = chars_of(other);
    same_chars(text.as_slice(), part.as_slice())
}

fn extends(class: &str, prefix: &str) -> (r: bool)
    ensures
        r == longer_than(class@, prefix@),
{
    let text = chars_of(class);
    let part = chars_of(prefix);
    is_at(text.as_slice(), part.as_slice(), 0) && text.len() > part.len()
}

/// The class begins with the prefix and goes on behind it.
pub open spec fn longer_than(class: Seq<char>, prefix: Seq<char>) -> bool {
    stands_at(class, prefix, 0) && class.len() > prefix.len()
}

/// A class of Chromium.
pub open spec fn chromium_class(class: Seq<char>) -> bool {
    longer_than(class, "Chrome_WidgetWin_"@) || stands_at(class, "CefBrowser"@, 0) || class
        == "Chrome_RenderWidgetHostHWND"@
}

/// Whether the class is one of Chromium.
pub fn is_chromium_class(class: &str) -> (r: bool)
    ensures
        r == chromium_class(class@),
{
    extends(class, "Chrome_WidgetWin_") || begins(class, "CefBrowser") || is_exactly(
        class,
        "Chrome_RenderWidgetHostHWND",
    )
}

/// The class of WinUI 3 frames.
pub open spec fn winui3_class(class: Seq<char>) -> bool {
    class == "WinUIDesktopWin32WindowClass"@
}

/// Whether the class is that of WinUI 3 frames.
pub fn is_winui3_class(class: &str) -> (r: bool)
    ensures
        r == winui3_class(class@),
{
    is_exactly(class, "WinUIDesktopWin32WindowClass")
}

/// A class of UWP frames.
pub open spec fn uwp_frame_class(class: Seq<char>) -> bool {
    class == "ApplicationFrameWindow"@ || class == "Windows.UI.Core.CoreWindow"@
}

/// Whether the class is one of UWP frames.
pub fn is_uwp_frame_class(class: &str) -> (r: bool)
    ensures
        r == uwp_frame_class(class@),
{
    is_exactly(class, "ApplicationFrameWindow") || is_exactly(class, "Windows.UI.Core.CoreWindow")
}

/// A class of terminals and of editors that read like them.
pub open spec fn terminal_class(class: Seq<char>) -> bool {
    ||| stands_at(class, "CASCADIA_HOSTING_WINDOW_CLASS"@, 0)
    ||| stands_at(class, "ConsoleWindowClass"@, 0)
    ||| stands_at(class, "mintty"@, 0)
    ||| stands_at(class, "nvim"@, 0)
    ||| stands_at(class, "Vim"@, 0)
}

/// Whether the class is one of terminals and of editors that read like them.
pub fn is_terminal_class(class: &str) -> (r: bool)
    ensures
        r == terminal_class(class@),
{
    begins(class, "CASCADIA_HOSTING_WINDOW_CLASS") || begins(class, "ConsoleWindowClass") || begins(
        class,
        "mintty",
    ) || begins(class, "nvim") || begins(class, "Vim")
}

/// A class of WPF: something in square brackets behind a fixed word.
pub open spec fn wpf_class(class: Seq<char>) -> bool {
    longer_than(class, "HwndWrapper["@) && class.last() == ']'
}

/// Whether the class is one of WPF.
pub fn is_wpf_class(class: &str) -> (r: bool)
    ensures
        r == wpf_class(class@),
{
    if !extends(class, "HwndWrapper[") {
        return false;
    }
    let text = chars_of(class);
    text[text.len() - 1] == ']'
}

/// A class of Tk.
pub open spec fn tk_class(class: Seq<char>) -> bool {
    class == "TkTopLevel"@ || longer_than(class, "TkTopLevel."@)
}

/// Whether the class is one of Tk.
pub fn is_tk_class(class: &str) -> (r: bool)
    ensures
        r == tk_class(class@),
{
    is_exactly(class, "TkTopLevel") || extends(class, "TkTopLevel.")
}

/// A class of GTK.
pub open spec fn gtk_class(class: Seq<char>) -> bool {
    longer_than(class, "gdkWindow"@) || longer_than(class, "gdkSurface"@)
}

/// Whether the class is one of GTK.
pub fn is_gtk_class(class: &str) -> (r: bool)
    ensures
        r == gtk_class(class@),
{
    extends(class, "gdkWindow") || extends(class, "gdkSurface")
}

/// A class of VCL.
pub open spec fn vcl_class(class: Seq<char>) -> bool {
    longer_than(class, "SAL"@)
}

/// Whether the class is one of VCL.
pub fn is_vcl_class(class: &str) -> (r: bool)
    ensures
        r == vcl_class(class@),
{
    extends(class, "SAL")
}

/// Why a posted event would be taken by the system and ignored by the toolkit;
/// the first reason that holds.
pub open spec fn drop_reason(target: TargetTraits<'_>, kind: EventKind) -> Option<Seq<char>> {
    let c = target.class@;
    if chromium_class(c) {
        Some("Chromium requires input originating from the system input queue"@)
    } else if target.chromium_descendant && (kind is MouseMove || kind is MouseScroll || kind is KeyCombo) {
        Some("its embedded Chromium renderer takes drags, wheel, and modifier chords only from the system input queue"@)
    } else if target.xaml_host && (kind is Keystroke || kind is KeyCombo || kind is TextInput) {
        Some("XAML hosts read keyboard input only from the system input queue"@)
    } else if uwp_frame_class(c) && (kind is MouseClick || kind is MouseMove) {
        Some("UWP content reads pointer input only from the system input queue"@)
    } else if winui3_class(c) && (kind is MouseClick || kind is MouseMove || kind is MouseScroll) {
        Some("WinUI3 hosts pointer input in a content island rather than the frame HWND"@)
    } else if wpf_class(c) && (kind is MouseClick || kind is MouseMove || kind is TextInput || (!target.foreground && (kind is Keystroke || kind is KeyCombo))) {
        Some("WPF ignores posted pointer and text input, and posted keys unless it owns the foreground"@)
    } else if tk_class(c) && (kind is MouseClick || kind is Keystroke || kind is KeyCombo || kind is TextInput) {
        Some("Tk reads button and key state from GetKeyState, which posted input never sets"@)
    } else if gtk_class(c) && kind is MouseClick {
        Some("GTK buttons ignore posted mouse-button messages"@)
    } else if vcl_class(c) && (kind is Keystroke || kind is KeyCombo) {
        Some("VCL accelerators require real key state from the system input queue"@)
    } else if terminal_class(c) && !target.foreground && kind is TextInput {
        Some("terminal hosts read text through their console input channel"@)
    } else {
        None
    }
}

/// Why a posted event would be taken by the system and ignored by the toolkit.
pub fn would_be_silently_dropped(target: TargetTraits<'_>, kind: EventKind) -> (r: Option<
    &'static str,
>)
    ensures
        match r {
            Some(reason) => drop_reason(target, kind) == Some(reason@),
            None => drop_reason(target, kind) is None,
        },
{
    let class: &str = target.class;
    if is_chromium_class(class) {
        return Some(
            "Chromium requires input originating from the system input queue",
        );
    }
    if target.chromium_descendant && (kind == EventKind::MouseMove || kind == EventKind::MouseScroll || kind == EventKind::KeyCombo) {
        return Some(
            "its embedded Chromium renderer takes drags, wheel, and modifier chords only from the system input queue",
        );
    }
    if target.xaml_host && (kind == EventKind::Keystroke || kind == EventKind::KeyCombo || kind == EventKind::TextInput) {
        return Some(
            "XAML hosts read keyboard input only from the system input queue",
        );
    }
    if is_uwp_frame_class(class) && (kind == EventKind::MouseClick || kind == EventKind::MouseMove) {
        return Some(
            "UWP content reads pointer input only from the system input queue",
        );
    }
    if is_winui3_class(class) && (kind == EventKind::MouseClick || kind == EventKind::MouseMove || kind == EventKind::MouseScroll) {
        return Some(
            "WinUI3 hosts pointer input in a content island rather than the frame HWND",
        );
    }
    if is_wpf_class(class) && (kind == EventKind::MouseClick || kind == EventKind::MouseMove || kind == EventKind::TextInput || (!target.foreground && (kind == EventKind::Keystroke || kind == EventKind::KeyCombo))) {
        return Some(
            "WPF ignores posted pointer and text input, and posted keys unless it owns the foreground",
        );
    }
    if is_tk_class(class) && (kind == EventKind::MouseClick || kind == EventKind::Keystroke || kind == EventKind::KeyCombo || kind == EventKind::TextInput) {
        return Some(
            "Tk reads button and key state from GetKeyState, which posted input never sets",
        );
    }
    if is_gtk_class(class) && kind == EventKind::MouseClick {
        return Some(
            "GTK buttons ignore posted mouse-button messages",
        );
    }
    if is_vcl_class(class) && (kind == EventKind::Keystroke || kind == EventKind::KeyCombo) {
        return Some(
            "VCL accelerators require real key state from the system input queue",
        );
    }
    if is_terminal_class(class) && !target.foreground && kind == EventKind::TextInput {
        return Some(
            "terminal hosts read text through their console input channel",
        );
    }
    None
}

/// Losing the foreground, or gaining an embedded renderer or a host that reads the
/// keyboard from the input queue only, only adds drops.
pub proof fn law_less_reach_only_adds_drops(
    target: TargetTraits<'_>,
    lesser: TargetTraits<'_>,
    kind: EventKind,
)
    requires
        lesser.class == target.class,
        target.xaml_host ==> lesser.xaml_host,
        lesser.foreground ==> target.foreground,
        target.chromium_descendant ==> lesser.chromium_descendant,
    ensures
        drop_reason(target, kind) is Some ==> drop_reason(lesser, kind) is Some,
{
}

/// Why text can never be typed into a window of this class: the native console
/// host on ARM64 takes it and shows nothing.
pub fn text_input_unsupported(class: &str, arm64: bool) -> (r: Option<&'static str>)
    ensures
        match r {
            Some(reason) => arm64 && stands_at(class@, "ConsoleWindowClass"@, 0) && reason@
                == "native console host on Windows ARM64 accepts synthesized text without delivering it; drive the console through a process or PTY instead"@,
            None => !(arm64 && stands_at(class@, "ConsoleWindowClass"@, 0)),
        },
{
    if arm64 && begins(class, "ConsoleWindowClass") {
        Some(
            "native console host on Windows ARM64 accepts synthesized text without delivering it; drive the console through a process or PTY instead",
        )
    } else {
        None
    }
}

/// The part of a frame, by the number of a hit test, where a posted drag cannot
/// work.
pub open spec fn drag_region(hit: isize) -> Option<Seq<char>> {
    if hit == 2 {
        Some("caption"@)
    } else if hit == 4 {
        Some("size box"@)
    } else if 10 <= hit <= 17 {
        Some("resize border"@)
    } else {
        None
    }
}

/// The part of a frame where a posted drag cannot work: pressing it starts a loop
/// that follows the real pointer only.
pub fn non_client_drag_region(hit: isize) -> (r: Option<&'static str>)
    ensures
        match r {
            Some(name) => drag_region(hit) == Some(name@),
            None => drag_region(hit) is None,
        },
{
    if hit == 2 {
        Some("caption")
    } else if hit == 4 {
        Some("size box")
    } else if 10 <= hit && hit <= 17 {
        Some("resize border")
    } else {
        None
    }
}

/// Whether a posted press, counted from zero, is the second of a double click:
/// every other one, for classes that ask for double clicks.
pub fn posts_double_click(index: u32, class_wants_double: bool) -> (r: bool)
    ensures
        r == (class_wants_double && index % 2 == 1),
{
    class_wants_double && index % 2 == 1
}

/// A unit of typed text.
#[derive(Clone, Copy, Debug, PartialEq, Eq, Structural)]
pub enum TextUnit {
    /// A character.
    Char(char),
    /// A line break, typed as the Return key.
    Enter,
}

/// The units of the first `k` characters of a text.
pub open spec fn units_of(text: Seq<char>, k: int) -> Seq<TextUnit>
    decreases k,
{
    if k <= 0 {
        Seq::empty()
    } else {
        let head = units_of(text, k - 1);
        let c = text[k - 1];
        if c == '\n' && k >= 2 && text[k - 2] == '\r' {
            head
        } else if c == '\n' || c == '\r' {
            head.push(TextUnit::Enter)
        } else {
            head.push(TextUnit::Char(c))
        }
    }
}

/// The units of a text: each line break, also one of two characters, is one
/// Return.
pub fn text_units(text: &str) -> (out: Vec<TextUnit>)
    ensures
        out@ == units_of(text@, text@.len() as int),
{
    let chars = chars_of(text);
    let mut out: Vec<TextUnit> = Vec::new();
    let mut i: usize = 0;
    while i < chars.len()
        invariant
            chars@ == text@,
            i <= chars@.len(),
            out@ == units_of(text@, i as int),
        decreases chars@.len() - i,
    {
        let c: char = chars[i];
        let pair = c == '\n' && i >= 1 && chars[i - 1] == '\r';
        if !pair {
            if c == '\n' || c == '\r' {
                out.push(TextUnit::Enter);
            } else {
                out.push(TextUnit::Char(c));
            }
        }
        i = i + 1;
    }
    out
}

/// A character that is no line break is typed as itself, behind what is before
/// it.
pub proof fn law_every_character_is_typed(before: Seq<char>, c: char)
    requires
        c != '\n',
        c != '\r',
    ensures
        units_of(before.push(c), before.len() as int + 1) == units_of(
            before,
            before.len() as int,
        ).push(TextUnit::Char(c)),
{
    let n = before.len() as int;
    lemma_units_prefix(before, before.push(c), n);
}

/// A line break in the middle of a text is one Return, however it is written.
pub proof fn law_line_breaks_are_one_return(before: Seq<char>)
    requires
        before.len() > 0 ==> before.last() != '\r',
    ensures
        ({
            let n = before.len() as int;
            let head = units_of(before, n);
            let crlf = before + seq!['\r', '\n'];
            let lf = before.push('\n');
            let cr = before.push('\r');
            &&& units_of(crlf, n + 2) == head.push(TextUnit::Enter)
            &&& units_of(lf, n + 1) == head.push(TextUnit::Enter)
            &&& units_of(cr, n + 1) == head.push(TextUnit::Enter)
        }),
{
    let n = before.len() as int;
    let crlf = before + seq!['\r', '\n'];
    let lf = before.push('\n');
    let cr = before.push('\r');
    lemma_units_prefix(before, crlf, n);
    lemma_units_prefix(before, lf, n);
    lemma_units_prefix(before, cr, n);
    assert(units_of(crlf, n + 1) == units_of(before, n).push(TextUnit::Enter));
}

proof fn lemma_units_prefix(a: Seq<char>, b: Seq<char>, k: int)
    requires
        0 <= k <= a.len() <= b.len(),
        forall|i: int| 0 <= i < a.len() ==> a[i] == b[i],
    ensures
        units_of(a, k) == units_of(b, k),
    decreases k,
{
    if k > 0 {
        lemma_units_prefix(a, b, k - 1);
    }
}

} // verus!
