//! How controls are pressed through accessibility, by name or at a point.

use vstd::prelude::*;

use crate::strings::{number, parse, trim, trimmed};
use crate::unicode::{ascii_lower_all, chars_of, lower_chars, same_chars, string_of};

verus! {

/// The kind of a control, as far as presses tell them apart.
#[derive(Clone, Copy, Debug, PartialEq, Eq, Structural)]
pub enum ControlType {
    Button,
    MenuItem,
    Hyperlink,
    CheckBox,
    RadioButton,
    TabItem,
    Text,
    Image,
    SplitButton,
    TreeItem,
    ListItem,
    Pane,
    Custom,
    Document,
    Other,
}

/// Whether a menu item is open.
#[derive(Clone, Copy, Debug, PartialEq, Eq, Structural)]
pub enum ExpandState {
    Collapsed,
    Expanded,
    PartiallyExpanded,
    Leaf,
    /// It cannot be told.
    Unknown,
}

/// What a control offers.
#[derive(Clone, Copy, Debug, PartialEq, Eq, Structural)]
pub struct Patterns {
    pub kind: ControlType,
    pub invoke: bool,
    pub toggle: bool,
    pub select: bool,
    /// Where it can be opened and closed, its state.
    pub expand: Option<ExpandState>,
    pub scroll: bool,
    /// It has a legacy default action, and one with a name.
    pub legacy: bool,
    pub legacy_action: bool,
}

/// A way to press a control.
#[derive(Clone, Copy, Debug, PartialEq, Eq, Structural)]
pub enum Press {
    Invoke,
    Expand,
    Collapse,
    Toggle,
    Select,
    Legacy,
    Scroll,
}

/// The control does the same wherever it is clicked.
pub open spec fn positionless(kind: ControlType) -> bool {
    kind is Button || kind is MenuItem || kind is Hyperlink || kind is CheckBox
        || kind is RadioButton || kind is TabItem
}

/// Whether a click at a point can be replaced by pressing the control: not where
/// parts of it do different things.
pub fn coordinate_click_supported(kind: ControlType) -> (r: bool)
    ensures
        r == positionless(kind),
{
    match kind {
        ControlType::Button => true,
        ControlType::MenuItem => true,
        ControlType::Hyperlink => true,
        ControlType::CheckBox => true,
        ControlType::RadioButton => true,
        ControlType::TabItem => true,
        _ => false,
    }
}

/// The press of a control that does the same wherever it is clicked. A menu item
/// with a menu below it opens or closes that.
pub open spec fn press_of(p: Patterns) -> Option<Press> {
    if !positionless(p.kind) {
        None
    } else if p.kind is MenuItem && (p.expand == Some(ExpandState::Collapsed) || p.expand == Some(
        ExpandState::PartiallyExpanded,
    )) {
        Some(Press::Expand)
    } else if p.kind is MenuItem && p.expand == Some(ExpandState::Expanded) {
        Some(Press::Collapse)
    } else if p.kind is CheckBox {
        if p.toggle {
            Some(Press::Toggle)
        } else {
            None
        }
    } else if p.kind is TabItem || p.kind is RadioButton {
        if p.select {
            Some(Press::Select)
        } else {
            None
        }
    } else if p.invoke {
        Some(Press::Invoke)
    } else {
        None
    }
}

/// The press of a control that does the same wherever it is clicked.
pub fn positionless_press(p: Patterns) -> (r: Option<Press>)
    ensures
        r == press_of(p),
{
    if !coordinate_click_supported(p.kind) {
        return None;
    }
    match (p.kind, p.expand) {
        (ControlType::MenuItem, Some(state)) => match state {
            ExpandState::Collapsed => {
                return Some(Press::Expand);
            },
            ExpandState::PartiallyExpanded => {
                return Some(Press::Expand);
            },
            ExpandState::Expanded => {
                return Some(Press::Collapse);
            },
            _ => {},
        },
        _ => {},
    }
    match p.kind {
        ControlType::CheckBox => if p.toggle {
            Some(Press::Toggle)
        } else {
            None
        },
        ControlType::TabItem => if p.select {
            Some(Press::Select)
        } else {
            None
        },
        ControlType::RadioButton => if p.select {
            Some(Press::Select)
        } else {
            None
        },
        _ => if p.invoke {
            Some(Press::Invoke)
        } else {
            None
        },
    }
}

// ---------------------------------------------------------------------------
// Actions by name
// ---------------------------------------------------------------------------
/// An action on a control.
#[derive(Clone, Copy, Debug, PartialEq, Eq, Structural)]
pub enum Action {
    Press,
    Invoke,
    Toggle,
    Expand,
    Collapse,
    Select,
    ScrollIntoView,
}

/// The name of an action.
pub open spec fn action_word(action: Action) -> Seq<char> {
    match action {
        Action::Press => "press"@,
        Action::Invoke => "invoke"@,
        Action::Toggle => "toggle"@,
        Action::Expand => "expand"@,
        Action::Collapse => "collapse"@,
        Action::Select => "select"@,
        Action::ScrollIntoView => "scrollintoview"@,
    }
}

impl Action {
    /// The name of the action.
    pub fn name(self) -> (name: &'static str)
        ensures
            name@ == action_word(self),
    {
        match self {
            Action::Press => "press",
            Action::Invoke => "invoke",
            Action::Toggle => "toggle",
            Action::Expand => "expand",
            Action::Collapse => "collapse",
            Action::Select => "select",
            Action::ScrollIntoView => "scrollintoview",
        }
    }

    /// The action of a name, around which blanks may stand, in any ASCII case.
    pub fn parse(text: &str) -> (r: Option<Action>)
        ensures
            match r {
                Some(action) => ascii_lower_all(trimmed(text@)) == action_word(action),
                None => forall|action: Action|
                    ascii_lower_all(trimmed(text@)) != #[trigger] action_word(action),
            },
    {
        let chars = chars_of(text);
        let cut = trim(chars.as_slice());
        let lower = lower_chars(cut.as_slice());
        let all: [Action; 7] = [
            Action::Press,
            Action::Invoke,
            Action::Toggle,
            Action::Expand,
            Action::Collapse,
            Action::Select,
            Action::ScrollIntoView,
        ];
        let ghost word = ascii_lower_all(trimmed(text@));
        let mut i: usize = 0;
        while i < 7
            invariant
                i <= 7,
                lower@ == word,
                word == ascii_lower_all(trimmed(text@)),
                all@ == seq![
                    Action::Press,
                    Action::Invoke,
                    Action::Toggle,
                    Action::Expand,
                    Action::Collapse,
                    Action::Select,
                    Action::ScrollIntoView,
                ],
                forall|k: int| 0 <= k < i ==> word != action_word(#[trigger] all@[k]),
            decreases 7 - i,
        {
            let action = all[i];
            let name = chars_of(action.name());
            if same_chars(lower.as_slice(), name.as_slice()) {
                return Some(action);
            }
            i = i + 1;
        }
        proof {
            assert forall|action: Action| word != #[trigger] action_word(action) by {
                let k: int = match action {
                    Action::Press => 0,
                    Action::Invoke => 1,
                    Action::Toggle => 2,
                    Action::Expand => 3,
                    Action::Collapse => 4,
                    Action::Select => 5,
                    Action::ScrollIntoView => 6,
                };
                assert(all@[k] == action);
            }
        }
        None
    }
}

/// The actions that a control offers.
pub open spec fn offered(p: Patterns) -> Seq<Action> {
    let none = Seq::<Action>::empty();
    (if p.invoke || p.toggle || p.select || p.legacy_action || (p.expand is Some
        && p.kind is MenuItem) {
        seq![Action::Press]
    } else {
        none
    }) + (if p.invoke {
        seq![Action::Invoke]
    } else {
        none
    }) + (if p.toggle {
        seq![Action::Toggle]
    } else {
        none
    }) + (if p.expand is Some {
        seq![Action::Expand, Action::Collapse]
    } else {
        none
    }) + (if p.select {
        seq![Action::Select]
    } else {
        none
    }) + (if p.scroll {
        seq![Action::ScrollIntoView]
    } else {
        none
    })
}

/// The actions that a control offers.
pub fn actions(p: Patterns) -> (out: Vec<Action>)
    ensures
        out@ == offered(p),
{
    let mut out: Vec<Action> = Vec::new();
    let expands = p.expand.is_some();
    let menu = match p.kind {
        ControlType::MenuItem => true,
        _ => false,
    };
    if p.invoke || p.toggle || p.select || p.legacy_action || (expands && menu) {
        out.push(Action::Press);
    }
    if p.invoke {
        out.push(Action::Invoke);
    }
    if p.toggle {
        out.push(Action::Toggle);
    }
    if expands {
        out.push(Action::Expand);
        out.push(Action::Collapse);
    }
    if p.select {
        out.push(Action::Select);
    }
    if p.scroll {
        out.push(Action::ScrollIntoView);
    }
    assert(out@ =~= offered(p));
    out
}

/// What an action does to a control; `None` where the control cannot do it.
pub open spec fn performed(p: Patterns, action: Action) -> Option<Press> {
    match action {
        Action::Press => match press_of(p) {
            Some(press) => Some(press),
            None => if p.invoke {
                Some(Press::Invoke)
            } else if p.toggle {
                Some(Press::Toggle)
            } else if p.select {
                Some(Press::Select)
            } else if p.legacy && p.legacy_action {
                Some(Press::Legacy)
            } else {
                None
            },
        },
        Action::Invoke => if p.invoke {
            Some(Press::Invoke)
        } else {
            None
        },
        Action::Toggle => if p.toggle {
            Some(Press::Toggle)
        } else {
            None
        },
        Action::Expand => if p.expand is Some {
            Some(Press::Expand)
        } else {
            None
        },
        Action::Collapse => if p.expand is Some {
            Some(Press::Collapse)
        } else {
            None
        },
        Action::Select => if p.select {
            Some(Press::Select)
        } else {
            None
        },
        Action::ScrollIntoView => if p.scroll {
            Some(Press::Scroll)
        } else {
            None
        },
    }
}

/// What an action does to a control.
pub fn perform(p: Patterns, action: Action) -> (r: Option<Press>)
    ensures
        r == performed(p, action),
{
    match action {
        Action::Press => {
            let press = positionless_press(p);
            if press.is_some() {
                return press;
            }
            if p.invoke {
                Some(Press::Invoke)
            } else if p.toggle {
                Some(Press::Toggle)
            } else if p.select {
                Some(Press::Select)
            } else if p.legacy && p.legacy_action {
                Some(Press::Legacy)
            } else {
                None
            }
        },
        Action::Invoke => if p.invoke {
            Some(Press::Invoke)
        } else {
            None
        },
        Action::Toggle => if p.toggle {
            Some(Press::Toggle)
        } else {
            None
        },
        Action::Expand => if p.expand.is_some() {
            Some(Press::Expand)
        } else {
            None
        },
        Action::Collapse => if p.expand.is_some() {
            Some(Press::Collapse)
        } else {
            None
        },
        Action::Select => if p.select {
            Some(Press::Select)
        } else {
            None
        },
        Action::ScrollIntoView => if p.scroll {
            Some(Press::Scroll)
        } else {
            None
        },
    }
}

/// An action that a control offers can be performed on it, provided that a legacy
/// action comes from a legacy pattern and that a menu item's state is known.
pub proof fn law_offered_actions_work(p: Patterns, action: Action)
    requires
        offered(p).contains(action),
        p.legacy_action ==> p.legacy,
        p.kind is MenuItem && !p.invoke && !p.toggle && !p.select && !p.legacy_action ==> p.expand
            != Some(ExpandState::Unknown) && p.expand != Some(ExpandState::Leaf),
    ensures
        performed(p, action) is Some,
{
    let none = Seq::<Action>::empty();
    let first = if p.invoke || p.toggle || p.select || p.legacy_action || (p.expand is Some
        && p.kind is MenuItem) {
        seq![Action::Press]
    } else {
        none
    };
    let invoke = if p.invoke {
        seq![Action::Invoke]
    } else {
        none
    };
    let toggle = if p.toggle {
        seq![Action::Toggle]
    } else {
        none
    };
    let expand = if p.expand is Some {
        seq![Action::Expand, Action::Collapse]
    } else {
        none
    };
    let select = if p.select {
        seq![Action::Select]
    } else {
        none
    };
    let scroll = if p.scroll {
        seq![Action::ScrollIntoView]
    } else {
        none
    };
    lemma_in_sum(first + invoke + toggle + expand + select, scroll, action);
    lemma_in_sum(first + invoke + toggle + expand, select, action);
    lemma_in_sum(first + invoke + toggle, expand, action);
    lemma_in_sum(first + invoke, toggle, action);
    lemma_in_sum(first, invoke, action);
    match p.expand {
        Some(state) => match state {
            ExpandState::Collapsed => {},
            ExpandState::Expanded => {},
            ExpandState::PartiallyExpanded => {},
            ExpandState::Leaf => {},
            ExpandState::Unknown => {},
        },
        None => {},
    }
}

proof fn lemma_in_sum(a: Seq<Action>, b: Seq<Action>, x: Action)
    ensures
        (a + b).contains(x) ==> a.contains(x) || b.contains(x),
{
    if (a + b).contains(x) {
        let i = choose|i: int| 0 <= i < (a + b).len() && (a + b)[i] == x;
        if i < a.len() {
            assert(a[i] == x);
        } else {
            assert(b[i - a.len()] == x);
        }
    }
}

// ---------------------------------------------------------------------------
// Presses at a point
// ---------------------------------------------------------------------------
/// How many elements a press at a point looks at.
pub const MAX_PRESS_ANCESTORS: u32 = 8;

/// An element under a point.
#[derive(Clone, Copy, Debug, PartialEq, Eq, Structural)]
pub struct Element {
    pub patterns: Patterns,
    pub left: i32,
    pub top: i32,
    pub right: i32,
    pub bottom: i32,
    pub enabled: bool,
    pub offscreen: bool,
    /// It belongs to the target.
    pub hosted: bool,
    /// The target is what is visible at the point.
    pub visible: bool,
    /// It is the target's own window.
    pub window: bool,
}

/// What to do about an element under a point.
#[derive(Clone, Copy, Debug, PartialEq, Eq, Structural)]
pub enum Touch {
    Press(Press),
    /// Look at its parent.
    Parent,
    /// Nothing there can be pressed.
    Leave,
}

/// What to do about the element that was reached after so many others. The first
/// one must belong to the target and show it. Only content that decorates its
/// parent stands for it.
pub open spec fn touched(e: Element, x: i32, y: i32, seen: u32) -> Touch {
    if seen >= MAX_PRESS_ANCESTORS || (seen == 0 && !(e.hosted && e.visible)) {
        Touch::Leave
    } else {
        match press_of(e.patterns) {
            Some(press) => if e.left <= x < e.right && e.top <= y < e.bottom && e.enabled
                && !e.offscreen && e.hosted && e.visible {
                Touch::Press(press)
            } else {
                Touch::Leave
            },
            None => if !e.window && (e.patterns.kind is Text || e.patterns.kind is Image) {
                Touch::Parent
            } else {
                Touch::Leave
            },
        }
    }
}

/// Decides about an element under a point.
pub fn invoke_at_point(e: Element, x: i32, y: i32, seen: u32) -> (t: Touch)
    ensures
        t == touched(e, x, y, seen),
{
    if seen >= MAX_PRESS_ANCESTORS || (seen == 0 && !(e.hosted && e.visible)) {
        return Touch::Leave;
    }
    match positionless_press(e.patterns) {
        Some(press) => if e.left <= x && x < e.right && e.top <= y && y < e.bottom && e.enabled
            && !e.offscreen && e.hosted && e.visible {
            Touch::Press(press)
        } else {
            Touch::Leave
        },
        None => {
            let decoration = match e.patterns.kind {
                ControlType::Text => true,
                ControlType::Image => true,
                _ => false,
            };
            if !e.window && decoration {
                Touch::Parent
            } else {
                Touch::Leave
            }
        },
    }
}

/// What is pressed at a point belongs to the target, is visible there, and does
/// the same wherever it is clicked.
pub proof fn law_only_the_visible_target_is_pressed(e: Element, x: i32, y: i32, seen: u32)
    requires
        touched(e, x, y, seen) is Press,
    ensures
        positionless(e.patterns.kind),
        e.hosted && e.visible && e.enabled && !e.offscreen,
        e.left <= x < e.right,
        e.top <= y < e.bottom,
{
}

/// Where the first element at a point belongs to another window, or another
/// window covers it, nothing is pressed, and no parent is looked at.
pub proof fn law_foreign_elements_are_left_alone(e: Element, x: i32, y: i32)
    requires
        !e.hosted || !e.visible,
    ensures
        touched(e, x, y, 0) is Leave,
{
}

// ---------------------------------------------------------------------------
// Text
// ---------------------------------------------------------------------------
/// A text of at most 200 characters: a longer one keeps 199 and an ellipsis.
pub open spec fn shortened(text: Seq<char>) -> Seq<char> {
    if text.len() <= 200 {
        text
    } else {
        text.take(199).push('\u{2026}')
    }
}

/// Shortens a text to 200 characters.
pub fn truncate(text: &str) -> (out: String)
    ensures
        out@ == shortened(text@),
{
    let chars = chars_of(text);
    if chars.len() <= 200 {
        return string_of(chars.as_slice());
    }
    let mut out: Vec<char> = Vec::new();
    let mut i: usize = 0;
    while i < 199
        invariant
            i <= 199,
            chars@ == text@,
            chars@.len() > 200,
            out@ == text@.take(i as int),
        decreases 199 - i,
    {
        out.push(chars[i]);
        assert(out@ =~= text@.take(i + 1));
        i = i + 1;
    }
    out.push('\u{2026}');
    string_of(out.as_slice())
}

/// The texts of the attributes before `n` that have one.
pub open spec fn present(read: Seq<(String, Option<String>)>, n: int) -> Seq<(Seq<char>, Seq<char>)>
    decreases n,
{
    if n <= 0 || n > read.len() {
        Seq::empty()
    } else {
        match read[n - 1].1 {
            Some(text) => present(read, n - 1).push((read[n - 1].0@, shortened(text@))),
            None => present(read, n - 1),
        }
    }
}

/// A list of names and texts by their characters.
pub open spec fn shown(list: Seq<(String, String)>) -> Seq<(Seq<char>, Seq<char>)> {
    list.map_values(|a: (String, String)| (a.0@, a.1@))
}

/// The attributes of an element as they are shown: those that could be read, in
/// order, each shortened.
pub fn attributes(read: &Vec<(String, Option<String>)>) -> (out: Vec<(String, String)>)
    ensures
        shown(out@) == present(read@, read@.len() as int),
{
    let mut out: Vec<(String, String)> = Vec::new();
    let mut i: usize = 0;
    assert(shown(out@) =~= present(read@, 0));
    while i < read.len()
        invariant
            i <= read@.len(),
            shown(out@) == present(read@, i as int),
        decreases read@.len() - i,
    {
        if let Some(text) = &read[i].1 {
            let name = chars_of(read[i].0.as_str());
            let ghost before = out@;
            let pair = (string_of(name.as_slice()), truncate(text.as_str()));
            let ghost added = pair;
            out.push(pair);
            assert(shown(out@) =~= shown(before).push((added.0@, added.1@)));
        }
        i = i + 1;
    }
    out
}

/// A text that could be read and is not empty.
pub fn optional(read: Option<String>) -> (r: Option<String>)
    ensures
        r == (if read is Some && read->0@.len() > 0 {
            read
        } else {
            None
        }),
{
    match read {
        Some(text) => {
            let chars = chars_of(text.as_str());
            if chars.len() > 0 {
                Some(text)
            } else {
                None
            }
        },
        None => None,
    }
}

/// The text of a control: its own value, or else the legacy one, whichever is
/// there and not empty.
pub fn value(own: Option<String>, legacy: Option<String>) -> (r: Option<String>)
    ensures
        r == (if own is Some && own->0@.len() > 0 {
            own
        } else if legacy is Some && legacy->0@.len() > 0 {
            legacy
        } else {
            None
        }),
{
    let first = optional(own);
    if first.is_some() {
        first
    } else {
        optional(legacy)
    }
}

/// The first window from `i` on whose id is the number of an address.
pub open spec fn window_at(ids: Seq<String>, address: u64, i: int) -> Option<int>
    decreases ids.len() - i,
{
    if i < 0 || i >= ids.len() {
        None
    } else if number(ids[i]@, 10, u64::MAX as int) == Some(address as int) {
        Some(i)
    } else {
        window_at(ids, address, i + 1)
    }
}

/// The window whose id is the number of an address.
pub fn window_id(ids: &Vec<String>, address: u64) -> (r: Option<usize>)
    ensures
        match r {
            Some(i) => window_at(ids@, address, 0) == Some(i as int),
            None => window_at(ids@, address, 0) is None,
        },
{
    let mut i: usize = 0;
    while i < ids.len()
        invariant
            i <= ids@.len(),
            window_at(ids@, address, 0) == window_at(ids@, address, i as int),
        decreases ids@.len() - i,
    {
        let chars = chars_of(ids[i].as_str());
        match parse(chars.as_slice(), 10, u64::MAX) {
            Some(v) => {
                if v == address {
                    return Some(i);
                }
            },
            None => {},
        }
        i = i + 1;
    }
    None
}

/// How far up the tree an element's window is looked for.
pub const MAX_HOST_DEPTH: usize = 64;

/// The first level from `i` on that has a native window.
pub open spec fn first_native(roots: Seq<Option<u64>>, i: int) -> Option<u64>
    decreases roots.len() - i,
{
    if i < 0 || i >= roots.len() || i >= MAX_HOST_DEPTH {
        None
    } else if roots[i] is Some {
        roots[i]
    } else {
        first_native(roots, i + 1)
    }
}

/// The top-level window that hosts an element. `roots` holds, for the element
/// and each of its ancestors, the top-level window of its native window, where
/// it has one. The desktop itself hosts nothing.
pub fn host_root(roots: &Vec<Option<u64>>, desktop: u64) -> (r: Option<u64>)
    ensures
        r == (match first_native(roots@, 0) {
            Some(root) => if root != desktop {
                Some(root)
            } else {
                None
            },
            None => None,
        }),
{
    let mut i: usize = 0;
    while i < roots.len() && i < MAX_HOST_DEPTH
        invariant
            i <= roots@.len(),
            i <= MAX_HOST_DEPTH,
            first_native(roots@, 0) == first_native(roots@, i as int),
        decreases roots@.len() - i,
    {
        if let Some(root) = roots[i] {
            return if root != desktop {
                Some(root)
            } else {
                None
            };
        }
        i = i + 1;
    }
    None
}

} // verus!
