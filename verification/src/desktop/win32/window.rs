//! What window handles tell: the focused control, the control under a point, who
//! may send input to whom, and which windows take the foreground by themselves.

use vstd::prelude::*;

use super::delivery::{chromium_class, is_chromium_class, is_wpf_class, wpf_class};
use crate::unicode::{chars_of, same_chars};

verus! {

/// The place of a window in a chain of ancestors, from `i` on, at most 64 links
/// away.
pub open spec fn link_of(chain: Seq<u64>, window: u64, i: int) -> Option<int>
    decreases chain.len() - i,
{
    if i < 0 || i >= chain.len() || i > 64 {
        None
    } else if chain[i] == window {
        Some(i)
    } else {
        link_of(chain, window, i + 1)
    }
}

/// The number of links between a window, the first of a chain of ancestors, and
/// an ancestor.
pub fn depth_below(chain: &Vec<u64>, ancestor: u64) -> (depth: Option<usize>)
    ensures
        match depth {
            Some(d) => link_of(chain@, ancestor, 0) == Some(d as int),
            None => link_of(chain@, ancestor, 0) is None,
        },
{
    let mut i: usize = 0;
    while i < chain.len() && i <= 64
        invariant
            i <= chain@.len(),
            link_of(chain@, ancestor, 0) == link_of(chain@, ancestor, i as int),
        decreases chain@.len() - i,
    {
        if chain[i] == ancestor {
            return Some(i);
        }
        i = i + 1;
    }
    None
}

/// The focused window of one thread.
pub struct Candidate {
    /// The window and its ancestors; empty where nothing has the thread's focus.
    pub chain: Vec<u64>,
    /// The system says that the window lies below the target.
    pub child: bool,
    pub visible: bool,
    pub enabled: bool,
    /// The top-level window of the thread's active window, where it has one.
    pub active_root: Option<u64>,
}

/// The candidate is a visible, enabled window within the target, and its thread
/// is not active in another window.
pub open spec fn usable(c: Candidate, root: u64) -> bool {
    &&& c.chain@.len() > 0
    &&& c.chain@[0] == root || c.child
    &&& c.visible
    &&& c.enabled
    &&& c.active_root matches Some(active) ==> active == root
}

/// The candidate counts: it is usable and its depth is known.
pub open spec fn counts(c: Candidate, root: u64) -> bool {
    usable(c, root) && link_of(c.chain@, root, 0) is Some
}

fn is_usable(c: &Candidate, root: u64) -> (r: bool)
    ensures
        r == usable(*c, root),
{
    let active = match c.active_root {
        Some(window) => window == root,
        None => true,
    };
    c.chain.len() > 0 && (c.chain[0] == root || c.child) && c.visible && c.enabled && active
}

/// The depth of a candidate.
pub open spec fn depth_of(c: Candidate, root: u64) -> int {
    link_of(c.chain@, root, 0)->0
}

/// One of two windows holds the other.
pub open spec fn related(a: Candidate, b: Candidate) -> bool {
    a.chain@[0] == b.chain@[0] || a.chain@.contains(b.chain@[0]) || b.chain@.contains(a.chain@[0])
}

/// What the threads so far say of the focus.
#[derive(Clone, Copy, Debug, PartialEq, Eq, Structural)]
pub enum Focus {
    /// Nothing has it.
    Nowhere,
    /// The candidate of this number has it.
    At(usize),
    /// Two branches claim it.
    Ambiguous,
}

/// What the first `k` candidates say of the focus: the deepest has it, unless two
/// of them lie in different branches.
pub open spec fn focus_of(c: Seq<Candidate>, root: u64, k: int) -> Focus
    decreases k,
{
    if k <= 0 {
        Focus::Nowhere
    } else {
        let before = focus_of(c, root, k - 1);
        let here = c[k - 1];
        if !counts(here, root) {
            before
        } else {
            match before {
                Focus::Ambiguous => Focus::Ambiguous,
                Focus::Nowhere => Focus::At((k - 1) as usize),
                Focus::At(j) => if !related(c[j as int], here) {
                    Focus::Ambiguous
                } else if depth_of(here, root) > depth_of(c[j as int], root) {
                    Focus::At((k - 1) as usize)
                } else {
                    before
                },
            }
        }
    }
}

proof fn lemma_focus(c: Seq<Candidate>, root: u64, k: int)
    requires
        0 <= k <= c.len(),
        c.len() <= usize::MAX,
    ensures
        focus_of(c, root, k) matches Focus::At(j) ==> j < k && counts(c[j as int], root)
            && forall|i: int|
            0 <= i < k && counts(#[trigger] c[i], root) ==> depth_of(c[i], root) <= depth_of(
                c[j as int],
                root,
            ),
        focus_of(c, root, k) is Nowhere ==> forall|i: int|
            0 <= i < k ==> !counts(#[trigger] c[i], root),
    decreases k,
{
    if k > 0 {
        lemma_focus(c, root, k - 1);
    }
}

/// The focus is at a usable candidate that no other usable one lies deeper than.
pub proof fn law_focus_is_the_deepest(c: Seq<Candidate>, root: u64, i: int)
    requires
        c.len() <= usize::MAX,
        0 <= i < c.len(),
        counts(c[i], root),
    ensures
        focus_of(c, root, c.len() as int) !is Nowhere,
        focus_of(c, root, c.len() as int) matches Focus::At(j) ==> j < c.len() && counts(
            c[j as int],
            root,
        ) && depth_of(c[i], root) <= depth_of(c[j as int], root),
{
    lemma_focus(c, root, c.len() as int);
}

fn holds(chain: &Vec<u64>, window: u64) -> (r: bool)
    ensures
        r == chain@.contains(window),
{
    let mut i: usize = 0;
    while i < chain.len()
        invariant
            i <= chain@.len(),
            forall|k: int| 0 <= k < i ==> chain@[k] != window,
        decreases chain@.len() - i,
    {
        if chain[i] == window {
            assert(chain@[i as int] == window);
            return true;
        }
        i = i + 1;
    }
    false
}

/// The focused window within a target over all threads that own part of it.
pub fn focused_descendant(candidates: &Vec<Candidate>, root: u64) -> (r: Option<u64>)
    ensures
        r == (match focus_of(candidates@, root, candidates@.len() as int) {
            Focus::At(j) => Some(candidates@[j as int].chain@[0]),
            _ => None,
        }),
{
    let n: usize = candidates.len();
    let mut best: Focus = Focus::Nowhere;
    let mut best_depth: usize = 0;
    let mut k: usize = 0;
    while k < n
        invariant
            n == candidates@.len(),
            k <= n,
            best == focus_of(candidates@, root, k as int),
            best matches Focus::At(j) ==> j < k && counts(candidates@[j as int], root) && best_depth
                == depth_of(candidates@[j as int], root),
        decreases n - k,
    {
        let here = &candidates[k];
        if is_usable(here, root) {
            match depth_below(&here.chain, root) {
                None => {},
                Some(depth) => match best {
                    Focus::Ambiguous => {},
                    Focus::Nowhere => {
                        best = Focus::At(k);
                        best_depth = depth;
                    },
                    Focus::At(j) => {
                        let other = &candidates[j];
                        let kin = other.chain[0] == here.chain[0] || holds(
                            &other.chain,
                            here.chain[0],
                        ) || holds(&here.chain, other.chain[0]);
                        if !kin {
                            best = Focus::Ambiguous;
                        } else if depth > best_depth {
                            best = Focus::At(k);
                            best_depth = depth;
                        }
                    },
                },
            }
        }
        k = k + 1;
    }
    match best {
        Focus::At(j) => Some(candidates[j].chain[0]),
        _ => None,
    }
}

// ---------------------------------------------------------------------------
// The foreground
// ---------------------------------------------------------------------------
/// What a look at the foreground says to one who waits for a window.
#[derive(Clone, Copy, Debug, PartialEq, Eq, Structural)]
pub enum Waiting {
    /// The window has it.
    Arrived,
    /// The time is up.
    GaveUp,
    /// Look again.
    GoOn,
}

/// Decides whether to go on waiting for a window after so many milliseconds. Only
/// the window itself counts: a dialog that it owns does not.
pub fn wait_for_foreground(foreground: u64, target: u64, elapsed: u64, timeout: u64) -> (r: Waiting)
    ensures
        r == (if foreground == target {
            Waiting::Arrived
        } else if elapsed >= timeout {
            Waiting::GaveUp
        } else {
            Waiting::GoOn
        }),
{
    if foreground == target {
        Waiting::Arrived
    } else if elapsed >= timeout {
        Waiting::GaveUp
    } else {
        Waiting::GoOn
    }
}

/// Whether a window's top-level window owns the foreground; zero is no window.
pub fn owns_foreground(foreground: u64, foreground_root: u64, target_root: u64) -> (r: bool)
    ensures
        r == (foreground != 0 && foreground_root == target_root),
{
    foreground != 0 && foreground_root == target_root
}

// ---------------------------------------------------------------------------
// The control under a point
// ---------------------------------------------------------------------------
/// What a look below a window says.
#[derive(Clone, Copy, Debug, PartialEq, Eq, Structural)]
pub enum Below {
    /// The point is outside of the client area, or the walk is too long.
    Nothing,
    /// This window owns the point.
    Here,
    /// Look below this one.
    Deeper(u64),
}

/// Decides where the control under a point is: `child` is what the system names
/// below `current`, zero for nothing, after so many steps down.
pub fn descend(current: u64, child: u64, child_of_root: bool, steps: u32) -> (r: Below)
    ensures
        r == (if steps >= 32 || child == 0 {
            Below::Nothing
        } else if child == current || !child_of_root {
            Below::Here
        } else {
            Below::Deeper(child)
        }),
{
    if steps >= 32 || child == 0 {
        Below::Nothing
    } else if child == current || !child_of_root {
        Below::Here
    } else {
        Below::Deeper(child)
    }
}

// ---------------------------------------------------------------------------
// Integrity
// ---------------------------------------------------------------------------
/// Why input must not be sent to a window's process.
#[derive(Clone, Copy, Debug, PartialEq, Eq, Structural)]
pub enum UipiBlock {
    NoProcess,
    OwnLevelUnknown,
    TargetClosed,
    TargetLevelUnknown,
    /// The target runs above this process.
    Above,
}

/// Why input must not be sent: `opened` is whether the target's process could be
/// opened for a look.
pub open spec fn block_of(pid: u32, own: Option<u32>, opened: bool, target: Option<u32>) -> Option<
    UipiBlock,
> {
    if pid == 0 {
        Some(UipiBlock::NoProcess)
    } else {
        match own {
            None => Some(UipiBlock::OwnLevelUnknown),
            Some(mine) => if !opened {
                Some(UipiBlock::TargetClosed)
            } else {
                match target {
                    None => Some(UipiBlock::TargetLevelUnknown),
                    Some(theirs) => if theirs > mine {
                        Some(UipiBlock::Above)
                    } else {
                        None
                    },
                }
            },
        }
    }
}

/// Why input must not be sent to a window's process.
pub fn uipi_block(pid: u32, own: Option<u32>, opened: bool, target: Option<u32>) -> (r: Option<
    UipiBlock,
>)
    ensures
        r == block_of(pid, own, opened, target),
{
    if pid == 0 {
        return Some(UipiBlock::NoProcess);
    }
    match own {
        None => Some(UipiBlock::OwnLevelUnknown),
        Some(mine) => if !opened {
            Some(UipiBlock::TargetClosed)
        } else {
            match target {
                None => Some(UipiBlock::TargetLevelUnknown),
                Some(theirs) => if theirs > mine {
                    Some(UipiBlock::Above)
                } else {
                    None
                },
            }
        },
    }
}

/// The name of an integrity level.
pub open spec fn level_name(rid: u32) -> Seq<char> {
    if rid < 0x1000 {
        "untrusted"@
    } else if rid < 0x2000 {
        "low"@
    } else if rid < 0x3000 {
        "medium"@
    } else if rid < 0x4000 {
        "high"@
    } else {
        "system"@
    }
}

/// The name of an integrity level.
pub fn integrity_name(rid: u32) -> (name: &'static str)
    ensures
        name@ == level_name(rid),
{
    if rid < 0x1000 {
        "untrusted"
    } else if rid < 0x2000 {
        "low"
    } else if rid < 0x3000 {
        "medium"
    } else if rid < 0x4000 {
        "high"
    } else {
        "system"
    }
}

// ---------------------------------------------------------------------------
// Hosts that take the foreground
// ---------------------------------------------------------------------------
/// Behind the last separator of the first `k` units of a path.
pub open spec fn after_separator(path: Seq<u16>, k: int) -> int
    decreases k,
{
    if k <= 0 {
        0
    } else if path[k - 1] == 92 || path[k - 1] == 47 {
        k
    } else {
        after_separator(path, k - 1)
    }
}

/// A unit as a lower-case letter of ASCII, where it is one of upper case.
pub open spec fn unit_lower(unit: u16) -> u16 {
    if 65 <= unit <= 90 {
        (unit + 32) as u16
    } else {
        unit
    }
}

/// The units spell the name, in any ASCII case.
pub open spec fn spells(units: Seq<u16>, name: Seq<char>) -> bool {
    units.len() == name.len() && forall|i: int|
        0 <= i < units.len() ==> unit_lower(#[trigger] units[i]) == name[i] as u32
}

/// The file name of a path.
pub open spec fn file_name(path: Seq<u16>) -> Seq<u16> {
    path.skip(after_separator(path, path.len() as int))
}

/// The executable renders content behind a plain window class.
pub open spec fn xaml_executable(name: Seq<u16>) -> bool {
    ||| spells(name, "notepad.exe"@)
    ||| spells(name, "calculatorapp.exe"@)
    ||| spells(name, "calc.exe"@)
    ||| spells(name, "applicationframehost.exe"@)
    ||| spells(name, "photos.exe"@)
    ||| spells(name, "systemsettings.exe"@)
}

/// The class hosts such content.
pub open spec fn xaml_class(class: Seq<char>) -> bool {
    ||| class == "ApplicationFrameWindow"@
    ||| class == "WinUIDesktopWin32WindowClass"@
    ||| class == "Windows.UI.Core.CoreWindow"@
    ||| class == "Microsoft.UI.Content.DesktopChildSiteBridge"@
}

fn spells_name(units: &[u16], name: &str) -> (r: bool)
    ensures
        r == spells(units@, name@),
{
    let chars = chars_of(name);
    if units.len() != chars.len() {
        return false;
    }
    let mut i: usize = 0;
    while i < units.len()
        invariant
            units@.len() == chars@.len(),
            chars@ == name@,
            i <= units@.len(),
            forall|k: int| 0 <= k < i ==> unit_lower(#[trigger] units@[k]) == name@[k] as u32,
        decreases units@.len() - i,
    {
        let unit: u16 = units[i];
        let low: u16 = if 65 <= unit && unit <= 90 {
            unit + 32
        } else {
            unit
        };
        let c: char = chars[i];
        if low as u32 != c as u32 {
            assert(unit_lower(units@[i as int]) != name@[i as int] as u32);
            return false;
        }
        i = i + 1;
    }
    true
}

fn is_exactly(class: &str, other: &str) -> (r: bool)
    ensures
        r == (class@ == other@),
{
    let a = chars_of(class);
    let b = chars_of(other);
    same_chars(a.as_slice(), b.as_slice())
}

/// Whether a window hosts content that reads the keyboard from the system's queue
/// only: by its class, or by the executable of its process, where its path can be
/// read.
pub fn is_xaml_host(class: &str, image: Option<&Vec<u16>>) -> (r: bool)
    ensures
        r == (xaml_class(class@) || (image matches Some(path) && xaml_executable(file_name(path@)))),
{
    if is_exactly(class, "ApplicationFrameWindow") || is_exactly(
        class,
        "WinUIDesktopWin32WindowClass",
    ) || is_exactly(class, "Windows.UI.Core.CoreWindow") || is_exactly(
        class,
        "Microsoft.UI.Content.DesktopChildSiteBridge",
    ) {
        return true;
    }
    match image {
        None => false,
        Some(path) => {
            let mut k: usize = path.len();
            while k > 0 && path[k - 1] != 92 && path[k - 1] != 47
                invariant
                    k <= path@.len(),
                    after_separator(path@, path@.len() as int) == after_separator(path@, k as int),
                decreases k,
            {
                k = k - 1;
            }
            let name: &[u16] = &path[k..path.len()];
            assert(name@ =~= path@.skip(k as int));
            spells_name(name, "notepad.exe") || spells_name(name, "calculatorapp.exe")
                || spells_name(name, "calc.exe") || spells_name(name, "applicationframehost.exe")
                || spells_name(name, "photos.exe") || spells_name(name, "systemsettings.exe")
        },
    }
}

/// Whether acting on a control cannot make the window take the foreground.
pub fn pattern_safe(foreground: bool, xaml_host: bool, class: &str, chromium_descendant: bool) -> (r:
    bool)
    ensures
        r == (foreground || !(xaml_host || chromium_class(class@) || wpf_class(class@)
            || chromium_descendant)),
{
    foreground || !(xaml_host || is_chromium_class(class) || is_wpf_class(class)
        || chromium_descendant)
}

} // verus!
