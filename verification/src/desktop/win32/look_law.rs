//! What a look at a window or an element gives: the focus, the barrier between
//! processes, the names, the patterns and the attributes.

use vstd::prelude::*;

use super::ax::{
    first_native, offered, performed, positionless, present, press_of, shortened, touched, window_at,
    Action, Element, ExpandState, Patterns, Press, Touch,
};
use super::window::{
    after_separator, block_of, counts, file_name, focus_of, level_name, link_of, spells, unit_lower,
    xaml_class, xaml_executable, Candidate, Focus,
};
use crate::strings::number;

verus! {

/// A window is found on the chain at its first place, within sixty-five links.
pub proof fn law_chains_are_followed_to_the_window(chain: Seq<u64>, window: u64, i: int, p: int)
    requires
        0 <= i <= p <= chain.len(),
        forall|k: int| i <= k < p ==> #[trigger] chain[k] != window,
    ensures
        p < chain.len() && p <= 64 && chain[p] == window ==> link_of(chain, window, i) == Some(p),
        p == chain.len() || p > 64 ==> link_of(chain, window, i) is None,
    decreases p - i,
{
    if i < p {
        assert(chain[i] != window);
        law_chains_are_followed_to_the_window(chain, window, i + 1, p);
    }
}

/// A focus that counts alone is the focus, and without one it is nowhere.
pub proof fn law_a_lone_focus_is_found(c: Seq<Candidate>, root: u64, k: int, i: int)
    requires
        0 <= i < c.len() <= usize::MAX,
        0 <= k <= c.len(),
        forall|j: int| 0 <= j < c.len() && j != i ==> !counts(#[trigger] c[j], root),
    ensures
        i < k && counts(c[i], root) ==> focus_of(c, root, k) == Focus::At(i as usize),
        i >= k || !counts(c[i], root) ==> focus_of(c, root, k) == Focus::Nowhere,
    decreases k,
{
    if k > 0 {
        law_a_lone_focus_is_found(c, root, k - 1, i);
        if k - 1 != i {
            assert(!counts(c[k - 1], root));
        }
    }
}

/// Input is let through exactly when both processes are known, the target can be
/// opened, and it does not stand above.
pub proof fn law_only_processes_above_are_barred(
    pid: u32,
    own: Option<u32>,
    opened: bool,
    target: Option<u32>,
)
    ensures
        block_of(pid, own, opened, target) is None <==> {
            &&& pid != 0
            &&& opened
            &&& own is Some
            &&& target is Some
            &&& target->0 <= own->0
        },
{
}

/// The levels are named by their thousands.
pub proof fn law_levels_are_named_by_their_thousands(rid: u32)
    ensures
        rid / 0x1000 == 0 ==> level_name(rid) == "untrusted"@,
        rid / 0x1000 == 1 ==> level_name(rid) == "low"@,
        rid / 0x1000 == 2 ==> level_name(rid) == "medium"@,
        rid / 0x1000 == 3 ==> level_name(rid) == "high"@,
        rid / 0x1000 >= 4 ==> level_name(rid) == "system"@,
{
}

proof fn lemma_after_separator(path: Seq<u16>, k: int, p: int)
    requires
        0 <= p <= k <= path.len(),
        p > 0 ==> path[p - 1] == 92 || path[p - 1] == 47,
        forall|i: int| p <= i < k ==> #[trigger] path[i] != 92 && path[i] != 47,
    ensures
        after_separator(path, k) == p,
    decreases k - p,
{
    if p < k {
        assert(path[k - 1] != 92 && path[k - 1] != 47);
        lemma_after_separator(path, k - 1, p);
    }
}

/// The file name is what stands behind the last slash of either kind.
pub proof fn law_file_names_stand_behind_the_last_slash(folder: Seq<u16>, name: Seq<u16>)
    requires
        !name.contains(92u16) && !name.contains(47u16),
    ensures
        file_name(name) == name,
        file_name(folder.push(92) + name) == name,
        file_name(folder.push(47) + name) == name,
{
    let n = folder.len() as int + 1;
    let a = folder.push(92) + name;
    let b = folder.push(47) + name;
    assert forall|i: int| 0 <= i < name.len() implies #[trigger] name[i] != 92 && name[i] != 47 by {
        assert(name.contains(name[i]));
    }
    assert forall|i: int| n <= i < a.len() implies #[trigger] a[i] != 92 && a[i] != 47 by {
        assert(a[i] == name[i - n]);
    }
    assert forall|i: int| n <= i < b.len() implies #[trigger] b[i] != 92 && b[i] != 47 by {
        assert(b[i] == name[i - n]);
    }
    lemma_after_separator(name, name.len() as int, 0);
    lemma_after_separator(a, a.len() as int, n);
    lemma_after_separator(b, b.len() as int, n);
    assert(name.skip(0) =~= name);
    assert(a.skip(n) =~= name);
    assert(b.skip(n) =~= name);
}

/// The case of a letter does not matter in a file name, and nothing else is
/// folded.
pub proof fn law_file_names_ignore_case(unit: u16)
    ensures
        65 <= unit <= 90 ==> unit_lower(unit) == unit_lower((unit + 32) as u16) && unit_lower(unit)
            == unit + 32,
        unit < 65 || unit > 90 ==> unit_lower(unit) == unit,
{
}

/// The programs and the window classes known to be drawn without windows of
/// their own are recognised.
pub proof fn law_windowless_programs_are_known(name: Seq<u16>)
    ensures
        spells(name, "notepad.exe"@) ==> xaml_executable(name),
        spells(name, "calculatorapp.exe"@) ==> xaml_executable(name),
        spells(name, "calc.exe"@) ==> xaml_executable(name),
        spells(name, "applicationframehost.exe"@) ==> xaml_executable(name),
        spells(name, "photos.exe"@) ==> xaml_executable(name),
        spells(name, "systemsettings.exe"@) ==> xaml_executable(name),
        xaml_class("ApplicationFrameWindow"@),
        xaml_class("WinUIDesktopWin32WindowClass"@),
        xaml_class("Windows.UI.Core.CoreWindow"@),
        xaml_class("Microsoft.UI.Content.DesktopChildSiteBridge"@),
{
}

/// An element is pressed by the pattern of its kind: a check box is toggled, a
/// tab or a radio button selected, a menu opened or closed by its state, and the
/// others invoked, each where it has that pattern.
pub proof fn law_elements_are_pressed_by_their_kind(p: Patterns)
    ensures
        p.kind is CheckBox ==> press_of(p) == (if p.toggle {
            Some(Press::Toggle)
        } else {
            None
        }),
        p.kind is TabItem || p.kind is RadioButton ==> press_of(p) == (if p.select {
            Some(Press::Select)
        } else {
            None
        }),
        p.kind is Button || p.kind is Hyperlink ==> press_of(p) == (if p.invoke {
            Some(Press::Invoke)
        } else {
            None
        }),
        p.kind is MenuItem && p.expand == Some(ExpandState::Expanded) ==> press_of(p) == Some(
            Press::Collapse,
        ),
        p.kind is MenuItem && (p.expand == Some(ExpandState::Collapsed) || p.expand == Some(
            ExpandState::PartiallyExpanded,
        )) ==> press_of(p) == Some(Press::Expand),
        p.kind is MenuItem && (p.expand is None || p.expand == Some(ExpandState::Leaf) || p.expand
            == Some(ExpandState::Unknown)) ==> press_of(p) == (if p.invoke {
            Some(Press::Invoke)
        } else {
            None
        }),
        !positionless(p.kind) ==> press_of(p) is None,
{
}

/// Each pattern of an element is offered as its action, and no other is.
pub proof fn law_patterns_are_offered(p: Patterns)
    ensures
        offered(p).contains(Action::Invoke) <==> p.invoke,
        offered(p).contains(Action::Toggle) <==> p.toggle,
        offered(p).contains(Action::Select) <==> p.select,
        offered(p).contains(Action::ScrollIntoView) <==> p.scroll,
        offered(p).contains(Action::Expand) <==> p.expand is Some,
        offered(p).contains(Action::Collapse) <==> p.expand is Some,
        p.invoke || p.toggle || p.select || p.legacy_action ==> offered(p).contains(Action::Press),
{
    let none = Seq::<Action>::empty();
    let press = if p.invoke || p.toggle || p.select || p.legacy_action || (p.expand is Some
        && p.kind is MenuItem) {
        seq![Action::Press]
    } else {
        none
    };
    let invoke = if p.invoke {
        seq![Action::Invoke]
    } else {
        none
    };
    let toggle = if p.toggle {
        seq![Action::Toggle]
    } else {
        none
    };
    let expand = if p.expand is Some {
        seq![Action::Expand, Action::Collapse]
    } else {
        none
    };
    let select = if p.select {
        seq![Action::Select]
    } else {
        none
    };
    let scroll = if p.scroll {
        seq![Action::ScrollIntoView]
    } else {
        none
    };
    let all = offered(p);
    assert(all =~= press + invoke + toggle + expand + select + scroll);
    let a = press.len() as int;
    let b = a + invoke.len();
    let c = b + toggle.len();
    let d = c + expand.len();
    let e = d + select.len();
    if press.len() > 0 {
        assert(all[0] == Action::Press);
    }
    if p.invoke {
        assert(all[a] == Action::Invoke);
    }
    if p.toggle {
        assert(all[b] == Action::Toggle);
    }
    if p.expand is Some {
        assert(all[c] == Action::Expand);
        assert(all[c + 1] == Action::Collapse);
    }
    if p.select {
        assert(all[d] == Action::Select);
    }
    if p.scroll {
        assert(all[e] == Action::ScrollIntoView);
    }
    assert forall|i: int| 0 <= i < all.len() implies match #[trigger] all[i] {
        Action::Press => true,
        Action::Invoke => p.invoke,
        Action::Toggle => p.toggle,
        Action::Expand => p.expand is Some,
        Action::Collapse => p.expand is Some,
        Action::Select => p.select,
        Action::ScrollIntoView => p.scroll,
    } by {
        if i < a {
            assert(all[i] == press[i]);
        } else if i < b {
            assert(all[i] == invoke[i - a]);
        } else if i < c {
            assert(all[i] == toggle[i - b]);
        } else if i < d {
            assert(all[i] == expand[i - c]);
        } else if i < e {
            assert(all[i] == select[i - d]);
        } else {
            assert(all[i] == scroll[i - e]);
        }
    }
}

/// An action asked for by its own name is performed by its own pattern.
pub proof fn law_actions_use_their_own_pattern(p: Patterns)
    ensures
        p.invoke ==> performed(p, Action::Invoke) == Some(Press::Invoke),
        p.toggle ==> performed(p, Action::Toggle) == Some(Press::Toggle),
        p.select ==> performed(p, Action::Select) == Some(Press::Select),
        p.scroll ==> performed(p, Action::ScrollIntoView) == Some(Press::Scroll),
        p.expand is Some ==> performed(p, Action::Expand) == Some(Press::Expand) && performed(
            p,
            Action::Collapse,
        ) == Some(Press::Collapse),
        press_of(p) is Some ==> performed(p, Action::Press) == press_of(p),
        press_of(p) is None && p.invoke ==> performed(p, Action::Press) == Some(Press::Invoke),
        press_of(p) is None && !p.invoke && p.toggle ==> performed(p, Action::Press) == Some(
            Press::Toggle,
        ),
        press_of(p) is None && !p.invoke && !p.toggle && p.select ==> performed(p, Action::Press)
            == Some(Press::Select),
{
}

/// An element under the point that can be pressed, is enabled and on screen is
/// pressed; a label or a picture hands the touch to its parent, up to eight
/// times.
pub proof fn law_pressable_elements_are_pressed(e: Element, x: i32, y: i32, seen: u32)
    requires
        e.hosted && e.visible,
    ensures
        seen >= 8 ==> touched(e, x, y, seen) == Touch::Leave,
        seen < 8 && press_of(e.patterns) is Some && e.enabled && !e.offscreen && e.left <= x < e.right && e.top
            <= y < e.bottom ==> touched(e, x, y, seen) == Touch::Press(press_of(e.patterns)->0),
        seen < 8 && press_of(e.patterns) is None && !e.window && (e.patterns.kind is Text
            || e.patterns.kind is Image) ==> touched(e, x, y, seen) == Touch::Parent,
{
}

/// An attribute of up to two hundred characters is shown whole, and of a longer
/// one the first hundred and ninety-nine and an ellipsis.
pub proof fn law_long_attributes_are_cut(text: Seq<char>)
    ensures
        text.len() <= 200 ==> shortened(text) == text,
        text.len() > 200 ==> {
            &&& shortened(text).len() == 200
            &&& shortened(text).take(199) == text.take(199)
            &&& shortened(text).last() == '\u{2026}'
        },
{
    if text.len() > 200 {
        assert(shortened(text).take(199) =~= text.take(199));
    }
}

/// Every attribute that could be read is shown under its own name, in order, and
/// no other.
pub proof fn law_read_attributes_are_shown(read: Seq<(String, Option<String>)>, n: int)
    requires
        0 <= n < read.len(),
    ensures
        present(read, 0).len() == 0,
        read[n].1 is None ==> present(read, n + 1) == present(read, n),
        read[n].1 is Some ==> {
            let all = present(read, n + 1);
            &&& all.drop_last() == present(read, n)
            &&& all.len() == present(read, n).len() + 1
            &&& all.last().0 == read[n].0@
            &&& all.last().1 == shortened((read[n].1->0)@)
        },
{
    if read[n].1 is Some {
        assert(present(read, n + 1).drop_last() =~= present(read, n));
    }
}

/// The window looked for is the first whose id is the number.
pub proof fn law_windows_are_found_by_number(ids: Seq<String>, address: u64, i: int, p: int)
    requires
        0 <= i <= p <= ids.len(),
        forall|k: int|
            i <= k < p ==> number((#[trigger] ids[k])@, 10, u64::MAX as int) != Some(address as int),
    ensures
        p < ids.len() && number(ids[p]@, 10, u64::MAX as int) == Some(address as int) ==> window_at(
            ids,
            address,
            i,
        ) == Some(p),
        p == ids.len() ==> window_at(ids, address, i) is None,
    decreases p - i,
{
    if i < p {
        assert(number(ids[i]@, 10, u64::MAX as int) != Some(address as int));
        law_windows_are_found_by_number(ids, address, i + 1, p);
    }
}

/// The window that hosts an element is the first native one above it, within
/// sixty-four levels.
pub proof fn law_the_nearest_native_window_hosts(roots: Seq<Option<u64>>, i: int, p: int)
    requires
        0 <= i <= p <= roots.len(),
        forall|k: int| i <= k < p ==> #[trigger] roots[k] is None,
    ensures
        p < roots.len() && p < 64 && roots[p] is Some ==> first_native(roots, i) == roots[p],
        p == roots.len() || p >= 64 ==> first_native(roots, i) is None,
    decreases p - i,
{
    if i < p {
        assert(roots[i] is None);
        law_the_nearest_native_window_hosts(roots, i + 1, p);
    }
}

} // verus!
