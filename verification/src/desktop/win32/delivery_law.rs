//! What reaches which window, and where the displays lie.

use vstd::prelude::*;

use super::delivery::{drop_reason, longer_than, EventKind, TargetTraits};
use super::geometry::{
    bottom_end, layout_of, left_end, right_end, top_end, DesktopDisplay,
};
use crate::strings::stands_at;

verus! {

/// A window of Chromium itself.
pub open spec fn is_browser(c: Seq<char>) -> bool {
    ||| longer_than(c, "Chrome_WidgetWin_"@)
    ||| stands_at(c, "CefBrowser"@, 0)
    ||| c == "Chrome_RenderWidgetHostHWND"@
}

/// A posted click is ignored by Chromium, UWP, WinUI 3, WPF, Tk and GTK, and by
/// no other.
pub proof fn law_posted_clicks(target: TargetTraits<'_>)
    ensures
        drop_reason(target, EventKind::MouseClick) is Some <==> {
            let c = target.class@;
            ||| is_browser(c)
            ||| c == "ApplicationFrameWindow"@
            ||| c == "Windows.UI.Core.CoreWindow"@
            ||| c == "WinUIDesktopWin32WindowClass"@
            ||| longer_than(c, "HwndWrapper["@) && c.last() == ']'
            ||| c == "TkTopLevel"@
            ||| longer_than(c, "TkTopLevel."@)
            ||| longer_than(c, "gdkWindow"@)
            ||| longer_than(c, "gdkSurface"@)
        },
{
}

/// A posted move is ignored by Chromium, also below the window, by UWP, WinUI 3
/// and WPF, and by no other.
pub proof fn law_posted_moves(target: TargetTraits<'_>)
    ensures
        drop_reason(target, EventKind::MouseMove) is Some <==> {
            let c = target.class@;
            ||| is_browser(c)
            ||| target.chromium_descendant
            ||| c == "ApplicationFrameWindow"@
            ||| c == "Windows.UI.Core.CoreWindow"@
            ||| c == "WinUIDesktopWin32WindowClass"@
            ||| longer_than(c, "HwndWrapper["@) && c.last() == ']'
        },
{
}

/// A posted turn of the wheel is ignored by Chromium, also below the window, and
/// by WinUI 3, and by no other.
pub proof fn law_posted_scrolls(target: TargetTraits<'_>)
    ensures
        drop_reason(target, EventKind::MouseScroll) is Some <==> {
            let c = target.class@;
            ||| is_browser(c)
            ||| target.chromium_descendant
            ||| c == "WinUIDesktopWin32WindowClass"@
        },
{
}

/// A posted key is ignored by Chromium, hosts of XAML, WPF in the background, Tk
/// and VCL, and by no other; a chord also by a renderer below the window.
pub proof fn law_posted_keys(target: TargetTraits<'_>)
    ensures
        drop_reason(target, EventKind::Keystroke) is Some <==> {
            let c = target.class@;
            ||| is_browser(c)
            ||| target.xaml_host
            ||| !target.foreground && longer_than(c, "HwndWrapper["@) && c.last() == ']'
            ||| c == "TkTopLevel"@
            ||| longer_than(c, "TkTopLevel."@)
            ||| longer_than(c, "SAL"@)
        },
        drop_reason(target, EventKind::KeyCombo) is Some <==> target.chromium_descendant
            || drop_reason(target, EventKind::Keystroke) is Some,
{
}

/// Posted text is ignored by Chromium, hosts of XAML, WPF, Tk, and by terminals
/// in the background, and by no other.
pub proof fn law_posted_text(target: TargetTraits<'_>)
    ensures
        drop_reason(target, EventKind::TextInput) is Some <==> {
            let c = target.class@;
            ||| is_browser(c)
            ||| target.xaml_host
            ||| longer_than(c, "HwndWrapper["@) && c.last() == ']'
            ||| c == "TkTopLevel"@
            ||| longer_than(c, "TkTopLevel."@)
            ||| !target.foreground && {
                ||| stands_at(c, "CASCADIA_HOSTING_WINDOW_CLASS"@, 0)
                ||| stands_at(c, "ConsoleWindowClass"@, 0)
                ||| stands_at(c, "mintty"@, 0)
                ||| stands_at(c, "nvim"@, 0)
                ||| stands_at(c, "Vim"@, 0)
            }
        },
{
}

proof fn lemma_ends(d: Seq<DesktopDisplay>, k: int)
    requires
        0 <= k <= d.len(),
    ensures
        forall|i: int|
            0 <= i < k ==> left_end(d, k) <= (#[trigger] d[i]).x && top_end(d, k) <= d[i].y
                && d[i].x + d[i].width <= right_end(d, k) && d[i].y + d[i].height <= bottom_end(d, k),
        k > 0 && (forall|i: int| 0 <= i < k ==> (#[trigger] d[i]).x < i32::MAX) ==> exists|i: int|
            0 <= i < k && (#[trigger] d[i]).x == left_end(d, k),
        k > 0 && (forall|i: int| 0 <= i < k ==> (#[trigger] d[i]).y < i32::MAX) ==> exists|i: int|
            0 <= i < k && (#[trigger] d[i]).y == top_end(d, k),
        k == 0 || right_end(d, k) == i64::MIN || exists|i: int|
            0 <= i < k && (#[trigger] d[i]).x + d[i].width == right_end(d, k),
        k == 0 || bottom_end(d, k) == i64::MIN || exists|i: int|
            0 <= i < k && (#[trigger] d[i]).y + d[i].height == bottom_end(d, k),
    decreases k,
{
    if k > 0 {
        lemma_ends(d, k - 1);
        if k == 1 {
            assert(d[0].x == d[0].x);
        }
        if d[k - 1].x < left_end(d, k - 1) {
            assert(d[k - 1].x == left_end(d, k));
        }
        if d[k - 1].y < top_end(d, k - 1) {
            assert(d[k - 1].y == top_end(d, k));
        }
        if d[k - 1].x + d[k - 1].width > right_end(d, k - 1) {
            assert(d[k - 1].x + d[k - 1].width == right_end(d, k));
        }
        if d[k - 1].y + d[k - 1].height > bottom_end(d, k - 1) {
            assert(d[k - 1].y + d[k - 1].height == bottom_end(d, k));
        }
    }
}

/// The picture of the desktop is the smallest rectangle around the displays:
/// every display lies in it, and each of its sides is the side of a display.
pub proof fn law_picture_just_holds_the_displays(d: Seq<DesktopDisplay>, max_pixels: u64)
    requires
        layout_of(d, max_pixels) is Ok,
    ensures
        ({
            let l = layout_of(d, max_pixels)->Ok_0;
            &&& d.len() > 0
            &&& l.width * l.height <= max_pixels
            &&& forall|i: int|
                0 <= i < d.len() ==> l.left <= (#[trigger] d[i]).x && l.top <= d[i].y && d[i].x
                    + d[i].width <= l.left + l.width && d[i].y + d[i].height <= l.top + l.height
                    && d[i].width > 0 && d[i].height > 0
            &&& exists|i: int| 0 <= i < d.len() && (#[trigger] d[i]).x + d[i].width == l.left + l.width
            &&& exists|i: int|
                0 <= i < d.len() && (#[trigger] d[i]).y + d[i].height == l.top + l.height
            &&& (forall|i: int| 0 <= i < d.len() ==> (#[trigger] d[i]).x < i32::MAX) ==> exists|i: int|
                0 <= i < d.len() && (#[trigger] d[i]).x == l.left
            &&& (forall|i: int| 0 <= i < d.len() ==> (#[trigger] d[i]).y < i32::MAX) ==> exists|i: int|
                0 <= i < d.len() && (#[trigger] d[i]).y == l.top
        }),
{
    let n = d.len() as int;
    lemma_ends(d, n);
    lemma_left_bound(d, n);
}

proof fn lemma_left_bound(d: Seq<DesktopDisplay>, k: int)
    requires
        0 <= k <= d.len(),
    ensures
        i32::MIN <= left_end(d, k),
        i32::MIN <= top_end(d, k),
        k > 0 ==> left_end(d, k) <= i32::MAX && top_end(d, k) <= i32::MAX,
        k > 0 ==> right_end(d, k) >= i32::MIN && bottom_end(d, k) >= i32::MIN,
    decreases k,
{
    if k > 0 {
        lemma_left_bound(d, k - 1);
    }
}

} // verus!
