//! What a look at an element, a process or the focus gives.

use vstd::prelude::*;

use super::ax::{
    cut_to, id_at, is_listed, listed_from, match_of, native_action, replaced, surface_from,
    unit_index, window_from, ListedWindow, Match, Role, TextSurface,
};
use super::process::{chromium_bundle, terminal_bundle, tk_image, tk_stem, variant_of};
use super::skylight::{
    focus_bytes, guard_of, key_bytes, takes_back, window_byte, Activity, BackgroundFocusLease,
    BeforeAction, GuardStart, ProcessSerialNumber,
};
use crate::strings::{stands_at, trimmed};
use crate::strings_law::law_a_text_contains_its_parts;
use crate::unicode::{ascii_lower_all, utf16_len};

verus! {

proof fn lemma_units_rise(text: Seq<char>, a: int, b: int)
    requires
        0 <= a < b <= text.len(),
    ensures
        utf16_len(text.take(a)) < utf16_len(text.take(b)),
    decreases b - a,
{
    assert(text.take(b).drop_last() =~= text.take(b - 1));
    if a < b - 1 {
        lemma_units_rise(text, a, b - 1);
    }
}

proof fn lemma_unit_index(text: Seq<char>, i: int, a: int)
    requires
        0 <= i <= a <= text.len(),
    ensures
        unit_index(text, utf16_len(text.take(a)) as int, i) == Some(a),
    decreases a - i,
{
    if i < a {
        lemma_units_rise(text, i, a);
        lemma_unit_index(text, i + 1, a);
    }
}

/// A range that begins and ends between characters is replaced, whatever the
/// characters: what stands before and behind it stays.
pub proof fn law_ranges_between_characters_are_replaced(
    before: Seq<char>,
    range: Seq<char>,
    after: Seq<char>,
    text: Seq<char>,
)
    ensures
        replaced(
            before + range + after,
            utf16_len(before) as int,
            utf16_len(before + range) - utf16_len(before),
            text,
        ) == Some(before + text + after),
{
    let all = before + range + after;
    let a = before.len() as int;
    let b = a + range.len();
    assert(all.take(a) =~= before);
    assert(all.take(b) =~= before + range);
    assert(all.skip(b) =~= after);
    lemma_unit_index(all, 0, a);
    lemma_unit_index(all, 0, b);
    if a < b {
        lemma_units_rise(all, a, b);
    }
}

/// The surface is told by the nearest of the roles that tell it, within
/// forty levels: web content by its area, a native one by its window or
/// application.
pub proof fn law_the_nearest_role_tells_the_surface(roles: Seq<Option<Role>>, i: int, p: int)
    requires
        0 <= i <= p < roles.len(),
        p < 40,
        forall|k: int|
            i <= k < p ==> #[trigger] roles[k] is Some && roles[k] != Some(Role::WebArea)
                && roles[k] != Some(Role::Window) && roles[k] != Some(Role::Application),
    ensures
        roles[p] == Some(Role::WebArea) ==> surface_from(roles, i) == TextSurface::Web,
        roles[p] == Some(Role::Window) ==> surface_from(roles, i) == TextSurface::Native
            && window_from(roles, i) == Some(p),
        roles[p] == Some(Role::Application) ==> surface_from(roles, i) == TextSurface::Native
            && window_from(roles, i) is None,
        roles[p] is None ==> surface_from(roles, i) == TextSurface::Unknown && window_from(
            roles,
            i,
        ) is None,
    decreases p - i,
{
    if i < p {
        assert(roles[i] is Some && roles[i] != Some(Role::WebArea) && roles[i] != Some(Role::Window)
            && roles[i] != Some(Role::Application));
        law_the_nearest_role_tells_the_surface(roles, i + 1, p);
    }
}

/// One fit is the match, two are several, and none is missing.
pub proof fn law_a_match_is_the_only_fit(fits: Seq<bool>, k: int)
    requires
        0 <= k <= fits.len() <= usize::MAX,
    ensures
        match match_of(fits, k) {
            Match::Missing => forall|i: int| 0 <= i < k ==> !#[trigger] fits[i],
            Match::Only(at) => at < k && fits[at as int] && forall|i: int|
                0 <= i < k && i != at ==> !#[trigger] fits[i],
            Match::Several => exists|i: int, j: int|
                0 <= i < j < k && #[trigger] fits[i] && #[trigger] fits[j],
        },
    decreases k,
{
    if k > 0 {
        law_a_match_is_the_only_fit(fits, k - 1);
        if fits[k - 1] {
            if let Match::Only(at) = match_of(fits, k - 1) {
                assert(fits[at as int] && fits[k - 1]);
            }
        }
    }
}

/// The element found by its id is the first that has it.
pub proof fn law_the_first_id_is_found(ids: Seq<Option<u32>>, id: u32, i: int, p: int)
    requires
        0 <= i <= p <= ids.len(),
        forall|k: int| i <= k < p ==> #[trigger] ids[k] != Some(id),
        p < ids.len() ==> ids[p] == Some(id),
    ensures
        id_at(ids, id, i) == (if p < ids.len() {
            Some(p)
        } else {
            None
        }),
    decreases p - i,
{
    if i < p {
        assert(ids[i] != Some(id));
        law_the_first_id_is_found(ids, id, i + 1, p);
    }
}

/// The window found in the list is the first with the number and the process.
pub proof fn law_the_first_listed_window_is_found(
    list: Seq<ListedWindow>,
    wid: u32,
    pid: i32,
    i: int,
    p: int,
)
    requires
        0 <= i <= p <= list.len(),
        forall|k: int| i <= k < p ==> !is_listed(#[trigger] list[k], wid, pid),
        p < list.len() ==> is_listed(list[p], wid, pid),
    ensures
        listed_from(list, wid, pid, i) == (if p < list.len() {
            Some(p)
        } else {
            None
        }),
        p < list.len() ==> list[p].pid is Some && list[p].pid->0 == pid,
    decreases p - i,
{
    if i < p {
        assert(!is_listed(list[i], wid, pid));
        law_the_first_listed_window_is_found(list, wid, pid, i + 1, p);
    }
}

/// The common actions are known by their words in any case and with white space
/// around them; any other is taken by its native name, with its mark put in
/// front where it lacks it.
pub proof fn law_actions_are_known_by_their_words(action: Seq<char>)
    ensures
        ({
            let word = ascii_lower_all(trimmed(action));
            &&& word == "press"@ ==> native_action(action) == "AXPress"@
            &&& word == "raise"@ ==> native_action(action) == "AXRaise"@
            &&& word == "showmenu"@ ==> native_action(action) == "AXShowMenu"@
            &&& word == "show_menu"@ ==> native_action(action) == "AXShowMenu"@
            &&& stands_at(native_action(action), "AX"@, 0)
            &&& word != "press"@ && word != "raise"@ && word != "showmenu"@ && word != "show_menu"@
                ==> native_action(action) == action || native_action(action) == "AX"@ + action
        }),
{
    reveal_strlit("press");
    reveal_strlit("raise");
    reveal_strlit("showmenu");
    reveal_strlit("show_menu");
    reveal_strlit("AX");
    reveal_strlit("AXPress");
    reveal_strlit("AXRaise");
    reveal_strlit("AXShowMenu");
    let ax = "AX"@;
    assert("press"@[0] != "raise"@[0]);
    assert("showmenu"@[0] != "press"@[0] && "showmenu"@[0] != "raise"@[0]);
    assert("show_menu"@[0] != "press"@[0] && "show_menu"@[0] != "raise"@[0]);
    assert("AXPress"@.subrange(0, 2) =~= ax);
    assert("AXRaise"@.subrange(0, 2) =~= ax);
    assert("AXShowMenu"@.subrange(0, 2) =~= ax);
    assert((ax + action).subrange(0, 2) =~= ax);
}

/// A text is cut to the length asked for, with an ellipsis for its last
/// character, and one that fits stays whole.
pub proof fn law_long_values_are_cut(text: Seq<char>, max: int)
    requires
        0 < max,
    ensures
        text.len() <= max ==> cut_to(text, max) == text,
        text.len() > max ==> {
            &&& cut_to(text, max).len() == max
            &&& cut_to(text, max).drop_last() == text.take(max - 1)
            &&& cut_to(text, max).last() == '\u{2026}'
        },
{
    if text.len() > max {
        assert(cut_to(text, max).drop_last() =~= text.take(max - 1));
    }
}

proof fn lemma_variant(base: Seq<char>, rest: Seq<char>)
    ensures
        variant_of(base, base),
        variant_of(base.push('.') + rest, base),
{
    let bundle = base.push('.') + rest;
    assert(bundle.subrange(0, base.len() as int) =~= base);
}

/// The browsers built on Chromium are known, and their channels with them.
pub proof fn law_chromium_browsers_and_their_channels_are_known(rest: Seq<char>)
    ensures
        chromium_bundle("com.google.Chrome"@),
        chromium_bundle("com.google.Chrome"@.push('.') + rest),
        chromium_bundle("org.chromium.Chromium"@.push('.') + rest),
        chromium_bundle("com.brave.Browser"@.push('.') + rest),
        chromium_bundle("com.microsoft.edgemac"@.push('.') + rest),
        chromium_bundle("company.thebrowser.Browser"@.push('.') + rest),
        chromium_bundle("com.vivaldi.Vivaldi"@.push('.') + rest),
        chromium_bundle("com.operasoftware.Opera"@.push('.') + rest),
{
    lemma_variant("com.google.Chrome"@, rest);
    lemma_variant("org.chromium.Chromium"@, rest);
    lemma_variant("com.brave.Browser"@, rest);
    lemma_variant("com.microsoft.edgemac"@, rest);
    lemma_variant("company.thebrowser.Browser"@, rest);
    lemma_variant("com.vivaldi.Vivaldi"@, rest);
    lemma_variant("com.operasoftware.Opera"@, rest);
}

/// A bundle is a variant of another only by being it or by a dot behind it.
pub proof fn law_variants_have_a_dot_behind_the_name(base: Seq<char>, c: char, rest: Seq<char>)
    requires
        c != '.',
    ensures
        !variant_of(base.push(c) + rest, base),
{
    let bundle = base.push(c) + rest;
    assert(bundle.len() > base.len());
    assert(bundle[base.len() as int] == c);
}

/// The terminals are known by their bundles.
pub proof fn law_terminals_are_known()
    ensures
        terminal_bundle("co.zeit.hyper"@),
        terminal_bundle("com.apple.Terminal"@),
        terminal_bundle("com.github.wez.wezterm"@),
        terminal_bundle("com.googlecode.iterm2"@),
        terminal_bundle("com.mitchellh.ghostty"@),
        terminal_bundle("dev.warp.Warp-Stable"@),
        terminal_bundle("dev.zed.Zed.Helper"@),
        terminal_bundle("io.alacritty"@),
        terminal_bundle("net.kovidgoyal.kitty"@),
        terminal_bundle("org.alacritty"@),
{
}

/// A process with the Tk framework among its images is one of Tk's.
pub proof fn law_the_tk_framework_is_found(before: Seq<char>, after: Seq<char>)
    ensures
        tk_image(before + "/Tk.framework/"@ + after),
{
    law_a_text_contains_its_parts(before, "/Tk.framework/"@, after);
}

/// A library of Tk has its version right behind the name.
pub proof fn law_tk_libraries_carry_a_version(d: char, rest: Seq<char>)
    requires
        rest.len() == 0 || !('0' <= rest[0] <= '9'),
    ensures
        '0' <= d <= '9' ==> tk_stem(seq!['t', 'k', d] + rest),
        !('0' <= d <= '9') ==> !tk_stem(seq!['t', 'k', d] + rest),
        !tk_stem(seq!['t', 'k']),
{
    reveal_strlit("tk");
    reveal_strlit("tcl");
    let stem = seq!['t', 'k', d] + rest;
    assert(stem.subrange(0, 2) =~= "tk"@);
    if stands_at(stem, "tcl"@, 0) {
        assert(stem.subrange(0, 3)[1] == "tcl"@[1]);
    }
    let bare = seq!['t', 'k'];
    assert(!stands_at(bare, "tcl"@, 0));
}

/// The focus is given up once another process came to the front, once the one
/// that was there has another key window, and once something was done by hand
/// while the target is in front; otherwise it is held.
pub proof fn law_a_lease_ends_with_the_users_doing(
    lease: BackgroundFocusLease,
    front: ProcessSerialNumber,
    key: Option<u32>,
    activity: Activity,
)
    ensures
        front != lease.previous && front != lease.target ==> lease.given_up(front, key, activity),
        front == lease.previous && key is Some && key->0 != lease.key ==> lease.given_up(
            front,
            key,
            activity,
        ),
        front == lease.target && activity != lease.activity ==> lease.given_up(
            front,
            key,
            activity,
        ),
        !lease.disarmed && front == lease.previous && front != lease.target && (key is None || key->0
            == lease.key) ==> !lease.given_up(front, key, activity),
        !lease.disarmed && front == lease.target && front != lease.previous && activity
            == lease.activity ==> !lease.given_up(front, key, activity),
{
}

/// A background action is guarded when another process is in front and both are
/// known; on the process in front it is plain, and without knowing who is in
/// front it is refused.
pub proof fn law_background_actions_are_guarded(b: BeforeAction, pid: i32)
    ensures
        b.front is None ==> guard_of(b, pid) == GuardStart::Refuse,
        b.front is Some && b.front_pid == Some(pid) ==> guard_of(b, pid) == GuardStart::Plain,
        b.front is Some && b.front_pid != Some(pid) && (b.front_pid is None || b.target is None
            || b.key is None) ==> guard_of(b, pid) == GuardStart::Refuse,
        b.front is Some && b.front_pid is Some && b.front_pid != Some(pid) && b.target is Some
            && b.key is Some ==> (guard_of(b, pid) matches GuardStart::Guard(lease)
            && lease.previous == b.front->0 && lease.target == b.target->0 && lease.key == b.key->0
            && lease.activity == b.activity && !lease.disarmed),
{
}

/// The focus is taken back from a target in front that still has the window, and
/// from one that a failed action left as it was.
pub proof fn law_what_was_taken_is_taken_back(
    target: ProcessSerialNumber,
    key_now: Option<u32>,
    key_before: Option<u32>,
    wid: u32,
    failed: bool,
)
    ensures
        key_now is None ==> takes_back(target, target, key_now, key_before, wid, failed),
        key_now == Some(wid) ==> takes_back(target, target, key_now, key_before, wid, failed),
        key_now == key_before ==> takes_back(target, target, key_now, key_before, wid, true),
        key_now is Some && key_now->0 != wid && key_now != key_before ==> !takes_back(
            target,
            target,
            key_now,
            key_before,
            wid,
            failed,
        ),
{
}

/// An event record has two hundred and forty-eight bytes and holds the window's
/// number, the lowest byte first, at its place; a record of the focus holds its
/// mark, one of the keys its kind.
pub proof fn law_event_records_name_their_window(wid: u32, value: u8)
    ensures
        window_byte(wid, 0) + 256 * window_byte(wid, 1) + 65536 * window_byte(wid, 2) + 16777216
            * window_byte(wid, 3) == wid,
        focus_bytes(wid, value).len() == 248,
        key_bytes(wid, value).len() == 248,
        forall|i: int|
            0 <= i < 4 ==> #[trigger] window_byte(wid, i) == focus_bytes(wid, value)[0x3c + i]
                && window_byte(wid, i) == key_bytes(wid, value)[0x3c + i],
        focus_bytes(wid, value)[0x04] == 0xf8,
        focus_bytes(wid, value)[0x08] == 0x0d,
        focus_bytes(wid, value)[0x8a] == value,
        key_bytes(wid, value)[0x04] == 0xf8,
        key_bytes(wid, value)[0x08] == value,
        key_bytes(wid, value)[0x3a] == 0x10,
        forall|i: int| 0x20 <= i < 0x30 ==> #[trigger] key_bytes(wid, value)[i] == 0xff,
{
}

} // verus!
