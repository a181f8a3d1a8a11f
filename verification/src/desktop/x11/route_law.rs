//! Which way input takes, when a takeover is given up and undone, and what a
//! session and its programs say about themselves.

use vstd::prelude::*;

use super::input::{
    key_way, pointer_way, restoring, Activation, AfterTakeover, Poll, Reach, Refusal, Restore, Route,
};
use super::toolkit::{
    after_colon, core_maps, dropping_class, dropping_maps, filled, helper_cmdline, kde_on_x11,
    needs_core, number_of_display, pids_of, probe_result, says, static_server, switch_at,
};
use crate::desktop::keys::DeliveryMode;
use crate::strings::{contains_text, digits_value, number, trimmed};
use crate::strings_law::{law_a_text_contains_its_parts, law_parts_end_at_the_separators};
use crate::unicode::ascii_lower_all;

verus! {

/// Input without a window goes to the desktop, input that may take the focus
/// takes it, and background input takes the virtual pair where there is one and
/// the window does not need the core devices, and else a sent event, which is
/// refused exactly where the window would drop it.
pub proof fn law_background_input_takes_the_way_that_arrives(
    window: Option<u32>,
    mode: DeliveryMode,
    reach: Reach,
)
    ensures
        window is None ==> pointer_way(window, mode, reach) == Route::Desktop,
        window is Some && mode == DeliveryMode::Foreground ==> pointer_way(window, mode, reach)
            == Route::Takeover,
        window is Some && mode == DeliveryMode::Background ==> {
            let way = pointer_way(window, mode, reach);
            &&& way == Route::VirtualPair <==> reach.pair && !reach.needs_core
            &&& way == Route::SendEvent <==> !reach.drops_synthetic && (reach.needs_core
                || !reach.pair)
            &&& way == Route::Refuse(Refusal::NeedsCore) <==> reach.drops_synthetic
                && reach.needs_core
            &&& way == Route::Refuse(Refusal::DropsSynthetic) <==> reach.drops_synthetic
                && !reach.needs_core && !reach.pair
        },
{
}

/// Keys go the way the pointer goes; an open popup of another program, which
/// holds the keyboard, refuses those of the virtual pair and no others.
pub proof fn law_keys_follow_the_pointer(
    window: Option<u32>,
    mode: DeliveryMode,
    reach: Reach,
    popup: u32,
)
    ensures
        key_way(window, mode, reach, None) == pointer_way(window, mode, reach),
        pointer_way(window, mode, reach) != Route::VirtualPair ==> key_way(
            window,
            mode,
            reach,
            Some(popup),
        ) == pointer_way(window, mode, reach),
        pointer_way(window, mode, reach) == Route::VirtualPair ==> key_way(
            window,
            mode,
            reach,
            Some(popup),
        ) == Route::Refuse(Refusal::Popup(popup)),
{
}

/// A wait for the focus ends at once when it comes, whatever the time, and in
/// failure exactly when the budget is spent; it asks again at most once, from
/// two fifths of the budget on.
pub proof fn law_waits_for_the_focus_end(poll: Activation, elapsed: u64)
    ensures
        poll.next(true, elapsed) == Poll::Confirmed,
        poll.next(false, elapsed) == Poll::GiveUp <==> elapsed >= poll.budget,
        poll.next(false, elapsed) == Poll::AskAgain ==> !poll.retried && 2 * poll.budget <= 5
            * elapsed,
        !poll.retried && elapsed < poll.budget && 2 * poll.budget <= 5 * elapsed ==> poll.next(
            false,
            elapsed,
        ) == Poll::AskAgain,
        poll.retried && elapsed < poll.budget ==> poll.next(false, elapsed) == Poll::Wait,
{
}

/// What a takeover took is given back: the window that was active before, or,
/// without a window manager, the focus that was held before, as long as the
/// target still has what it took.
pub proof fn law_takeovers_are_undone(a: AfterTakeover)
    ensures
        a.ewmh && a.focus_within && a.active == Some(a.window) && a.previous_active is Some
            && a.previous_active != Some(a.window) ==> restoring(a) == Restore::Activate(
            a.previous_active->0,
        ),
        a.ewmh && a.previous_active is None ==> restoring(a) == Restore::Nothing,
        a.ewmh && a.previous_active == Some(a.window) ==> restoring(a) == Restore::Nothing,
        !a.ewmh && a.focus_within && a.previous_focus is Some && a.previous_focus->0 >= 2
            ==> restoring(a) == Restore::Focus(a.previous_focus->0),
        !a.ewmh && a.previous_focus is Some && a.previous_focus->0 < 2 ==> restoring(a)
            == Restore::Nothing,
{
}

/// A Wayland session is never taken for KDE on X11, an X11 one exactly when it
/// names KDE; a session that names neither goes by which display is there.
pub proof fn law_sessions_are_told_apart(
    session: Option<Seq<char>>,
    kde: bool,
    display: Option<Seq<char>>,
    wayland: Option<Seq<char>>,
)
    ensures
        !kde ==> !kde_on_x11(session, kde, display, wayland),
        says(session, "wayland"@) ==> !kde_on_x11(session, kde, display, wayland),
        !says(session, "wayland"@) && says(session, "x11"@) ==> kde_on_x11(
            session,
            kde,
            display,
            wayland,
        ) == kde,
        !says(session, "wayland"@) && !says(session, "x11"@) ==> kde_on_x11(
            session,
            kde,
            display,
            wayland,
        ) == (kde && filled(display) && !filled(wayland)),
{
}

/// The virtual pair is allowed exactly where the session, the device node, the
/// server, its vendor and the extension's version all allow it.
pub proof fn law_a_probe_passes_when_all_is_well(
    kde: bool,
    writable: bool,
    server: Option<Seq<char>>,
    vendor: Seq<char>,
    major: u16,
    minor: u16,
)
    ensures
        probe_result(kde, writable, server, vendor, None) is Err,
        probe_result(kde, writable, server, vendor, Some((major, minor))) is Ok <==> {
            &&& !kde
            &&& writable
            &&& server is None || !static_server(server->0)
            &&& !contains_text(ascii_lower_all(vendor), "tigervnc"@)
            &&& major >= 3 || (major == 2 && minor >= 2)
        },
        static_server("Xvfb"@),
        static_server("Xvnc"@),
        static_server("Xtigervnc"@),
{
}

proof fn lemma_lower_concat(a: Seq<char>, b: Seq<char>)
    ensures
        ascii_lower_all(a + b) == ascii_lower_all(a) + ascii_lower_all(b),
{
    assert(ascii_lower_all(a + b) =~= ascii_lower_all(a) + ascii_lower_all(b));
}

proof fn lemma_holds_lower(before: Seq<char>, word: Seq<char>, after: Seq<char>)
    requires
        ascii_lower_all(word) == word,
    ensures
        contains_text(ascii_lower_all(before + word + after), word),
{
    lemma_lower_concat(before + word, after);
    lemma_lower_concat(before, word);
    law_a_text_contains_its_parts(ascii_lower_all(before), word, ascii_lower_all(after));
}

/// A window class that holds the name of a toolkit, a browser or a terminal that
/// ignores sent events drops them, wherever in the class it stands.
pub proof fn law_classes_of_dropping_toolkits_drop(before: Seq<char>, after: Seq<char>)
    ensures
        dropping_class(before + "gtk"@ + after),
        dropping_class(before + "gdk"@ + after),
        dropping_class(before + "qt"@ + after),
        dropping_class(before + "chrome"@ + after),
        dropping_class(before + "chromium"@ + after),
        dropping_class(before + "firefox"@ + after),
        dropping_class(before + "mozilla"@ + after),
        dropping_class(before + "xterm"@ + after),
        dropping_class(ascii_lower_all(before)) == dropping_class(before),
{
    reveal_strlit("gtk");
    reveal_strlit("gdk");
    reveal_strlit("qt");
    reveal_strlit("chrome");
    reveal_strlit("chromium");
    reveal_strlit("firefox");
    reveal_strlit("mozilla");
    reveal_strlit("xterm");
    assert(ascii_lower_all("gtk"@) =~= "gtk"@);
    assert(ascii_lower_all("gdk"@) =~= "gdk"@);
    assert(ascii_lower_all("qt"@) =~= "qt"@);
    assert(ascii_lower_all("chrome"@) =~= "chrome"@);
    assert(ascii_lower_all("chromium"@) =~= "chromium"@);
    assert(ascii_lower_all("firefox"@) =~= "firefox"@);
    assert(ascii_lower_all("mozilla"@) =~= "mozilla"@);
    assert(ascii_lower_all("xterm"@) =~= "xterm"@);
    lemma_holds_lower(before, "gtk"@, after);
    lemma_holds_lower(before, "gdk"@, after);
    lemma_holds_lower(before, "qt"@, after);
    lemma_holds_lower(before, "chrome"@, after);
    lemma_holds_lower(before, "chromium"@, after);
    lemma_holds_lower(before, "firefox"@, after);
    lemma_holds_lower(before, "mozilla"@, after);
    lemma_holds_lower(before, "xterm"@, after);
    assert(ascii_lower_all(ascii_lower_all(before)) =~= ascii_lower_all(before));
}

/// A process that has mapped one of the libraries that ignore sent events drops
/// them.
pub proof fn law_libraries_that_drop_are_found(before: Seq<char>, after: Seq<char>)
    ensures
        dropping_maps(before + "libgtk-3.so"@ + after),
        dropping_maps(before + "libgtk-4.so"@ + after),
        dropping_maps(before + "libvcl"@ + after),
        dropping_maps(before + "libmergedlo"@ + after),
        dropping_maps(before + "libQt5Gui"@ + after),
        dropping_maps(before + "libQt6Gui"@ + after),
        dropping_maps(before + "libxul.so"@ + after),
        dropping_maps(before + "libcef.so"@ + after),
        core_maps(before + "/libtk8"@ + after),
        core_maps(before + "/libtk9"@ + after),
        core_maps(before + "/libXm.so"@ + after),
{
    law_a_text_contains_its_parts(before, "libgtk-3.so"@, after);
    law_a_text_contains_its_parts(before, "libgtk-4.so"@, after);
    law_a_text_contains_its_parts(before, "libvcl"@, after);
    law_a_text_contains_its_parts(before, "libmergedlo"@, after);
    law_a_text_contains_its_parts(before, "libQt5Gui"@, after);
    law_a_text_contains_its_parts(before, "libQt6Gui"@, after);
    law_a_text_contains_its_parts(before, "libxul.so"@, after);
    law_a_text_contains_its_parts(before, "libcef.so"@, after);
    law_a_text_contains_its_parts(before, "/libtk8"@, after);
    law_a_text_contains_its_parts(before, "/libtk9"@, after);
    law_a_text_contains_its_parts(before, "/libXm.so"@, after);
}

/// A process that has mapped a toolkit of the core devices needs them, whatever
/// its window's class.
pub proof fn law_core_libraries_need_the_core(class: Seq<char>, maps: Seq<char>)
    ensures
        core_maps(maps) ==> needs_core(class, Some(maps)),
        !core_maps(maps) ==> needs_core(class, Some(maps)) == needs_core(class, None),
{
}

/// A command line names a helper exactly where one of its words begins with
/// `--type=`.
pub proof fn law_helpers_are_named_at_a_word_start(before: Seq<u8>, after: Seq<u8>)
    ensures
        helper_cmdline(seq![45u8, 45, 116, 121, 112, 101, 61] + after),
        helper_cmdline(before.push(0) + seq![45u8, 45, 116, 121, 112, 101, 61] + after),
        before.len() < 7 ==> !helper_cmdline(before),
{
    let word = seq![45u8, 45, 116, 121, 112, 101, 61];
    let first = word + after;
    assert(first.subrange(0, 7) =~= word);
    assert(switch_at(first, 0));
    let later = before.push(0) + word + after;
    let at = before.len() as int + 1;
    assert(later.subrange(at, at + 7) =~= word);
    assert(later[at - 1] == 0);
    assert(switch_at(later, at));
}

/// The processes listed are the parts that are numbers, in order.
pub proof fn law_listed_processes_are_the_numbers(list: Seq<Seq<char>>, k: int, pid: u32)
    requires
        0 <= k <= list.len(),
    ensures
        pids_of(list, k).contains(pid) <==> exists|i: int|
            0 <= i < k && number(#[trigger] list[i], 10, u32::MAX as int) == Some(pid as int),
    decreases k,
{
    if k > 0 {
        law_listed_processes_are_the_numbers(list, k - 1, pid);
        let before = pids_of(list, k - 1);
        let all = pids_of(list, k);
        let last = number(list[k - 1], 10, u32::MAX as int);
        if before.contains(pid) {
            let j = choose|j: int| 0 <= j < before.len() && before[j] == pid;
            assert(all[j] == pid);
        }
        if last == Some(pid as int) {
            assert(all[before.len() as int] == pid);
        }
        if all.contains(pid) {
            let j = choose|j: int| 0 <= j < all.len() && all[j] == pid;
            if j < before.len() {
                assert(before[j] == pid);
            } else {
                assert(last == Some(pid as int)) by {
                    assert(last is Some);
                    lemma_number_bound(list[k - 1]);
                }
            }
        }
    }
}

proof fn lemma_digits_at_least_zero(text: Seq<char>)
    ensures
        digits_value(text, 10) matches Some(v) ==> v >= 0,
    decreases text.len(),
{
    if text.len() > 0 {
        lemma_digits_at_least_zero(text.drop_last());
    }
}

proof fn lemma_number_bound(text: Seq<char>)
    ensures
        number(text, 10, u32::MAX as int) matches Some(v) ==> 0 <= v <= u32::MAX,
{
    lemma_digits_at_least_zero(text);
    lemma_digits_at_least_zero(text.skip(1));
}

proof fn lemma_after_colon(text: Seq<char>, k: int, p: int)
    requires
        0 < p <= k <= text.len(),
        text[p - 1] == ':',
        forall|i: int| p <= i < k ==> #[trigger] text[i] != ':',
    ensures
        after_colon(text, k) == p,
    decreases k - p,
{
    if p < k {
        assert(text[k - 1] != ':');
        lemma_after_colon(text, k - 1, p);
    }
}

/// The number of a display stands between the last colon and the dot before the
/// screen, if there is one.
pub proof fn law_display_numbers_stand_behind_the_colon(
    host: Seq<char>,
    word: Seq<char>,
    screen: Seq<char>,
)
    requires
        !word.contains(':') && !word.contains('.'),
        !screen.contains(':'),
        trimmed(word) == word,
        word.len() > 0,
    ensures
        number_of_display(host.push(':') + word) == Some(word),
        number_of_display(host.push(':') + word + seq!['.'] + screen) == Some(word),
{
    let at = host.len() as int + 1;
    let bare = host.push(':') + word;
    let full = host.push(':') + word + seq!['.'] + screen;
    assert forall|i: int| at <= i < bare.len() implies #[trigger] bare[i] != ':' by {
        assert(word.contains(word[i - at]));
    }
    lemma_after_colon(bare, bare.len() as int, at);
    assert(bare.skip(at) =~= word);
    let seps = seq!['.'];
    assert forall|k: int| 0 <= k < word.len() implies !seps.contains(#[trigger] word[k]) by {
        assert(word.contains(word[k]));
    }
    law_parts_end_at_the_separators(word, seps, 0, word.len() as int);
    assert(word.subrange(0, word.len() as int) =~= word);
    assert forall|i: int| at <= i < full.len() implies #[trigger] full[i] != ':' by {
        if i < at + word.len() {
            assert(full[i] == word[i - at]);
            assert(word.contains(word[i - at]));
        } else if i > at + word.len() {
            let j = i - at - word.len() - 1;
            assert(full[i] == screen[j]);
            assert(screen.contains(screen[j]));
        }
    }
    lemma_after_colon(full, full.len() as int, at);
    let rest = word + seps + screen;
    assert(full.skip(at) =~= rest);
    assert forall|k: int| 0 <= k < word.len() implies !seps.contains(#[trigger] rest[k]) by {
        assert(rest[k] == word[k]);
        assert(word.contains(word[k]));
    }
    assert(rest[word.len() as int] == seps[0]);
    law_parts_end_at_the_separators(rest, seps, 0, word.len() as int);
    assert(rest.subrange(0, word.len() as int) =~= word);
}

} // verus!
