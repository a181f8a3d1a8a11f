use pi_natives::desktop::keys::{KeyName, Modifiers, MouseButton};
use pi_natives::desktop::macos::ax::{
    action_name, attributes, element_window, insertion, key_window_id, native_text_target, nonempty, perform,
    replace_utf16_selection, takes_text, text_surface, truncate_chars, unique_match, window_id,
    window_root, ListedWindow, Match, Performing, Role, TextRefusal, TextSurface,
};
use pi_natives::desktop::macos::input::{
    background_button_click, background_chord_refused, background_guard, background_left_click,
    background_text, button_number, char_key_code, covering, covers, first_key_settle,
    foreground_text, global_pointer, key_chord, key_code, keyboard_conflict, modifier_held, physical_key,
    physical_transitions, pointer_fields, pointer_kind, release_modifiers, uncovering,
    window_identity,
    AxWindowRecord, BackStep, ChordRun, EmptyChord, Gesture, IdentityError, KeyPost, KeyboardConflict,
    MouseKind, OwnerError, PointOwner, ProcessTraits, Refusal, ShortPath, Step, TextRoute,
    Uncovering,
};
use pi_natives::desktop::macos::process::{
    after_region, after_walk, is_chromium_bundle, is_screen_sharing, is_terminal, is_tk_image, Flavor, Region, Walked,
};
use pi_natives::desktop::macos::skylight::{
    after_cleanup, await_focused, background_start, borrow_key, focus_record, give_back,
    is_front_window, make_key_record, may_restore, preserves_exact_existing_focus, reactivated,
    takeover_restores, takeover_start, Activity, Await, BackgroundFocusLease, BeforeAction,
    Borrow, FocusDecision, GuardStart, Joined, ProcessSerialNumber, PsnLookup, TakeoverStart,
    DEFOCUS_MARKER, FOCUS_MARKER,
};

#[test]
fn selected_text_replaces_utf16_selection_without_losing_surrounding_text() {
    assert_eq!(replace_utf16_selection("a😀bc", 1, 2, "é").as_deref(), Some("aébc"));
    assert_eq!(replace_utf16_selection("a😀bc", 3, 0, "X").as_deref(), Some("a😀Xbc"));
    assert_eq!(replace_utf16_selection("a😀bc", 0, 5, "").as_deref(), Some(""));
    assert_eq!(replace_utf16_selection("", 0, 0, "hi").as_deref(), Some("hi"));
}

#[test]
fn invalid_or_surrogate_splitting_selections_never_become_writes() {
    for (start, length) in [(-1, 0), (0, -1), (2, 0), (1, 1), (4, 9), (6, 0)] {
        assert_eq!(replace_utf16_selection("a😀bc", start, length, "X"), None);
    }
}

fn record(id: u32, minimized: Option<bool>) -> AxWindowRecord {
    AxWindowRecord { id, minimized }
}

#[test]
fn keyboard_destination_counts_only_windows_that_can_be_key() {
    assert_eq!(keyboard_conflict(10, &[record(10, Some(false))]), None);
    assert_eq!(keyboard_conflict(10, &[record(10, Some(false)), record(11, Some(true))]), None);
    assert_eq!(
        keyboard_conflict(
            10,
            &[record(10, Some(false)), record(11, None), record(12, Some(false))]
        ),
        Some(KeyboardConflict::Siblings(2)),
    );
    assert_eq!(
        keyboard_conflict(10, &[record(11, Some(false))]),
        Some(KeyboardConflict::Unmapped),
    );
}

#[test]
fn interrupted_chord_releases_every_attempted_key() {
    let mut events = Vec::new();
    let mut run = ChordRun::start(vec![KeyName::Ctrl, KeyName::Enter]).ok().unwrap();
    while let Some(post) = run.upcoming() {
        let code = key_code(post.key).unwrap();
        events.push((post.down, code));
        run.posted(!(post.down && code == 36));
    }
    assert_eq!(run.outcome(), Joined::ActionFailed);
    assert_eq!(events, vec![(true, 59), (true, 36), (false, 36), (false, 59)]);
}

#[test]
fn chords_stop_at_the_press_that_failed() {
    let keys = vec![KeyName::Ctrl, KeyName::Shift, KeyName::Enter];
    let play = |bad: usize| {
        let mut run = ChordRun::start(keys.clone()).ok().unwrap();
        let mut posts = Vec::new();
        while let Some(post) = run.upcoming() {
            run.posted(posts.len() != bad);
            posts.push(post);
        }
        (posts, run.outcome())
    };
    assert_eq!(play(9), (key_chord(&keys, 3).unwrap(), Joined::Done));
    assert_eq!(play(0), (key_chord(&keys, 1).unwrap(), Joined::ActionFailed));
    assert_eq!(play(4), (key_chord(&keys, 3).unwrap(), Joined::CleanupFailed));
    assert!(ChordRun::start(Vec::new()).is_err());
}

#[test]
fn chord_events_carry_the_modifiers_held_so_far() {
    let ctrl = Modifiers { ctrl: true, ..Modifiers::default() };
    let post = |key, down, held| KeyPost { key, down, held };
    assert_eq!(
        key_chord(&[KeyName::Ctrl, KeyName::Char('c')], 2).unwrap(),
        vec![
            post(KeyName::Ctrl, true, ctrl),
            post(KeyName::Char('c'), true, ctrl),
            post(KeyName::Char('c'), false, ctrl),
            post(KeyName::Ctrl, false, Modifiers::default()),
        ]
    );
    assert_eq!(key_chord(&[], 0), Err(EmptyChord));
    assert!(modifier_held(ctrl, KeyName::Ctrl) && !modifier_held(ctrl, KeyName::Enter));
}

#[test]
fn takeover_requires_exact_hit_test_ownership() {
    let owner = |pid, window| PointOwner { pid, window };
    assert!(!covers(&owner(7, Some(42)), 7, 42));
    assert!(covers(&owner(7, Some(43)), 7, 42));
    assert!(covers(&owner(7, None), 7, 42));
    assert!(covers(&owner(8, Some(42)), 7, 42));
    assert!(covers(&owner(8, None), 7, 42));
}

#[test]
fn unknown_owners_of_a_point_stop_a_takeover() {
    let owner = |pid, window| Some(PointOwner { pid, window });
    assert_eq!(covering(&vec![owner(7, Some(42))], 7, 42), Ok(None));
    assert_eq!(
        covering(&vec![owner(8, Some(1)), owner(9, Some(2))], 7, 42),
        Ok(owner(8, Some(1)))
    );
    assert_eq!(covering(&vec![owner(8, Some(1)), None], 7, 42), Err(OwnerError::NoOwner));
    assert_eq!(covering(&vec![owner(7, None)], 7, 42), Err(OwnerError::NoWindow));
}

#[test]
fn tk_images_match_and_neighbours_do_not() {
    for path in [
        "/Library/Frameworks/Tk.framework/Versions/8.6/Tk",
        "/opt/homebrew/Cellar/tcl-tk/9.0.2/lib/libtcl9tk9.0.dylib",
        "/opt/homebrew/opt/tcl-tk@8/lib/libtk8.6.dylib",
        "/usr/local/lib/python3.12/lib-dynload/_tkinter.cpython-312-darwin.so",
    ] {
        assert!(is_tk_image(path), "{path}");
    }
    for path in [
        "",
        "/opt/homebrew/lib/libtcl9.0.dylib",
        "/opt/homebrew/lib/libtkrzw.dylib",
        "/System/Library/Frameworks/AppKit.framework/Versions/C/AppKit",
        "/usr/lib/python3/_tkinter_helper.py",
        "/Applications/Foo.app/Contents/MacOS/tk8.6",
    ] {
        assert!(!is_tk_image(path), "{path}");
    }
}

#[test]
fn chromium_identity_does_not_match_unrelated_display_names() {
    assert!(is_chromium_bundle("com.google.Chrome.canary"));
    assert!(is_chromium_bundle("company.thebrowser.Browser"));
    assert!(!is_chromium_bundle("com.apple.archiveutility"));
    assert!(!is_chromium_bundle("com.google.ChromeNotABrowser"));
}

#[test]
fn bundles_and_regions() {
    assert!(is_terminal("com.apple.Terminal") && !is_terminal("com.apple.TerminalX"));
    assert!(is_screen_sharing("com.apple.ScreenSharing"));
    assert_eq!(after_region(0, true, 1, 1, 1), Region::Found);
    assert_eq!(after_region(0, false, 0x1000, 0x10, 1), Region::Next(0x1010));
    assert_eq!(after_region(0x2000, false, 0x1000, 0x10, 1), Region::End);
    assert_eq!(after_region(0, false, u64::MAX, 5, 1), Region::Next(u64::MAX));
    assert_eq!(after_region(0, false, 0x1000, 0x10, 65_536), Region::End);
}

const QUIET: Activity =
    Activity { left_press: 0, right_press: 0, other_press: 0, key_press: 0, modifiers: 0 };
const BUSY: Activity =
    Activity { left_press: 1, right_press: 1, other_press: 1, key_press: 1, modifiers: 1 };

#[test]
fn user_focus_changes_permanently_disarm_background_restoration() {
    let previous = ProcessSerialNumber { high: 0, low: 7 };
    let target = ProcessSerialNumber { high: 0, low: 8 };
    let third = ProcessSerialNumber { high: 0, low: 9 };
    let lease = || BackgroundFocusLease {
        previous,
        target,
        key: 42,
        activity: QUIET,
        disarmed: false,
    };
    let mut guard = lease();
    assert_eq!(guard.observe(target, None, QUIET), FocusDecision::Restore);
    assert_eq!(guard.observe(third, None, QUIET), FocusDecision::Disarm);
    assert_eq!(guard.observe(target, None, QUIET), FocusDecision::Disarm);

    let mut guard = lease();
    assert_eq!(guard.observe(previous, Some(43), QUIET), FocusDecision::Disarm);
    assert_eq!(guard.observe(target, None, QUIET), FocusDecision::Disarm);

    let mut guard = lease();
    assert_eq!(guard.observe(target, None, BUSY), FocusDecision::Disarm);
}

#[test]
fn typing_in_the_original_window_does_not_claim_a_user_focus_switch() {
    let previous = ProcessSerialNumber { high: 0, low: 7 };
    let target = ProcessSerialNumber { high: 0, low: 8 };
    let mut guard = BackgroundFocusLease {
        previous,
        target,
        key: 42,
        activity: QUIET,
        disarmed: false,
    };
    assert_eq!(guard.observe(previous, Some(42), BUSY), FocusDecision::Observe);
    assert_eq!(guard.observe(target, None, BUSY), FocusDecision::Restore);
}

#[test]
fn only_the_exact_key_window_of_the_front_process_skips_activation() {
    let target = ProcessSerialNumber { high: 0, low: 7 };
    let other = ProcessSerialNumber { high: 0, low: 8 };
    assert!(preserves_exact_existing_focus(Some(target), target, Some(42), 42));
    assert!(!preserves_exact_existing_focus(Some(other), target, Some(42), 42));
    assert!(!preserves_exact_existing_focus(Some(target), target, Some(41), 42));
    assert!(!preserves_exact_existing_focus(Some(target), target, None, 42));
    assert!(!preserves_exact_existing_focus(None, target, Some(42), 42));
}

#[test]
fn focus_is_borrowed_only_where_it_can_be_given_back() {
    let a = ProcessSerialNumber { high: 0, low: 1 };
    let b = ProcessSerialNumber { high: 0, low: 2 };
    let before = BeforeAction {
        front: Some(a),
        front_pid: Some(10),
        target: Some(b),
        key: Some(5),
        activity: QUIET,
    };
    assert_eq!(background_start(before, 10), GuardStart::Plain);
    let lease = BackgroundFocusLease {
        previous: a,
        target: b,
        key: 5,
        activity: QUIET,
        disarmed: false,
    };
    assert_eq!(background_start(before, 20), GuardStart::Guard(lease));
    assert_eq!(
        background_start(BeforeAction { key: None, ..before }, 20),
        GuardStart::Refuse
    );
    assert!(may_restore(lease, Some(b), QUIET) && !may_restore(lease, Some(b), BUSY));
    assert!(reactivated(lease, true, Some(b)) && !reactivated(lease, false, Some(b)));
    assert_eq!(borrow_key(Some(a), Some(a), Some(5), 5), Borrow::Nothing);
    assert_eq!(borrow_key(Some(a), Some(b), Some(5), 6), Borrow::From(5));
    assert_eq!(borrow_key(Some(a), Some(b), None, 6), Borrow::Refuse);
    assert!(give_back(a, a, b, Some(5), 5, 6) && !give_back(a, a, b, Some(7), 5, 6));
    assert!(!give_back(b, a, b, Some(5), 5, 6));
    assert_eq!(
        takeover_start(Some(a), Some(10), Some(5), Some(b), None, 6),
        TakeoverStart::Activate { previous_pid: 10, previous_key: 5 }
    );
    assert_eq!(
        takeover_start(Some(b), None, None, Some(b), Some(6), 6),
        TakeoverStart::Already
    );
    assert_eq!(takeover_start(Some(a), None, None, Some(b), None, 6), TakeoverStart::Refuse);
    assert!(takeover_restores(b, b, Some(6), None, 6, false));
    assert!(!takeover_restores(b, b, Some(7), Some(7), 6, false));
    assert!(takeover_restores(b, b, Some(7), Some(7), 6, true));
    assert!(!takeover_restores(a, b, Some(6), None, 6, false));
    assert_eq!(await_focused(Some(6), 6, true, true), Await::Confirmed);
    assert_eq!(await_focused(Some(6), 6, false, false), Await::Wait);
    assert_eq!(await_focused(None, 6, true, true), Await::GiveUp);
    assert!(is_front_window(Some(1), 1, Some(2), 2) && !is_front_window(Some(1), 1, None, 2));
    assert_eq!(after_cleanup(true, true), Joined::Done);
    assert_eq!(after_cleanup(false, true), Joined::ActionFailed);
    assert_eq!(after_cleanup(true, false), Joined::CleanupFailed);
    assert_eq!(after_cleanup(false, false), Joined::BothFailed);
    let lookup = PsnLookup {
        main_connection: true,
        window_owner: false,
        connection_psn: true,
        process_for_pid: false,
    };
    assert!(!lookup.can_resolve());
    assert!(PsnLookup { process_for_pid: true, ..lookup }.can_resolve());
}

#[test]
fn focus_records_are_addressed_to_one_window() {
    let focus = focus_record(0x0102_0304, FOCUS_MARKER);
    assert_eq!(focus.len(), 248);
    assert_eq!((focus[0x04], focus[0x08], focus[0x8a]), (0xf8, 0x0d, 1));
    assert_eq!(&focus[0x3c..0x40], &[4, 3, 2, 1]);
    assert_eq!(focus.iter().filter(|&&byte| byte != 0).count(), 7);
    assert_eq!(focus_record(1, DEFOCUS_MARKER)[0x8a], 2);
    let key = make_key_record(5, 2);
    assert_eq!((key[0x04], key[0x08], key[0x3a], key[0x3c]), (0xf8, 2, 0x10, 5));
    assert!(key[0x20..0x30].iter().all(|&byte| byte == 0xff));
    assert_eq!(key[0x8a], 0);
}

#[test]
fn physical_keys_type_on_the_us_layout() {
    assert_eq!(physical_key('a'), Some((0, false)));
    assert_eq!(physical_key('A'), Some((0, true)));
    assert_eq!(physical_key('?'), Some((44, true)));
    assert_eq!(physical_key('\r'), Some((36, false)));
    assert_eq!(physical_key('é'), None);
    assert_eq!(
        physical_transitions("aB"),
        Ok(vec![
            (0, true),
            (0, false),
            (56, true),
            (11, true),
            (11, false),
            (56, false)
        ])
    );
    assert_eq!(physical_transitions("aé"), Err('é'));
    assert_eq!(char_key_code('K'), Some(40));
    assert_eq!(key_code(KeyName::F20), Some(90));
    assert_eq!(key_code(KeyName::Char('é')), None);
}

#[test]
fn global_gestures_warp_hold_and_release() {
    let shift = Modifiers { shift: true, ..Modifiers::default() };
    let none = Modifiers::default();
    let mouse = |kind, state, held| Step::Mouse {
        kind,
        button: MouseButton::Left,
        point: 0,
        state,
        held,
    };
    let key = |down, held| Step::Key(KeyPost { key: KeyName::Shift, down, held });
    let click = Gesture::Click { button: MouseButton::Left, count: 2, modifiers: shift };
    assert_eq!(
        global_pointer(click).unwrap(),
        vec![
            Step::Warp(0),
            Step::Wait(40),
            key(true, shift),
            Step::Wait(8),
            mouse(MouseKind::Moved, 0, shift),
            Step::Wait(12),
            mouse(MouseKind::Down, 1, shift),
            Step::Wait(28),
            mouse(MouseKind::Up, 1, shift),
            Step::Wait(80),
            mouse(MouseKind::Down, 2, shift),
            Step::Wait(28),
            mouse(MouseKind::Up, 2, shift),
            key(false, none),
            Step::Wait(8),
            Step::Wait(40),
        ]
    );
    assert_eq!(release_modifiers(shift, 1), vec![key(false, none), Step::Wait(8)]);
    assert_eq!(release_modifiers(shift, 0), vec![]);
    let drag = |points| Gesture::Drag { button: MouseButton::Left, modifiers: none, points };
    assert_eq!(global_pointer(drag(1)), Err(ShortPath));
    let steps = global_pointer(drag(3)).unwrap();
    assert_eq!(steps.len(), 12);
    assert_eq!(steps.last(), Some(&Step::Wait(100)));
    assert_eq!(global_pointer(Gesture::Move).unwrap(), vec![mouse(MouseKind::Moved, 0, none)]);
    assert_eq!(
        global_pointer(Gesture::Scroll).unwrap(),
        vec![Step::Warp(0), Step::Wait(40), Step::Wheel(0)]
    );
}

#[test]
fn background_clicks_satisfy_the_activation_gate() {
    let steps = background_left_click(0);
    assert_eq!(steps.len(), 9);
    assert_eq!(
        steps[2],
        BackStep::Mouse {
            kind: MouseKind::Down,
            button: MouseButton::Left,
            offscreen: true,
            phase: 1,
            state: 1
        }
    );
    let right = background_button_click(MouseButton::Right, 2);
    assert_eq!(right.len(), 9);
    assert_eq!(right[5], BackStep::Wait(80));
    assert_eq!(button_number(MouseButton::Middle), 2);
    assert_eq!(
        pointer_fields(Some(3), 1, 0, 77, 9, 5),
        vec![(0, 3), (1, 1), (3, 0), (7, 3), (40, 77), (51, 9), (58, 5), (91, 9), (92, 9)]
    );
    assert_eq!(pointer_fields(None, 1, 1, 77, 9, 5).len(), 8);
}

#[test]
fn known_drops_are_refused_before_anything_is_posted() {
    let plain = ProcessTraits { chromium: false, electron: false, hardware_pointer: false };
    let shift = Modifiers { shift: true, ..Modifiers::default() };
    let click = |button, modifiers| Gesture::Click { button, count: 1, modifiers };
    let none = Modifiers::default();
    let drag = Gesture::Drag { button: MouseButton::Left, modifiers: none, points: 2 };
    assert_eq!(background_guard(drag, "App", plain), Some(Refusal::Drag));
    let left = click(MouseButton::Left, none);
    assert_eq!(
        background_guard(click(MouseButton::Left, shift), "App", plain),
        Some(Refusal::ModifiedClick)
    );
    let chromium = ProcessTraits { chromium: true, ..plain };
    assert_eq!(
        background_guard(click(MouseButton::Right, none), "App", chromium),
        Some(Refusal::RightClick)
    );
    assert_eq!(background_guard(left, "Unity Hub", plain), Some(Refusal::Canvas));
    let tk = ProcessTraits { hardware_pointer: true, ..plain };
    assert_eq!(background_guard(left, "IDLE", tk), Some(Refusal::HardwarePointer));
    let electron = ProcessTraits { electron: true, ..plain };
    assert_eq!(background_guard(Gesture::Scroll, "Code", electron), Some(Refusal::Wheel));
    assert_eq!(background_guard(Gesture::Move, "Code", electron), None);
    assert_eq!(pointer_kind(Gesture::Move), "pointer move");
    assert_eq!(window_identity("12", Some(5)), Ok((5, 12)));
    assert_eq!(window_identity("12", None), Err(IdentityError::NoProcess));
    assert_eq!(window_identity("12", Some(u32::MAX)), Err(IdentityError::InvalidProcess));
    assert_eq!(window_identity("x", Some(5)), Err(IdentityError::InvalidId));
    assert_eq!(background_text(true, true), TextRoute::Refuse);
    assert_eq!(background_text(false, true), TextRoute::Type);
    assert_eq!(background_text(false, false), TextRoute::InsertOrType);
    assert!(background_chord_refused(&[KeyName::Enter, KeyName::Meta], true));
    assert!(!background_chord_refused(&[KeyName::Enter], true));
    assert_eq!((first_key_settle(true), first_key_settle(false)), (200, 20));
}

#[test]
fn text_goes_only_to_native_fields() {
    let role = |name: &str| Some(Role::parse(name));
    let native = vec![role("AXTextField"), role("AXGroup"), role("AXWindow")];
    assert_eq!(text_surface(&native), TextSurface::Native);
    assert_eq!(element_window(&native), Some(2));
    let web = vec![role("AXTextField"), role("AXWebArea"), role("AXWindow")];
    assert_eq!(text_surface(&web), TextSurface::Web);
    assert_eq!(text_surface(&vec![role("AXGroup"), None]), TextSurface::Unknown);
    assert_eq!(element_window(&vec![role("AXApplication")]), None);
    let field = Some(Role::TextField);
    assert!(takes_text(Some(4), 4, TextSurface::Native, field, true));
    assert!(!takes_text(Some(5), 4, TextSurface::Native, field, true));
    assert_eq!(native_text_target(true, TextSurface::Native), Err(TextRefusal::Terminal));
    assert_eq!(native_text_target(false, TextSurface::Web), Err(TextRefusal::NotNative));
    assert_eq!(native_text_target(false, TextSurface::Native), Ok(()));
    assert_eq!(unique_match(&vec![false, true]), Match::Only(1));
    assert_eq!(unique_match(&vec![true, true]), Match::Several);
    assert_eq!(unique_match(&vec![]), Match::Missing);
    let listed = vec![
        ListedWindow { id: "7".to_string(), pid: Some(1) },
        ListedWindow { id: "7".to_string(), pid: Some(2) },
    ];
    assert_eq!(window_id(&listed, 7, 2), Some(1));
    assert_eq!(window_id(&listed, 7, 3), None);
}

#[test]
fn names_and_values() {
    assert_eq!(action_name(" Press "), "AXPress");
    assert_eq!(action_name("show_menu"), "AXShowMenu");
    assert_eq!(action_name("AXConfirm"), "AXConfirm");
    assert_eq!(action_name("Confirm"), "AXConfirm");
    assert_eq!(nonempty(Some(String::new())), None);
    assert_eq!(nonempty(Some("x".to_string())).as_deref(), Some("x"));
    assert_eq!(truncate_chars("abcdef", 4), "abc…");
    assert_eq!(truncate_chars("abcd", 4), "abcd");
    assert_eq!(truncate_chars("a", 0), "…");
}

#[test]
fn accessibility_windows_are_found_by_number_or_by_a_unique_fit() {
    let ids = vec![None, Some(7), Some(9)];
    assert_eq!(window_root(Some(9), Some(&ids), &vec![true, false, false]), Match::Only(2));
    assert_eq!(window_root(Some(8), Some(&ids), &vec![true, false, false]), Match::Missing);
    assert_eq!(window_root(Some(8), None, &vec![true, false, false]), Match::Only(0));
    assert_eq!(window_root(None, Some(&ids), &vec![true, false, true]), Match::Several);
}

#[test]
fn text_is_inserted_where_its_outcome_is_known() {
    let insert = |window, before, selection| {
        insertion(
            window,
            3,
            TextSurface::Native,
            Some(Role::TextField),
            true,
            before,
            selection,
            "X",
        )
    };
    assert_eq!(insert(Some(3), Some("abc"), Some((1, 1))).as_deref(), Some("aXc"));
    assert_eq!(insert(Some(4), Some("abc"), Some((1, 1))), None);
    assert_eq!(insert(Some(3), None, Some((1, 1))), None);
    assert_eq!(insert(Some(3), Some("abc"), None), None);
    assert_eq!(insert(Some(3), Some("abc"), Some((1, 9))), None);
}

#[test]
fn actions_are_guarded_unless_they_raise() {
    let offered = vec!["AXPress".to_string(), "AXRaise".to_string()];
    assert_eq!(perform("press", &offered), ("AXPress".to_string(), Performing::Guarded));
    assert_eq!(perform("raise", &offered), ("AXRaise".to_string(), Performing::Plain));
    assert_eq!(perform("Pick", &offered), ("AXPick".to_string(), Performing::Unsupported));
}

#[test]
fn relayed_text_is_mapped_before_anything_is_activated() {
    assert_eq!(foreground_text(false, "\u{e9}"), Ok(None));
    assert_eq!(foreground_text(true, "a"), Ok(Some(vec![(0, true), (0, false)])));
    assert_eq!(foreground_text(true, "a\u{e9}"), Err('\u{e9}'));
}

#[test]
fn covered_targets_get_no_input() {
    let owner = PointOwner { pid: 5, window: Some(9) };
    assert_eq!(uncovering(Ok(None), true), Uncovering::Clear);
    assert_eq!(uncovering(Ok(Some(owner)), false), Uncovering::Wait);
    assert_eq!(uncovering(Ok(Some(owner)), true), Uncovering::Covered { pid: 5 });
    assert_eq!(uncovering(Err(OwnerError::NoWindow), false), Uncovering::Unknown(OwnerError::NoWindow));
}

#[test]
fn attributes_without_a_value_say_so() {
    let read = vec![
        ("AXTitle".to_string(), Some("x".repeat(201))),
        ("AXHelp".to_string(), None),
    ];
    let shown = attributes(&read);
    assert_eq!(shown[0], ("AXTitle".to_string(), format!("{}…", "x".repeat(199))));
    assert_eq!(shown[1], ("AXHelp".to_string(), "<no value>".to_string()));
    assert_eq!(shown.len(), 2);
}

#[test]
fn keys_go_to_the_focused_window_before_the_main_one() {
    assert_eq!(key_window_id(Some(1), Some(2)), Some(1));
    assert_eq!(key_window_id(None, Some(2)), Some(2));
    assert_eq!(key_window_id(None, None), None);
}

#[test]
fn gestures_end_with_nothing_held() {
    let all = Modifiers { ctrl: true, alt: true, shift: true, meta: true };
    let gestures = [
        Gesture::Click { button: MouseButton::Right, count: 3, modifiers: all },
        Gesture::Drag { button: MouseButton::Left, modifiers: all, points: 4 },
        Gesture::Move,
        Gesture::Scroll,
    ];
    for gesture in gestures {
        let mut keys = Vec::new();
        let mut buttons = Vec::new();
        for step in global_pointer(gesture).unwrap() {
            match step {
                Step::Key(post) if post.down => keys.push(post.key),
                Step::Key(post) => keys.retain(|&key| key != post.key),
                Step::Mouse { kind: MouseKind::Down, button, .. } => buttons.push(button),
                Step::Mouse { kind: MouseKind::Up, button, .. } => {
                    buttons.retain(|&held| held != button);
                }
                _ => {}
            }
        }
        assert!(keys.is_empty(), "{gesture:?}");
        assert!(buttons.is_empty(), "{gesture:?}");
    }
}

#[test]
fn a_refused_region_walk_is_tried_the_other_way() {
    let (files, every) = (Flavor::FileBacked, Flavor::Every);
    assert_eq!(after_walk(files, true, true), Walked::Answer(true));
    assert_eq!(after_walk(files, false, true), Walked::Answer(false));
    assert_eq!(after_walk(files, false, false), Walked::Again(every));
    assert_eq!(after_walk(every, false, false), Walked::Answer(false));
    assert_eq!(after_walk(every, true, true), Walked::Answer(true));
}
