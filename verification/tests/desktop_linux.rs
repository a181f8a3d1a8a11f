use pi_natives::desktop::keys::{DeliveryMode, KeyName, Modifiers, MouseButton};
use pi_natives::desktop::libei;
use pi_natives::desktop::libei::{
    char_stroke, chord, evdev_char, evdev_keycode, find_keyboard, modifier_keys, pointer, typing,
    DeviceEvent, DeviceReply, DeviceState, DeviceTraits, Devices, Discovery, DiscoveryTargets, InputError,
    KeyStroke, LayoutAnswer,
};
use pi_natives::desktop::x11::gesture;
use pi_natives::desktop::x11::gesture::{
    button_detail, recover, scroll_buttons, send_plan, wheel_detents, EmptyPath, Sent,
};
use pi_natives::desktop::x11::input::{
    key_route, parse_window, pointer_route, restore_activation, restore_pointer, Activation,
    AfterTakeover, Pair, Poll, Reach, Refusal, Restore, Route,
};
use pi_natives::desktop::x11::keymap::{
    any_down, cleanup, keycode_count, keysym_for_key, modifier_map, KeyStep, Keymap, KeymapError,
    QualifiedRun, StepRun,
};
use pi_natives::desktop::x11::mpx::{
    corner, create_next, domain, find_masters, hierarchy_len, hover_from, orphans, process_start,
    raw_matches, relative_steps, settle, start_ticks, version_suffices, Body, Confirmation, DeviceInfo,
    DeviceKind, Masters, Next, Outcome, Owner, Raw, Report, ReportKind, Stage, StartOf,
    Wait, DRAG_STEP_MAX_PX,
};
use pi_natives::desktop::x11::toolkit::{
    child_pids, class_drops_synthetic, cmdline_is_chromium_helper, display_number,
    kde_x11_uinput_hotplug_is_unsafe, lock_pid, maps_drop_synthetic, mpx_probe,
    process_drops_synthetic, requires_core_events, ProbeRefusal,
};
use pi_natives::desktop::x11::uinput;
use pi_natives::desktop::x11::virtual_gesture;
use pi_natives::desktop::x11::virtual_gesture::{flat_profile, last_report, Act};
use pi_natives::desktop::x11::wm::{
    check_pointer_target, client_of, grab_popup_of, is_focused, is_passive_popup, is_within,
    owning_pid, root_child_of, watch_on, FocusNow, FocusSnapshot, PointRefusal, PointView, RootChild,
    Watch,
};
use xkeysym::Keysym;

// ---------------------------------------------------------------------------
// Emulated input
// ---------------------------------------------------------------------------
#[test]
fn printable_text_without_a_keymap_never_assumes_us_layout() {
    assert!(char_stroke(None, 'a').is_err());
    assert!(char_stroke(None, '@').is_err());
    assert_eq!(char_stroke(None, '\n').unwrap().keycode, 28);
}

#[test]
fn discovery_waits_for_every_granted_device() {
    let targets = DiscoveryTargets { pointer: true, keyboard: true };

    assert!(!targets.is_complete(false, true));
    assert!(targets.is_complete(true, true));
}

#[test]
fn layouts_decide_about_printable_text() {
    let us = LayoutAnswer { us_ascii: true, stroke: None, group: 0 };
    let stroke = char_stroke(Some(us), 'A').unwrap();
    assert_eq!((stroke.keycode, stroke.modifiers), (30, vec![42]));
    let other = LayoutAnswer { us_ascii: false, stroke: None, group: 3 };
    assert_eq!(char_stroke(Some(other), 'a').err(), Some(InputError::NotInGroup('a', 3)));
    let own = LayoutAnswer {
        us_ascii: false,
        stroke: Some(KeyStroke { keycode: 16, modifiers: vec![100] }),
        group: 1,
    };
    let stroke = char_stroke(Some(own), 'a').unwrap();
    assert_eq!((stroke.keycode, stroke.modifiers), (16, vec![100]));
    assert_eq!(char_stroke(None, 'a').err(), Some(InputError::NoLayout('a')));
}

#[test]
fn kernel_codes_of_keys() {
    assert_eq!(evdev_char('a'), Some((30, false)));
    assert_eq!(evdev_char('A'), Some((30, true)));
    assert_eq!(evdev_char('!'), Some((2, true)));
    assert_eq!(evdev_char('\u{e9}'), None);
    assert_eq!(evdev_keycode(KeyName::Enter), Ok(28));
    assert_eq!(evdev_keycode(KeyName::F12), Ok(88));
    assert_eq!(evdev_keycode(KeyName::Char('z')), Ok(44));
    assert_eq!(
        evdev_keycode(KeyName::Char('\u{e9}')),
        Err(InputError::NoKeycode('\u{e9}'))
    );
    let all = Modifiers { ctrl: true, alt: true, shift: true, meta: true };
    assert_eq!(modifier_keys(all).len(), 4);
    assert_eq!(modifier_keys(Modifiers::default()), Vec::<u32>::new());
}

#[test]
fn chords_release_in_reverse_and_text_types_key_by_key() {
    let strokes = vec![
        KeyStroke { keycode: 29, modifiers: vec![] },
        KeyStroke { keycode: 30, modifiers: vec![42] },
    ];
    let key = |code, press| libei::Action::Key { code, press };
    assert_eq!(
        chord(&strokes),
        vec![
            key(29, true),
            key(42, true),
            key(30, true),
            key(30, false),
            key(42, false),
            key(29, false)
        ]
    );
    let typed = typing(&vec![KeyStroke { keycode: 30, modifiers: vec![42] }]);
    assert_eq!(typed, vec![key(42, true), key(30, true), key(30, false), key(42, false)]);
}

fn device(pointer: bool, button: bool, keyboard: bool, seat: u64) -> DeviceTraits {
    DeviceTraits {
        resumed: true,
        pointer,
        button,
        scroll: pointer,
        keyboard,
        seat,
        covers: true,
    }
}

#[test]
fn gestures_are_planned_whole_or_refused() {
    let devices = vec![
        device(true, false, false, 1),
        device(true, true, false, 2),
        device(false, false, true, 2),
    ];
    assert_eq!(find_keyboard(&devices, Some(1)), None);
    assert_eq!(find_keyboard(&devices, None), Some(2));
    let ctrl = Modifiers { ctrl: true, ..Modifiers::default() };
    let click = libei::Gesture::Click { button: MouseButton::Right, modifiers: ctrl, count: 1 };
    let plan = pointer(&devices, click).ok().unwrap();
    assert_eq!((plan.pointer, plan.keyboard), (1, Some(2)));
    assert_eq!(
        plan.actions,
        vec![
            libei::Action::Key { code: 29, press: true },
            libei::Action::Move { point: 0 },
            libei::Action::Button { code: 0x111, press: true },
            libei::Action::Button { code: 0x111, press: false },
            libei::Action::Key { code: 29, press: false },
        ]
    );
    let drag = libei::Gesture::Drag {
        button: MouseButton::Left,
        modifiers: Modifiers::default(),
        points: 0,
    };
    assert_eq!(pointer(&devices, drag).err(), Some(InputError::EmptyPath));
    assert_eq!(pointer(&vec![], libei::Gesture::Move).err(), Some(InputError::NoPointer));
    let alone = vec![device(true, true, false, 2)];
    assert_eq!(pointer(&alone, click).err(), Some(InputError::NoKeyboard));
}

#[test]
fn announced_devices_are_followed() {
    let mut devices = Devices::new();
    let bind = devices.follow(DeviceEvent::SeatAdded { seat: 4 });
    assert_eq!(bind, Ok(DeviceReply::Bind { seat: 4 }));
    assert_eq!(
        devices.follow(DeviceEvent::DeviceAdded { id: 9, seat: 4 }),
        Ok(DeviceReply::Nothing)
    );
    assert_eq!(
        devices.follow(DeviceEvent::DeviceResumed { id: 9 }),
        Ok(DeviceReply::Start { id: 9, sequence: 1 })
    );
    assert_eq!(devices.list, vec![DeviceState { id: 9, seat: 4, resumed: true }]);
    assert_eq!(devices.follow(DeviceEvent::SeatRemoved { seat: 4 }), Ok(DeviceReply::Nothing));
    assert!(devices.list.is_empty());
    assert_eq!(devices.follow(DeviceEvent::Disconnected), Err(InputError::Disconnected));
}

// ---------------------------------------------------------------------------
// Keymaps
// ---------------------------------------------------------------------------
const A: u8 = 38;
const ONE: u8 = 10;
const RETURN: u8 = 36;
const SHIFT: u8 = 50;
const CTRL: u8 = 37;

/// US-like two-level map: a/A, 1/!, Return, Shift, Control.
fn keymap() -> Keymap {
    let mut keysyms = vec![0u32; (255 - 8 + 1) * 2];
    let mut set = |keycode: u8, syms: [u32; 2]| {
        let index = usize::from(keycode - 8) * 2;
        keysyms[index..index + 2].copy_from_slice(&syms);
    };
    set(A, [0x61, 0x41]);
    set(ONE, [0x31, 0x21]);
    set(RETURN, [0xff0d, 0xff0d]);
    set(SHIFT, [0xffe1, 0xffe1]);
    set(CTRL, [0xffe3, 0xffe3]);
    Keymap {
        min_keycode: 8,
        keysyms_per_keycode: 2,
        keysyms,
        modifier_masks: vec![(SHIFT, 1), (CTRL, 4)],
    }
}

fn press(keycode: u8) -> KeyStep {
    KeyStep { keycode, press: true }
}

fn release(keycode: u8) -> KeyStep {
    KeyStep { keycode, press: false }
}

#[test]
fn text_wraps_shifted_glyphs_in_shift() {
    let steps = keymap().plan_text("aA!\n").unwrap();
    assert_eq!(
        steps,
        vec![
            press(A),
            release(A),
            press(SHIFT),
            press(A),
            release(A),
            release(SHIFT),
            press(SHIFT),
            press(ONE),
            release(ONE),
            release(SHIFT),
            press(RETURN),
            release(RETURN),
        ]
    );
}

#[test]
fn chord_adds_shift_once_unless_requested() {
    let map = keymap();
    assert_eq!(
        map.plan_chord(&vec![KeyName::Ctrl, KeyName::Char('A')]).unwrap(),
        vec![press(CTRL), press(SHIFT), press(A), release(A), release(SHIFT), release(CTRL)]
    );
    assert_eq!(
        map.plan_chord(&vec![KeyName::Ctrl, KeyName::Shift, KeyName::Char('A')]).unwrap(),
        vec![press(CTRL), press(SHIFT), press(A), release(A), release(SHIFT), release(CTRL)]
    );
}

#[test]
fn unshifted_level_wins_over_an_earlier_shifted_match() {
    let mut map = keymap();
    let index = usize::from(ONE - 8) * 2;
    map.keysyms[index + 1] = 0x61;
    assert_eq!(map.lookup(0x61), Some((A, false)));
}

#[test]
fn partially_failed_press_is_released_before_earlier_modifiers() {
    let mut emitted = Vec::new();
    let mut run = StepRun::new(vec![press(CTRL), press(A)]);
    while let Some(step) = run.upcoming() {
        emitted.push(step);
        run.sent(step != press(A));
    }
    assert!(run.failed.is_some());
    assert_eq!(emitted, vec![press(CTRL), press(A), release(A), release(CTRL)]);
}

#[test]
fn whole_runs_send_every_step_once() {
    let steps = vec![press(CTRL), press(A), release(A), release(CTRL)];
    let mut emitted = Vec::new();
    let mut run = StepRun::new(steps.clone());
    while let Some(step) = run.upcoming() {
        emitted.push(step);
        run.sent(true);
    }
    assert!(run.failed.is_none());
    assert_eq!(emitted, steps);
    // A release that fails while cleaning up is not the end of the releases.
    let mut tried = 0;
    let mut run = StepRun::new(steps);
    while run.upcoming().is_some() {
        tried += 1;
        run.sent(tried == 1);
    }
    assert_eq!((run.failed, tried), (Some(1), 4));
    assert_eq!(cleanup(&run.steps, 1), vec![release(A), release(CTRL)]);
}

#[test]
fn text_with_an_unmapped_glyph_is_refused_whole() {
    assert!(keymap().plan_text("a€").is_err());
}

#[test]
fn keymaps_name_what_they_lack() {
    let euro = Keysym::from_char('€').raw();
    assert_eq!(keymap().resolve(KeyName::Char('€')), Err(KeymapError::NoKeycode(euro)));
    let mut bare = keymap();
    let index = usize::from(SHIFT - 8) * 2;
    bare.keysyms[index] = 0;
    bare.keysyms[index + 1] = 0;
    assert_eq!(bare.shift_keycode(), Err(KeymapError::NoShift));
    assert_eq!(bare.plan_text("A"), Err(KeymapError::NoShift));
}

#[test]
fn key_symbols_are_the_servers() {
    let named = [
        (KeyName::Ctrl, Keysym::Control_L),
        (KeyName::Alt, Keysym::Alt_L),
        (KeyName::Shift, Keysym::Shift_L),
        (KeyName::Meta, Keysym::Super_L),
        (KeyName::Enter, Keysym::Return),
        (KeyName::Escape, Keysym::Escape),
        (KeyName::Tab, Keysym::Tab),
        (KeyName::Space, Keysym::space),
        (KeyName::Backspace, Keysym::BackSpace),
        (KeyName::Delete, Keysym::Delete),
        (KeyName::Insert, Keysym::Insert),
        (KeyName::Home, Keysym::Home),
        (KeyName::End, Keysym::End),
        (KeyName::PageUp, Keysym::Page_Up),
        (KeyName::PageDown, Keysym::Page_Down),
        (KeyName::Up, Keysym::Up),
        (KeyName::Down, Keysym::Down),
        (KeyName::Left, Keysym::Left),
        (KeyName::Right, Keysym::Right),
        (KeyName::CapsLock, Keysym::Caps_Lock),
        (KeyName::NumLock, Keysym::Num_Lock),
        (KeyName::PrintScreen, Keysym::Print),
        (KeyName::F1, Keysym::F1),
        (KeyName::F12, Keysym::F12),
        (KeyName::F24, Keysym::F24),
    ];
    for (key, symbol) in named {
        assert_eq!(keysym_for_key(key), symbol.raw(), "{key:?}");
    }
    assert_eq!(keysym_for_key(KeyName::Char('\n')), Keysym::Return.raw());
    assert_eq!(keysym_for_key(KeyName::Char('\t')), Keysym::Tab.raw());
    assert_eq!(keysym_for_key(KeyName::Char('a')), 0x61);
    assert_eq!(keysym_for_key(KeyName::Char('\u{20ac}')), Keysym::from_char('\u{20ac}').raw());
    assert_eq!(keysym_for_key(KeyName::Char('\u{3bb}')), Keysym::from_char('\u{3bb}').raw());
}

#[test]
fn modifiers_of_keymaps() {
    let map = keymap();
    let both = Modifiers { ctrl: true, shift: true, ..Modifiers::default() };
    assert_eq!(map.modifier_keycodes(both), Ok(vec![CTRL, SHIFT]));
    assert_eq!(map.modifier_mask(CTRL), 4);
    assert_eq!(map.modifier_mask(A), 0);
    let steps = vec![press(CTRL), press(A), release(A), release(CTRL)];
    let play = |bad: usize| {
        let mut run = QualifiedRun::new(steps.clone());
        let mut sent = Vec::new();
        while let Some(next) = run.upcoming() {
            run.sent(&map, sent.len() != bad);
            sent.push(next);
        }
        sent
    };
    let states = |bad| play(bad).iter().map(|next| next.1).collect::<Vec<_>>();
    assert_eq!(states(9), vec![0, 4, 4, 4]);
    // The press of A fails: both keys are released while Control still counts.
    assert_eq!(play(1)[2..], [(release(A), 4), (release(CTRL), 4)]);
    // The press of Control fails: it never counted.
    assert_eq!(play(0), vec![(press(CTRL), 0), (release(CTRL), 0)]);
    assert_eq!(keycode_count(8, 255), 248);
    assert_eq!(modifier_map(1, &vec![50, 0, 37, 64]), vec![(50, 1), (37, 4), (64, 8)]);
    let mut held = vec![0u8; 32];
    held[4] = 1 << 5;
    assert!(any_down(&held, &vec![37]));
    assert!(!any_down(&held, &vec![38]));
}

// ---------------------------------------------------------------------------
// The virtual pair
// ---------------------------------------------------------------------------
const OWNER: Owner = Owner { domain: 0xfeed_beef, pid: 4242, start: 777 };

#[test]
fn owner_name_round_trips_at_integer_limits() {
    let owner = Owner { domain: u64::MAX, pid: u32::MAX, start: u64::MAX };
    let pointer = format!("{} pointer", owner.master_name(u16::MAX));
    assert_eq!(Owner::from_pointer_name(&pointer), Some(owner));
    assert!(format!("{} uinput keyboard", owner.master_name(u16::MAX)).len() < 80);
    assert_eq!(Owner::from_pointer_name("OMP MPX 4242.1 pointer"), None);
}

#[test]
fn owner_names_are_spelled_in_padded_and_plain_hex() {
    assert_eq!(OWNER.master_name(1), "OMP MPX v1.00000000feedbeef.1092.309.1");
    assert_eq!(Owner::from_pointer_name("OMP MPX v1.1.0.1.1 pointer"), None);
    assert_eq!(Owner::from_pointer_name("OMP MPX v1.1.2.3 pointer"), None);
    assert_eq!(Owner::from_pointer_name("OMP MPX v1.1.2.3.10000 pointer"), None);
    assert_eq!(
        Owner::from_pointer_name("OMP MPX v1.1.2.3.4 pointer"),
        Some(Owner { domain: 1, pid: 2, start: 3 })
    );
}

#[test]
fn only_provably_dead_owners_are_stale() {
    let peer = |pid, start| Owner { pid, start, ..OWNER };
    let gone = StartOf::Gone;
    let denied = StartOf::Unknown;
    assert!(peer(99, 5).is_stale_for(&OWNER, gone));
    assert!(peer(99, 5).is_stale_for(&OWNER, StartOf::At(6)), "reused pid");
    assert!(!peer(99, 5).is_stale_for(&OWNER, StartOf::At(5)), "live peer session");
    assert!(!peer(99, 5).is_stale_for(&OWNER, denied), "unverifiable");
    assert!(!OWNER.is_stale_for(&OWNER, gone), "this process");
    assert!(peer(OWNER.pid, 1).is_stale_for(&OWNER, gone), "earlier incarnation of our pid");
    let foreign = Owner { domain: 1, ..peer(99, 5) };
    assert!(!foreign.is_stale_for(&OWNER, gone), "other machine or namespace");
}

#[test]
fn domains_hash_the_boot_the_namespace_and_the_user() {
    let mut seed = b"boot-id".to_vec();
    seed.push(0);
    seed.extend_from_slice(b"pid:[4026531836]");
    seed.push(0);
    seed.extend_from_slice(&1000u32.to_be_bytes());
    let namespace = b"pid:[4026531836]".to_vec();
    assert_eq!(domain("boot-id\n", &namespace, 1000), xxhash_rust::xxh64::xxh64(&seed, 0));
    assert_ne!(domain("boot-id", &namespace, 1000), domain("boot-id", &namespace, 1001));
}

#[test]
fn start_ticks_survives_parentheses_in_the_command_name() {
    let stat = "12 (a) b (c)) S 1 12 12 0 -1 4194560 1 0 0 0 0 0 0 0 20 0 1 0 98765 0";
    assert_eq!(start_ticks(stat), Some(98765));
}

#[test]
fn zombies_count_as_gone() {
    let stat = "12 (a) Z 1 12 12 0 -1 4194560 1 0 0 0 0 0 0 0 20 0 1 0 98765 0";
    assert_eq!(process_start(stat), StartOf::Gone);
    assert_eq!(process_start(&stat.replace(" Z ", " R ")), StartOf::At(98765));
    assert_eq!(process_start("12 (a) R 1"), StartOf::Unknown);
    assert_eq!(process_start(""), StartOf::Unknown);
}

#[test]
fn drag_steps_are_bounded_and_land_exactly_on_the_end() {
    let steps = relative_steps(&vec![(10, 10), (10, 10), (60, 22), (58, 22)]);
    assert!(steps
        .iter()
        .all(|&(dx, dy)| f64::from(dx).hypot(f64::from(dy)) <= DRAG_STEP_MAX_PX as f64));
    assert!(steps.iter().all(|&step| step != (0, 0)));
    let end = steps.iter().fold((10, 10), |(x, y), &(dx, dy)| (x + dx, y + dy));
    assert_eq!(end, (58, 22));
}

#[test]
fn drag_steps_round_away_from_zero() {
    assert_eq!(relative_steps(&vec![(0, 0), (17, 0)]), vec![(9, 0), (8, 0)]);
    assert_eq!(relative_steps(&vec![(0, 0), (-17, 0)]), vec![(-9, 0), (-8, 0)]);
    assert_eq!(relative_steps(&vec![]), vec![]);
    let far = relative_steps(&vec![(i16::MIN, i16::MIN), (i16::MAX, i16::MAX)]);
    let sum = far.iter().fold((0i64, 0i64), |(x, y), &(dx, dy)| (x + dx as i64, y + dy as i64));
    assert_eq!(sum, (65535, 65535));
}

#[test]
fn wheel_detents_follow_x_button_directions() {
    let detents = |dx: f64, dy: f64| {
        wheel_detents(dy.abs().round() as u32, dy > 0.0, dx.abs().round() as u32, dx > 0.0)
    };
    // Down is button 5, a turn of -1; right is button 7, a turn of +1.
    assert_eq!(detents(0.0, 2.0), vec![(false, -1), (false, -1)]);
    assert_eq!(detents(0.0, -1.0), vec![(false, 1)]);
    assert_eq!(detents(1.0, 0.0), vec![(true, 1)]);
    assert_eq!(detents(-1.0, 0.0), vec![(true, -1)]);
    assert!(detents(0.2, -0.4).is_empty());
}

#[test]
fn reports_confirm_their_own_device_and_detail() {
    let report = |kind, detail| Report { kind, device: 7, source: 9, detail };
    assert!(raw_matches(report(ReportKind::ButtonPress, 1), 9, Raw::ButtonPress(1)));
    assert!(raw_matches(report(ReportKind::ButtonPress, 1), 7, Raw::ButtonPress(1)));
    assert!(!raw_matches(report(ReportKind::ButtonPress, 1), 8, Raw::ButtonPress(1)));
    assert!(!raw_matches(report(ReportKind::ButtonPress, 2), 9, Raw::ButtonPress(1)));
    assert!(raw_matches(report(ReportKind::ButtonPress, 5), 9, Raw::Wheel));
    assert!(raw_matches(report(ReportKind::Motion, 0), 9, Raw::Wheel));
    assert!(!raw_matches(report(ReportKind::ButtonPress, 8), 9, Raw::Wheel));
    assert!(raw_matches(report(ReportKind::KeyRelease, 38), 9, Raw::KeyRelease(38)));
    assert!(!raw_matches(report(ReportKind::Other, 38), 9, Raw::KeyPress(38)));
}

#[test]
fn the_cursor_parks_only_after_a_confirmed_gesture() {
    let done = settle(Body::Confirmed, true, true, true);
    assert_eq!((done.outcome, done.uncertain, done.park), (Outcome::Done, false, true));
    let held = settle(Body::Confirmed, true, false, true);
    assert_eq!((held.outcome, held.uncertain, held.park), (Outcome::Uncertain, true, false));
    assert_eq!(settle(Body::Unconfirmed, true, true, true).outcome, Outcome::Uncertain);
    assert_eq!(settle(Body::Unconfirmed, false, true, true).outcome, Outcome::Failed);
    assert_eq!(settle(Body::Failed, true, true, true).outcome, Outcome::Failed);
}

#[test]
fn masters_are_found_by_their_names() {
    let info = |id, kind, name: &str| DeviceInfo { id, kind, name: name.chars().collect() };
    let pair = vec![
        info(2, DeviceKind::MasterPointer, "Virtual core pointer"),
        info(12, DeviceKind::MasterPointer, "mine pointer"),
        info(13, DeviceKind::MasterKeyboard, "mine keyboard"),
    ];
    assert_eq!(find_masters(&pair, "mine"), Masters::Pair { pointer: 12, keyboard: 13 });
    assert_eq!(find_masters(&pair, "other"), Masters::Missing);
    let half = vec![info(12, DeviceKind::MasterPointer, "mine pointer")];
    assert_eq!(find_masters(&half, "mine"), Masters::PointerAlone { pointer: 12 });
}

#[test]
fn a_failed_creation_removes_known_masters() {
    assert_eq!(create_next(Stage::Version, true), Next::Go(Stage::Device));
    assert_eq!(create_next(Stage::Device, false), Next::GiveUp);
    assert_eq!(create_next(Stage::Attach, false), Next::RemoveMaster);
    assert_eq!(create_next(Stage::Select, true), Next::Go(Stage::Ready));
    assert!(version_suffices(2, 2) && version_suffices(3, 0) && !version_suffices(2, 1));
}

#[test]
fn small_numbers_of_the_pair() {
    assert_eq!((corner(0), corner(1920), corner(u16::MAX)), (0, 1919, i16::MAX));
    assert_eq!(hover_from(5), (4, 1));
    assert_eq!(hover_from(0), (1, -1));
    assert_eq!((hierarchy_len(0), hierarchy_len(5), hierarchy_len(8)), (1, 3, 3));
    assert_eq!(hierarchy_len(1 << 20), u16::MAX);
}

// ---------------------------------------------------------------------------
// Gestures
// ---------------------------------------------------------------------------
#[test]
fn gestures_hold_their_modifiers_around_the_button() {
    let drag = gesture::Gesture::Drag {
        button: MouseButton::Left,
        modifiers: Modifiers::default(),
        points: 3,
    };
    let key = |keycode, press| gesture::Action::Key { keycode, press };
    let button = |press| gesture::Action::Button { detail: 1, press };
    let go = |point| gesture::Action::Move { point };
    let steps = gesture::plan(&vec![37], drag).unwrap();
    assert_eq!(
        steps,
        vec![
            key(37, true),
            go(0),
            button(true),
            go(1),
            go(2),
            button(false),
            key(37, false)
        ]
    );
    assert_eq!(recover(&vec![37], drag, steps.len(), 0), vec![key(37, false)]);
    assert_eq!(recover(&vec![37], drag, steps.len(), 3), vec![button(false), key(37, false)]);
    assert_eq!(recover(&vec![37], drag, steps.len(), 6), vec![]);
    let empty = gesture::Gesture::Drag {
        button: MouseButton::Left,
        modifiers: Modifiers::default(),
        points: 0,
    };
    assert_eq!(gesture::plan(&vec![], empty), Err(EmptyPath));
    assert_eq!(send_plan(empty), Err(EmptyPath));
    assert_eq!(button_detail(MouseButton::Middle), 2);
}

#[test]
fn scrolls_press_wheel_buttons() {
    assert_eq!(scroll_buttons(2, true, 0, false), vec![(4, 2)]);
    assert_eq!(scroll_buttons(1, false, 3, true), vec![(5, 1), (6, 3)]);
    let scroll = gesture::Gesture::Scroll { vertical: 1, up: false, horizontal: 0, left: false };
    assert_eq!(
        gesture::plan(&vec![], scroll).unwrap(),
        vec![
            gesture::Action::Move { point: 0 },
            gesture::Action::Button { detail: 5, press: true },
            gesture::Action::Button { detail: 5, press: false },
        ]
    );
}

#[test]
fn synthetic_events_carry_the_state_before_them() {
    let shift = Modifiers { shift: true, ..Modifiers::default() };
    let click = gesture::Gesture::Click { button: MouseButton::Left, modifiers: shift, count: 0 };
    assert_eq!(
        send_plan(click).unwrap(),
        vec![
            Sent { point: 0, button: Some((1, true)), state: 1 },
            Sent { point: 0, button: Some((1, false)), state: 0x101 },
        ]
    );
    let drag = gesture::Gesture::Drag { button: MouseButton::Right, modifiers: shift, points: 2 };
    assert_eq!(
        send_plan(drag).unwrap(),
        vec![
            Sent { point: 0, button: Some((3, true)), state: 1 },
            Sent { point: 1, button: None, state: 0x401 },
            Sent { point: 1, button: Some((3, false)), state: 0x401 },
        ]
    );
}

// ---------------------------------------------------------------------------
// Toolkits
// ---------------------------------------------------------------------------
#[test]
fn kde_x11_sessions_disable_uinput_hotplug() {
    let unsafe_for = |session, desktop, full, display, wayland| {
        kde_x11_uinput_hotplug_is_unsafe(session, [desktop, None, None], full, display, wayland)
    };
    assert!(unsafe_for(Some("x11"), Some("KDE"), None, None, None));
    assert!(unsafe_for(None, Some("ubuntu:plasma"), None, Some(":0"), None));
    assert!(unsafe_for(None, None, Some("true"), Some(":0"), None));
    // Explicit X11 wins over a stray WAYLAND_DISPLAY (nested compositor).
    assert!(unsafe_for(Some("x11"), Some("KDE"), None, Some(":0"), Some("wayland-0")));
    assert!(!unsafe_for(Some("wayland"), Some("KDE"), None, Some(":0"), None));
    assert!(!unsafe_for(None, Some("KDE"), None, Some(":0"), Some("wayland-0")));
    assert!(!unsafe_for(Some("x11"), Some("GNOME"), None, Some(":0"), None));
    assert!(!unsafe_for(None, Some("KDE"), None, None, None));
}

#[test]
fn classes_and_libraries_tell_toolkits_apart() {
    assert!(class_drops_synthetic("Google-Chrome\0Google-Chrome"));
    assert!(!class_drops_synthetic("xclock\0XClock"));
    assert!(maps_drop_synthetic("7f00 /usr/lib/libQt6Gui.so.6"));
    assert!(!maps_drop_synthetic("7f00 /usr/lib/libX11.so.6"));
    assert!(requires_core_events("xterm\0XTerm", None));
    assert!(!requires_core_events("xterminal\0Other", None));
    assert!(requires_core_events("app", Some("/usr/lib/libtk8.6.so")));
    assert!(cmdline_is_chromium_helper(&b"/opt/app\0--type=renderer\0".to_vec()));
    assert!(!cmdline_is_chromium_helper(&b"/opt/app\0x--type=renderer\0".to_vec()));
    assert_eq!(child_pids("12 x 34\n"), vec![12, 34]);
    assert!(process_drops_synthetic(None, &vec![b"--type=zygote".to_vec()]));
    assert!(!process_drops_synthetic(Some("libc.so"), &vec![b"sh".to_vec()]));
}

#[test]
fn servers_are_probed_in_order() {
    assert_eq!(display_number("host:10.0").as_deref(), Some("10"));
    assert_eq!(display_number(":0").as_deref(), Some("0"));
    assert_eq!(display_number(":"), None);
    assert_eq!(lock_pid("      1234\n"), Some(1234));
    assert_eq!(lock_pid("pid"), None);
    let probe = |kde, writable, server, vendor, version| {
        mpx_probe(kde, writable, server, vendor, version)
    };
    let good = Some((2, 4));
    assert_eq!(probe(false, true, Some("Xorg"), "The X.Org Foundation", good), Ok(()));
    assert_eq!(probe(true, false, None, "", None), Err(ProbeRefusal::KdeSession));
    assert_eq!(probe(false, false, None, "", good), Err(ProbeRefusal::NotWritable));
    assert_eq!(probe(false, true, Some("Xvfb"), "", good), Err(ProbeRefusal::Server));
    assert_eq!(probe(false, true, None, "TigerVNC Project", good), Err(ProbeRefusal::Vendor));
    assert_eq!(probe(false, true, None, "", Some((2, 1))), Err(ProbeRefusal::OldExtension));
    assert_eq!(probe(false, true, None, "", None), Err(ProbeRefusal::OldExtension));
}

// ---------------------------------------------------------------------------
// Kernel devices
// ---------------------------------------------------------------------------
#[test]
fn device_frames() {
    let record = |kind, code, value| uinput::Record { kind, code, value };
    let sync = record(0, 0, 0);
    assert_eq!(uinput::button(3, true), Some(vec![record(1, 273, 1), sync]));
    assert_eq!(uinput::button(4, true), None);
    assert_eq!(uinput::motion(0, 0), vec![]);
    assert_eq!(uinput::motion(0, -3), vec![record(2, 1, -3), sync]);
    assert_eq!(uinput::wheel(true, 1), vec![record(2, 6, 1), sync]);
    assert_eq!(uinput::key(38, false), Some(vec![record(1, 30, 0), sync]));
    assert_eq!(uinput::key(7, true), None);
    let name = uinput::setup_name(&[7u8; 100]);
    assert_eq!((name.len(), name[78], name[79]), (80, 7, 0));
    assert_eq!(uinput::ioc(1, b'U', 100, 4), 0x4004_5564);
    assert_eq!(uinput::ioc(0, b'U', 1, 0), 0x5501);
}

// ---------------------------------------------------------------------------
// Windows
// ---------------------------------------------------------------------------
#[test]
fn window_trees_are_walked_to_the_root() {
    let chain = vec![50, 40, 30, 1];
    assert!(is_within(&chain, 40, 1));
    assert!(!is_within(&chain, 41, 1));
    assert_eq!(root_child_of(&chain, 1), Some(30));
    assert_eq!(root_child_of(&vec![50], 1), None);
    assert_eq!(owning_pid(&vec![(50, None), (40, Some(0)), (30, Some(9))], 1), Some(9));
    assert_eq!(owning_pid(&vec![(1, Some(9))], 1), None);
    assert_eq!(client_of(&vec![vec![(30, false)], vec![(31, false), (32, true)]]), Some(32));
    let deep = vec![vec![(1, false)], vec![(2, false)], vec![(3, false)], vec![(4, true)]];
    assert_eq!(client_of(&deep), None);
}

#[test]
fn covered_or_outside_points_are_refused() {
    let view = PointView {
        viewable: true,
        left: -10,
        top: 0,
        width: 100,
        height: 50,
        under: Some(30),
        frame: Some(30),
    };
    assert_eq!(check_pointer_target(view, -10, 0), Ok(()));
    assert_eq!(check_pointer_target(view, 90, 0), Err(PointRefusal::Outside));
    let hidden = PointView { viewable: false, ..view };
    assert_eq!(check_pointer_target(hidden, 0, 0), Err(PointRefusal::NotViewable));
    let bare = PointView { under: None, ..view };
    assert_eq!(check_pointer_target(bare, 0, 0), Err(PointRefusal::NothingThere));
    let unmapped = PointView { frame: None, ..view };
    assert_eq!(check_pointer_target(unmapped, 0, 0), Err(PointRefusal::NotMapped));
    let covered = PointView { under: Some(31), ..view };
    assert_eq!(check_pointer_target(covered, 0, 0), Err(PointRefusal::CoveredBy(31)));
}

#[test]
fn popups_and_focus_are_watched() {
    let child = |window, passive| RootChild {
        window,
        unmanaged: true,
        viewable: true,
        pid: Some(9),
        passive,
    };
    assert_eq!(grab_popup_of(&vec![child(1, false), child(2, false), child(3, true)], 9), Some(2));
    assert_eq!(grab_popup_of(&vec![child(1, false)], 8), None);
    assert!(is_passive_popup(&vec![5, 6], [6, 7, 8]));
    assert!(!is_passive_popup(&vec![5], [6, 7, 8]));
    let before = FocusSnapshot { active: Some(1), focus: 1 };
    let now = |active, focus, is_within| FocusNow {
        active: Some(active),
        focus: Some(focus),
        was_within: false,
        is_within,
    };
    assert_eq!(before.check(now(1, 1, false), 2), Watch::Unchanged);
    assert_eq!(before.check(now(2, 2, true), 2), Watch::TakenByTarget);
    assert_eq!(before.check(now(3, 3, false), 2), Watch::Elsewhere);
    assert!(is_focused(true, Some(4), 4, true));
    assert!(!is_focused(true, Some(5), 4, true));
    assert!(is_focused(false, None, 4, true));
}

// ---------------------------------------------------------------------------
// Routes
// ---------------------------------------------------------------------------
#[test]
fn input_takes_the_route_its_target_accepts() {
    let reach = |needs_core, drops_synthetic, pair| Reach { needs_core, drops_synthetic, pair };
    let back = DeliveryMode::Background;
    assert_eq!(parse_window("4194307"), Some(4194307));
    assert_eq!(parse_window("0x400003"), None);
    assert_eq!(pointer_route(None, back, reach(true, true, false)), Route::Desktop);
    assert_eq!(
        pointer_route(Some(5), DeliveryMode::Foreground, reach(true, true, false)),
        Route::Takeover
    );
    assert_eq!(
        pointer_route(Some(5), back, reach(true, true, true)),
        Route::Refuse(Refusal::NeedsCore)
    );
    assert_eq!(pointer_route(Some(5), back, reach(true, false, true)), Route::SendEvent);
    assert_eq!(pointer_route(Some(5), back, reach(false, true, true)), Route::VirtualPair);
    assert_eq!(
        pointer_route(Some(5), back, reach(false, true, false)),
        Route::Refuse(Refusal::DropsSynthetic)
    );
    assert_eq!(
        key_route(Some(5), back, reach(false, true, true), Some(8)),
        Route::Refuse(Refusal::Popup(8))
    );
    let mut pair = Pair::Untried;
    assert!(pair.must_create());
    pair.created(false);
    pair.created(true);
    assert_eq!(pair, Pair::Unavailable);
}

#[test]
fn takeovers_ask_twice_and_restore_what_the_user_left() {
    let mut activation = Activation::new(800);
    assert_eq!(activation.poll(false, 319), Poll::Wait);
    assert_eq!(activation.poll(false, 320), Poll::AskAgain);
    assert_eq!(activation.poll(false, 335), Poll::Wait);
    assert_eq!(activation.poll(false, 800), Poll::GiveUp);
    assert_eq!(activation.poll(true, 900), Poll::Confirmed);
    let after = AfterTakeover {
        window: 5,
        ewmh: true,
        previous_active: Some(4),
        previous_focus: Some(4),
        active: Some(5),
        focus_within: true,
    };
    assert_eq!(restore_activation(after), Restore::Activate(4));
    assert_eq!(
        restore_activation(AfterTakeover { active: Some(6), ..after }),
        Restore::Nothing
    );
    assert_eq!(restore_activation(AfterTakeover { ewmh: false, ..after }), Restore::Focus(4));
    assert_eq!(
        restore_activation(AfterTakeover { ewmh: false, previous_focus: Some(1), ..after }),
        Restore::Nothing
    );
    assert_eq!(restore_pointer(Some((1, 1)), Some((5, 5)), Some((5, 5))), Some((1, 1)));
    assert_eq!(restore_pointer(Some((1, 1)), Some((5, 5)), Some((6, 5))), None);
    assert_eq!(restore_pointer(Some((1, 1)), None, Some((1, 1))), None);
}

// ---------------------------------------------------------------------------
// Virtual gestures
// ---------------------------------------------------------------------------
#[test]
fn virtual_presses_are_checked_and_released() {
    let acts = virtual_gesture::click(5, 6, MouseButton::Right, 2);
    assert_eq!(acts.len(), 2 + 7 + 6);
    assert_eq!(acts[..2], [Act::Warp { x: 5, y: 6 }, Act::Drain]);
    assert_eq!(acts[2], Act::Check { x: 5, y: 6 });
    assert_eq!(acts[3], Act::Button { detail: 3, press: true });
    assert_eq!(acts[8], Act::Pause { ms: 35 });
    assert_eq!(acts[14], Act::Confirm { raw: Raw::ButtonRelease(3), count: 1 });
    assert_eq!(virtual_gesture::click(5, 6, MouseButton::Left, 0).len(), 8);
    let drag = virtual_gesture::drag(&vec![(0, 0), (32, 0)], MouseButton::Left).expect("a path");
    let lists = [acts, drag, virtual_gesture::scroll(1, 2, &vec![(false, 1), (true, -1)])];
    for acts in &lists {
        let mut down = false;
        for (i, act) in acts.iter().enumerate() {
            match act {
                Act::Button { press, .. } => {
                    down = *press;
                    assert!(!*press || matches!(acts[i - 1], Act::Check { .. }));
                }
                Act::Wheel { .. } => assert!(matches!(acts[i - 1], Act::Check { .. })),
                _ => {}
            }
        }
        assert!(!down);
    }
}

#[test]
fn virtual_drags_wait_for_their_motions() {
    let acts = virtual_gesture::drag(&vec![(10, 10), (42, 10)], MouseButton::Left).expect("a path");
    let moved: Vec<(i32, i32)> = acts
        .iter()
        .filter_map(|act| match act {
            Act::Motion { dx, dy } => Some((*dx, *dy)),
            _ => None,
        })
        .collect();
    assert_eq!(moved, vec![(16, 0), (16, 0)]);
    assert!(acts.contains(&Act::Confirm { raw: Raw::Motion, count: 2 }));
    assert_eq!(acts[acts.len() - 5], Act::Warp { x: 42, y: 10 });
    assert_eq!(virtual_gesture::drag(&Vec::new(), MouseButton::Left), Err(EmptyPath));
}

#[test]
fn virtual_scrolls_and_hovers() {
    assert_eq!(virtual_gesture::scroll(1, 2, &Vec::new()), vec![Act::Warp { x: 1, y: 2 }]);
    let acts = virtual_gesture::scroll(1, 2, &vec![(true, -1)]);
    assert_eq!(acts[1..], [
        Act::Drain,
        Act::Check { x: 1, y: 2 },
        Act::Wheel { horizontal: true, turn: -1 },
        Act::Confirm { raw: Raw::Wheel, count: 1 },
    ]);
    assert_eq!(virtual_gesture::hover(0, 7)[0], Act::Check { x: 1, y: 7 });
    assert_eq!(virtual_gesture::hover(9, 7)[3], Act::Motion { dx: 1, dy: 0 });
}

#[test]
fn the_last_key_confirms_a_run() {
    let step = |keycode, press| KeyStep { keycode, press };
    assert_eq!(last_report(&Vec::new()), None);
    assert_eq!(last_report(&vec![step(38, true)]), Some(Raw::KeyPress(38)));
    assert_eq!(last_report(&vec![step(38, true), step(38, false)]), Some(Raw::KeyRelease(38)));
}

#[test]
fn acceleration_is_turned_off_where_it_can_be() {
    assert_eq!(flat_profile(1), None);
    assert_eq!(flat_profile(3), Some(vec![0, 1, 0]));
    assert_eq!(flat_profile(9), None);
}

#[test]
fn owners_are_named_after_the_running_process() {
    let stat = "12 (a) b (c)) S 1 12 12 0 -1 4194560 1 0 0 0 0 0 0 0 20 0 1 0 98765 0";
    let current = |pid, seen| Owner::current(pid, stat, seen, "boot\n", &b"pid:[1]".to_vec(), 1000);
    let owner = current(12, StartOf::At(98765)).expect("this process");
    let own = domain("boot", &b"pid:[1]".to_vec(), 1000);
    assert_eq!(owner, Owner { domain: own, pid: 12, start: 98765 });
    assert_eq!(current(13, StartOf::At(98765)), None);
    assert_eq!(current(12, StartOf::At(98764)), None);
    assert_eq!(current(12, StartOf::Gone), None);
}

#[test]
fn only_the_pointers_of_gone_owners_are_orphans() {
    let current = Owner { domain: 7, pid: 10, start: 100 };
    let device = |id, kind, owner: Owner| DeviceInfo {
        id,
        kind,
        name: format!("{} pointer", owner.master_name(1)).chars().collect(),
    };
    let other = Owner { domain: 7, pid: 11, start: 50 };
    let devices = vec![
        device(1, DeviceKind::MasterPointer, current),
        device(2, DeviceKind::MasterPointer, other),
        device(3, DeviceKind::SlavePointer, other),
        device(4, DeviceKind::MasterPointer, Owner { domain: 8, ..other }),
        DeviceInfo { id: 5, kind: DeviceKind::MasterPointer, name: "mouse".chars().collect() },
    ];
    assert_eq!(orphans(&devices, &vec![StartOf::Gone; 5], &current), vec![2]);
    assert_eq!(orphans(&devices, &vec![StartOf::At(50); 5], &current), Vec::<u16>::new());
    assert_eq!(orphans(&devices, &vec![StartOf::At(51); 5], &current), vec![2]);
}

#[test]
fn failed_gestures_leave_nothing_held() {
    let codes = vec![37, 50, 64];
    let modifiers = Modifiers { ctrl: true, alt: true, shift: true, meta: false };
    let gestures = [
        gesture::Gesture::Click { button: MouseButton::Middle, modifiers, count: 2 },
        gesture::Gesture::Drag { button: MouseButton::Right, modifiers, points: 4 },
        gesture::Gesture::Move,
    ];
    for one in gestures {
        let planned = gesture::plan(&codes, one).unwrap();
        for failed in 0..=planned.len() {
            for landed in [false, true] {
                let mut sent = planned.clone();
                if failed < planned.len() {
                    let releasing = failed >= planned.len() - codes.len();
                    if releasing && !landed {
                        continue;
                    }
                    sent.truncate(failed + usize::from(landed));
                    sent.extend(recover(&codes, one, planned.len(), failed));
                }
                let mut held = Vec::new();
                for action in sent {
                    match action {
                        gesture::Action::Key { keycode, press: true } => held.push((0, keycode)),
                        gesture::Action::Key { keycode, press: false } => {
                            held.retain(|&one| one != (0, keycode));
                        }
                        gesture::Action::Button { detail, press: true } => held.push((1, detail)),
                        gesture::Action::Button { detail, press: false } => {
                            held.retain(|&one| one != (1, detail));
                        }
                        gesture::Action::Move { .. } => {}
                    }
                }
                assert!(held.is_empty(), "{one:?} {failed} {landed}");
            }
        }
    }
}

#[test]
fn the_focus_is_watched_for_a_while() {
    assert!(watch_on(Watch::Unchanged, 0) && watch_on(Watch::Unchanged, 149));
    assert!(!watch_on(Watch::Unchanged, 150));
    assert!(!watch_on(Watch::Elsewhere, 0) && !watch_on(Watch::TakenByTarget, 0));
}

#[test]
fn discovery_waits_a_little_for_what_follows() {
    assert!(Discovery::start(DiscoveryTargets { pointer: false, keyboard: false }).is_none());
    let mut search = Discovery::start(DiscoveryTargets { pointer: true, keyboard: true }).unwrap();
    search.saw(true, false, 40);
    assert_eq!(search.until(), 5000);
    search.saw(true, true, 90);
    assert_eq!(search.until(), 590);
    // Later devices do not prolong the search.
    search.saw(true, true, 400);
    assert_eq!(search.until(), 590);
    let mut late = Discovery::start(DiscoveryTargets { pointer: true, keyboard: false }).unwrap();
    late.saw(true, false, 4800);
    assert_eq!(late.until(), 5000);
}

#[test]
fn confirmations_count_reports_until_the_time_is_up() {
    let press = |device, detail| Report { kind: ReportKind::ButtonPress, device, source: 0, detail };
    let mut wait = Confirmation::new(9, Raw::ButtonPress(1), 2);
    assert_eq!(wait.verdict(999), Wait::GoOn);
    wait.saw(press(9, 1));
    wait.saw(press(8, 1));
    wait.saw(press(9, 2));
    assert_eq!(wait.verdict(1000), Wait::GaveUp);
    wait.saw(press(9, 1));
    assert_eq!(wait.verdict(1000), Wait::Confirmed);
    let key = Confirmation::new(9, Raw::KeyRelease(38), 1);
    assert_eq!((key.verdict(1499), key.verdict(1500)), (Wait::GoOn, Wait::GaveUp));
    assert_eq!(Confirmation::new(9, Raw::Motion, 0).verdict(5000), Wait::Confirmed);
}
