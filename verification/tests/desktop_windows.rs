use pi_natives::desktop::win32::ax::{
    actions, attributes, coordinate_click_supported, host_root, invoke_at_point, optional, perform,
    positionless_press, truncate, value, window_id, Action, ControlType, Element, ExpandState, Patterns, Press, Touch,
};
use pi_natives::desktop::win32::delivery::{
    is_chromium_class, is_gtk_class, is_terminal_class, is_tk_class, is_uwp_frame_class,
    is_vcl_class, is_winui3_class, is_wpf_class, non_client_drag_region, posts_double_click,
    text_input_unsupported, text_units, would_be_silently_dropped, EventKind, TargetTraits,
    TextUnit,
};
use pi_natives::desktop::win32::geometry::{
    map_point, DesktopDisplay, LayoutError, PhysicalLayout,
};
use pi_natives::desktop::win32::window::{
    depth_below, descend, focused_descendant, integrity_name, is_xaml_host, owns_foreground,
    pattern_safe, uipi_block, wait_for_foreground, Below, Candidate, UipiBlock, Waiting,
};

#[test]
fn recognizes_real_classes_and_rejects_lookalikes() {
    assert!(is_chromium_class("Chrome_WidgetWin_1"));
    assert!(is_chromium_class("CefBrowserWindow"));
    assert!(is_chromium_class("Chrome_RenderWidgetHostHWND"));
    assert!(!is_chromium_class("Chrome_WidgetWin_"));
    assert!(!is_chromium_class("ChromeWidgetWin_1"));

    assert!(is_winui3_class("WinUIDesktopWin32WindowClass"));
    assert!(!is_winui3_class("WinUIDesktopWin32WindowClass2"));

    assert!(is_wpf_class("HwndWrapper[App;;abc]"));
    assert!(!is_wpf_class("HwndWrapper[App;;abc"));
    assert!(!is_wpf_class("HwndWrapperApp;;abc]"));

    assert!(is_tk_class("TkTopLevel.1"));
    assert!(is_tk_class("TkTopLevel"));
    assert!(!is_tk_class("TkTopLevelish"));
    assert!(!is_tk_class("TkTopLevel."));

    assert!(is_gtk_class("gdkSurfaceToplevel"));
    assert!(is_gtk_class("gdkWindowToplevel"));
    assert!(is_gtk_class("gdkWindowTemp"));
    assert!(!is_gtk_class("gdkWindow"));
    assert!(!is_gtk_class("GdkWindowToplevel"));

    assert!(is_vcl_class("SALFRAME"));
    assert!(!is_vcl_class("SAL"));
    assert!(!is_vcl_class("XSALFRAME"));
}

#[test]
fn frames_and_terminals_by_class() {
    assert!(is_uwp_frame_class("Windows.UI.Core.CoreWindow"));
    assert!(!is_uwp_frame_class("ApplicationFrameWindow2"));
    assert!(is_terminal_class("Vim2"));
    assert!(!is_terminal_class("gVim"));
}

fn assert_matrix(target: TargetTraits<'_>, expected: [bool; 6]) {
    let kinds = [
        EventKind::MouseClick,
        EventKind::MouseMove,
        EventKind::MouseScroll,
        EventKind::Keystroke,
        EventKind::KeyCombo,
        EventKind::TextInput,
    ];
    for (kind, expected) in kinds.into_iter().zip(expected) {
        assert_eq!(
            would_be_silently_dropped(target, kind).is_some(),
            expected,
            "unexpected {target:?}/{} delivery decision",
            kind.name(),
        );
    }
}

const fn background(class: &str) -> TargetTraits<'_> {
    TargetTraits { class, chromium_descendant: false, foreground: false, xaml_host: false }
}

#[test]
fn covers_the_full_known_silent_drop_matrix() {
    assert_matrix(background("Chrome_WidgetWin_1"), [true; 6]);
    assert_matrix(background("CefBrowserWindow"), [true; 6]);
    assert_matrix(background("Chrome_RenderWidgetHostHWND"), [true; 6]);
    assert_matrix(
        background("WinUIDesktopWin32WindowClass"),
        [true, true, true, false, false, false],
    );
    assert_matrix(background("HwndWrapper[App;;abc]"), [true, true, false, true, true, true]);
    assert_matrix(background("TkTopLevel.1"), [true, false, false, true, true, true]);
    assert_matrix(background("gdkSurfaceToplevel"), [true, false, false, false, false, false]);
    assert_matrix(background("gdkWindowToplevel"), [true, false, false, false, false, false]);
    assert_matrix(background("SALFRAME"), [false, false, false, true, true, false]);
    assert_matrix(background("Chrome_WidgetWin"), [false; 6]);
    assert_matrix(background("HwndWrapperApp;;abc]"), [false; 6]);
    assert_matrix(background("TkTopLevelish"), [false; 6]);
    assert_matrix(background("XSALFRAME"), [false; 6]);
}

#[test]
fn wpf_accepts_posted_keys_only_while_it_owns_the_foreground() {
    let foreground = TargetTraits { foreground: true, ..background("HwndWrapper[App;;abc]") };
    assert_matrix(foreground, [true, true, false, false, false, true]);
    let native = TargetTraits { foreground: true, ..background("Notepad") };
    assert_matrix(native, [false; 6]);
}

#[test]
fn xaml_hosts_refuse_posted_keyboard_and_uwp_frames_refuse_posted_pointer() {
    let notepad = TargetTraits { xaml_host: true, ..background("Notepad") };
    assert_matrix(notepad, [false, false, false, true, true, true]);
    let uwp = TargetTraits { xaml_host: true, ..background("ApplicationFrameWindow") };
    assert_matrix(uwp, [true, true, false, true, true, true]);
    let foreground_uwp = TargetTraits { foreground: true, ..uwp };
    assert_matrix(foreground_uwp, [true, true, false, true, true, true]);
}

#[test]
fn terminals_accept_posted_text_only_while_foreground() {
    assert_matrix(
        background("CASCADIA_HOSTING_WINDOW_CLASS"),
        [false, false, false, false, false, true],
    );
    assert_matrix(background("mintty"), [false, false, false, false, false, true]);
    let foreground = TargetTraits { foreground: true, ..background("ConsoleWindowClass") };
    assert_matrix(foreground, [false; 6]);
}

#[test]
fn only_arm64_console_host_rejects_text_in_every_mode() {
    assert!(text_input_unsupported("ConsoleWindowClass", true).is_some());
    assert!(text_input_unsupported("ConsoleWindowClass", false).is_none());
    assert!(text_input_unsupported("CASCADIA_HOSTING_WINDOW_CLASS", true).is_none());
}

#[test]
fn embedded_chromium_refuses_drags_wheel_and_chords_on_top_of_host_toolkit_drops() {
    let tauri = TargetTraits { chromium_descendant: true, ..background("Tauri Window") };
    assert_matrix(tauri, [false, true, true, false, true, false]);
    let wpf_host = TargetTraits { chromium_descendant: true, ..background("HwndWrapper[App;;x]") };
    assert_matrix(wpf_host, [true; 6]);
}

#[test]
fn only_caption_and_sizing_hits_refuse_posted_drags() {
    assert_eq!(non_client_drag_region(2), Some("caption"));
    assert_eq!(non_client_drag_region(4), Some("size box"));
    for border in 10..=17 {
        assert_eq!(non_client_drag_region(border), Some("resize border"));
    }
    for hit in [-2, 0, 1, 3, 8, 18, 20] {
        assert_eq!(non_client_drag_region(hit), None, "hit {hit}");
    }
}

#[test]
fn double_click_messages_follow_class_style_and_press_parity() {
    let presses = |wants_double| (0..4).map(move |index| posts_double_click(index, wants_double));
    assert!(presses(true).eq([false, true, false, true]));
    assert!(presses(false).eq([false; 4]));
}

#[test]
fn every_line_break_style_becomes_exactly_one_return() {
    let enter = TextUnit::Enter;
    let ch = TextUnit::Char;
    let units = |text| text_units(text);
    assert_eq!(
        units("a\r\nb\nc\rd"),
        [ch('a'), enter, ch('b'), enter, ch('c'), enter, ch('d')]
    );
    assert_eq!(units("\r\r\n\n"), [enter, enter, enter]);
    assert_eq!(units("\n\r"), [enter, enter]);
    assert_eq!(units("é\t"), [ch('é'), ch('\t')]);
}

const PIXELS: u64 = 1 << 28;

fn display(x: i32, y: i32, width: u32, height: u32) -> DesktopDisplay {
    DesktopDisplay {
        x,
        y,
        width,
        height,
        pixel_x: 0,
        pixel_y: 0,
        pixel_width: 0,
        pixel_height: 0,
    }
}

#[test]
fn adjacent_mixed_dpi_monitors_do_not_overlap_or_rescale() {
    let mut displays = vec![display(0, 0, 1920, 1080), display(1920, 0, 3840, 2160)];
    let layout = PhysicalLayout::new(&displays, PIXELS).unwrap();
    for display in &mut displays {
        layout.place(display);
    }
    assert_eq!((layout.width, layout.height), (5760, 2160));
    assert_eq!(displays[0].pixel_x + displays[0].pixel_width, displays[1].pixel_x);
    assert_eq!(map_point(&displays, 1919, 500).unwrap(), (1919, 500));
    assert_eq!(map_point(&displays, 1920, 500).unwrap(), (1920, 500));
    assert_eq!(map_point(&displays, 5000, 1800).unwrap(), (5000, 1800));
}

#[test]
fn negative_monitor_origins_round_trip_from_normalized_capture_pixels() {
    let mut displays = vec![display(-2560, -200, 2560, 1440), display(0, 0, 1920, 1080)];
    let layout = PhysicalLayout::new(&displays, PIXELS).unwrap();
    for display in &mut displays {
        layout.place(display);
    }
    assert_eq!((layout.width, layout.height), (4480, 1440));
    assert_eq!(map_point(&displays, 100, 100).unwrap(), (-2460, -100));
    assert_eq!(map_point(&displays, 2660, 400).unwrap(), (100, 200));
    assert!(map_point(&displays, 3000, 100).is_none());
}

#[test]
fn layouts_name_what_is_wrong_with_displays() {
    let layout = |displays: Vec<DesktopDisplay>, max| PhysicalLayout::new(&displays, max).err();
    assert_eq!(layout(vec![], PIXELS), Some(LayoutError::NoDisplays));
    assert_eq!(layout(vec![display(0, 0, 0, 5)], PIXELS), Some(LayoutError::EmptyDisplay));
    let wide = vec![display(i32::MIN, 0, 1, 1), display(i32::MAX, 0, u32::MAX, 1)];
    assert_eq!(layout(wide, u64::MAX), Some(LayoutError::WidthOutOfRange));
    let high = vec![display(0, i32::MIN, 1, 1), display(0, i32::MAX, 1, u32::MAX)];
    assert_eq!(layout(high, u64::MAX), Some(LayoutError::HeightOutOfRange));
    assert_eq!(layout(vec![display(0, 0, 10, 10)], 99), Some(LayoutError::TooLarge));
    assert_eq!(layout(vec![display(0, 0, 10, 10)], 100), None);
}

#[test]
fn the_deepest_focused_window_of_one_branch_wins() {
    let candidate = |usable, chain: &[u64]| Candidate {
        chain: chain.to_vec(),
        child: true,
        visible: usable,
        enabled: true,
        active_root: Some(1),
    };
    let deep = vec![candidate(true, &[1]), candidate(true, &[3, 2, 1]), candidate(false, &[9, 1])];
    assert_eq!(focused_descendant(&deep, 1), Some(3));
    let split = vec![candidate(true, &[2, 1]), candidate(true, &[4, 1])];
    assert_eq!(focused_descendant(&split, 1), None);
    assert_eq!(focused_descendant(&vec![candidate(true, &[5, 6])], 1), None);
    assert_eq!(focused_descendant(&vec![candidate(true, &[])], 1), None);
    let one = |change: &dyn Fn(&mut Candidate)| {
        let mut c = candidate(true, &[2, 1]);
        change(&mut c);
        focused_descendant(&vec![c], 1)
    };
    assert_eq!(one(&|_| ()), Some(2));
    assert_eq!(one(&|c| c.active_root = None), Some(2));
    assert_eq!(one(&|c| c.active_root = Some(7)), None);
    assert_eq!(one(&|c| c.enabled = false), None);
    assert_eq!(one(&|c| c.child = false), None);
    let root = Candidate { child: false, ..candidate(true, &[1]) };
    assert_eq!(focused_descendant(&vec![root], 1), Some(1));
    assert_eq!(depth_below(&vec![3, 2, 1], 1), Some(2));
    assert_eq!(descend(1, 0, true, 0), Below::Nothing);
    assert_eq!(descend(1, 1, true, 0), Below::Here);
    assert_eq!(descend(1, 2, true, 0), Below::Deeper(2));
    assert_eq!(descend(1, 2, true, 32), Below::Nothing);
}

#[test]
fn only_the_window_itself_ends_the_wait_for_the_foreground() {
    assert_eq!(wait_for_foreground(7, 7, 500, 300), Waiting::Arrived);
    assert_eq!(wait_for_foreground(8, 7, 299, 300), Waiting::GoOn);
    assert_eq!(wait_for_foreground(8, 7, 300, 300), Waiting::GaveUp);
    assert!(owns_foreground(9, 7, 7) && !owns_foreground(0, 7, 7) && !owns_foreground(9, 8, 7));
}

#[test]
fn higher_integrity_targets_are_blocked() {
    assert_eq!(uipi_block(0, Some(1), true, Some(1)), Some(UipiBlock::NoProcess));
    assert_eq!(uipi_block(5, None, true, Some(1)), Some(UipiBlock::OwnLevelUnknown));
    assert_eq!(uipi_block(5, Some(1), false, None), Some(UipiBlock::TargetClosed));
    assert_eq!(uipi_block(5, Some(1), true, None), Some(UipiBlock::TargetLevelUnknown));
    assert_eq!(uipi_block(5, Some(0x2000), true, Some(0x3000)), Some(UipiBlock::Above));
    assert_eq!(uipi_block(5, Some(0x2000), true, Some(0x2000)), None);
    let names: Vec<&str> = [0, 0x1000, 0x2000, 0x3000, 0x4000].map(integrity_name).to_vec();
    assert_eq!(names, ["untrusted", "low", "medium", "high", "system"]);
}

#[test]
fn hosts_that_take_the_foreground_are_known() {
    let path: Vec<u16> = "C:\\Windows\\NOTEPAD.EXE".encode_utf16().collect();
    assert!(is_xaml_host("Notepad", Some(&path)));
    let other: Vec<u16> = "C:\\notepad.exe\\other.exe".encode_utf16().collect();
    assert!(!is_xaml_host("Notepad", Some(&other)));
    assert!(is_xaml_host("ApplicationFrameWindow", None));
    assert!(!pattern_safe(false, false, "Chrome_WidgetWin_1", false));
    assert!(pattern_safe(true, true, "Chrome_WidgetWin_1", true));
    assert!(pattern_safe(false, false, "Notepad", false));
}

#[test]
fn coordinate_click_rejects_controls_with_position_dependent_subregions() {
    for role in [
        ControlType::SplitButton,
        ControlType::TreeItem,
        ControlType::ListItem,
        ControlType::Pane,
        ControlType::Custom,
        ControlType::Document,
    ] {
        assert!(!coordinate_click_supported(role), "{role:?}");
    }
    for role in [
        ControlType::Button,
        ControlType::CheckBox,
        ControlType::RadioButton,
        ControlType::TabItem,
    ] {
        assert!(coordinate_click_supported(role), "{role:?}");
    }
}

fn patterns(kind: ControlType) -> Patterns {
    Patterns {
        kind,
        invoke: true,
        toggle: false,
        select: false,
        expand: None,
        scroll: false,
        legacy: false,
        legacy_action: false,
    }
}

#[test]
fn menus_open_and_controls_press_their_own_way() {
    let menu = Patterns { expand: Some(ExpandState::Collapsed), ..patterns(ControlType::MenuItem) };
    assert_eq!(positionless_press(menu), Some(Press::Expand));
    let open = Patterns { expand: Some(ExpandState::Expanded), ..menu };
    assert_eq!(positionless_press(open), Some(Press::Collapse));
    let leaf = Patterns { expand: Some(ExpandState::Leaf), ..menu };
    assert_eq!(positionless_press(leaf), Some(Press::Invoke));
    assert_eq!(positionless_press(patterns(ControlType::CheckBox)), None);
    assert_eq!(perform(patterns(ControlType::CheckBox), Action::Press), Some(Press::Invoke));
    assert_eq!(perform(patterns(ControlType::Pane), Action::Toggle), None);
    assert_eq!(
        actions(menu),
        vec![Action::Press, Action::Invoke, Action::Expand, Action::Collapse]
    );
    assert_eq!(Action::parse("  ScrollIntoView "), Some(Action::ScrollIntoView));
    assert_eq!(Action::parse("dance"), None);
    assert_eq!(Action::Collapse.name(), "collapse");
}

#[test]
fn only_what_is_visible_under_the_point_is_pressed() {
    let element = Element {
        patterns: patterns(ControlType::Button),
        left: 0,
        top: 0,
        right: 10,
        bottom: 10,
        enabled: true,
        offscreen: false,
        hosted: true,
        visible: true,
        window: false,
    };
    assert_eq!(invoke_at_point(element, 5, 5, 0), Touch::Press(Press::Invoke));
    assert_eq!(invoke_at_point(element, 10, 5, 0), Touch::Leave);
    assert_eq!(invoke_at_point(Element { visible: false, ..element }, 5, 5, 0), Touch::Leave);
    let label = Element { patterns: patterns(ControlType::Text), ..element };
    assert_eq!(invoke_at_point(label, 5, 5, 0), Touch::Parent);
    assert_eq!(invoke_at_point(label, 5, 5, 8), Touch::Leave);
    // The first element at the point must be the target's own; a later one need
    // not be, until it is pressed.
    let foreign = Element { hosted: false, ..label };
    assert_eq!(invoke_at_point(foreign, 5, 5, 0), Touch::Leave);
    assert_eq!(invoke_at_point(Element { visible: false, ..label }, 5, 5, 0), Touch::Leave);
    assert_eq!(invoke_at_point(foreign, 5, 5, 1), Touch::Parent);
    assert_eq!(invoke_at_point(Element { hosted: false, ..element }, 5, 5, 1), Touch::Leave);
    let pane = Element { patterns: patterns(ControlType::Pane), ..element };
    assert_eq!(invoke_at_point(pane, 5, 5, 0), Touch::Leave);
}

#[test]
fn long_values_end_in_an_ellipsis() {
    assert_eq!(truncate("short"), "short");
    let long = truncate(&"é".repeat(201));
    assert_eq!(long.chars().count(), 200);
    assert!(long.ends_with('…'));
    let ids = vec!["x".to_string(), "0042".to_string(), "42".to_string()];
    assert_eq!(window_id(&ids, 42), Some(1));
    assert_eq!(window_id(&ids, 43), None);
}

#[test]
fn elements_are_hosted_by_their_nearest_native_window() {
    assert_eq!(host_root(&vec![None, Some(7), Some(8)], 1), Some(7));
    assert_eq!(host_root(&vec![None, Some(1), Some(8)], 1), None);
    assert_eq!(host_root(&vec![None; 80], 1), None);
    let mut deep = vec![None; 64];
    deep.push(Some(7));
    assert_eq!(host_root(&deep, 1), None);
}

#[test]
fn controls_show_their_own_value_before_the_legacy_one() {
    let text = |text: &str| Some(text.to_string());
    assert_eq!(optional(text("a")), text("a"));
    assert_eq!(optional(text("")), None);
    assert_eq!(optional(None), None);
    assert_eq!(value(text("own"), text("old")), text("own"));
    assert_eq!(value(text(""), text("old")), text("old"));
    assert_eq!(value(None, text("")), None);
}

#[test]
fn attributes_without_a_value_are_left_out() {
    let read = vec![
        ("Name".to_string(), Some("Save".to_string())),
        ("Culture".to_string(), None),
        ("HelpText".to_string(), Some("é".repeat(201))),
    ];
    let shown = attributes(&read);
    assert_eq!(shown.len(), 2);
    assert_eq!(shown[0], ("Name".to_string(), "Save".to_string()));
    assert_eq!(shown[1].0, "HelpText");
    assert_eq!(shown[1].1, format!("{}…", "é".repeat(199)));
}

#[test]
fn less_reach_only_adds_drops() {
    let kinds = [
        EventKind::MouseClick,
        EventKind::MouseMove,
        EventKind::MouseScroll,
        EventKind::Keystroke,
        EventKind::KeyCombo,
        EventKind::TextInput,
    ];
    for class in ["Notepad", "ConsoleWindowClass", "HwndWrapper[App;;abc]", "TkTopLevel.1"] {
        for kind in kinds {
            let best = TargetTraits { foreground: true, ..background(class) };
            let worst = TargetTraits { chromium_descendant: true, ..background(class) };
            let xaml = TargetTraits { xaml_host: true, ..background(class) };
            for lesser in [background(class), worst, xaml] {
                if would_be_silently_dropped(best, kind).is_some() {
                    assert!(would_be_silently_dropped(lesser, kind).is_some(), "{lesser:?}");
                }
            }
        }
    }
    let renderer = TargetTraits { chromium_descendant: true, ..background("Notepad") };
    assert!(would_be_silently_dropped(renderer, EventKind::MouseScroll).is_some());
    assert!(would_be_silently_dropped(background("Notepad"), EventKind::MouseScroll).is_none());
}
