//! What a gesture does, transition by transition.

use vstd::prelude::*;

use super::gesture::{
    clicks, core_actions, detail_of, detents, down_after, key_downs, key_ups, modifier_state,
    planned, sent_clicks, sent_events, sent_wheel, wheel_actions, wheel_buttons, Action, Gesture,
    Hold, Sent,
};
use super::mpx::{drag_steps, Raw};
use super::virtual_gesture::{
    click_acts, drag_acts, is_down, motions, one_click, scroll_acts, turns, Act,
};
use crate::desktop::keys::{Modifiers, MouseButton};

verus! {

/// Left, middle and right are numbered from one.
pub open spec fn button_number(button: MouseButton) -> u8 {
    match button {
        MouseButton::Left => 1,
        MouseButton::Middle => 2,
        MouseButton::Right => 3,
    }
}

/// At least once.
pub open spec fn times_of(count: u32) -> int {
    if count == 0 {
        1
    } else {
        count as int
    }
}

proof fn lemma_clicks(detail: u8, n: int)
    requires
        0 <= n,
    ensures
        clicks(detail, n).len() == 2 * n,
        forall|k: int|
            0 <= k < 2 * n ==> #[trigger] clicks(detail, n)[k] == (Action::Button {
                detail,
                press: k % 2 == 0,
            }),
    decreases n,
{
    if n > 0 {
        lemma_clicks(detail, n - 1);
    }
}

proof fn lemma_places(codes: Seq<u8>, gesture: Gesture)
    ensures
        ({
            let all = planned(codes, gesture);
            let core = core_actions(gesture);
            let m = codes.len() as int;
            &&& all.len() == 2 * m + core.len()
            &&& forall|i: int|
                0 <= i < m ==> #[trigger] all[i] == (Action::Key {
                    keycode: codes[i],
                    press: true,
                })
            &&& forall|i: int| m <= i < m + core.len() ==> #[trigger] all[i] == core[i - m]
            &&& forall|i: int|
                m + core.len() <= i < all.len() ==> #[trigger] all[i] == (Action::Key {
                    keycode: codes[all.len() - 1 - i],
                    press: false,
                })
        }),
{
    let all = planned(codes, gesture);
    let core = core_actions(gesture);
    let m = codes.len() as int;
    assert forall|i: int| 0 <= i < m implies #[trigger] all[i] == (Action::Key {
        keycode: codes[i],
        press: true,
    }) by {
        assert(all[i] == key_downs(codes)[i]);
    }
    assert forall|i: int| m + core.len() <= i < all.len() implies #[trigger] all[i] == (
    Action::Key { keycode: codes[all.len() - 1 - i], press: false }) by {
        assert(all[i] == key_ups(codes)[i - m - core.len()]);
    }
}

/// The modifier keys of a gesture go down first, in order, and up last, in
/// reverse; nothing in between is a key.
pub proof fn law_modifiers_wrap_the_gesture(codes: Seq<u8>, gesture: Gesture, i: int)
    requires
        0 <= i < planned(codes, gesture).len(),
        !(gesture is Drag && gesture->Drag_points == 0),
    ensures
        ({
            let all = planned(codes, gesture);
            let m = codes.len() as int;
            &&& all.len() > 2 * m
            &&& i < m ==> all[i] == (Action::Key { keycode: codes[i], press: true })
            &&& all.len() - m <= i ==> all[i] == (Action::Key {
                keycode: codes[all.len() - 1 - i],
                press: false,
            })
            &&& m <= i < all.len() - m ==> !(all[i] is Key)
            &&& all[m] == (Action::Move { point: 0 })
        }),
{
    lemma_places(codes, gesture);
    let all = planned(codes, gesture);
    let core = core_actions(gesture);
    let m = codes.len() as int;
    assert(all[m] == core[0]);
    match gesture {
        Gesture::Click { button, count, .. } => {
            lemma_clicks(detail_of(button), times_of(count));
        },
        Gesture::Scroll { vertical, up, horizontal, left } => {
            lemma_wheel(vertical, up, horizontal, left);
        },
        _ => {},
    }
    if m <= i < all.len() - m {
        assert(all[i] == core[i - m]);
    }
}

/// A drag goes to its first point, presses its button there, goes through the
/// other points in order with the button down, and releases it behind the last.
pub proof fn law_drag_holds_its_button(codes: Seq<u8>, gesture: Gesture)
    requires
        gesture is Drag,
        gesture->Drag_points >= 1,
    ensures
        ({
            let all = planned(codes, gesture);
            let m = codes.len() as int;
            let points = gesture->Drag_points;
            let detail = button_number(gesture->Drag_button);
            &&& all.len() == 2 * m + points + 2
            &&& all[m] == (Action::Move { point: 0 })
            &&& all[m + 1] == (Action::Button { detail, press: true })
            &&& forall|i: int|
                m + 2 <= i < m + points + 1 ==> #[trigger] all[i] == (Action::Move {
                    point: (i - m - 1) as usize,
                }) && down_after(false, all, i, Hold::Button(detail))
            &&& all[m + points + 1] == (Action::Button { detail, press: false })
        }),
{
    lemma_places(codes, gesture);
    let all = planned(codes, gesture);
    let core = core_actions(gesture);
    let m = codes.len() as int;
    let points = gesture->Drag_points;
    let detail = button_number(gesture->Drag_button);
    assert(core.len() == points + 2);
    assert(all[m] == core[0]);
    assert(all[m + 1] == core[1]);
    assert(all[m + points + 1] == core[points + 1]);
    assert forall|i: int| m + 2 <= i < m + points + 1 implies #[trigger] all[i] == (Action::Move {
        point: (i - m - 1) as usize,
    }) by {
        assert(all[i] == core[i - m]);
    }
    assert forall|i: int| m + 2 <= i < m + points + 1 implies down_after(
        false,
        all,
        i,
        Hold::Button(detail),
    ) by {
        lemma_held(all, m, points as int, detail, i);
    }
}

proof fn lemma_held(all: Seq<Action>, m: int, points: int, detail: u8, i: int)
    requires
        0 <= m,
        m + 2 <= i <= m + points + 1 < all.len(),
        all[m + 1] == (Action::Button { detail, press: true }),
        forall|k: int| m + 2 <= k < m + points + 1 ==> #[trigger] all[k] is Move,
    ensures
        down_after(false, all, i, Hold::Button(detail)),
    decreases i,
{
    if i > m + 2 {
        assert(all[i - 1] is Move);
        lemma_held(all, m, points, detail, i - 1);
    }
}

/// A click goes to its point and presses and releases its button there as often
/// as asked, and at least once.
pub proof fn law_click_presses_as_often_as_asked(codes: Seq<u8>, gesture: Gesture)
    requires
        gesture is Click,
    ensures
        ({
            let all = planned(codes, gesture);
            let m = codes.len() as int;
            let times = if gesture->Click_count == 0 {
                1
            } else {
                gesture->Click_count as int
            };
            let detail = button_number(gesture->Click_button);
            &&& all.len() == 2 * m + 1 + 2 * times
            &&& all[m] == (Action::Move { point: 0 })
            &&& forall|i: int|
                m < i <= m + 2 * times ==> #[trigger] all[i] == (Action::Button {
                    detail,
                    press: (i - m) % 2 == 1,
                })
        }),
{
    lemma_places(codes, gesture);
    let all = planned(codes, gesture);
    let core = core_actions(gesture);
    let m = codes.len() as int;
    let times = times_of(gesture->Click_count);
    let detail = button_number(gesture->Click_button);
    lemma_clicks(detail, times);
    assert(all[m] == core[0]);
    assert forall|i: int| m < i <= m + 2 * times implies #[trigger] all[i] == (Action::Button {
        detail,
        press: (i - m) % 2 == 1,
    }) by {
        assert(all[i] == core[i - m]);
        assert(core[i - m] == clicks(detail, times)[i - m - 1]);
    }
}

proof fn lemma_wheel(vertical: u32, up: bool, horizontal: u32, left: bool)
    ensures
        ({
            let buttons = wheel_buttons(vertical, up, horizontal, left);
            let acts = wheel_actions(buttons, buttons.len() as int);
            &&& acts.len() == 2 * vertical + 2 * horizontal
            &&& forall|k: int|
                0 <= k < 2 * vertical ==> #[trigger] acts[k] == (Action::Button {
                    detail: if up { 4 } else { 5 },
                    press: k % 2 == 0,
                })
            &&& forall|k: int|
                2 * vertical <= k < acts.len() ==> #[trigger] acts[k] == (Action::Button {
                    detail: if left { 6 } else { 7 },
                    press: k % 2 == 0,
                })
        }),
{
    let buttons = wheel_buttons(vertical, up, horizontal, left);
    let a: u8 = if up {
        4
    } else {
        5
    };
    let b: u8 = if left {
        6
    } else {
        7
    };
    lemma_clicks(a, vertical as int);
    lemma_clicks(b, horizontal as int);
    reveal_with_fuel(wheel_actions, 3);
    let acts = wheel_actions(buttons, buttons.len() as int);
    assert(acts =~= clicks(a, vertical as int) + clicks(b, horizontal as int));
}

/// A scroll goes to its point and presses wheel button 4 or 5 once for each
/// detent up or down, and then 6 or 7 once for each detent left or right.
pub proof fn law_scroll_turns_as_far_as_asked(codes: Seq<u8>, gesture: Gesture)
    requires
        gesture is Scroll,
    ensures
        ({
            let all = planned(codes, gesture);
            let m = codes.len() as int;
            let v = gesture->Scroll_vertical;
            let h = gesture->Scroll_horizontal;
            &&& all.len() == 2 * m + 1 + 2 * v + 2 * h
            &&& all[m] == (Action::Move { point: 0 })
            &&& forall|i: int|
                m < i <= m + 2 * v ==> #[trigger] all[i] == (Action::Button {
                    detail: if gesture->Scroll_up { 4 } else { 5 },
                    press: (i - m) % 2 == 1,
                })
            &&& forall|i: int|
                m + 2 * v < i <= m + 2 * v + 2 * h ==> #[trigger] all[i] == (Action::Button {
                    detail: if gesture->Scroll_left { 6 } else { 7 },
                    press: (i - m) % 2 == 1,
                })
        }),
{
    lemma_places(codes, gesture);
    let all = planned(codes, gesture);
    let core = core_actions(gesture);
    let m = codes.len() as int;
    let v = gesture->Scroll_vertical;
    let h = gesture->Scroll_horizontal;
    lemma_wheel(v, gesture->Scroll_up, h, gesture->Scroll_left);
    let buttons = wheel_buttons(v, gesture->Scroll_up, h, gesture->Scroll_left);
    let acts = wheel_actions(buttons, buttons.len() as int);
    assert(all[m] == core[0]);
    assert forall|i: int| m < i <= m + 2 * v + 2 * h implies #[trigger] all[i] == acts[i - m - 1] by {
        assert(all[i] == core[i - m]);
    }
}

/// A detent of the virtual wheel is up or right where it is positive; there is
/// one for each detent asked for, the vertical ones first.
pub proof fn law_virtual_wheel_turns_as_far_as_asked(
    vertical: u32,
    down: bool,
    horizontal: u32,
    right: bool,
)
    ensures
        ({
            let all = detents(vertical, down, horizontal, right);
            &&& all.len() == vertical + horizontal
            &&& forall|i: int|
                0 <= i < all.len() ==> (#[trigger] all[i]).0 == (i >= vertical)
                    && all[i].1 == (if i < vertical {
                    if down { -1i32 } else { 1i32 }
                } else {
                    if right { 1i32 } else { -1i32 }
                })
        }),
{
}

// ---------------------------------------------------------------------------
// Synthetic events
// ---------------------------------------------------------------------------
/// The state of a synthetic event names its modifiers: one for shift, four for
/// control, eight for alt and sixty-four for meta, added up.
pub proof fn law_state_names_the_modifiers(m: Modifiers)
    ensures
        modifier_state(m) == (if m.shift { 1int } else { 0int }) + (if m.ctrl { 4int } else { 0int })
            + (if m.alt { 8int } else { 0int }) + (if m.meta { 64int } else { 0int }),
{
    let a: u16 = if m.shift {
        1
    } else {
        0
    };
    let b: u16 = if m.ctrl {
        4
    } else {
        0
    };
    let c: u16 = if m.alt {
        8
    } else {
        0
    };
    let d: u16 = if m.meta {
        64
    } else {
        0
    };
    assert(a | b | c | d == a + b + c + d) by (bit_vector)
        requires
            a == 0 || a == 1,
            b == 0 || b == 4,
            c == 0 || c == 8,
            d == 0 || d == 64,
    ;
}

/// The state bits of modifiers, and with a button held.
spec fn with_button(m: Modifiers, button: MouseButton) -> u16 {
    modifier_state(m) | match button {
        MouseButton::Left => 0x100u16,
        MouseButton::Middle => 0x200u16,
        MouseButton::Right => 0x400u16,
    }
}

/// A held button adds its bit to the state: 256 for the left one, 512 for the
/// middle one and 1024 for the right one.
pub open spec fn held_state(m: Modifiers, button: MouseButton) -> int {
    modifier_state(m) + match button {
        MouseButton::Left => 256int,
        MouseButton::Middle => 512int,
        MouseButton::Right => 1024int,
    }
}

proof fn lemma_held_state(m: Modifiers, button: MouseButton)
    ensures
        with_button(m, button) == held_state(m, button),
{
    law_state_names_the_modifiers(m);
    let s = modifier_state(m);
    let b: u16 = match button {
        MouseButton::Left => 0x100u16,
        MouseButton::Middle => 0x200u16,
        MouseButton::Right => 0x400u16,
    };
    assert(s | b == s + b) by (bit_vector)
        requires
            s < 0x100,
            b == 0x100 || b == 0x200 || b == 0x400,
    ;
}

proof fn lemma_sent_clicks(detail: u8, state: u16, held: u16, n: int)
    requires
        0 <= n,
    ensures
        sent_clicks(detail, state, held, n).len() == 2 * n,
        forall|k: int|
            0 <= k < 2 * n ==> #[trigger] sent_clicks(detail, state, held, n)[k] == (Sent {
                point: 0,
                button: Some((detail, k % 2 == 0)),
                state: if k % 2 == 0 { state } else { held },
            }),
    decreases n,
{
    if n > 0 {
        lemma_sent_clicks(detail, state, held, n - 1);
    }
}

/// A synthetic drag presses its button at the first point, moves to each later
/// point in order with the button in its state, and releases it at the last.
pub proof fn law_sent_drag_holds_its_button(gesture: Gesture)
    requires
        gesture is Drag,
        gesture->Drag_points >= 1,
    ensures
        ({
            let all = sent_events(gesture);
            let points = gesture->Drag_points;
            let button = gesture->Drag_button;
            let m = gesture->Drag_modifiers;
            &&& all.len() == points + 1
            &&& all[0].point == 0 && all[0].button == Some((button_number(button), true))
                && all[0].state == modifier_state(m)
            &&& forall|i: int|
                1 <= i < points ==> (#[trigger] all[i]).point == i && all[i].button is None
                    && all[i].state == held_state(m, button)
            &&& all[points as int].point == points - 1 && all[points as int].button == Some(
                (button_number(button), false),
            ) && all[points as int].state == held_state(m, button)
        }),
{
    lemma_held_state(gesture->Drag_modifiers, gesture->Drag_button);
}

/// A synthetic click presses and releases its button at its point as often as
/// asked, and at least once; a release has the button in its state.
pub proof fn law_sent_click_presses_as_often_as_asked(gesture: Gesture)
    requires
        gesture is Click,
    ensures
        ({
            let all = sent_events(gesture);
            let button = gesture->Click_button;
            let m = gesture->Click_modifiers;
            let times = if gesture->Click_count == 0 {
                1
            } else {
                gesture->Click_count as int
            };
            &&& all.len() == 2 * times
            &&& forall|k: int|
                0 <= k < 2 * times ==> (#[trigger] all[k]).point == 0 && all[k].button == Some(
                    (button_number(button), k % 2 == 0),
                ) && all[k].state == (if k % 2 == 0 {
                    modifier_state(m) as int
                } else {
                    held_state(m, button)
                })
        }),
{
    let m = gesture->Click_modifiers;
    let button = gesture->Click_button;
    lemma_held_state(m, button);
    lemma_sent_clicks(
        detail_of(button),
        modifier_state(m),
        with_button(m, button),
        times_of(gesture->Click_count),
    );
}

/// A synthetic scroll presses its wheel buttons as the real one does, with no
/// modifiers, and a synthetic move is one motion.
pub proof fn law_sent_scroll_turns_as_far_as_asked(gesture: Gesture)
    requires
        gesture is Scroll,
    ensures
        ({
            let all = sent_events(gesture);
            let v = gesture->Scroll_vertical;
            let h = gesture->Scroll_horizontal;
            &&& all.len() == 2 * v + 2 * h
            &&& forall|k: int|
                0 <= k < all.len() ==> (#[trigger] all[k]).point == 0 && all[k].state == 0
                    && all[k].button == Some(
                    (
                        if k < 2 * v {
                            if gesture->Scroll_up { 4u8 } else { 5u8 }
                        } else {
                            if gesture->Scroll_left { 6u8 } else { 7u8 }
                        },
                        k % 2 == 0,
                    ),
                )
        }),
        sent_events(Gesture::Move) =~= seq![Sent { point: 0, button: None, state: 0 }],
{
    let v = gesture->Scroll_vertical;
    let h = gesture->Scroll_horizontal;
    let a: u8 = if gesture->Scroll_up {
        4
    } else {
        5
    };
    let b: u8 = if gesture->Scroll_left {
        6
    } else {
        7
    };
    lemma_sent_clicks(a, 0, 0, v as int);
    lemma_sent_clicks(b, 0, 0, h as int);
    let buttons = wheel_buttons(v, gesture->Scroll_up, h, gesture->Scroll_left);
    reveal_with_fuel(sent_wheel, 3);
    assert(sent_wheel(buttons, buttons.len() as int) =~= sent_clicks(a, 0, 0, v as int)
        + sent_clicks(b, 0, 0, h as int));
}

// ---------------------------------------------------------------------------
// The virtual pointer
// ---------------------------------------------------------------------------
proof fn lemma_down_run(acts: Seq<Act>, detail: u8, from: int, n: int)
    requires
        0 < from <= n <= acts.len(),
        acts[from - 1] == (Act::Button { detail, press: true }),
        forall|i: int| from <= i < n ==> !((#[trigger] acts[i]) is Button),
    ensures
        is_down(acts, detail, n),
    decreases n,
{
    if from < n {
        assert(!(acts[n - 1] is Button));
        lemma_down_run(acts, detail, from, n - 1);
    }
}

/// A drag of the virtual pointer starts at the first point of its path, checks
/// it, and moves with the button down; it is put on the last point before the
/// button is released, once, at the end.
pub proof fn law_virtual_drag_holds_its_button(path: Seq<(i16, i16)>, button: MouseButton)
    requires
        path.len() > 0,
    ensures
        ({
            let acts = drag_acts(path, button);
            let detail = button_number(button);
            let n = acts.len() as int;
            let steps = drag_steps(path);
            &&& n == 13 + 2 * steps.len()
            &&& acts[0] == (Act::Warp { x: path[0].0, y: path[0].1 })
            &&& acts[2] == (Act::Check { x: path[0].0, y: path[0].1 })
            &&& acts[3] == (Act::Button { detail, press: true })
            &&& forall|k: int|
                0 <= k < steps.len() ==> #[trigger] acts[7 + 2 * k] == (Act::Motion {
                    dx: steps[k].0 as i32,
                    dy: steps[k].1 as i32,
                })
            &&& forall|i: int|
                0 <= i < n && (#[trigger] acts[i] is Motion) ==> is_down(acts, detail, i)
            &&& acts[n - 5] == (Act::Warp { x: path.last().0, y: path.last().1 })
            &&& acts[n - 2] == (Act::Button { detail, press: false })
            &&& forall|i: int|
                0 <= i < n && (#[trigger] acts[i] is Button) ==> i == 3 || i == n - 2
        }),
{
    let acts = drag_acts(path, button);
    let detail = button_number(button);
    let steps = drag_steps(path);
    let n = acts.len() as int;
    let mid = motions(steps);
    assert(mid.len() == 2 * steps.len());
    assert forall|i: int| 7 <= i < n - 6 implies #[trigger] acts[i] == mid[i - 7] by {}
    assert forall|k: int| 0 <= k < steps.len() implies #[trigger] acts[7 + 2 * k] == (Act::Motion {
        dx: steps[k].0 as i32,
        dy: steps[k].1 as i32,
    }) by {
        assert(acts[7 + 2 * k] == mid[2 * k]);
        assert((2 * k) / 2 == k);
    }
    assert forall|i: int| 0 <= i < n && (#[trigger] acts[i] is Button) implies i == 3 || i == n
        - 2 by {
        if 7 <= i < n - 6 {
            assert(acts[i] == mid[i - 7]);
        }
    }
    assert forall|i: int| 0 <= i < n && (#[trigger] acts[i] is Motion) implies is_down(
        acts,
        detail,
        i,
    ) by {
        assert(7 <= i < n - 6);
        lemma_down_run(acts, detail, 4, i);
    }
}

proof fn lemma_virtual_clicks(x: i16, y: i16, detail: u8, n: int, count: int)
    requires
        0 <= n <= count,
    ensures
        ({
            let acts = super::virtual_gesture::clicks(x, y, detail, n, count);
            &&& acts.len() == (if 0 < n && n == count {
                7 * n - 1
            } else {
                7 * n
            })
            &&& forall|k: int| 0 <= k < n ==> #[trigger] clicked_at(acts, x, y, detail, 7 * k)
        }),
    decreases n,
{
    if n > 0 {
        lemma_virtual_clicks(x, y, detail, n - 1, count);
        let prior = super::virtual_gesture::clicks(x, y, detail, n - 1, count);
        let acts = super::virtual_gesture::clicks(x, y, detail, n, count);
        let more = one_click(x, y, detail, n == count);
        assert(acts == prior + more);
        assert forall|k: int| 0 <= k < n implies #[trigger] clicked_at(acts, x, y, detail, 7 * k) by {
            if k < n - 1 {
                assert(clicked_at(prior, x, y, detail, 7 * k));
            }
        }
    }
}

/// A checked click stands at `i`: the target is checked, the button goes down,
/// that is confirmed, and it goes up.
pub open spec fn clicked_at(acts: Seq<Act>, x: i16, y: i16, detail: u8, i: int) -> bool {
    &&& i + 5 < acts.len()
    &&& acts[i] == (Act::Check { x, y })
    &&& acts[i + 1] == (Act::Button { detail, press: true })
    &&& acts[i + 2] == (Act::Confirm { raw: Raw::ButtonPress(detail), count: 1 })
    &&& acts[i + 3] is Pause
    &&& acts[i + 4] == (Act::Button { detail, press: false })
    &&& acts[i + 5] == (Act::Confirm { raw: Raw::ButtonRelease(detail), count: 1 })
}

/// A click of the virtual pointer goes to its point and clicks there as often
/// as asked, and at least once, with a check before and a confirmation behind
/// every press.
pub proof fn law_virtual_click_presses_as_often_as_asked(x: i16, y: i16, button: MouseButton, count: u32)
    ensures
        ({
            let acts = click_acts(x, y, button, count);
            let times = if count == 0 {
                1
            } else {
                count as int
            };
            &&& acts.len() == 7 * times + 1
            &&& acts[0] == (Act::Warp { x, y })
            &&& acts[1] == Act::Drain
            &&& forall|k: int|
                0 <= k < times ==> #[trigger] clicked_at(acts, x, y, button_number(button), 7 * k + 2)
        }),
{
    let acts = click_acts(x, y, button, count);
    let times = times_of(count);
    let detail = button_number(button);
    lemma_virtual_clicks(x, y, detail, times, times);
    let rest = super::virtual_gesture::clicks(x, y, detail, times, times);
    assert forall|k: int| 0 <= k < times implies #[trigger] clicked_at(
        acts,
        x,
        y,
        detail,
        7 * k + 2,
    ) by {
        assert(clicked_at(rest, x, y, detail, 7 * k));
        assert(acts[7 * k + 2] == rest[7 * k]);
        assert(acts[7 * k + 3] == rest[7 * k + 1]);
        assert(acts[7 * k + 4] == rest[7 * k + 2]);
        assert(acts[7 * k + 5] == rest[7 * k + 3]);
        assert(acts[7 * k + 6] == rest[7 * k + 4]);
        assert(acts[7 * k + 7] == rest[7 * k + 5]);
    }
}

proof fn lemma_turns(x: i16, y: i16, detents: Seq<(bool, i32)>, n: int)
    requires
        0 <= n <= detents.len(),
    ensures
        turns(x, y, detents, n).len() == 3 * n,
        forall|k: int|
            0 <= k < n ==> #[trigger] turned_at(turns(x, y, detents, n), x, y, detents[k], 3 * k),
    decreases n,
{
    if n > 0 {
        lemma_turns(x, y, detents, n - 1);
        let prior = turns(x, y, detents, n - 1);
        let acts = turns(x, y, detents, n);
        assert forall|k: int| 0 <= k < n implies #[trigger] turned_at(
            acts,
            x,
            y,
            detents[k],
            3 * k,
        ) by {
            if k < n - 1 {
                assert(turned_at(prior, x, y, detents[k], 3 * k));
            }
        }
    }
}

/// A checked turn of the wheel stands at `i`.
pub open spec fn turned_at(acts: Seq<Act>, x: i16, y: i16, detent: (bool, i32), i: int) -> bool {
    &&& i + 1 < acts.len()
    &&& acts[i] == (Act::Check { x, y })
    &&& acts[i + 1] == (Act::Wheel { horizontal: detent.0, turn: detent.1 })
}

/// A scroll of the virtual pointer goes to its point and turns the wheel once
/// for each detent, in order, each behind a check; the last is confirmed.
pub proof fn law_virtual_scroll_turns_every_detent(x: i16, y: i16, detents: Seq<(bool, i32)>)
    requires
        detents.len() > 0,
    ensures
        ({
            let acts = scroll_acts(x, y, detents);
            let n = detents.len() as int;
            &&& acts.len() == 3 * n + 2
            &&& acts[0] == (Act::Warp { x, y })
            &&& forall|k: int|
                0 <= k < n - 1 ==> #[trigger] turned_at(acts, x, y, detents[k], 3 * k + 1)
            &&& turned_at(acts, x, y, detents[n - 1], 3 * n - 1)
            &&& acts.last() == (Act::Confirm { raw: Raw::Wheel, count: 1 })
        }),
{
    let acts = scroll_acts(x, y, detents);
    let n = detents.len() as int;
    lemma_turns(x, y, detents, n - 1);
    let rest = turns(x, y, detents, n - 1);
    assert forall|k: int| 0 <= k < n - 1 implies #[trigger] turned_at(
        acts,
        x,
        y,
        detents[k],
        3 * k + 1,
    ) by {
        assert(turned_at(rest, x, y, detents[k], 3 * k));
        assert(acts[3 * k + 1] == rest[3 * k]);
        assert(acts[3 * k + 2] == rest[3 * k + 1]);
    }
}

} // verus!
