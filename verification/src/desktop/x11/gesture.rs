//! Pointer gestures as X11 transitions, real or synthetic.

use vstd::prelude::*;

use crate::desktop::keys::{Modifiers, MouseButton};

verus! {

/// A pointer gesture. Its points are numbered; where they are is known outside.
#[derive(Clone, Copy, Debug, PartialEq, Eq, Structural)]
pub enum Gesture {
    Move,
    Click { button: MouseButton, modifiers: Modifiers, count: u32 },
    /// A drag along so many points.
    Drag { button: MouseButton, modifiers: Modifiers, points: usize },
    /// Whole detents of the wheel.
    Scroll { vertical: u32, up: bool, horizontal: u32, left: bool },
}

/// The gesture cannot be planned: a drag without points.
#[derive(Clone, Copy, Debug, PartialEq, Eq, Structural)]
pub struct EmptyPath;

/// One transition.
#[derive(Clone, Copy, Debug, PartialEq, Eq, Structural)]
pub enum Action {
    Key { keycode: u8, press: bool },
    Move { point: usize },
    Button { detail: u8, press: bool },
}

/// The number of a button.
pub open spec fn detail_of(button: MouseButton) -> u8 {
    match button {
        MouseButton::Left => 1,
        MouseButton::Middle => 2,
        MouseButton::Right => 3,
    }
}

/// The number of a button.
pub fn button_detail(button: MouseButton) -> (detail: u8)
    ensures
        detail == detail_of(button),
{
    match button {
        MouseButton::Left => 1,
        MouseButton::Middle => 2,
        MouseButton::Right => 3,
    }
}

/// The button of a gesture.
pub open spec fn gesture_button(gesture: Gesture) -> Option<u8> {
    match gesture {
        Gesture::Click { button, .. } => Some(detail_of(button)),
        Gesture::Drag { button, .. } => Some(detail_of(button)),
        _ => None,
    }
}

/// The wheel buttons of a scroll and how often each is pressed: 4 and 5 for up
/// and down, 6 and 7 for left and right.
pub open spec fn wheel_buttons(vertical: u32, up: bool, horizontal: u32, left: bool) -> Seq<
    (u8, u32),
> {
    let none = Seq::<(u8, u32)>::empty();
    (if vertical > 0 {
        seq![(if up { 4u8 } else { 5u8 }, vertical)]
    } else {
        none
    }) + (if horizontal > 0 {
        seq![(if left { 6u8 } else { 7u8 }, horizontal)]
    } else {
        none
    })
}

/// The wheel buttons of a scroll and how often each is pressed.
pub fn scroll_buttons(vertical: u32, up: bool, horizontal: u32, left: bool) -> (out: Vec<(u8, u32)>)
    ensures
        out@ == wheel_buttons(vertical, up, horizontal, left),
{
    let mut out: Vec<(u8, u32)> = Vec::new();
    if vertical > 0 {
        let detail: u8 = if up {
            4
        } else {
            5
        };
        out.push((detail, vertical));
    }
    if horizontal > 0 {
        let detail: u8 = if left {
            6
        } else {
            7
        };
        out.push((detail, horizontal));
    }
    assert(out@ =~= wheel_buttons(vertical, up, horizontal, left));
    out
}

/// One detent each of a virtual wheel: whether it is horizontal, and its turn.
/// Up and right are positive.
pub open spec fn detents(vertical: u32, down: bool, horizontal: u32, right: bool) -> Seq<(bool, i32)> {
    Seq::new(vertical as nat, |i: int| (false, if down { -1i32 } else { 1i32 })) + Seq::new(
        horizontal as nat,
        |i: int| (true, if right { 1i32 } else { -1i32 }),
    )
}

/// One detent each of a virtual wheel: whether it is horizontal, and its turn.
pub fn wheel_detents(vertical: u32, down: bool, horizontal: u32, right: bool) -> (out: Vec<
    (bool, i32),
>)
    ensures
        out@ == detents(vertical, down, horizontal, right),
{
    let mut out: Vec<(bool, i32)> = Vec::new();
    let turn: i32 = if down {
        -1
    } else {
        1
    };
    let mut i: u32 = 0;
    while i < vertical
        invariant
            i <= vertical,
            turn == (if down {
                -1i32
            } else {
                1i32
            }),
            out@ == Seq::new(i as nat, |k: int| (false, turn)),
        decreases vertical - i,
    {
        out.push((false, turn));
        assert(out@ =~= Seq::new((i + 1) as nat, |k: int| (false, turn)));
        i = i + 1;
    }
    let ghost first = out@;
    let side: i32 = if right {
        1
    } else {
        -1
    };
    let mut j: u32 = 0;
    assert(first + Seq::new(0, |k: int| (true, side)) =~= first);
    while j < horizontal
        invariant
            j <= horizontal,
            side == (if right {
                1i32
            } else {
                -1i32
            }),
            out@ == first + Seq::new(j as nat, |k: int| (true, side)),
        decreases horizontal - j,
    {
        out.push((true, side));
        assert(out@ =~= first + Seq::new((j + 1) as nat, |k: int| (true, side)));
        j = j + 1;
    }
    assert(out@ =~= detents(vertical, down, horizontal, right));
    out
}

/// So many presses and releases of a button.
pub open spec fn clicks(detail: u8, n: int) -> Seq<Action>
    decreases n,
{
    if n <= 0 {
        Seq::empty()
    } else {
        clicks(detail, n - 1) + seq![
            Action::Button { detail, press: true },
            Action::Button { detail, press: false },
        ]
    }
}

/// Moves to the points from `a` up to `b`.
pub open spec fn moves(a: int, b: int) -> Seq<Action> {
    Seq::new((if a < b { b - a } else { 0 }) as nat, |i: int| Action::Move { point: (a + i) as usize })
}

/// The presses of the first `k` wheel buttons.
pub open spec fn wheel_actions(buttons: Seq<(u8, u32)>, k: int) -> Seq<Action>
    decreases k,
{
    if k <= 0 {
        Seq::empty()
    } else {
        wheel_actions(buttons, k - 1) + clicks(buttons[k - 1].0, buttons[k - 1].1 as int)
    }
}

/// What a gesture does between its modifiers.
pub open spec fn core_actions(gesture: Gesture) -> Seq<Action> {
    let first = seq![Action::Move { point: 0 }];
    match gesture {
        Gesture::Move => first,
        Gesture::Scroll { vertical, up, horizontal, left } => {
            let buttons = wheel_buttons(vertical, up, horizontal, left);
            first + wheel_actions(buttons, buttons.len() as int)
        },
        Gesture::Click { button, count, .. } => first + clicks(
            detail_of(button),
            if count == 0 {
                1
            } else {
                count as int
            },
        ),
        Gesture::Drag { button, points, .. } => first.push(
            Action::Button { detail: detail_of(button), press: true },
        ) + moves(1, points as int).push(
            Action::Button { detail: detail_of(button), press: false },
        ),
    }
}

/// The keys go down, in order.
pub open spec fn key_downs(codes: Seq<u8>) -> Seq<Action> {
    codes.map_values(|keycode: u8| Action::Key { keycode, press: true })
}

/// The keys go up, in reverse order.
pub open spec fn key_ups(codes: Seq<u8>) -> Seq<Action> {
    Seq::new(
        codes.len(),
        |i: int| Action::Key { keycode: codes[codes.len() - 1 - i], press: false },
    )
}

fn push_clicks(detail: u8, times: u32, out: &mut Vec<Action>)
    ensures
        final(out)@ == old(out)@ + clicks(detail, times as int),
{
    let ghost base = out@;
    let mut n: u32 = 0;
    assert(base + clicks(detail, 0) =~= base);
    while n < times
        invariant
            n <= times,
            out@ == base + clicks(detail, n as int),
        decreases times - n,
    {
        out.push(Action::Button { detail, press: true });
        out.push(Action::Button { detail, press: false });
        assert(out@ =~= base + clicks(detail, n + 1));
        n = n + 1;
    }
}

fn push_ups(codes: &[u8], out: &mut Vec<Action>)
    ensures
        final(out)@ == old(out)@ + key_ups(codes@),
{
    let ghost before = out@;
    let n: usize = codes.len();
    let mut i: usize = 0;
    assert(before + key_ups(codes@).take(0) =~= before);
    while i < n
        invariant
            n == codes@.len(),
            i <= n,
            out@ == before + key_ups(codes@).take(i as int),
        decreases n - i,
    {
        out.push(Action::Key { keycode: codes[n - 1 - i], press: false });
        assert(out@ =~= before + key_ups(codes@).take(i + 1));
        i = i + 1;
    }
    assert(key_ups(codes@).take(i as int) =~= key_ups(codes@));
}

/// The transitions of a gesture with the modifier keys `codes` held around it.
pub open spec fn planned(codes: Seq<u8>, gesture: Gesture) -> Seq<Action> {
    key_downs(codes) + core_actions(gesture) + key_ups(codes)
}

/// The transitions of a gesture with the modifier keys `codes` held around it.
pub fn plan(codes: &Vec<u8>, gesture: Gesture) -> (r: Result<Vec<Action>, EmptyPath>)
    ensures
        match r {
            Ok(actions) => {
                &&& !(gesture matches Gesture::Drag { points, .. } && points == 0)
                &&& actions@ == planned(codes@, gesture)
            },
            Err(_) => gesture matches Gesture::Drag { points, .. } && points == 0,
        },
{
    let mut out: Vec<Action> = Vec::new();
    let mut i: usize = 0;
    assert(out@ =~= key_downs(codes@).take(0));
    while i < codes.len()
        invariant
            i <= codes@.len(),
            out@ == key_downs(codes@).take(i as int),
        decreases codes@.len() - i,
    {
        out.push(Action::Key { keycode: codes[i], press: true });
        assert(out@ =~= key_downs(codes@).take(i + 1));
        i = i + 1;
    }
    assert(key_downs(codes@).take(i as int) =~= key_downs(codes@));
    let ghost down = key_downs(codes@);
    out.push(Action::Move { point: 0 });
    match gesture {
        Gesture::Move => {},
        Gesture::Click { button, count, .. } => {
            let times: u32 = if count == 0 {
                1
            } else {
                count
            };
            push_clicks(button_detail(button), times, &mut out);
        },
        Gesture::Drag { button, points, .. } => {
            if points == 0 {
                return Err(EmptyPath);
            }
            let detail: u8 = button_detail(button);
            out.push(Action::Button { detail, press: true });
            let ghost base = out@;
            let mut p: usize = 1;
            assert(base + moves(1, 1) =~= base);
            while p < points
                invariant
                    1 <= p <= points,
                    out@ == base + moves(1, p as int),
                decreases points - p,
            {
                out.push(Action::Move { point: p });
                assert(out@ =~= base + moves(1, p + 1));
                p = p + 1;
            }
            out.push(Action::Button { detail, press: false });
        },
        Gesture::Scroll { vertical, up, horizontal, left } => {
            let buttons = scroll_buttons(vertical, up, horizontal, left);
            let ghost base = out@;
            let mut k: usize = 0;
            assert(base + wheel_actions(buttons@, 0) =~= base);
            while k < buttons.len()
                invariant
                    k <= buttons@.len(),
                    out@ == base + wheel_actions(buttons@, k as int),
                decreases buttons@.len() - k,
            {
                let (detail, times) = buttons[k];
                push_clicks(detail, times, &mut out);
                assert(out@ =~= base + wheel_actions(buttons@, k + 1));
                k = k + 1;
            }
        },
    }
    assert(out@ =~= down + core_actions(gesture));
    push_ups(codes.as_slice(), &mut out);
    Ok(out)
}

/// What is left to send when the transition `failed` of a planned gesture could
/// not be sent: a failed modifier leaves those tried so far to be released, a
/// failed gesture its button and all modifiers, and a failed release the other
/// releases.
pub open spec fn recovery(codes: Seq<u8>, gesture: Gesture, failed: int) -> Seq<Action> {
    let core = core_actions(gesture).len() as int;
    let n = codes.len() as int;
    if failed < n {
        key_ups(codes.take(failed + 1))
    } else if failed < n + core {
        (match gesture_button(gesture) {
            Some(detail) => seq![Action::Button { detail, press: false }],
            None => Seq::empty(),
        }) + key_ups(codes)
    } else {
        key_ups(codes).skip(failed - n - core + 1)
    }
}

/// What is left to send when a transition of a planned gesture could not be sent;
/// `size` is the number of planned transitions.
pub fn recover(codes: &Vec<u8>, gesture: Gesture, size: usize, failed: usize) -> (out: Vec<Action>)
    requires
        size == 2 * codes@.len() + core_actions(gesture).len(),
        failed < size,
    ensures
        out@ == recovery(codes@, gesture, failed as int),
{
    let mut out: Vec<Action> = Vec::new();
    let n: usize = codes.len();
    if failed < n {
        let tried: &[u8] = &codes[0..failed + 1];
        assert(tried@ =~= codes@.take(failed + 1));
        push_ups(tried, &mut out);
        assert(out@ =~= key_ups(codes@.take(failed + 1)));
        return out;
    }
    if failed < size - n {
        match gesture {
            Gesture::Click { button, .. } => {
                out.push(Action::Button { detail: button_detail(button), press: false });
            },
            Gesture::Drag { button, .. } => {
                out.push(Action::Button { detail: button_detail(button), press: false });
            },
            _ => {},
        }
        push_ups(codes.as_slice(), &mut out);
        assert(out@ =~= recovery(codes@, gesture, failed as int));
        return out;
    }
    let done: usize = failed - (size - n) + 1;
    let rest: &[u8] = &codes[0..n - done];
    assert(rest@ =~= codes@.take(n - done));
    push_ups(rest, &mut out);
    assert(out@ =~= key_ups(codes@).skip(done as int));
    out
}

/// Something that can be held down.
#[derive(Clone, Copy, Debug, PartialEq, Eq, Structural)]
pub enum Hold {
    Key(u8),
    Button(u8),
}

/// The transition that presses or releases it.
pub open spec fn transition(hold: Hold, press: bool) -> Action {
    match hold {
        Hold::Key(keycode) => Action::Key { keycode, press },
        Hold::Button(detail) => Action::Button { detail, press },
    }
}

/// Whether it is down behind the first `n` transitions.
pub open spec fn down_after(before: bool, actions: Seq<Action>, n: int, hold: Hold) -> bool
    decreases n,
{
    if n <= 0 {
        before
    } else if actions[n - 1] == transition(hold, true) {
        true
    } else if actions[n - 1] == transition(hold, false) {
        false
    } else {
        down_after(before, actions, n - 1, hold)
    }
}

/// Whether it is down behind all of the transitions.
pub open spec fn down_at_end(before: bool, actions: Seq<Action>, hold: Hold) -> bool {
    down_after(before, actions, actions.len() as int, hold)
}

proof fn lemma_down_prefix(before: bool, a: Seq<Action>, b: Seq<Action>, n: int, hold: Hold)
    requires
        n <= a.len(),
    ensures
        down_after(before, a + b, n, hold) == down_after(before, a, n, hold),
    decreases n,
{
    if n > 0 {
        lemma_down_prefix(before, a, b, n - 1, hold);
    }
}

proof fn lemma_down_tail(before: bool, a: Seq<Action>, b: Seq<Action>, n: int, hold: Hold)
    requires
        0 <= n <= b.len(),
    ensures
        down_after(before, a + b, a.len() + n, hold) == down_after(
            down_at_end(before, a, hold),
            b,
            n,
            hold,
        ),
    decreases n,
{
    if n > 0 {
        lemma_down_tail(before, a, b, n - 1, hold);
    } else {
        lemma_down_prefix(before, a, b, a.len() as int, hold);
    }
}

proof fn lemma_down_joined(before: bool, a: Seq<Action>, b: Seq<Action>, hold: Hold)
    ensures
        down_at_end(before, a + b, hold) == down_at_end(down_at_end(before, a, hold), b, hold),
{
    lemma_down_tail(before, a, b, b.len() as int, hold);
}

/// Transitions that never press it leave it up, and those that release it too do
/// so whatever was before.
proof fn lemma_stays_up(before: bool, actions: Seq<Action>, n: int, hold: Hold)
    requires
        0 <= n <= actions.len(),
        forall|i: int| 0 <= i < n ==> #[trigger] actions[i] != transition(hold, true),
    ensures
        !before ==> !down_after(before, actions, n, hold),
        (exists|i: int| 0 <= i < n && #[trigger] actions[i] == transition(hold, false))
            ==> !down_after(before, actions, n, hold),
    decreases n,
{
    if n > 0 {
        lemma_stays_up(before, actions, n - 1, hold);
    }
}

proof fn lemma_clicks_up(detail: u8, n: int, hold: Hold)
    ensures
        !down_at_end(false, clicks(detail, n), hold),
    decreases n,
{
    if n > 0 {
        lemma_clicks_up(detail, n - 1, hold);
        let click = seq![
            Action::Button { detail, press: true },
            Action::Button { detail, press: false },
        ];
        lemma_down_joined(false, clicks(detail, n - 1), click, hold);
        reveal_with_fuel(down_after, 3);
    }
}

proof fn lemma_wheel_up(buttons: Seq<(u8, u32)>, k: int, hold: Hold)
    ensures
        !down_at_end(false, wheel_actions(buttons, k), hold),
    decreases k,
{
    if k > 0 {
        lemma_wheel_up(buttons, k - 1, hold);
        let (detail, times) = buttons[k - 1];
        lemma_clicks_up(detail, times as int, hold);
        lemma_down_joined(false, wheel_actions(buttons, k - 1), clicks(detail, times as int), hold);
    }
}

proof fn lemma_core_up(gesture: Gesture, hold: Hold)
    ensures
        !down_at_end(false, core_actions(gesture), hold),
{
    let first = seq![Action::Move { point: 0 }];
    assert(!down_at_end(false, first, hold)) by {
        reveal_with_fuel(down_after, 2);
    }
    match gesture {
        Gesture::Move => {},
        Gesture::Scroll { vertical, up, horizontal, left } => {
            let buttons = wheel_buttons(vertical, up, horizontal, left);
            lemma_down_joined(false, first, wheel_actions(buttons, buttons.len() as int), hold);
            lemma_wheel_up(buttons, buttons.len() as int, hold);
        },
        Gesture::Click { button, count, .. } => {
            let n: int = if count == 0 {
                1
            } else {
                count as int
            };
            lemma_down_joined(false, first, clicks(detail_of(button), n), hold);
            lemma_clicks_up(detail_of(button), n, hold);
        },
        Gesture::Drag { button, points, .. } => {
            let detail = detail_of(button);
            let down = first.push(Action::Button { detail, press: true });
            let along = moves(1, points as int);
            let rest = along.push(Action::Button { detail, press: false });
            lemma_down_joined(false, down, rest, hold);
            if hold != Hold::Button(detail) {
                assert(rest[along.len() as int] == Action::Button { detail, press: false });
                lemma_stays_up(false, down, down.len() as int, hold);
                lemma_stays_up(false, rest, rest.len() as int, hold);
            }
        },
    }
}

proof fn lemma_clicks_press(detail: u8, n: int)
    ensures
        forall|i: int|
            0 <= i < clicks(detail, n).len() ==> {
                ||| #[trigger] clicks(detail, n)[i] == (Action::Button { detail, press: true })
                ||| clicks(detail, n)[i] == (Action::Button { detail, press: false })
            },
    decreases n,
{
    if n > 0 {
        lemma_clicks_press(detail, n - 1);
    }
}

proof fn lemma_wheel_has_no_keys(buttons: Seq<(u8, u32)>, k: int)
    ensures
        forall|i: int|
            0 <= i < wheel_actions(buttons, k).len() ==> (#[trigger] wheel_actions(buttons, k)[i]) is Button,
    decreases k,
{
    if k > 0 {
        lemma_wheel_has_no_keys(buttons, k - 1);
        lemma_clicks_press(buttons[k - 1].0, buttons[k - 1].1 as int);
    }
}

/// Between its modifiers a gesture presses no key, and no button but its own or
/// the wheel's.
proof fn lemma_core_presses(gesture: Gesture, i: int)
    requires
        0 <= i < core_actions(gesture).len(),
    ensures
        !(core_actions(gesture)[i] is Key),
        !(gesture is Scroll) ==> (core_actions(gesture)[i] matches Action::Button { detail, .. }
            ==> gesture_button(gesture) == Some(detail)),
{
    match gesture {
        Gesture::Click { button, count, .. } => {
            lemma_clicks_press(
                detail_of(button),
                if count == 0 {
                    1
                } else {
                    count as int
                },
            );
        },
        Gesture::Scroll { vertical, up, horizontal, left } => {
            let buttons = wheel_buttons(vertical, up, horizontal, left);
            lemma_wheel_has_no_keys(buttons, buttons.len() as int);
        },
        _ => {},
    }
}

proof fn lemma_ups_release(before: bool, codes: Seq<u8>, hold: Hold)
    ensures
        !before ==> !down_at_end(before, key_ups(codes), hold),
        hold matches Hold::Key(code) && codes.contains(code) ==> !down_at_end(
            before,
            key_ups(codes),
            hold,
        ),
{
    let ups = key_ups(codes);
    lemma_stays_up(before, ups, ups.len() as int, hold);
    if let Hold::Key(code) = hold {
        if codes.contains(code) {
            let m = choose|m: int| 0 <= m < codes.len() && codes[m] == code;
            assert(ups[codes.len() - 1 - m] == transition(hold, false));
        }
    }
}

proof fn lemma_downs_press(codes: Seq<u8>, hold: Hold)
    requires
        !(hold matches Hold::Key(code) && codes.contains(code)),
    ensures
        !down_at_end(false, key_downs(codes), hold),
{
    let downs = key_downs(codes);
    assert forall|i: int| 0 <= i < downs.len() implies #[trigger] downs[i] != transition(hold, true) by {
        assert(codes.contains(codes[i]));
    }
    lemma_stays_up(false, downs, downs.len() as int, hold);
}

/// Once a gesture is over, none of its keys and buttons is down.
pub proof fn law_gesture_releases_everything(codes: Seq<u8>, gesture: Gesture, hold: Hold)
    ensures
        !down_at_end(false, planned(codes, gesture), hold),
{
    let downs = key_downs(codes);
    let core = core_actions(gesture);
    let mine = hold matches Hold::Key(code) && codes.contains(code);
    lemma_down_joined(false, downs + core, key_ups(codes), hold);
    lemma_ups_release(down_at_end(false, downs + core, hold), codes, hold);
    if !mine {
        lemma_downs_press(codes, hold);
        lemma_down_joined(false, downs, core, hold);
        lemma_core_up(gesture, hold);
    }
}

/// Where a transition of a gesture fails, whether or not it reached the server,
/// what is sent in its place leaves no modifier down, nor the button of a click
/// or drag. A modifier whose own release failed is not released again: what is
/// sent then is the rest of the gesture.
pub proof fn law_failed_gesture_releases_everything(
    codes: Seq<u8>,
    gesture: Gesture,
    failed: int,
    landed: bool,
    hold: Hold,
)
    requires
        0 <= failed < planned(codes, gesture).len(),
    ensures
        ({
            let sent = planned(codes, gesture).take(
                if landed {
                    failed + 1
                } else {
                    failed
                },
            );
            let after = sent + recovery(codes, gesture, failed);
            &&& failed < codes.len() + core_actions(gesture).len() && !(gesture is Scroll && hold is Button)
                ==> !down_at_end(false, after, hold)
            &&& failed >= codes.len() + core_actions(gesture).len() && landed ==> after == planned(
                codes,
                gesture,
            )
        }),
{
    let n = codes.len() as int;
    let core = core_actions(gesture);
    let whole = planned(codes, gesture);
    let end: int = if landed {
        failed + 1
    } else {
        failed
    };
    let sent = whole.take(end);
    let rest = recovery(codes, gesture, failed);
    lemma_down_joined(false, sent, rest, hold);
    if failed < n {
        let tried = codes.take(failed + 1);
        assert(sent =~= key_downs(codes.take(end)));
        lemma_ups_release(down_at_end(false, sent, hold), tried, hold);
        if !(hold matches Hold::Key(code) && tried.contains(code)) {
            assert forall|code: u8| codes.take(end).contains(code) implies tried.contains(code) by {
                let m = choose|m: int| 0 <= m < end && codes.take(end)[m] == code;
                assert(tried[m] == code);
            }
            lemma_downs_press(codes.take(end), hold);
        }
    } else if failed < n + core.len() {
        if !(gesture is Scroll && hold is Button) {
            let part = core.take(end - n);
            assert(sent =~= key_downs(codes) + part);
            lemma_down_joined(false, key_downs(codes), part, hold);
            let button: Seq<Action> = match gesture_button(gesture) {
                Some(detail) => seq![Action::Button { detail, press: false }],
                None => Seq::empty(),
            };
            let start = down_at_end(false, sent, hold);
            lemma_down_joined(start, button, key_ups(codes), hold);
            lemma_ups_release(down_at_end(start, button, hold), codes, hold);
            lemma_stays_up(start, button, button.len() as int, hold);
            if !(hold matches Hold::Key(code) && codes.contains(code)) {
                lemma_downs_press(codes, hold);
                if gesture_button(gesture) is Some && hold == Hold::Button(gesture_button(gesture)->0) {
                    assert(button[0] == transition(hold, false));
                } else {
                    assert forall|i: int| 0 <= i < part.len() implies #[trigger] part[i] != transition(
                        hold,
                        true,
                    ) by {
                        lemma_core_presses(gesture, i);
                    }
                    lemma_stays_up(false, part, part.len() as int, hold);
                }
            }
        }
    } else if landed {
        assert(sent + rest =~= whole);
    }
}

// ---------------------------------------------------------------------------
// Synthetic events
// ---------------------------------------------------------------------------
/// The state bits of modifiers.
pub open spec fn modifier_state(m: Modifiers) -> u16 {
    (if m.shift {
        1u16
    } else {
        0u16
    }) | (if m.ctrl {
        4u16
    } else {
        0u16
    }) | (if m.alt {
        8u16
    } else {
        0u16
    }) | (if m.meta {
        64u16
    } else {
        0u16
    })
}

/// The state bit of a held button.
pub open spec fn button_state(detail: u8) -> u16 {
    if detail == 1 {
        0x100
    } else if detail == 2 {
        0x200
    } else if detail == 3 {
        0x400
    } else {
        0
    }
}

/// The state bits of modifiers.
pub fn modifier_mask(m: Modifiers) -> (mask: u16)
    ensures
        mask == modifier_state(m),
{
    let shift: u16 = if m.shift {
        1
    } else {
        0
    };
    let ctrl: u16 = if m.ctrl {
        4
    } else {
        0
    };
    let alt: u16 = if m.alt {
        8
    } else {
        0
    };
    let meta: u16 = if m.meta {
        64
    } else {
        0
    };
    shift | ctrl | alt | meta
}

fn button_mask(detail: u8) -> (mask: u16)
    ensures
        mask == button_state(detail),
{
    if detail == 1 {
        0x100
    } else if detail == 2 {
        0x200
    } else if detail == 3 {
        0x400
    } else {
        0
    }
}

/// A synthetic event: at a point of the gesture, with the state before it.
#[derive(Clone, Copy, Debug, PartialEq, Eq)]
pub struct Sent {
    pub point: usize,
    /// The button that goes down or up; a motion where there is none.
    pub button: Option<(u8, bool)>,
    pub state: u16,
}

/// So many synthetic clicks at the first point. A release carries the state bit
/// of its button.
pub open spec fn sent_clicks(detail: u8, state: u16, held: u16, n: int) -> Seq<Sent>
    decreases n,
{
    if n <= 0 {
        Seq::empty()
    } else {
        sent_clicks(detail, state, held, n - 1) + seq![
            Sent { point: 0, button: Some((detail, true)), state },
            Sent { point: 0, button: Some((detail, false)), state: held },
        ]
    }
}

/// The synthetic presses of the first `k` wheel buttons.
pub open spec fn sent_wheel(buttons: Seq<(u8, u32)>, k: int) -> Seq<Sent>
    decreases k,
{
    if k <= 0 {
        Seq::empty()
    } else {
        sent_wheel(buttons, k - 1) + sent_clicks(
            buttons[k - 1].0,
            0,
            0,
            buttons[k - 1].1 as int,
        )
    }
}

/// Synthetic motions to the points from `a` up to `b`.
pub open spec fn sent_moves(a: int, b: int, state: u16) -> Seq<Sent> {
    Seq::new(
        (if a < b { b - a } else { 0 }) as nat,
        |i: int| Sent { point: (a + i) as usize, button: None, state },
    )
}

/// The synthetic events of a gesture.
pub open spec fn sent_events(gesture: Gesture) -> Seq<Sent> {
    match gesture {
        Gesture::Move => seq![Sent { point: 0, button: None, state: 0 }],
        Gesture::Click { button, modifiers, count } => {
            let state = modifier_state(modifiers);
            sent_clicks(
                detail_of(button),
                state,
                state | button_state(detail_of(button)),
                if count == 0 {
                    1
                } else {
                    count as int
                },
            )
        },
        Gesture::Drag { button, modifiers, points } => {
            let state = modifier_state(modifiers);
            let detail = detail_of(button);
            let held = state | button_state(detail);
            seq![Sent { point: 0, button: Some((detail, true)), state }] + sent_moves(
                1,
                points as int,
                held,
            ).push(
                Sent { point: (points - 1) as usize, button: Some((detail, false)), state: held },
            )
        },
        Gesture::Scroll { vertical, up, horizontal, left } => {
            let buttons = wheel_buttons(vertical, up, horizontal, left);
            sent_wheel(buttons, buttons.len() as int)
        },
    }
}

fn push_sent(detail: u8, state: u16, held: u16, times: u32, out: &mut Vec<Sent>)
    ensures
        final(out)@ == old(out)@ + sent_clicks(detail, state, held, times as int),
{
    let ghost base = out@;
    let mut n: u32 = 0;
    assert(base + sent_clicks(detail, state, held, 0) =~= base);
    while n < times
        invariant
            n <= times,
            out@ == base + sent_clicks(detail, state, held, n as int),
        decreases times - n,
    {
        out.push(Sent { point: 0, button: Some((detail, true)), state });
        out.push(Sent { point: 0, button: Some((detail, false)), state: held });
        assert(out@ =~= base + sent_clicks(detail, state, held, n + 1));
        n = n + 1;
    }
}

/// The synthetic events of a gesture, each with the state that the ones before it
/// would have produced.
pub fn send_plan(gesture: Gesture) -> (r: Result<Vec<Sent>, EmptyPath>)
    ensures
        match r {
            Ok(out) => {
                &&& !(gesture matches Gesture::Drag { points, .. } && points == 0)
                &&& out@ == sent_events(gesture)
            },
            Err(_) => gesture matches Gesture::Drag { points, .. } && points == 0,
        },
{
    let mut out: Vec<Sent> = Vec::new();
    match gesture {
        Gesture::Move => {
            out.push(Sent { point: 0, button: None, state: 0 });
        },
        Gesture::Click { button, modifiers, count } => {
            let times: u32 = if count == 0 {
                1
            } else {
                count
            };
            let detail: u8 = button_detail(button);
            let state: u16 = modifier_mask(modifiers);
            push_sent(detail, state, state | button_mask(detail), times, &mut out);
        },
        Gesture::Drag { button, modifiers, points } => {
            if points == 0 {
                return Err(EmptyPath);
            }
            let detail: u8 = button_detail(button);
            let state: u16 = modifier_mask(modifiers);
            let held: u16 = state | button_mask(detail);
            out.push(Sent { point: 0, button: Some((detail, true)), state });
            let ghost base = out@;
            let mut p: usize = 1;
            assert(base + sent_moves(1, 1, held) =~= base);
            while p < points
                invariant
                    1 <= p <= points,
                    out@ == base + sent_moves(1, p as int, held),
                decreases points - p,
            {
                out.push(Sent { point: p, button: None, state: held });
                assert(out@ =~= base + sent_moves(1, p + 1, held));
                p = p + 1;
            }
            out.push(Sent { point: points - 1, button: Some((detail, false)), state: held });
        },
        Gesture::Scroll { vertical, up, horizontal, left } => {
            let buttons = scroll_buttons(vertical, up, horizontal, left);
            let mut k: usize = 0;
            assert(out@ =~= sent_wheel(buttons@, 0));
            while k < buttons.len()
                invariant
                    k <= buttons@.len(),
                    out@ == sent_wheel(buttons@, k as int),
                decreases buttons@.len() - k,
            {
                let (detail, times) = buttons[k];
                push_sent(detail, 0, 0, times, &mut out);
                k = k + 1;
            }
        },
    }
    assert(out@ =~= sent_events(gesture));
    Ok(out)
}

} // verus!
