//! What a gesture and a typed text do on macOS, step by step.

use vstd::prelude::*;

use super::input::{
    back_presses, button_click, canvas_app, chord_posts, click_count, click_steps, core_steps,
    drag_steps, global_steps, held_after, left_click, lower_code, modifier_list,
    modifier_presses, modifier_releases, press_posts, refusal_of, release_posts,
    stroke_of, timed, transitions, unshifted, BackStep, Gesture, KeyPost, MouseKind,
    ProcessTraits, Step,
};
use crate::desktop::keys::{KeyName, Modifiers, MouseButton};

verus! {

/// Pressing the keys of some modifiers holds exactly them.
pub proof fn law_modifier_keys_hold_the_modifiers(m: Modifiers)
    ensures
        held_after(modifier_list(m), modifier_list(m).len() as int) == m,
{
    reveal_with_fuel(held_after, 5);
    assert(modifier_list(m).len() <= 4);
}

proof fn lemma_drags(button: MouseButton, held: Modifiers, k: int)
    requires
        1 <= k,
    ensures
        drag_steps(button, held, k).len() == 2 * (k - 1),
        forall|i: int|
            0 <= i < 2 * (k - 1) ==> #[trigger] drag_steps(button, held, k)[i] == (if i % 2 == 0 {
                Step::Wait(16)
            } else {
                Step::Mouse {
                    kind: MouseKind::Dragged,
                    button,
                    point: (i / 2 + 1) as usize,
                    state: 1,
                    held,
                }
            }),
    decreases k,
{
    if k > 1 {
        lemma_drags(button, held, k - 1);
    }
}

/// A drag presses its button at the first point, goes to every later point in
/// order as a drag of that button, and releases it at the last; every event
/// carries the modifiers of the drag.
pub proof fn law_drag_holds_its_button(gesture: Gesture)
    requires
        gesture is Drag,
        gesture->Drag_points >= 1,
    ensures
        ({
            let core = core_steps(gesture);
            let button = gesture->Drag_button;
            let held = gesture->Drag_modifiers;
            let points = gesture->Drag_points;
            &&& core.len() == 2 * points + 3
            &&& core[0] == (Step::Mouse { kind: MouseKind::Moved, button, point: 0, state: 0, held })
            &&& core[2] == (Step::Mouse { kind: MouseKind::Down, button, point: 0, state: 1, held })
            &&& forall|p: int|
                1 <= p < points ==> #[trigger] core[2 * p + 2] == (Step::Mouse {
                    kind: MouseKind::Dragged,
                    button,
                    point: p as usize,
                    state: 1,
                    held,
                })
            &&& core[2 * points + 2] == (Step::Mouse {
                kind: MouseKind::Up,
                button,
                point: (points - 1) as usize,
                state: 0,
                held,
            })
            &&& forall|i: int|
                0 <= i < core.len() && i % 2 == 1 ==> (#[trigger] core[i]) is Wait
        }),
{
    let held = gesture->Drag_modifiers;
    let button = gesture->Drag_button;
    let points = gesture->Drag_points;
    law_modifier_keys_hold_the_modifiers(held);
    lemma_drags(button, held, points as int);
    let core = core_steps(gesture);
    let mid = drag_steps(button, held, points as int);
    assert forall|i: int| 3 <= i < 2 * points + 1 implies #[trigger] core[i] == mid[i - 3] by {}
    assert forall|p: int| 1 <= p < points implies #[trigger] core[2 * p + 2] == (Step::Mouse {
        kind: MouseKind::Dragged,
        button,
        point: p as usize,
        state: 1,
        held,
    }) by {
        assert(core[2 * p + 2] == mid[2 * p - 1]);
    }
}

proof fn lemma_clicks(button: MouseButton, held: Modifiers, count: int, k: int)
    requires
        0 <= k <= count,
    ensures
        click_steps(button, held, count, k).len() == (if 0 < k && k == count {
            4 * k - 1
        } else {
            4 * k
        }),
        forall|j: int|
            0 <= j < k ==> #[trigger] click_at(
                click_steps(button, held, count, k),
                button,
                held,
                4 * j,
                (j + 1) as u32,
            ),
    decreases k,
{
    if k > 0 {
        lemma_clicks(button, held, count, k - 1);
        let prior = click_steps(button, held, count, k - 1);
        let now = click_steps(button, held, count, k);
        assert forall|j: int| 0 <= j < k implies #[trigger] click_at(
            now,
            button,
            held,
            4 * j,
            (j + 1) as u32,
        ) by {
            if j < k - 1 {
                assert(click_at(prior, button, held, 4 * j, (j + 1) as u32));
            }
        }
    }
}

/// A press and release of the button stand at `i`, with their click number.
pub open spec fn click_at(steps: Seq<Step>, button: MouseButton, held: Modifiers, i: int, state: u32) -> bool {
    &&& i + 2 < steps.len()
    &&& steps[i] == (Step::Mouse { kind: MouseKind::Down, button, point: 0, state, held })
    &&& steps[i + 1] is Wait
    &&& steps[i + 2] == (Step::Mouse { kind: MouseKind::Up, button, point: 0, state, held })
}

/// A click presses and releases its button at its point as often as asked, and
/// at least once; the presses are numbered from one and carry the modifiers of
/// the click.
pub proof fn law_click_presses_as_often_as_asked(gesture: Gesture)
    requires
        gesture is Click,
    ensures
        ({
            let core = core_steps(gesture);
            let button = gesture->Click_button;
            let held = gesture->Click_modifiers;
            let times = if gesture->Click_count == 0 {
                1
            } else {
                gesture->Click_count as int
            };
            let lead = if held == Modifiers::none() {
                0int
            } else {
                2
            };
            &&& core.len() == lead + 4 * times - 1
            &&& forall|j: int|
                0 <= j < times ==> #[trigger] click_at(
                    core,
                    button,
                    held,
                    lead + 4 * j,
                    (j + 1) as u32,
                )
        }),
{
    let core = core_steps(gesture);
    let button = gesture->Click_button;
    let held = gesture->Click_modifiers;
    let times = click_count(gesture->Click_count);
    law_modifier_keys_hold_the_modifiers(held);
    lemma_clicks(button, held, times, times);
    let rest = click_steps(button, held, times, times);
    let lead = if held == Modifiers::none() {
        0int
    } else {
        2
    };
    assert(core.len() == lead + rest.len());
    assert forall|i: int| 0 <= i < rest.len() implies #[trigger] rest[i] == core[lead + i] by {}
    assert forall|j: int| 0 <= j < times implies #[trigger] click_at(
        core,
        button,
        held,
        lead + 4 * j,
        (j + 1) as u32,
    ) by {
        assert(click_at(rest, button, held, 4 * j, (j + 1) as u32));
        assert(rest[4 * j] == core[lead + 4 * j]);
        assert(rest[4 * j + 1] == core[lead + 4 * j + 1]);
        assert(rest[4 * j + 2] == core[lead + 4 * j + 2]);
    }
}

proof fn lemma_timed(posts: Seq<KeyPost>, k: int)
    requires
        0 <= k <= posts.len(),
    ensures
        timed(posts, k).len() == 2 * k,
        forall|i: int|
            0 <= i < k ==> #[trigger] timed(posts, k)[2 * i] == Step::Key(posts[i]),
        forall|i: int| 0 <= i < 2 * k && i % 2 == 1 ==> (#[trigger] timed(posts, k)[i]) is Wait,
    decreases k,
{
    if k > 0 {
        lemma_timed(posts, k - 1);
        let prior = timed(posts, k - 1);
        let now = timed(posts, k);
        assert forall|i: int| 0 <= i < k implies #[trigger] now[2 * i] == Step::Key(posts[i]) by {
            if i < k - 1 {
                assert(now[2 * i] == prior[2 * i]);
            }
        }
        assert forall|i: int| 0 <= i < 2 * k && i % 2 == 1 implies (#[trigger] now[i]) is Wait by {
            if i < 2 * (k - 1) {
                assert(now[i] == prior[i]);
            }
        }
    }
}

proof fn lemma_presses(keys: Seq<KeyName>, k: int)
    requires
        0 <= k <= keys.len(),
    ensures
        press_posts(keys, k).len() == k,
        forall|i: int|
            0 <= i < k ==> (#[trigger] press_posts(keys, k)[i]).key == keys[i] && press_posts(
                keys,
                k,
            )[i].down,
    decreases k,
{
    if k > 0 {
        lemma_presses(keys, k - 1);
    }
}

proof fn lemma_releases(keys: Seq<KeyName>, n: int, j: int)
    requires
        0 <= j <= n <= keys.len(),
    ensures
        release_posts(keys, n, j).len() == j,
        forall|i: int|
            0 <= i < j ==> (#[trigger] release_posts(keys, n, j)[i]).key == keys[n - 1 - i]
                && !release_posts(keys, n, j)[i].down,
    decreases j,
{
    if j > 0 {
        lemma_releases(keys, n, j - 1);
    }
}

/// A chord presses its keys in order and then releases them in reverse.
pub proof fn law_chord_presses_in_order(keys: Seq<KeyName>, n: int)
    requires
        0 <= n <= keys.len(),
    ensures
        ({
            let posts = chord_posts(keys, n);
            &&& posts.len() == 2 * n
            &&& forall|i: int|
                0 <= i < n ==> (#[trigger] posts[i]).key == keys[i] && posts[i].down
            &&& forall|i: int|
                n <= i < 2 * n ==> (#[trigger] posts[i]).key == keys[2 * n - 1 - i]
                    && !posts[i].down
        }),
{
    lemma_presses(keys, n);
    lemma_releases(keys, n, n);
    let posts = chord_posts(keys, n);
    assert forall|i: int| n <= i < 2 * n implies (#[trigger] posts[i]).key == keys[2 * n - 1 - i]
        && !posts[i].down by {
        assert(posts[i] == release_posts(keys, n, n)[i - n]);
    }
    assert forall|i: int| 0 <= i < n implies (#[trigger] posts[i]).key == keys[i]
        && posts[i].down by {
        assert(posts[i] == press_posts(keys, n)[i]);
    }
}

/// A click or drag puts the pointer at its start, presses the keys of its
/// modifiers in order, does its pointer events, and releases the keys in
/// reverse.
pub proof fn law_modifiers_wrap_the_gesture(gesture: Gesture, modifiers: Modifiers)
    requires
        gesture is Click || gesture is Drag,
        modifiers == (if gesture is Click {
            gesture->Click_modifiers
        } else {
            gesture->Drag_modifiers
        }),
    ensures
        ({
            let all = global_steps(gesture);
            let core = core_steps(gesture);
            let keys = modifier_list(modifiers);
            let n = keys.len() as int;
            &&& all.len() == 4 * n + core.len() + 3
            &&& all[0] == Step::Warp(0)
            &&& forall|i: int|
                0 <= i < n ==> (#[trigger] all[2 + 2 * i]) is Key && all[2 + 2 * i]->Key_0.key
                    == keys[i] && all[2 + 2 * i]->Key_0.down
            &&& all.subrange(2 + 2 * n, 2 + 2 * n + core.len()) == core
            &&& forall|i: int|
                0 <= i < n ==> (#[trigger] all[2 + 2 * n + core.len() + 2 * i]) is Key
                    && all[2 + 2 * n + core.len() + 2 * i]->Key_0.key == keys[n - 1 - i]
                    && !all[2 + 2 * n + core.len() + 2 * i]->Key_0.down
        }),
{
    let all = global_steps(gesture);
    let core = core_steps(gesture);
    let keys = modifier_list(modifiers);
    let n = keys.len() as int;
    let downs = press_posts(keys, n);
    let ups = release_posts(keys, n, n);
    lemma_presses(keys, n);
    lemma_releases(keys, n, n);
    lemma_timed(downs, n);
    lemma_timed(ups, n);
    let a = modifier_presses(modifiers);
    let b = modifier_releases(modifiers, n);
    assert(a == timed(downs, n));
    assert(b == timed(ups, n));
    assert forall|i: int| 0 <= i < n implies (#[trigger] all[2 + 2 * i]) is Key && all[2 + 2
        * i]->Key_0.key == keys[i] && all[2 + 2 * i]->Key_0.down by {
        assert(all[2 + 2 * i] == a[2 * i]);
    }
    assert(all.subrange(2 + 2 * n, 2 + 2 * n + core.len()) =~= core);
    assert forall|i: int| 0 <= i < n implies (#[trigger] all[2 + 2 * n + core.len() + 2 * i]) is Key
        && all[2 + 2 * n + core.len() + 2 * i]->Key_0.key == keys[n - 1 - i] && !all[2 + 2 * n
        + core.len() + 2 * i]->Key_0.down by {
        assert(all[2 + 2 * n + core.len() + 2 * i] == b[2 * i]);
    }
}

// ---------------------------------------------------------------------------
// Background clicks
// ---------------------------------------------------------------------------
/// A press and release at the target stand at `i`, with their click number.
pub open spec fn back_click_at(steps: Seq<BackStep>, button: MouseButton, i: int, state: u32) -> bool {
    &&& i + 2 < steps.len()
    &&& steps[i] matches BackStep::Mouse { kind, button: b, offscreen, state: s, .. } && kind
        == MouseKind::Down && b == button && !offscreen && s == state
    &&& steps[i + 1] is Wait
    &&& steps[i + 2] matches BackStep::Mouse { kind, button: b, offscreen, state: s, .. } && kind
        == MouseKind::Up && b == button && !offscreen && s == state
}

proof fn lemma_back_presses(button: MouseButton, phase: u32, gap: u32, count: int, k: int)
    requires
        0 <= k <= count,
    ensures
        back_presses(button, phase, gap, count, k).len() == (if 0 < k && k == count {
            4 * k - 1
        } else {
            4 * k
        }),
        forall|j: int|
            0 <= j < k ==> #[trigger] back_click_at(
                back_presses(button, phase, gap, count, k),
                button,
                4 * j,
                (j + 1) as u32,
            ),
    decreases k,
{
    if k > 0 {
        lemma_back_presses(button, phase, gap, count, k - 1);
        let prior = back_presses(button, phase, gap, count, k - 1);
        let now = back_presses(button, phase, gap, count, k);
        assert forall|j: int| 0 <= j < k implies #[trigger] back_click_at(
            now,
            button,
            4 * j,
            (j + 1) as u32,
        ) by {
            if j < k - 1 {
                assert(back_click_at(prior, button, 4 * j, (j + 1) as u32));
            }
        }
    }
}

/// A click in the background hovers over the target first and then presses and
/// releases its button there as often as asked, and at least once; a left click
/// has one more press, off the screen, before that.
pub proof fn law_background_click_presses_as_often_as_asked(button: MouseButton, count: u32)
    ensures
        ({
            let left = left_click(count);
            let other = button_click(button, count);
            let times = if count == 0 {
                1
            } else {
                count as int
            };
            &&& left.len() == 6 + 4 * times - 1
            &&& left[0] matches BackStep::Mouse { kind, offscreen, .. } && kind == MouseKind::Moved
                && !offscreen
            &&& left[2] matches BackStep::Mouse { kind, offscreen, .. } && kind == MouseKind::Down
                && offscreen
            &&& left[4] matches BackStep::Mouse { kind, offscreen, .. } && kind == MouseKind::Up
                && offscreen
            &&& forall|j: int|
                0 <= j < times ==> #[trigger] back_click_at(
                    left,
                    MouseButton::Left,
                    6 + 4 * j,
                    (j + 1) as u32,
                )
            &&& other.len() == 2 + 4 * times - 1
            &&& other[0] matches BackStep::Mouse { kind, offscreen, .. } && kind == MouseKind::Moved
                && !offscreen
            &&& forall|j: int|
                0 <= j < times ==> #[trigger] back_click_at(
                    other,
                    button,
                    2 + 4 * j,
                    (j + 1) as u32,
                )
        }),
{
    let left = left_click(count);
    let other = button_click(button, count);
    let times = click_count(count);
    lemma_back_presses(MouseButton::Left, 3, 1, times, times);
    lemma_back_presses(button, 0, 28, times, times);
    let a = back_presses(MouseButton::Left, 3, 1, times, times);
    let b = back_presses(button, 0, 28, times, times);
    assert forall|j: int| 0 <= j < times implies #[trigger] back_click_at(
        left,
        MouseButton::Left,
        6 + 4 * j,
        (j + 1) as u32,
    ) by {
        assert(back_click_at(a, MouseButton::Left, 4 * j, (j + 1) as u32));
        assert(left[6 + 4 * j] == a[4 * j]);
        assert(left[6 + 4 * j + 1] == a[4 * j + 1]);
        assert(left[6 + 4 * j + 2] == a[4 * j + 2]);
    }
    assert forall|j: int| 0 <= j < times implies #[trigger] back_click_at(
        other,
        button,
        2 + 4 * j,
        (j + 1) as u32,
    ) by {
        assert(back_click_at(b, button, 4 * j, (j + 1) as u32));
        assert(other[2 + 4 * j] == b[4 * j]);
        assert(other[2 + 4 * j + 1] == b[4 * j + 1]);
        assert(other[2 + 4 * j + 2] == b[4 * j + 2]);
    }
}

/// What is sent in the background: no drag, no click with modifiers, no right
/// click to a Chromium window, nothing to a canvas or game, no click where the
/// pointer's own position is read, and no wheel to an Electron window.
pub proof fn law_background_sends_only_what_arrives(gesture: Gesture, app: Seq<char>, traits: ProcessTraits)
    ensures
        refusal_of(gesture, app, traits) is None <==> {
            &&& !(gesture is Drag)
            &&& gesture is Click ==> gesture->Click_modifiers == Modifiers::none()
                && !traits.hardware_pointer && !(traits.chromium && gesture->Click_button is Right)
            &&& gesture is Scroll ==> !traits.electron
            &&& !canvas_app(app)
        },
{
}

// ---------------------------------------------------------------------------
// Typing
// ---------------------------------------------------------------------------
/// The keys of the US layout in the order of their codes; a space where a code
/// has no character.
pub open spec fn us_keys() -> Seq<char> {
    seq![
        'a', 's', 'd', 'f', 'h', 'g', 'z', 'x', 'c', 'v', ' ', 'b', 'q', 'w', 'e', 'r', 'y', 't',
        '1', '2', '3', '4', '6', '5', '=', '9', '7', '-', '8', '0', ']', 'o', 'u', '[', 'i', 'p',
        ' ', 'l', 'j', '\'', 'k', ';', '\\', ',', '/', 'n', 'm', '.', ' ', ' ', '`'
    ]
}

/// The shifted characters of the US layout, each with the one that its key has
/// without Shift.
pub open spec fn us_pairs() -> Seq<(char, char)> {
    seq![
        ('!', '1'), ('@', '2'), ('#', '3'), ('$', '4'), ('%', '5'), ('^', '6'), ('&', '7'),
        ('*', '8'), ('(', '9'), (')', '0'), ('_', '-'), ('+', '='), ('{', '['), ('}', ']'),
        ('|', '\\'), (':', ';'), ('"', '\''), ('<', ','), ('>', '.'), ('?', '/'), ('~', '`')
    ]
}

/// Every key types its character of the US layout: a plain character by its own
/// key, a shifted one by the key of its pair with Shift.
pub proof fn law_keys_type_the_us_layout(code: int, pair: int)
    ensures
        0 <= code < us_keys().len() && us_keys()[code] != ' ' ==> lower_code(us_keys()[code]) == Some(
            code as u16,
        ) && stroke_of(us_keys()[code]) == Some((code as u16, false)),
        0 <= pair < us_pairs().len() ==> unshifted(us_pairs()[pair].0) == Some(us_pairs()[pair].1)
            && stroke_of(us_pairs()[pair].0) == Some((lower_code(us_pairs()[pair].1)->0, true)),
{
}

/// A capital letter is typed by its letter's key with Shift, white space by its
/// own keys.
pub proof fn law_capitals_are_typed_with_shift(c: char)
    requires
        'A' <= c <= 'Z',
    ensures
        stroke_of(c) == Some((lower_code(((c as u32) + 32) as char)->0, true)),
        stroke_of('\n') == Some((36u16, false)),
        stroke_of('\r') == Some((36u16, false)),
        stroke_of('\t') == Some((48u16, false)),
        stroke_of(' ') == Some((49u16, false)),
{
}

/// Typing one text behind another sends what each sends, one behind the other,
/// and a single character is a press and a release of its key, inside a press
/// and a release of Shift where it is a shifted one.
pub proof fn law_texts_are_typed_one_behind_the_other(a: Seq<char>, b: Seq<char>)
    ensures
        transitions(a + b, (a + b).len() as int) == transitions(a, a.len() as int) + transitions(
            b,
            b.len() as int,
        ),
        b.len() == 1 && stroke_of(b[0]) is Some ==> transitions(b, 1) == ({
            let (code, shifted) = stroke_of(b[0])->0;
            if shifted {
                seq![(56u16, true), (code, true), (code, false), (56u16, false)]
            } else {
                seq![(code, true), (code, false)]
            }
        }),
    decreases b.len(),
{
    if b.len() == 0 {
        assert(a + b =~= a);
        assert(transitions(a, a.len() as int) + Seq::<(u16, bool)>::empty() =~= transitions(
            a,
            a.len() as int,
        ));
    } else {
        let d = b.drop_last();
        law_texts_are_typed_one_behind_the_other(a, d);
        let all = a + b;
        lemma_transitions_prefix(all, a + d, (a + d).len() as int);
        lemma_transitions_prefix(b, d, d.len() as int);
        let n = all.len() as int;
        assert(all[n - 1] == b[b.len() - 1]);
        assert(transitions(all, n) =~= transitions(a, a.len() as int) + transitions(
            b,
            b.len() as int,
        ));
        if b.len() == 1 {
            assert(transitions(b, 0) =~= Seq::<(u16, bool)>::empty());
        }
    }
}

proof fn lemma_transitions_prefix(s: Seq<char>, t: Seq<char>, k: int)
    requires
        k <= s.len(),
        k <= t.len(),
        forall|i: int| 0 <= i < k ==> #[trigger] s[i] == t[i],
    ensures
        transitions(s, k) == transitions(t, k),
    decreases k,
{
    if k > 0 {
        lemma_transitions_prefix(s, t, k - 1);
        assert(s[k - 1] == t[k - 1]);
    }
}

} // verus!
