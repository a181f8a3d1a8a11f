//! Gestures of the virtual pointer: what is sent, what is checked before, and
//! what the server has to confirm.

use vstd::prelude::*;

use super::gesture::{button_detail, detail_of, EmptyPath};
use super::mpx::{drag_steps, hover_from, relative_steps, step_views, Raw};
use crate::desktop::keys::MouseButton;
use crate::desktop::x11::keymap::KeyStep;

verus! {

/// One act of a gesture.
#[derive(Clone, Copy, Debug, PartialEq, Eq, Structural)]
pub enum Act {
    /// Put the pointer there.
    Warp { x: i16, y: i16 },
    /// Forget the reports so far.
    Drain,
    /// The point must be the target window's, or the gesture fails.
    Check { x: i16, y: i16 },
    Button { detail: u8, press: bool },
    Motion { dx: i32, dy: i32 },
    Wheel { horizontal: bool, turn: i32 },
    /// Wait for that many reports; the gesture is unconfirmed without them.
    Confirm { raw: Raw, count: usize },
    /// Let so many milliseconds pass.
    Pause { ms: u32 },
}

/// One click at a point, and the gap before the next.
pub open spec fn one_click(x: i16, y: i16, detail: u8, last: bool) -> Seq<Act> {
    seq![
        Act::Check { x, y },
        Act::Button { detail, press: true },
        Act::Confirm { raw: Raw::ButtonPress(detail), count: 1 },
        Act::Pause { ms: 12 },
        Act::Button { detail, press: false },
        Act::Confirm { raw: Raw::ButtonRelease(detail), count: 1 },
    ] + (if last {
        Seq::empty()
    } else {
        seq![Act::Pause { ms: 35 }]
    })
}

/// The first `n` of `count` clicks.
pub open spec fn clicks(x: i16, y: i16, detail: u8, n: int, count: int) -> Seq<Act>
    decreases n,
{
    if n <= 0 {
        Seq::empty()
    } else {
        clicks(x, y, detail, n - 1, count) + one_click(x, y, detail, n == count)
    }
}

/// The acts of a click; at least one.
pub open spec fn click_acts(x: i16, y: i16, button: MouseButton, count: u32) -> Seq<Act> {
    let n = if count == 0 {
        1
    } else {
        count as int
    };
    seq![Act::Warp { x, y }, Act::Drain] + clicks(x, y, detail_of(button), n, n)
}

/// The acts of a click. The target is checked before every press, for a first
/// click may have brought another window up.
pub fn click(x: i16, y: i16, button: MouseButton, count: u32) -> (acts: Vec<Act>)
    ensures
        acts@ == click_acts(x, y, button, count),
{
    let detail: u8 = button_detail(button);
    let n: u32 = if count == 0 {
        1
    } else {
        count
    };
    let mut acts: Vec<Act> = vec![Act::Warp { x, y }, Act::Drain];
    let ghost head = seq![Act::Warp { x, y }, Act::Drain];
    assert(acts@ =~= head + clicks(x, y, detail, 0, n as int));
    let mut i: u32 = 0;
    while i < n
        invariant
            i <= n,
            acts@ == head + clicks(x, y, detail, i as int, n as int),
        decreases n - i,
    {
        let ghost before = acts@;
        acts.push(Act::Check { x, y });
        acts.push(Act::Button { detail, press: true });
        acts.push(Act::Confirm { raw: Raw::ButtonPress(detail), count: 1 });
        acts.push(Act::Pause { ms: 12 });
        acts.push(Act::Button { detail, press: false });
        acts.push(Act::Confirm { raw: Raw::ButtonRelease(detail), count: 1 });
        if i + 1 < n {
            acts.push(Act::Pause { ms: 35 });
        }
        assert(acts@ =~= before + one_click(x, y, detail, i + 1 == n));
        assert(acts@ =~= head + clicks(x, y, detail, i + 1, n as int));
        i = i + 1;
    }
    acts
}

/// The motions of a drag.
pub open spec fn motions(steps: Seq<(int, int)>) -> Seq<Act> {
    Seq::new(
        2 * steps.len(),
        |i: int|
            if i % 2 == 0 {
                Act::Motion { dx: steps[i / 2].0 as i32, dy: steps[i / 2].1 as i32 }
            } else {
                Act::Pause { ms: 8 }
            },
    )
}

/// The acts of a drag along a path that is not empty.
pub open spec fn drag_acts(path: Seq<(i16, i16)>, button: MouseButton) -> Seq<Act> {
    let start = path[0];
    let end = path[path.len() - 1];
    let detail = detail_of(button);
    seq![
        Act::Warp { x: start.0, y: start.1 },
        Act::Drain,
        Act::Check { x: start.0, y: start.1 },
        Act::Button { detail, press: true },
        Act::Confirm { raw: Raw::ButtonPress(detail), count: 1 },
        Act::Pause { ms: 40 },
        Act::Drain,
    ] + motions(drag_steps(path)) + seq![
        Act::Confirm { raw: Raw::Motion, count: drag_steps(path).len() as usize },
        Act::Warp { x: end.0, y: end.1 },
        Act::Pause { ms: 20 },
        Act::Drain,
        Act::Button { detail, press: false },
        Act::Confirm { raw: Raw::ButtonRelease(detail), count: 1 },
    ]
}

/// The acts of a drag. The last warp waits for the motions: it must not
/// overtake one that is still on its way.
pub fn drag(path: &Vec<(i16, i16)>, button: MouseButton) -> (r: Result<Vec<Act>, EmptyPath>)
    ensures
        match r {
            Ok(acts) => path@.len() > 0 && acts@ == drag_acts(path@, button),
            Err(_) => path@.len() == 0,
        },
{
    if path.len() == 0 {
        return Err(EmptyPath);
    }
    let start = path[0];
    let end = path[path.len() - 1];
    let steps = relative_steps(path);
    let detail: u8 = button_detail(button);
    let mut acts: Vec<Act> = vec![
        Act::Warp { x: start.0, y: start.1 },
        Act::Drain,
        Act::Check { x: start.0, y: start.1 },
        Act::Button { detail, press: true },
        Act::Confirm { raw: Raw::ButtonPress(detail), count: 1 },
        Act::Pause { ms: 40 },
        Act::Drain,
    ];
    let ghost head = acts@;
    let ghost all = drag_steps(path@);
    assert(acts@ =~= head + motions(all.take(0)));
    let mut i: usize = 0;
    while i < steps.len()
        invariant
            i <= steps@.len(),
            all == step_views(steps@),
            acts@ == head + motions(all.take(i as int)),
        decreases steps@.len() - i,
    {
        let ghost before = acts@;
        let (dx, dy) = steps[i];
        acts.push(Act::Motion { dx, dy });
        acts.push(Act::Pause { ms: 8 });
        proof {
            let now = motions(all.take(i + 1));
            let was = motions(all.take(i as int));
            assert(all.take(i + 1)[i as int] == all[i as int]);
            assert(all[i as int] == (dx as int, dy as int));
            assert(now =~= was + seq![Act::Motion { dx, dy }, Act::Pause { ms: 8 }]) by {
                assert forall|k: int| 0 <= k < was.len() implies now[k] == was[k] by {
                    assert(all.take(i + 1)[k / 2] == all.take(i as int)[k / 2]);
                }
            }
            assert(acts@ =~= head + now);
        }
        i = i + 1;
    }
    assert(all.take(i as int) =~= all);
    acts.push(Act::Confirm { raw: Raw::Motion, count: steps.len() });
    acts.push(Act::Warp { x: end.0, y: end.1 });
    acts.push(Act::Pause { ms: 20 });
    acts.push(Act::Drain);
    acts.push(Act::Button { detail, press: false });
    acts.push(Act::Confirm { raw: Raw::ButtonRelease(detail), count: 1 });
    assert(acts@ =~= drag_acts(path@, button));
    Ok(acts)
}

/// The first `n` detents of a scroll, each followed by a pause.
pub open spec fn turns(x: i16, y: i16, detents: Seq<(bool, i32)>, n: int) -> Seq<Act>
    decreases n,
{
    if n <= 0 {
        Seq::empty()
    } else {
        turns(x, y, detents, n - 1) + seq![
            Act::Check { x, y },
            Act::Wheel { horizontal: detents[n - 1].0, turn: detents[n - 1].1 },
            Act::Pause { ms: 35 },
        ]
    }
}

/// The acts of a scroll.
pub open spec fn scroll_acts(x: i16, y: i16, detents: Seq<(bool, i32)>) -> Seq<Act> {
    let n = detents.len() as int;
    if n == 0 {
        seq![Act::Warp { x, y }]
    } else {
        seq![Act::Warp { x, y }] + turns(x, y, detents, n - 1) + seq![
            Act::Drain,
            Act::Check { x, y },
            Act::Wheel { horizontal: detents[n - 1].0, turn: detents[n - 1].1 },
            Act::Confirm { raw: Raw::Wheel, count: 1 },
        ]
    }
}

/// The acts of a scroll; only the last detent is confirmed.
pub fn scroll(x: i16, y: i16, detents: &Vec<(bool, i32)>) -> (acts: Vec<Act>)
    ensures
        acts@ == scroll_acts(x, y, detents@),
{
    let mut acts: Vec<Act> = vec![Act::Warp { x, y }];
    let ghost head = seq![Act::Warp { x, y }];
    if detents.len() == 0 {
        assert(acts@ =~= scroll_acts(x, y, detents@));
        return acts;
    }
    assert(acts@ =~= head + turns(x, y, detents@, 0));
    let last: usize = detents.len() - 1;
    let mut i: usize = 0;
    while i < last
        invariant
            i <= last,
            last < detents@.len(),
            acts@ == head + turns(x, y, detents@, i as int),
        decreases last - i,
    {
        let (horizontal, turn) = detents[i];
        acts.push(Act::Check { x, y });
        acts.push(Act::Wheel { horizontal, turn });
        acts.push(Act::Pause { ms: 35 });
        assert(acts@ =~= head + turns(x, y, detents@, i + 1));
        i = i + 1;
    }
    let (horizontal, turn) = detents[last];
    acts.push(Act::Drain);
    acts.push(Act::Check { x, y });
    acts.push(Act::Wheel { horizontal, turn });
    acts.push(Act::Confirm { raw: Raw::Wheel, count: 1 });
    assert(acts@ =~= scroll_acts(x, y, detents@));
    acts
}

/// The acts of a hover: onto the point from the pixel beside it, for a warp
/// alone is no motion to most toolkits.
pub fn hover(x: i16, y: i16) -> (acts: Vec<Act>)
    ensures
        ({
            let step: int = if x > 0 {
                1
            } else {
                -1
            };
            acts@ == seq![
                Act::Check { x: (x - step) as i16, y },
                Act::Warp { x: (x - step) as i16, y },
                Act::Drain,
                Act::Motion { dx: step as i32, dy: 0 },
                Act::Confirm { raw: Raw::Motion, count: 1 },
                Act::Warp { x, y },
            ]
        }),
{
    let (from, step) = hover_from(x);
    let acts: Vec<Act> = vec![
        Act::Check { x: from, y },
        Act::Warp { x: from, y },
        Act::Drain,
        Act::Motion { dx: step as i32, dy: 0 },
        Act::Confirm { raw: Raw::Motion, count: 1 },
        Act::Warp { x, y },
    ];
    acts
}

/// The act reaches into a window: a press or a turn of the wheel.
pub open spec fn reaches(act: Act) -> bool {
    match act {
        Act::Button { press, .. } => press,
        Act::Wheel { .. } => true,
        _ => false,
    }
}

/// Every act that reaches into a window comes right after a check.
pub open spec fn all_checked(acts: Seq<Act>) -> bool {
    forall|i: int|
        0 <= i < acts.len() && reaches(#[trigger] acts[i]) ==> i > 0 && acts[i - 1] is Check
}

proof fn lemma_joined_checks(a: Seq<Act>, b: Seq<Act>)
    requires
        all_checked(a),
        all_checked(b),
    ensures
        all_checked(a + b),
{
    let s = a + b;
    assert forall|i: int| 0 <= i < s.len() && reaches(#[trigger] s[i]) implies i > 0 && s[i
        - 1] is Check by {
        if i < a.len() {
            assert(a[i] == s[i]);
            assert(a[i - 1] == s[i - 1]);
        } else {
            assert(b[i - a.len()] == s[i]);
            assert(b[i - a.len() - 1] == s[i - 1]);
        }
    }
}

proof fn lemma_clicks_checked(x: i16, y: i16, detail: u8, n: int, count: int)
    ensures
        all_checked(clicks(x, y, detail, n, count)),
    decreases n,
{
    if n > 0 {
        lemma_clicks_checked(x, y, detail, n - 1, count);
        assert(all_checked(one_click(x, y, detail, n == count)));
        lemma_joined_checks(
            clicks(x, y, detail, n - 1, count),
            one_click(x, y, detail, n == count),
        );
    }
}

proof fn lemma_turns_checked(x: i16, y: i16, detents: Seq<(bool, i32)>, n: int)
    ensures
        all_checked(turns(x, y, detents, n)),
    decreases n,
{
    if n > 0 {
        lemma_turns_checked(x, y, detents, n - 1);
        let last = seq![
            Act::Check { x, y },
            Act::Wheel { horizontal: detents[n - 1].0, turn: detents[n - 1].1 },
            Act::Pause { ms: 35 },
        ];
        assert(all_checked(last));
        lemma_joined_checks(turns(x, y, detents, n - 1), last);
    }
}

/// No button is pressed and no wheel is turned unless the point was found to be
/// the target's right before.
pub proof fn law_virtual_input_is_checked(
    x: i16,
    y: i16,
    button: MouseButton,
    count: u32,
    path: Seq<(i16, i16)>,
    detents: Seq<(bool, i32)>,
)
    ensures
        all_checked(click_acts(x, y, button, count)),
        all_checked(scroll_acts(x, y, detents)),
        path.len() > 0 ==> all_checked(drag_acts(path, button)),
{
    let n = if count == 0 {
        1
    } else {
        count as int
    };
    let head = seq![Act::Warp { x, y }, Act::Drain];
    assert(all_checked(head));
    lemma_clicks_checked(x, y, detail_of(button), n, n);
    lemma_joined_checks(head, clicks(x, y, detail_of(button), n, n));
    let m = detents.len() as int;
    let warp = seq![Act::Warp { x, y }];
    assert(all_checked(warp));
    if m > 0 {
        lemma_turns_checked(x, y, detents, m - 1);
        lemma_joined_checks(warp, turns(x, y, detents, m - 1));
        let tail = seq![
            Act::Drain,
            Act::Check { x, y },
            Act::Wheel { horizontal: detents[m - 1].0, turn: detents[m - 1].1 },
            Act::Confirm { raw: Raw::Wheel, count: 1 },
        ];
        assert(all_checked(tail));
        lemma_joined_checks(warp + turns(x, y, detents, m - 1), tail);
    }
    if path.len() > 0 {
        let s = drag_acts(path, button);
        let mid = motions(drag_steps(path));
        assert forall|i: int| 0 <= i < s.len() && reaches(#[trigger] s[i]) implies i > 0 && s[i
            - 1] is Check by {
            if 7 <= i < 7 + mid.len() {
                assert(s[i] == mid[i - 7]);
                assert(!reaches(mid[i - 7]));
            }
        }
    }
}

/// The buttons that are down after the first `n` acts, as far as `detail` goes.
pub open spec fn is_down(acts: Seq<Act>, detail: u8, n: int) -> bool
    decreases n,
{
    if n <= 0 {
        false
    } else {
        match acts[n - 1] {
            Act::Button { detail: d, press } => if d == detail {
                press
            } else {
                is_down(acts, detail, n - 1)
            },
            _ => is_down(acts, detail, n - 1),
        }
    }
}

proof fn lemma_up_after(acts: Seq<Act>, detail: u8, n: int, k: int)
    requires
        0 <= k < n <= acts.len(),
        acts[k] == (Act::Button { detail, press: false }),
        forall|i: int| k < i < n ==> !((#[trigger] acts[i]) is Button),
    ensures
        !is_down(acts, detail, n),
    decreases n,
{
    if n - 1 > k {
        assert(!(acts[n - 1] is Button));
        lemma_up_after(acts, detail, n - 1, k);
    }
}

/// A click and a drag leave their button up.
pub proof fn law_virtual_gestures_release(
    x: i16,
    y: i16,
    button: MouseButton,
    count: u32,
    path: Seq<(i16, i16)>,
)
    ensures
        !is_down(
            click_acts(x, y, button, count),
            detail_of(button),
            click_acts(x, y, button, count).len() as int,
        ),
        path.len() > 0 ==> !is_down(
            drag_acts(path, button),
            detail_of(button),
            drag_acts(path, button).len() as int,
        ),
{
    let d = detail_of(button);
    let n = if count == 0 {
        1
    } else {
        count as int
    };
    let c = click_acts(x, y, button, count);
    let before = clicks(x, y, d, n - 1, n);
    let last = one_click(x, y, d, true);
    assert(clicks(x, y, d, n, n) == before + last);
    let k = 2 + before.len() as int + 4;
    assert(c[k] == last[4]);
    assert(c[k + 1] == last[5]);
    assert(c.len() == k + 2);
    lemma_up_after(c, d, c.len() as int, k);
    if path.len() > 0 {
        let s = drag_acts(path, button);
        lemma_up_after(s, d, s.len() as int, s.len() - 2);
    }
}

/// The report that confirms a run of keys: that of its last.
pub fn last_report(steps: &Vec<KeyStep>) -> (raw: Option<Raw>)
    ensures
        raw == (if steps@.len() == 0 {
            None
        } else {
            let last = steps@[steps@.len() - 1];
            Some(
                if last.press {
                    Raw::KeyPress(last.keycode)
                } else {
                    Raw::KeyRelease(last.keycode)
                },
            )
        }),
{
    if steps.len() == 0 {
        return None;
    }
    let last = steps[steps.len() - 1];
    Some(
        if last.press {
            Raw::KeyPress(last.keycode)
        } else {
            Raw::KeyRelease(last.keycode)
        },
    )
}

/// The settings that turn a pointer's acceleration off, where the device has
/// between two and eight profiles: the second one, alone.
pub fn flat_profile(profiles: usize) -> (r: Option<Vec<u8>>)
    ensures
        match r {
            Some(flat) => 2 <= profiles <= 8 && flat@ == Seq::new(
                profiles as nat,
                |i: int|
                    if i == 1 {
                        1u8
                    } else {
                        0u8
                    },
            ),
            None => !(2 <= profiles <= 8),
        },
{
    if profiles < 2 || profiles > 8 {
        return None;
    }
    let mut flat: Vec<u8> = vec![0u8; profiles];
    flat.set(1, 1);
    assert(flat@ =~= Seq::new(
        profiles as nat,
        |i: int|
            if i == 1 {
                1u8
            } else {
                0u8
            },
    ));
    Some(flat)
}

} // verus!
