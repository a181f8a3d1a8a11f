//! What keys, chords and devices are, said of the keyboard and the device list
//! as a whole.

use vstd::prelude::*;

use crate::desktop::keys::{KeyName, Modifiers};
use crate::desktop::libei::{
    chord_of, device_at, devices_after, gesture_error, gesture_modifiers, keyboard_at, keys_down,
    keys_up, named_key, pointer_at, stroke_actions, text_actions, us_key, with_codes,
    without, Action, DeviceEvent, DeviceState, DeviceTraits, Gesture, InputError, KeyStroke,
};

verus! {

// ---------------------------------------------------------------------------
// Keys
// ---------------------------------------------------------------------------
/// The rows of the US keyboard from the digits down, each with the kernel code
/// of its first key: the plain and the shifted characters.
pub open spec fn us_rows() -> Seq<(u32, Seq<char>, Seq<char>)> {
    seq![
        (
            2u32,
            seq!['1', '2', '3', '4', '5', '6', '7', '8', '9', '0', '-', '='],
            seq!['!', '@', '#', '$', '%', '^', '&', '*', '(', ')', '_', '+'],
        ),
        (
            16u32,
            seq!['q', 'w', 'e', 'r', 't', 'y', 'u', 'i', 'o', 'p', '[', ']'],
            seq!['Q', 'W', 'E', 'R', 'T', 'Y', 'U', 'I', 'O', 'P', '{', '}'],
        ),
        (
            30u32,
            seq!['a', 's', 'd', 'f', 'g', 'h', 'j', 'k', 'l', ';', '\'', '`'],
            seq!['A', 'S', 'D', 'F', 'G', 'H', 'J', 'K', 'L', ':', '"', '~'],
        ),
        (
            43u32,
            seq!['\\', 'z', 'x', 'c', 'v', 'b', 'n', 'm', ',', '.', '/'],
            seq!['|', 'Z', 'X', 'C', 'V', 'B', 'N', 'M', '<', '>', '?'],
        ),
    ]
}

/// The keys of a row are numbered from left to right, and Shift gives the
/// shifted character of the same key.
pub proof fn law_keys_stand_in_rows(row: int, k: int)
    requires
        0 <= row < 4,
        0 <= k < us_rows()[row].1.len(),
    ensures
        us_rows()[row].1.len() == us_rows()[row].2.len(),
        us_key(us_rows()[row].1[k]) == Some(((us_rows()[row].0 + k) as u32, false)),
        us_key(us_rows()[row].2[k]) == Some(((us_rows()[row].0 + k) as u32, true)),
{
}

/// White space has keys of its own: the space bar, the tab key and the return
/// key for both line ends.
pub proof fn law_white_space_has_its_keys()
    ensures
        us_key(' ') == Some((57u32, false)),
        us_key('\t') == Some((15u32, false)),
        us_key('\n') == Some((28u32, false)),
        us_key('\r') == Some((28u32, false)),
        named_key(KeyName::Space) == Some(57u32),
        named_key(KeyName::Tab) == Some(15u32),
        named_key(KeyName::Enter) == Some(28u32),
{
}

/// The key of a character is its key on the US layout, whatever its case.
pub proof fn law_character_keys_are_the_layouts(c: char)
    ensures
        named_key(KeyName::Char(c)) is Some <==> us_key(c) is Some,
        us_key(c) is Some ==> named_key(KeyName::Char(c)) == Some((us_key(c)->0).0),
{
}

/// The function keys are numbered on: the first ten from 59, the next two from
/// 87, and the others from 183.
pub proof fn law_function_keys_are_numbered_on(k: u32)
    requires
        k < 24,
    ensures
        ({
            let keys = seq![
                KeyName::F1, KeyName::F2, KeyName::F3, KeyName::F4, KeyName::F5, KeyName::F6,
                KeyName::F7, KeyName::F8, KeyName::F9, KeyName::F10, KeyName::F11, KeyName::F12,
                KeyName::F13, KeyName::F14, KeyName::F15, KeyName::F16, KeyName::F17, KeyName::F18,
                KeyName::F19, KeyName::F20, KeyName::F21, KeyName::F22, KeyName::F23, KeyName::F24
            ];
            named_key(keys[k as int]) == Some(
                (if k < 10 {
                    59 + k
                } else if k < 12 {
                    77 + k
                } else {
                    171 + k
                }) as u32,
            )
        }),
{
}

// ---------------------------------------------------------------------------
// Chords and text
// ---------------------------------------------------------------------------
proof fn lemma_with_codes(codes: Seq<u32>, more: Seq<u32>, n: int)
    requires
        codes.no_duplicates(),
        0 <= n <= more.len(),
    ensures
        with_codes(codes, more, n).no_duplicates(),
        with_codes(codes, more, n).len() >= codes.len(),
        forall|i: int| 0 <= i < codes.len() ==> #[trigger] with_codes(codes, more, n)[i] == codes[i],
        forall|c: u32|
            #[trigger] with_codes(codes, more, n).contains(c) <==> codes.contains(c) || more.take(
                n,
            ).contains(c),
    decreases n,
{
    let now = with_codes(codes, more, n);
    if n > 0 {
        lemma_with_codes(codes, more, n - 1);
        let prior = with_codes(codes, more, n - 1);
        let x = more[n - 1];
        assert(more.take(n) =~= more.take(n - 1).push(x));
        assert forall|c: u32| #[trigger] now.contains(c) <==> codes.contains(c) || more.take(
            n,
        ).contains(c) by {
            assert(more.take(n).contains(c) <==> more.take(n - 1).contains(c) || c == x) by {
                if more.take(n - 1).contains(c) {
                    let early = more.take(n - 1);
                    let i = choose|i: int| 0 <= i < early.len() && early[i] == c;
                    assert(more.take(n)[i] == c);
                }
                if c == x {
                    assert(more.take(n)[n - 1] == x);
                }
            }
            assert(now.contains(c) <==> prior.contains(c) || c == x) by {
                if prior.contains(c) {
                    let i = choose|i: int| 0 <= i < prior.len() && prior[i] == c;
                    assert(now[i] == c);
                }
                if c == x && !prior.contains(x) {
                    assert(now[prior.len() as int] == x);
                }
            }
        }
    } else {
        assert(more.take(0) =~= Seq::<u32>::empty());
    }
}

/// A chord holds the modifiers and the key of every stroke and nothing else,
/// each code once; a further stroke only adds codes behind those that are there.
pub proof fn law_chord_holds_every_stroke(strokes: Seq<KeyStroke>, k: int)
    requires
        0 <= k <= strokes.len(),
    ensures
        chord_of(strokes, k).no_duplicates(),
        forall|c: u32|
            #[trigger] chord_of(strokes, k).contains(c) <==> exists|i: int|
                0 <= i < k && ((#[trigger] strokes[i]).keycode == c
                    || strokes[i].modifiers@.contains(c)),
        k > 0 ==> forall|i: int|
            0 <= i < chord_of(strokes, k - 1).len() ==> #[trigger] chord_of(strokes, k)[i]
                == chord_of(strokes, k - 1)[i],
    decreases k,
{
    if k > 0 {
        law_chord_holds_every_stroke(strokes, k - 1);
        let s = strokes[k - 1];
        let more = s.modifiers@.push(s.keycode);
        let n = s.modifiers@.len() as int + 1;
        lemma_with_codes(chord_of(strokes, k - 1), more, n);
        assert(more.take(n) =~= more);
        assert forall|c: u32| #[trigger] chord_of(strokes, k).contains(c) <==> exists|i: int|
            0 <= i < k && ((#[trigger] strokes[i]).keycode == c || strokes[i].modifiers@.contains(
                c,
            )) by {
            assert(more.contains(c) <==> s.keycode == c || s.modifiers@.contains(c)) by {
                if s.modifiers@.contains(c) {
                    let i = choose|i: int| 0 <= i < s.modifiers@.len() && s.modifiers@[i] == c;
                    assert(more[i] == c);
                }
                if s.keycode == c {
                    assert(more[n - 1] == c);
                }
            }
            if chord_of(strokes, k).contains(c) {
                if more.contains(c) {
                    assert(strokes[k - 1].keycode == c || strokes[k - 1].modifiers@.contains(c));
                } else {
                    let i = choose|i: int|
                        0 <= i < k - 1 && ((#[trigger] strokes[i]).keycode == c
                            || strokes[i].modifiers@.contains(c));
                    assert(strokes[i].keycode == c || strokes[i].modifiers@.contains(c));
                }
            }
        }
    }
}

/// A stroke presses its modifiers in order, presses and releases its key, and
/// releases the modifiers in reverse.
pub proof fn law_stroke_holds_its_modifiers(stroke: KeyStroke)
    ensures
        ({
            let all = stroke_actions(stroke);
            let m = stroke.modifiers@.len() as int;
            &&& all.len() == 2 * m + 2
            &&& forall|i: int|
                0 <= i < m ==> #[trigger] all[i] == (Action::Key {
                    code: stroke.modifiers@[i],
                    press: true,
                })
            &&& all[m] == (Action::Key { code: stroke.keycode, press: true })
            &&& all[m + 1] == (Action::Key { code: stroke.keycode, press: false })
            &&& forall|i: int|
                m + 2 <= i < all.len() ==> #[trigger] all[i] == (Action::Key {
                    code: stroke.modifiers@[2 * m + 1 - i],
                    press: false,
                })
        }),
{
    let all = stroke_actions(stroke);
    let m = stroke.modifiers@.len() as int;
    assert forall|i: int| 0 <= i < m implies #[trigger] all[i] == (Action::Key {
        code: stroke.modifiers@[i],
        press: true,
    }) by {
        assert(all[i] == keys_down(stroke.modifiers@)[i]);
    }
    assert forall|i: int| m + 2 <= i < all.len() implies #[trigger] all[i] == (Action::Key {
        code: stroke.modifiers@[2 * m + 1 - i],
        press: false,
    }) by {
        assert(all[i] == keys_up(stroke.modifiers@)[i - m - 2]);
    }
}

/// Typing some strokes behind others sends what each sends, one behind the
/// other.
pub proof fn law_strokes_are_typed_one_behind_the_other(a: Seq<KeyStroke>, b: Seq<KeyStroke>)
    ensures
        text_actions(a + b, (a + b).len() as int) == text_actions(a, a.len() as int) + text_actions(
            b,
            b.len() as int,
        ),
        b.len() == 1 ==> text_actions(b, 1) == stroke_actions(b[0]),
    decreases b.len(),
{
    if b.len() == 0 {
        assert(a + b =~= a);
        assert(text_actions(a, a.len() as int) + Seq::<Action>::empty() =~= text_actions(
            a,
            a.len() as int,
        ));
    } else {
        let d = b.drop_last();
        law_strokes_are_typed_one_behind_the_other(a, d);
        lemma_text_prefix(a + b, a + d, (a + d).len() as int);
        lemma_text_prefix(b, d, d.len() as int);
        let n = (a + b).len() as int;
        assert((a + b)[n - 1] == b[b.len() - 1]);
        assert(text_actions(a + b, n) =~= text_actions(a, a.len() as int) + text_actions(
            b,
            b.len() as int,
        ));
        if b.len() == 1 {
            assert(text_actions(b, 0) =~= Seq::<Action>::empty());
            assert(text_actions(b, 1) =~= stroke_actions(b[0]));
        }
    }
}

proof fn lemma_text_prefix(s: Seq<KeyStroke>, t: Seq<KeyStroke>, k: int)
    requires
        k <= s.len(),
        k <= t.len(),
        forall|i: int| 0 <= i < k ==> #[trigger] s[i] == t[i],
    ensures
        text_actions(s, k) == text_actions(t, k),
    decreases k,
{
    if k > 0 {
        lemma_text_prefix(s, t, k - 1);
        assert(s[k - 1] == t[k - 1]);
    }
}

// ---------------------------------------------------------------------------
// Devices
// ---------------------------------------------------------------------------
/// The device can do the gesture now: it runs, it is a pointer, it has buttons
/// where the gesture presses one and a wheel where it turns one, and it reaches
/// every point.
pub open spec fn can_do(d: DeviceTraits, gesture: Gesture) -> bool {
    &&& d.resumed
    &&& d.pointer
    &&& (gesture is Click || gesture is Drag) ==> d.button
    &&& gesture is Scroll ==> d.scroll
    &&& d.covers
}

proof fn lemma_pointer_at(devices: Seq<DeviceTraits>, gesture: Gesture, i: int)
    requires
        0 <= i <= devices.len(),
    ensures
        match pointer_at(devices, gesture, i) {
            Some(k) => {
                &&& i <= k < devices.len()
                &&& can_do(devices[k], gesture)
                &&& forall|j: int| i <= j < k ==> !can_do(#[trigger] devices[j], gesture)
            },
            None => forall|j: int| i <= j < devices.len() ==> !can_do(#[trigger] devices[j], gesture),
        },
    decreases devices.len() - i,
{
    if i < devices.len() && !can_do(devices[i], gesture) {
        lemma_pointer_at(devices, gesture, i + 1);
    }
}

/// The device can hold keys on the seat: it runs and is a keyboard there.
pub open spec fn can_hold(d: DeviceTraits, seat: u64) -> bool {
    d.resumed && d.keyboard && d.seat == seat
}

proof fn lemma_keyboard_at(devices: Seq<DeviceTraits>, seat: u64, i: int)
    requires
        0 <= i <= devices.len(),
    ensures
        match keyboard_at(devices, Some(seat), i) {
            Some(k) => {
                &&& i <= k < devices.len()
                &&& can_hold(devices[k], seat)
                &&& forall|j: int| i <= j < k ==> !can_hold(#[trigger] devices[j], seat)
            },
            None => forall|j: int| i <= j < devices.len() ==> !can_hold(#[trigger] devices[j], seat),
        },
    decreases devices.len() - i,
{
    if i < devices.len() && !can_hold(devices[i], seat) {
        lemma_keyboard_at(devices, seat, i + 1);
    }
}

/// A gesture goes by the first device that can do all of it, and its modifiers
/// by a running keyboard on that device's seat; it fails exactly where a drag
/// has no points, where no device can do it, or where it has modifiers and that
/// seat has no running keyboard.
pub proof fn law_gesture_goes_by_the_first_fit(devices: Seq<DeviceTraits>, gesture: Gesture)
    ensures
        gesture is Drag && gesture->Drag_points == 0 ==> gesture_error(devices, gesture) == Some(
            InputError::EmptyPath,
        ),
        !(gesture is Drag && gesture->Drag_points == 0) && (forall|i: int|
            0 <= i < devices.len() ==> !can_do(#[trigger] devices[i], gesture)) ==> gesture_error(
            devices,
            gesture,
        ) == Some(InputError::NoPointer),
        forall|i: int|
            0 <= i < devices.len() && can_do(#[trigger] devices[i], gesture) && (forall|j: int|
                0 <= j < i ==> !can_do(#[trigger] devices[j], gesture)) ==> pointer_at(
                devices,
                gesture,
                0,
            ) == Some(i) && (!(gesture is Drag && gesture->Drag_points == 0) ==> gesture_error(
                devices,
                gesture,
            ) == (if gesture_modifiers(gesture) != Modifiers::none() && (forall|j: int|
                0 <= j < devices.len() ==> !can_hold(#[trigger] devices[j], devices[i].seat)) {
                Some(InputError::NoKeyboard)
            } else {
                None
            })),
{
    lemma_pointer_at(devices, gesture, 0);
    assert forall|i: int|
        0 <= i < devices.len() && can_do(#[trigger] devices[i], gesture) && (forall|j: int|
            0 <= j < i ==> !can_do(#[trigger] devices[j], gesture)) implies pointer_at(
        devices,
        gesture,
        0,
    ) == Some(i) && (!(gesture is Drag && gesture->Drag_points == 0) ==> gesture_error(
        devices,
        gesture,
    ) == (if gesture_modifiers(gesture) != Modifiers::none() && (forall|j: int|
        0 <= j < devices.len() ==> !can_hold(#[trigger] devices[j], devices[i].seat)) {
        Some(InputError::NoKeyboard)
    } else {
        None
    })) by {
        lemma_keyboard_at(devices, devices[i].seat, 0);
        let k = pointer_at(devices, gesture, 0)->0;
        if k < i {
            assert(!can_do(devices[k], gesture));
        } else if i < k {
            assert(!can_do(devices[i], gesture));
        }
        if let Some(h) = keyboard_at(devices, Some(devices[i].seat), 0) {
            assert(can_hold(devices[h], devices[i].seat));
        }
    }
}

proof fn lemma_without(devices: Seq<DeviceState>, id: Option<u64>, seat: Option<u64>, k: int)
    requires
        0 <= k <= devices.len(),
    ensures
        forall|d: DeviceState|
            #[trigger] without(devices, id, seat, k).contains(d) <==> devices.take(k).contains(d)
                && Some(d.id) != id && Some(d.seat) != seat,
    decreases k,
{
    let now = without(devices, id, seat, k);
    if k > 0 {
        lemma_without(devices, id, seat, k - 1);
        let prior = without(devices, id, seat, k - 1);
        let x = devices[k - 1];
        assert(devices.take(k) =~= devices.take(k - 1).push(x));
        assert forall|d: DeviceState| #[trigger] now.contains(d) <==> devices.take(k).contains(d)
            && Some(d.id) != id && Some(d.seat) != seat by {
            let early = devices.take(k - 1);
            let all = devices.take(k);
            assert(all.contains(d) <==> early.contains(d) || d == x) by {
                if early.contains(d) {
                    let i = choose|i: int| 0 <= i < early.len() && early[i] == d;
                    assert(all[i] == d);
                }
                if d == x {
                    assert(all[k - 1] == d);
                }
            }
            assert(prior.contains(d) <==> early.contains(d) && Some(d.id) != id && Some(d.seat)
                != seat);
            if Some(x.id) == id || Some(x.seat) == seat {
                assert(now == prior);
            } else {
                assert(now == prior.push(x));
                if prior.contains(d) {
                    let i = choose|i: int| 0 <= i < prior.len() && prior[i] == d;
                    assert(now[i] == d);
                }
                if d == x {
                    assert(now[prior.len() as int] == d);
                }
                if now.contains(d) {
                    let i = choose|i: int| 0 <= i < now.len() && now[i] == d;
                    if i < prior.len() {
                        assert(prior[i] == d);
                    }
                }
            }
        }
    } else {
        assert(devices.take(0) =~= Seq::<DeviceState>::empty());
    }
}

/// Removing a device or a seat takes away exactly the devices of that number or
/// on that seat.
pub proof fn law_removal_takes_what_was_removed(devices: Seq<DeviceState>, d: DeviceState, id: u64, seat: u64)
    ensures
        devices_after(devices, DeviceEvent::DeviceRemoved { id }).contains(d) <==> devices.contains(d)
            && d.id != id,
        devices_after(devices, DeviceEvent::SeatRemoved { seat }).contains(d) <==> devices.contains(d)
            && d.seat != seat,
{
    lemma_without(devices, Some(id), None, devices.len() as int);
    lemma_without(devices, None, Some(seat), devices.len() as int);
    assert(devices.take(devices.len() as int) =~= devices);
    assert(without(devices, Some(id), None, devices.len() as int).contains(d) <==> devices.contains(
        d,
    ) && Some(d.id) != Some(id) && Some(d.seat) != None::<u64>);
    assert(without(devices, None, Some(seat), devices.len() as int).contains(d)
        <==> devices.contains(d) && Some(d.id) != None::<u64> && Some(d.seat) != Some(seat));
}

proof fn lemma_device_at(devices: Seq<DeviceState>, id: u64, i: int)
    requires
        0 <= i <= devices.len(),
    ensures
        match device_at(devices, id, i) {
            Some(k) => {
                &&& i <= k < devices.len()
                &&& devices[k].id == id
                &&& forall|j: int| i <= j < k ==> (#[trigger] devices[j]).id != id
            },
            None => forall|j: int| i <= j < devices.len() ==> (#[trigger] devices[j]).id != id,
        },
    decreases devices.len() - i,
{
    if i < devices.len() && devices[i].id != id {
        lemma_device_at(devices, id, i + 1);
    }
}

/// A device that resumes runs, one that pauses does not, and no other device is
/// touched; a new device waits until it resumes, and a lost connection leaves
/// none.
pub proof fn law_devices_run_while_resumed(devices: Seq<DeviceState>, id: u64, seat: u64, k: int)
    requires
        forall|i: int, j: int|
            0 <= i < j < devices.len() ==> (#[trigger] devices[i]).id != (#[trigger] devices[j]).id,
        0 <= k < devices.len(),
    ensures
        ({
            let on = devices_after(devices, DeviceEvent::DeviceResumed { id });
            let off = devices_after(devices, DeviceEvent::DevicePaused { id });
            &&& on.len() == devices.len() && off.len() == devices.len()
            &&& devices[k].id == id ==> on[k] == (DeviceState { resumed: true, ..devices[k] })
                && off[k] == (DeviceState { resumed: false, ..devices[k] })
            &&& devices[k].id != id ==> on[k] == devices[k] && off[k] == devices[k]
        }),
        devices_after(devices, DeviceEvent::DeviceAdded { id, seat }) == devices.push(
            DeviceState { id, seat, resumed: false },
        ),
        devices_after(devices, DeviceEvent::Disconnected).len() == 0,
{
    lemma_device_at(devices, id, 0);
    if let Some(i) = device_at(devices, id, 0) {
        if i != k && devices[k].id == id {
            if i < k {
                assert(devices[i].id != devices[k].id);
            } else {
                assert(devices[k].id != devices[i].id);
            }
        }
    }
}

} // verus!
