//! What the keys of a keymap emit.

use vstd::prelude::*;

use super::keymap::{key_symbol, modifier_bit, row_with, with_code, KeyStep, Keymap};
use crate::desktop::keys::KeyName;

verus! {

/// The symbol on a level of a keycode's row.
pub open spec fn symbol_at(map: Keymap, row: int, level: int) -> u32 {
    map.keysyms@[row * map.keysyms_per_keycode + level]
}

/// The keymap has the symbol on the level of the row.
pub open spec fn has_symbol(map: Keymap, row: int, level: int, sym: u32) -> bool {
    &&& 0 <= row < map.keysyms@.len() as int / map.keysyms_per_keycode as int
    &&& 0 <= level < map.keysyms_per_keycode
    &&& symbol_at(map, row, level) == sym
}

proof fn lemma_row_with(map: Keymap, level: int, sym: u32, r: int)
    requires
        map.keysyms_per_keycode > 0,
        0 <= level,
        0 <= r,
    ensures
        match row_with(map.keysyms@, map.keysyms_per_keycode as int, level, sym, r) {
            Some(row) => r <= row && has_symbol(map, row, level, sym) && forall|q: int|
                r <= q < row ==> !#[trigger] has_symbol(map, q, level, sym),
            None => forall|q: int| r <= q ==> !#[trigger] has_symbol(map, q, level, sym),
        },
    decreases map.keysyms@.len() as int / map.keysyms_per_keycode as int - r,
{
    let width = map.keysyms_per_keycode as int;
    let rows = map.keysyms@.len() as int / width;
    if r < rows && !(level < width && map.keysyms@[r * width + level] == sym) {
        lemma_row_with(map, level, sym, r + 1);
    }
}

/// The key found for a symbol emits it: the key's own row has the symbol, plain
/// or with Shift as the answer says; Shift is asked for only where no key has
/// the symbol plain, and no earlier key has it on that level.
pub proof fn law_found_key_emits_the_symbol(map: Keymap, sym: u32)
    requires
        map.keysyms_per_keycode > 0,
    ensures
        match map.found(sym) {
            Some((code, shift)) => {
                let row = code - map.min_keycode;
                let level = if shift { 1int } else { 0int };
                &&& has_symbol(map, row, level, sym)
                &&& forall|q: int| 0 <= q < row ==> !#[trigger] has_symbol(map, q, level, sym)
                &&& shift ==> forall|q: int| 0 <= q ==> !#[trigger] has_symbol(map, q, 0, sym)
            },
            None => forall|q: int|
                0 <= q && map.min_keycode + q <= 255 && #[trigger] has_symbol(map, q, 0, sym)
                    ==> exists|p: int| 0 <= p < q && has_symbol(map, p, 0, sym),
        },
{
    lemma_row_with(map, 0, sym, 0);
    lemma_row_with(map, 1, sym, 0);
    let width = map.keysyms_per_keycode as int;
    if map.found(sym) is None {
        assert forall|q: int|
            0 <= q && map.min_keycode + q <= 255 && #[trigger] has_symbol(map, q, 0, sym) implies exists|
            p: int,
        | 0 <= p < q && has_symbol(map, p, 0, sym) by {
            let row = row_with(map.keysyms@, width, 0, sym, 0)->0;
            assert(has_symbol(map, row, 0, sym));
        }
    }
}

/// Shift is the left Shift key where the keymap has one, and else the right.
pub proof fn law_shift_is_a_shift_key(map: Keymap)
    requires
        map.keysyms_per_keycode > 0,
        map.shift() is Some,
    ensures
        ({
            let row = map.shift()->0 - map.min_keycode;
            ||| has_symbol(map, row, 0, 0xffe1)
            ||| has_symbol(map, row, 1, 0xffe1)
            ||| has_symbol(map, row, 0, 0xffe2)
            ||| has_symbol(map, row, 1, 0xffe2)
        }),
{
    law_found_key_emits_the_symbol(map, 0xffe1);
    law_found_key_emits_the_symbol(map, 0xffe2);
}

/// A typed character is a press and a release of the key that emits its symbol,
/// inside a press and a release of Shift where the symbol is a shifted one.
pub proof fn law_typed_character_emits_its_symbol(map: Keymap, c: char)
    requires
        map.keysyms_per_keycode > 0,
        map.key_error(KeyName::Char(c), true) is None,
    ensures
        ({
            let steps = map.char_steps(c);
            let sym = key_symbol(KeyName::Char(c));
            if steps.len() == 2 {
                &&& has_symbol(map, steps[0].keycode - map.min_keycode, 0, sym)
                &&& steps[0].press && !steps[1].press
                &&& steps[1].keycode == steps[0].keycode
            } else {
                &&& steps.len() == 4
                &&& map.shift() == Some(steps[0].keycode)
                &&& steps[0].press && steps[1].press && !steps[2].press && !steps[3].press
                &&& has_symbol(map, steps[1].keycode - map.min_keycode, 1, sym)
                &&& forall|q: int| 0 <= q ==> !#[trigger] has_symbol(map, q, 0, sym)
                &&& steps[2].keycode == steps[1].keycode
                &&& steps[3].keycode == steps[0].keycode
            }
        }),
{
    law_found_key_emits_the_symbol(map, key_symbol(KeyName::Char(c)));
}

/// Texts are typed one behind the other, and nothing is typed of a text with a
/// character that no key has.
pub proof fn law_texts_are_typed_one_behind_the_other(map: Keymap, a: Seq<char>, b: Seq<char>)
    ensures
        map.text_steps(a + b, (a + b).len() as int) == map.text_steps(a, a.len() as int)
            + map.text_steps(b, b.len() as int),
        b.len() == 1 ==> map.text_steps(b, 1) == map.char_steps(b[0]),
    decreases b.len(),
{
    if b.len() == 0 {
        assert(a + b =~= a);
        assert(map.text_steps(a, a.len() as int) + Seq::<KeyStep>::empty() =~= map.text_steps(
            a,
            a.len() as int,
        ));
    } else {
        let d = b.drop_last();
        law_texts_are_typed_one_behind_the_other(map, a, d);
        lemma_text_prefix(map, a + b, a + d, (a + d).len() as int);
        lemma_text_prefix(map, b, d, d.len() as int);
        let n = (a + b).len() as int;
        assert((a + b)[n - 1] == b[b.len() - 1]);
        assert(map.text_steps(a + b, n) =~= map.text_steps(a, a.len() as int) + map.text_steps(
            b,
            b.len() as int,
        ));
        if b.len() == 1 {
            assert(map.text_steps(b, 0) =~= Seq::<KeyStep>::empty());
            assert(map.text_steps(b, 1) =~= map.char_steps(b[0]));
        }
    }
}

proof fn lemma_text_prefix(map: Keymap, s: Seq<char>, t: Seq<char>, k: int)
    requires
        k <= s.len(),
        k <= t.len(),
        forall|i: int| 0 <= i < k ==> #[trigger] s[i] == t[i],
    ensures
        map.text_steps(s, k) == map.text_steps(t, k),
    decreases k,
{
    if k > 0 {
        lemma_text_prefix(map, s, t, k - 1);
        assert(s[k - 1] == t[k - 1]);
    }
}

/// A text is refused exactly where one of its characters has no key, or needs
/// Shift and there is none, and the first such character says why.
pub proof fn law_text_is_refused_for_its_first_bad_character(map: Keymap, text: Seq<char>, i: int)
    requires
        0 <= i <= text.len(),
    ensures
        map.text_error(text, i) is None <==> forall|j: int|
            i <= j < text.len() ==> map.key_error(KeyName::Char(#[trigger] text[j]), true) is None,
        forall|j: int|
            i <= j < text.len() && map.key_error(KeyName::Char(#[trigger] text[j]), true) is Some && (
            forall|k: int|
                i <= k < j ==> map.key_error(KeyName::Char(#[trigger] text[k]), true) is None)
                ==> map.text_error(text, i) == map.key_error(KeyName::Char(text[j]), true),
    decreases text.len() - i,
{
    if i < text.len() && map.key_error(KeyName::Char(text[i]), true) is None {
        law_text_is_refused_for_its_first_bad_character(map, text, i + 1);
    }
}

/// The codes that a chord holds are those of its keys, and Shift's where a key
/// needs it, each once and in the order of the keys.
pub proof fn law_chord_holds_its_keys(map: Keymap, keys: Seq<KeyName>, needs_shift: bool, k: int)
    requires
        0 <= k <= keys.len(),
    ensures
        map.chord_codes(keys, needs_shift, k).no_duplicates(),
        forall|i: int|
            0 <= i < k ==> map.chord_codes(keys, needs_shift, k).contains(
                (map.found(key_symbol(#[trigger] keys[i]))->0).0,
            ),
        forall|i: int|
            0 <= i < k && needs_shift && (map.found(key_symbol(#[trigger] keys[i]))->0).1
                ==> map.chord_codes(keys, needs_shift, k).contains(map.shift()->0),
        k > 0 ==> map.chord_codes(keys, needs_shift, k - 1).len() <= map.chord_codes(
            keys,
            needs_shift,
            k,
        ).len() && forall|i: int|
            0 <= i < map.chord_codes(keys, needs_shift, k - 1).len() ==> #[trigger] map.chord_codes(
                keys,
                needs_shift,
                k,
            )[i] == map.chord_codes(keys, needs_shift, k - 1)[i],
        forall|c: u8|
            #[trigger] map.chord_codes(keys, needs_shift, k).contains(c) ==> (needs_shift && c
                == map.shift()->0) || exists|i: int|
                0 <= i < k && (map.found(key_symbol(#[trigger] keys[i]))->0).0 == c,
    decreases k,
{
    if k > 0 {
        law_chord_holds_its_keys(map, keys, needs_shift, k - 1);
        let prior = map.chord_codes(keys, needs_shift, k - 1);
        let now = map.chord_codes(keys, needs_shift, k);
        let (code, shifted) = map.found(key_symbol(keys[k - 1]))->0;
        let held = if shifted && needs_shift {
            with_code(prior, map.shift()->0)
        } else {
            prior
        };
        if shifted && needs_shift {
            lemma_with_code(prior, map.shift()->0);
        }
        lemma_with_code(held, code);
        assert forall|i: int| 0 <= i < k implies now.contains(
            (map.found(key_symbol(#[trigger] keys[i]))->0).0,
        ) by {
            if i < k - 1 {
                assert(prior.contains((map.found(key_symbol(keys[i]))->0).0));
                assert(held.contains((map.found(key_symbol(keys[i]))->0).0));
            }
        }
        assert forall|i: int|
            0 <= i < k && needs_shift && (map.found(key_symbol(#[trigger] keys[i]))->0).1 implies now.contains(
            map.shift()->0,
        ) by {
            if i < k - 1 {
                assert(prior.contains(map.shift()->0));
            }
            assert(held.contains(map.shift()->0));
        }
        assert forall|c: u8| #[trigger] now.contains(c) implies (needs_shift && c
            == map.shift()->0) || exists|i: int|
            0 <= i < k && (map.found(key_symbol(#[trigger] keys[i]))->0).0 == c by {
            if c == code {
                assert((map.found(key_symbol(keys[k - 1]))->0).0 == c);
            } else if held.contains(c) && prior.contains(c) {
                if !(needs_shift && c == map.shift()->0) {
                    let i = choose|i: int|
                        0 <= i < k - 1 && (map.found(key_symbol(#[trigger] keys[i]))->0).0 == c;
                    assert((map.found(key_symbol(keys[i]))->0).0 == c);
                }
            }
        }
    }
}

proof fn lemma_with_code(codes: Seq<u8>, code: u8)
    requires
        codes.no_duplicates(),
    ensures
        with_code(codes, code).no_duplicates(),
        with_code(codes, code).contains(code),
        codes.len() <= with_code(codes, code).len(),
        forall|i: int| 0 <= i < codes.len() ==> #[trigger] with_code(codes, code)[i] == codes[i],
        forall|c: u8|
            #[trigger] with_code(codes, code).contains(c) <==> codes.contains(c) || c == code,
{
    let now = with_code(codes, code);
    if !codes.contains(code) {
        assert(now[codes.len() as int] == code);
        assert forall|c: u8| #[trigger] now.contains(c) <==> codes.contains(c) || c == code by {
            if codes.contains(c) {
                let i = choose|i: int| 0 <= i < codes.len() && codes[i] == c;
                assert(now[i] == c);
            }
        }
    }
}

/// The symbols of the function keys are numbered on, and those of the keys that
/// move the cursor too: home, left, up, right, down, page up, page down, end.
pub proof fn law_named_keys_are_numbered_on(k: u32)
    ensures
        ({
            let keys = seq![
                KeyName::F1, KeyName::F2, KeyName::F3, KeyName::F4, KeyName::F5, KeyName::F6,
                KeyName::F7, KeyName::F8, KeyName::F9, KeyName::F10, KeyName::F11, KeyName::F12,
                KeyName::F13, KeyName::F14, KeyName::F15, KeyName::F16, KeyName::F17, KeyName::F18,
                KeyName::F19, KeyName::F20, KeyName::F21, KeyName::F22, KeyName::F23, KeyName::F24
            ];
            k < 24 ==> key_symbol(keys[k as int]) == 0xffbe + k
        }),
        ({
            let keys = seq![
                KeyName::Home, KeyName::Left, KeyName::Up, KeyName::Right, KeyName::Down,
                KeyName::PageUp, KeyName::PageDown, KeyName::End
            ];
            k < 8 ==> key_symbol(keys[k as int]) == 0xff50 + k
        }),
{
}

/// The bit of each further modifier is twice that of the one before.
pub proof fn law_modifier_bits_double(index: int)
    requires
        0 <= index < 7,
    ensures
        modifier_bit(0) == 1,
        modifier_bit(index + 1) == 2 * modifier_bit(index),
{
}

} // verus!
