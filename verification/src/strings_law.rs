//! What the text helpers give, told by what stands in the text.

use vstd::prelude::*;

use crate::bytes::{le16, le32, le64, u16_at, u32_at, u64_at};
use crate::strings::{
    contains_text, digit, digits_value, hex, hex_padded, ink_end, next_sep, number, parts_from,
    stands_at, trim_end, trim_start, trimmed, words_from,
};
use crate::unicode::{ascii_lower, ascii_upper, utf16_len, whitespace};

verus! {

proof fn lemma_next_sep(text: Seq<char>, seps: Seq<char>, i: int, p: int)
    requires
        0 <= i <= p <= text.len(),
        forall|k: int| i <= k < p ==> !seps.contains(#[trigger] text[k]),
        p < text.len() ==> seps.contains(text[p]),
    ensures
        next_sep(text, seps, i) == p,
    decreases p - i,
{
    if i < p {
        assert(!seps.contains(text[i]));
        lemma_next_sep(text, seps, i + 1, p);
    }
}

/// Splitting cuts at every separator: what stands before the first is the first
/// part, empty or not, and the others are those of the text behind it; a text
/// without a separator is its only part.
pub proof fn law_parts_end_at_the_separators(text: Seq<char>, seps: Seq<char>, i: int, p: int)
    requires
        0 <= i <= p <= text.len(),
        forall|k: int| i <= k < p ==> !seps.contains(#[trigger] text[k]),
        p < text.len() ==> seps.contains(text[p]),
    ensures
        p < text.len() ==> parts_from(text, seps, i) == seq![text.subrange(i, p)] + parts_from(
            text,
            seps,
            p + 1,
        ),
        p == text.len() ==> parts_from(text, seps, i) == seq![text.subrange(i, p)],
{
    lemma_next_sep(text, seps, i, p);
}

proof fn lemma_trim_start(text: Seq<char>, i: int, a: int)
    requires
        0 <= i <= a <= text.len(),
        forall|k: int| i <= k < a ==> whitespace(#[trigger] text[k]),
        a < text.len() ==> !whitespace(text[a]),
    ensures
        trim_start(text, i) == a,
    decreases a - i,
{
    if i < a {
        assert(whitespace(text[i]));
        lemma_trim_start(text, i + 1, a);
    }
}

proof fn lemma_trim_end(text: Seq<char>, low: int, i: int, b: int)
    requires
        0 <= low <= b <= i <= text.len(),
        forall|k: int| b <= k < i ==> whitespace(#[trigger] text[k]),
        low < b ==> !whitespace(text[b - 1]),
    ensures
        trim_end(text, low, i) == b,
    decreases i - b,
{
    if b < i {
        assert(whitespace(text[i - 1]));
        lemma_trim_end(text, low, i - 1, b);
    }
}

/// Trimming drops the white space at both ends and nothing else.
pub proof fn law_trimming_drops_outer_white_space(text: Seq<char>, a: int, b: int)
    requires
        0 <= a < b <= text.len(),
        forall|k: int| 0 <= k < a ==> whitespace(#[trigger] text[k]),
        forall|k: int| b <= k < text.len() ==> whitespace(#[trigger] text[k]),
        !whitespace(text[a]),
        !whitespace(text[b - 1]),
    ensures
        trimmed(text) == text.subrange(a, b),
{
    lemma_trim_start(text, 0, a);
    lemma_trim_end(text, a, text.len() as int, b);
}

/// Nothing is left of white space alone.
pub proof fn law_white_space_is_trimmed_away(text: Seq<char>)
    requires
        forall|k: int| 0 <= k < text.len() ==> whitespace(#[trigger] text[k]),
    ensures
        trimmed(text).len() == 0,
{
    let n = text.len() as int;
    lemma_trim_start(text, 0, n);
    lemma_trim_end(text, n, n, n);
}

proof fn lemma_ink_end(text: Seq<char>, i: int, e: int)
    requires
        0 <= i <= e <= text.len(),
        forall|k: int| i <= k < e ==> !whitespace(#[trigger] text[k]),
        e < text.len() ==> whitespace(text[e]),
    ensures
        ink_end(text, i) == e,
    decreases e - i,
{
    if i < e {
        assert(!whitespace(text[i]));
        lemma_ink_end(text, i + 1, e);
    }
}

/// The words are the longest runs without white space, in order.
pub proof fn law_words_are_runs_of_ink(text: Seq<char>, i: int, s: int, e: int)
    requires
        0 <= i <= s <= e <= text.len(),
        forall|k: int| i <= k < s ==> whitespace(#[trigger] text[k]),
        forall|k: int| s <= k < e ==> !whitespace(#[trigger] text[k]),
        e < text.len() ==> whitespace(text[e]),
        s < e || s == text.len(),
    ensures
        s < e ==> words_from(text, i) == seq![text.subrange(s, e)] + words_from(text, e),
        s == text.len() ==> words_from(text, i) == Seq::<Seq<char>>::empty(),
{
    lemma_trim_start(text, i, s);
    if s < e {
        lemma_ink_end(text, s, e);
    }
}

/// A text contains what it is made of.
pub proof fn law_a_text_contains_its_parts(before: Seq<char>, part: Seq<char>, after: Seq<char>)
    ensures
        contains_text(before + part + after, part),
        part.len() > (before + after).len() ==> !contains_text(before + after, part),
{
    let text = before + part + after;
    let at = before.len() as int;
    assert(text.subrange(at, at + part.len()) =~= part);
    assert(stands_at(text, part, at));
}

/// Letters count as digits whatever their case, each one more than the one
/// before, from ten on, and a digit is below the radix.
pub proof fn law_digits_are_below_the_radix(c: char, radix: int)
    requires
        2 <= radix <= 36,
    ensures
        digit(c, radix) == digit(ascii_lower(c), radix),
        digit(c, radix) is Some ==> 0 <= digit(c, radix)->0 < radix,
        '0' <= c <= '9' && c as int - 48 < radix ==> digit(c, radix) == Some(c as int - 48),
        'a' <= c <= 'z' && c as int - 87 < radix ==> digit(c, radix) == Some(c as int - 87),
        !('0' <= c <= '9') && !('a' <= ascii_lower(c) <= 'z') ==> digit(c, radix) is None,
{
    if 'A' <= c <= 'Z' {
        assert(ascii_lower(c) as u32 == c as u32 + 32);
    }
}

/// A number read is the value of its digits, read from the left; one plus sign
/// may stand before them; no digits, anything else and a value above the limit
/// are no number.
pub proof fn law_numbers_are_read_by_digits(head: Seq<char>, c: char, radix: int, max: int)
    requires
        head.len() == 0 || head[0] != '+',
        c != '+',
        2 <= radix <= 36,
        0 <= max,
    ensures
        number(Seq::empty(), radix, max) is None,
        number(seq!['+'], radix, max) is None,
        digit(c, radix) is None ==> number(head.push(c), radix, max) is None,
        digits_value(head, radix) is None ==> number(head.push(c), radix, max) is None,
        digits_value(head, radix) matches Some(h) ==> (digit(c, radix) matches Some(d) ==> number(
            head.push(c),
            radix,
            max,
        ) == (if h * radix + d <= max {
            Some(h * radix + d)
        } else {
            None
        })),
        number(seq!['+'] + head.push(c), radix, max) == number(head.push(c), radix, max),
{
    let text = head.push(c);
    assert(text.drop_last() =~= head);
    assert(text[0] != '+');
    assert((seq!['+'] + text).skip(1) =~= text);
    assert(seq!['+'].skip(1) =~= Seq::<char>::empty());
}

/// Padding only ever adds zeros in front, up to the width.
pub proof fn law_padding_fills_the_width(n: int, width: int)
    requires
        0 <= width,
    ensures
        hex(n).len() >= width ==> hex_padded(n, width) == hex(n),
        hex(n).len() < width ==> {
            let padded = hex_padded(n, width);
            &&& padded.len() == width
            &&& padded.skip(width - hex(n).len()) == hex(n)
            &&& forall|i: int| 0 <= i < width - hex(n).len() ==> #[trigger] padded[i] == '0'
        },
{
    if hex(n).len() < width {
        assert(hex_padded(n, width).skip(width - hex(n).len()) =~= hex(n));
    }
}

proof fn lemma_le32(b: u32)
    ensures
        le32(b).len() == 4,
        le32(b)[0] + 256 * le32(b)[1] + 65536 * le32(b)[2] + 16777216 * le32(b)[3] == b,
        le32(b)[0] == b % 256,
{
}

/// A number of two bytes reads back from them, wherever they stand, the lower
/// first.
pub proof fn law_short_numbers_read_back(before: Seq<u8>, after: Seq<u8>, a: u16)
    ensures
        le16(a).len() == 2,
        le16(a)[0] == a % 256,
        u16_at(before + le16(a) + after, before.len() as int) == a,
{
    let all = before + le16(a) + after;
    let n = before.len() as int;
    assert(all[n] == le16(a)[0]);
    assert(all[n + 1] == le16(a)[1]);
}

/// A number of four bytes reads back from them, wherever they stand, the lowest
/// first.
pub proof fn law_numbers_read_back(before: Seq<u8>, after: Seq<u8>, b: u32)
    ensures
        le32(b).len() == 4,
        le32(b)[0] == b % 256,
        u32_at(before + le32(b) + after, before.len() as int) == b,
{
    lemma_le32(b);
    let all = before + le32(b) + after;
    let n = before.len() as int;
    assert(all[n] == le32(b)[0]);
    assert(all[n + 1] == le32(b)[1]);
    assert(all[n + 2] == le32(b)[2]);
    assert(all[n + 3] == le32(b)[3]);
}

/// A number of eight bytes reads back from them, wherever they stand, the
/// lowest first.
pub proof fn law_long_numbers_read_back(before: Seq<u8>, after: Seq<u8>, c: u64)
    ensures
        le64(c).len() == 8,
        le64(c)[0] == c % 256,
        u64_at(before + le64(c) + after, before.len() as int) == c,
{
    let low = (c % 0x1_0000_0000) as u32;
    let high = (c / 0x1_0000_0000) as u32;
    let all = before + le64(c) + after;
    law_numbers_read_back(before, le32(high) + after, low);
    law_numbers_read_back(before + le32(low), after, high);
    assert(before + le32(low) + (le32(high) + after) =~= all);
    assert(before + le32(low) + le32(high) + after =~= all);
    assert(le64(c)[0] == le32(low)[0]);
    assert(low % 256 == c % 256);
}

/// Folding case turns the capitals into the small letters and nothing else, and
/// raising it again gives them back.
pub proof fn law_case_is_folded_and_raised(c: char)
    ensures
        ascii_lower('A') == 'a',
        ascii_lower('Z') == 'z',
        ascii_upper('a') == 'A',
        ascii_upper('z') == 'Z',
        'A' <= c <= 'Z' ==> 'a' <= ascii_lower(c) <= 'z' && ascii_upper(ascii_lower(c)) == c,
        'a' <= c <= 'z' ==> 'A' <= ascii_upper(c) <= 'Z' && ascii_lower(ascii_upper(c)) == c,
        !('A' <= c <= 'Z') ==> ascii_lower(c) == c,
        !('a' <= c <= 'z') ==> ascii_upper(c) == c,
{
}

/// A text has one unit for each character, and one more for each beyond the
/// basic plane.
pub proof fn law_units_count_the_characters(text: Seq<char>, c: char)
    ensures
        utf16_len(Seq::empty()) == 0,
        c <= '\u{FFFF}' ==> utf16_len(text.push(c)) == utf16_len(text) + 1,
        c > '\u{FFFF}' ==> utf16_len(text.push(c)) == utf16_len(text) + 2,
{
    assert(text.push(c).drop_last() =~= text);
}

} // verus!
