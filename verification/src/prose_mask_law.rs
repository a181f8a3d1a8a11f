//! What of a text is not prose, said of the text as a whole.

use crate::prose::{
    backtick_close, fence_mask, fence_opening, filled, info_has_backtick, ink_start, inked_units,
    inline_mask, js_space, lemma_backtick_close, lemma_line_end, lemma_marker_end,
    lemma_matching_close, lemma_name_tail_end, lemma_run_end, lemma_tag_region,
    lemma_unmasked_without_opener, line_end, line_spans, marker_end, mask_of, name_end_at,
    name_tail_end, no_opener, prose_units, run_end, slash_command, tag_close, tag_region_end,
    typed_shape,
};
use crate::prose_law::{is_line, lemma_ink_start, lemma_lines};
use crate::unicode::utf16_len;
use vstd::prelude::*;

verus! {

/// A text without a backtick, a `<` and three tildes in a row is prose all over.
pub proof fn law_text_without_marks_is_prose(text: Seq<char>, k: int)
    requires
        0 <= k < text.len(),
        forall|i: int| 0 <= i < text.len() ==> #[trigger] text[i] != '`' && text[i] != '<',
        forall|i: int|
            0 <= i && i + 2 < text.len() ==> !(#[trigger] text[i] == '~' && text[i + 1] == '~'
                && text[i + 2] == '~'),
    ensures
        !mask_of(text)[k],
{
    assert(no_opener(text));
    lemma_unmasked_without_opener(text);
}

// ---------------------------------------------------------------------------
// Fenced code
// ---------------------------------------------------------------------------
/// Three fence characters stand in a row at `k`.
pub open spec fn three_marks(text: Seq<char>, k: int) -> bool {
    &&& 0 <= k
    &&& k + 2 < text.len()
    &&& text[k] == '`' || text[k] == '~'
    &&& text[k + 1] == '`' || text[k + 1] == '~'
    &&& text[k + 2] == '`' || text[k + 2] == '~'
}

/// The line from `s` up to `e` opens fenced code: at most three spaces, then
/// three or more of one fence character, and, behind backticks, no backtick on
/// the rest of the line.
pub open spec fn opens_fence(text: Seq<char>, s: int, e: int, i: int, n: int) -> bool {
    &&& is_line(text, s, e)
    &&& 0 <= i <= 3
    &&& n >= 3
    &&& s + i + n <= e
    &&& forall|k: int| s <= k < s + i ==> #[trigger] text[k] == ' '
    &&& text[s + i] == '`' || text[s + i] == '~'
    &&& forall|k: int| s + i <= k < s + i + n ==> #[trigger] text[k] == text[s + i]
    &&& forall|k: int| s + i + n <= k < e ==> #[trigger] text[k] != '`'
    &&& s + i + n < e ==> text[s + i + n] != '~'
}

/// The mask only grows.
spec fn covers(a: Seq<bool>, b: Seq<bool>) -> bool {
    a.len() == b.len() && forall|k: int| 0 <= k < a.len() && #[trigger] a[k] ==> b[k]
}

proof fn lemma_filled_covers(mask: Seq<bool>, a: int, b: int, more: Seq<bool>)
    requires
        covers(filled(mask, a, b), more),
    ensures
        covers(mask, more),
{
    let hidden = filled(mask, a, b);
    assert forall|k: int| 0 <= k < mask.len() && #[trigger] mask[k] implies more[k] by {
        assert(hidden[k]);
    }
}

proof fn lemma_fence_grows(text: Seq<char>, start: int, fence: Option<(char, int)>, mask: Seq<bool>)
    requires
        0 <= start <= text.len(),
    ensures
        covers(mask, fence_mask(text, start, fence, mask)),
    decreases text.len() - start,
{
    lemma_line_end(text, start);
    let nl = line_end(text, start);
    let hidden = filled(mask, start, nl);
    let now = fence_mask(text, start, fence, mask);
    assert(covers(hidden, hidden));
    lemma_filled_covers(mask, start, nl, hidden);
    if nl < text.len() {
        let line = text.subrange(start, nl);
        match (fence, fence_opening(line)) {
            (Some((c, len)), Some((indent, marker))) => {
                lemma_fence_grows(text, nl + 1, fence, hidden);
                lemma_fence_grows(text, nl + 1, None, hidden);
            },
            (Some(_), None) => {
                lemma_fence_grows(text, nl + 1, fence, hidden);
            },
            (None, Some((indent, marker))) => {
                lemma_fence_grows(text, nl + 1, None, mask);
                lemma_fence_grows(text, nl + 1, Some((line[indent], marker)), hidden);
            },
            (None, None) => {
                lemma_fence_grows(text, nl + 1, None, mask);
            },
        }
        if covers(hidden, now) {
            lemma_filled_covers(mask, start, nl, now);
        }
    }
}

proof fn lemma_inline_grows(text: Seq<char>, i: int, mask: Seq<bool>)
    requires
        0 <= i,
    ensures
        covers(mask, inline_mask(text, i, mask)),
    decreases text.len() - i,
{
    if i < text.len() {
        if mask[i] {
            lemma_inline_grows(text, i + 1, mask);
        } else if text[i] == '`' {
            lemma_run_end(text, i, '`');
            let end = run_end(text, i, '`');
            lemma_backtick_close(text, end, end - i, mask);
            match backtick_close(text, end, end - i, mask) {
                Some(close) => {
                    lemma_inline_grows(text, close, filled(mask, i, close));
                    lemma_filled_covers(mask, i, close, inline_mask(text, i, mask));
                },
                None => {
                    lemma_inline_grows(text, end, mask);
                },
            }
        } else if text[i] == '<' {
            lemma_tag_region(text, i, mask);
            let end = tag_region_end(text, i, mask);
            if end > i {
                lemma_inline_grows(text, end, filled(mask, i, end));
                lemma_filled_covers(mask, i, end, inline_mask(text, i, mask));
            } else {
                lemma_inline_grows(text, i + 1, mask);
            }
        } else {
            lemma_inline_grows(text, i + 1, mask);
        }
    }
}

/// A line without three fence characters in a row opens and closes nothing.
proof fn lemma_quiet_line(text: Seq<char>, start: int, nl: int)
    requires
        0 <= start <= nl <= text.len(),
        forall|k: int| start <= k && k + 2 < nl ==> !#[trigger] three_marks(text, k),
    ensures
        fence_opening(text.subrange(start, nl)) is None,
{
    let line = text.subrange(start, nl);
    lemma_run_end(line, 0, ' ');
    let indent = run_end(line, 0, ' ');
    lemma_marker_end(line, indent);
    if marker_end(line, indent) - indent >= 3 {
        assert(line[indent] == text[start + indent]);
        assert(line[indent + 1] == text[start + indent + 1]);
        assert(line[indent + 2] == text[start + indent + 2]);
        assert(three_marks(text, start + indent));
    }
}

proof fn lemma_quiet_before(text: Seq<char>, start: int, s: int, mask: Seq<bool>)
    requires
        0 <= start <= s <= text.len(),
        s > 0 ==> text[s - 1] == '\n',
        forall|k: int| 0 <= k && k + 2 < s ==> !#[trigger] three_marks(text, k),
    ensures
        fence_mask(text, start, None, mask) == fence_mask(text, s, None, mask),
    decreases s - start,
{
    if start < s {
        lemma_line_end(text, start);
        let nl = line_end(text, start);
        assert(nl < s);
        lemma_quiet_line(text, start, nl);
        lemma_quiet_before(text, nl + 1, s, mask);
    }
}

proof fn lemma_hidden_behind(text: Seq<char>, t: int, fence: (char, int), mask: Seq<bool>, p: int, q: int)
    requires
        0 <= t <= p < q <= text.len(),
        mask.len() == text.len(),
        forall|k: int| p <= k < q ==> text[k] != '\n',
        forall|k: int| t <= k && k + 2 < q ==> !#[trigger] three_marks(text, k),
        q == text.len() || text[q] == '\n',
    ensures
        fence_mask(text, t, Some(fence), mask)[p],
    decreases p - t,
{
    lemma_line_end(text, t);
    let nl = line_end(text, t);
    let hidden = filled(mask, t, nl);
    assert(nl <= q) by {
        if q < nl {
            assert(text[q] != '\n');
        }
    }
    lemma_quiet_line(text, t, nl);
    if p < nl {
        assert(hidden[p]);
        if nl < text.len() {
            lemma_fence_grows(text, nl + 1, Some(fence), hidden);
        }
    } else {
        assert(nl < p) by {
            if nl == p {
                assert(text[p] == '\n');
            }
        }
        lemma_hidden_behind(text, nl + 1, fence, hidden, p, q);
    }
}

proof fn lemma_opening(text: Seq<char>, s: int, e: int, i: int, n: int)
    requires
        opens_fence(text, s, e, i, n),
    ensures
        ({
            let line = text.subrange(s, e);
            &&& line_end(text, s) == e
            &&& fence_opening(line) == Some((i, n))
            &&& line[i] == text[s + i]
            &&& !(line[i] == '`' && info_has_backtick(line, i + n))
        }),
{
    let line = text.subrange(s, e);
    lemma_line_end(text, s);
    let nl = line_end(text, s);
    if nl < e {
        assert(text[nl] == '\n');
    } else if e < nl {
        assert(text[e] == '\n');
    }
    lemma_run_is(line, 0, ' ', i);
    lemma_marker_is(line, i, i + n);
    if info_has_backtick(line, i + n) {
        let k = choose|k: int| i + n <= k < line.len() && line[k] == '`';
        assert(text[s + k] == line[k]);
    }
}

proof fn lemma_run_is(line: Seq<char>, a: int, c: char, b: int)
    requires
        0 <= a <= b <= line.len(),
        forall|k: int| a <= k < b ==> #[trigger] line[k] == c,
        b < line.len() ==> line[b] != c,
    ensures
        run_end(line, a, c) == b,
    decreases b - a,
{
    if a < b {
        assert(line[a] == c);
        lemma_run_is(line, a + 1, c, b);
    }
}

proof fn lemma_marker_is(line: Seq<char>, a: int, b: int)
    requires
        0 <= a <= b <= line.len(),
        forall|k: int| a <= k < b ==> #[trigger] line[k] == '`' || line[k] == '~',
        b < line.len() ==> line[b] != '`' && line[b] != '~',
    ensures
        marker_end(line, a) == b,
    decreases b - a,
{
    if a < b {
        assert(line[a] == '`' || line[a] == '~');
        lemma_marker_is(line, a + 1, b);
    }
}

/// Fenced code is no prose: where the first line with three fence characters in
/// a row opens a fence, the line and everything behind it is hidden, up to the
/// next line with three fence characters in a row.
pub proof fn law_fenced_code_is_hidden(text: Seq<char>, s: int, e: int, i: int, n: int, p: int, q: int)
    requires
        opens_fence(text, s, e, i, n),
        forall|k: int| 0 <= k && k + 2 < s ==> !#[trigger] three_marks(text, k),
        s <= p < q <= text.len(),
        forall|k: int| p <= k < q ==> text[k] != '\n',
        q == text.len() || text[q] == '\n',
        forall|k: int| e <= k && k + 2 < q ==> !#[trigger] three_marks(text, k),
    ensures
        mask_of(text)[p],
{
    let none = Seq::new(text.len(), |k: int| false);
    lemma_quiet_before(text, 0, s, none);
    lemma_opening(text, s, e, i, n);
    let hidden = filled(none, s, e);
    let fence = (text[s + i], n);
    let fenced = fence_mask(text, 0, None, none);
    lemma_fence_grows(text, 0, None, none);
    if p < e {
        assert(hidden[p]);
        if e < text.len() {
            lemma_fence_grows(text, e + 1, Some(fence), hidden);
        }
        assert(fenced[p]);
    } else {
        assert(e < p) by {
            if e == p {
                assert(text[e] == '\n');
            }
        }
        lemma_hidden_behind(text, e + 1, fence, hidden, p, q);
        assert(fenced[p]);
    }
    lemma_inline_grows(text, 0, fenced);
    assert(fenced[p]);
}

// ---------------------------------------------------------------------------
// Inline code and tags
// ---------------------------------------------------------------------------
proof fn lemma_no_fences(text: Seq<char>)
    requires
        forall|k: int| 0 <= k ==> !#[trigger] three_marks(text, k),
    ensures
        fence_mask(text, 0, None, Seq::new(text.len(), |k: int| false)) == Seq::new(
            text.len(),
            |k: int| false,
        ),
{
    lemma_all_quiet(text, 0, Seq::new(text.len(), |k: int| false));
}

proof fn lemma_all_quiet(text: Seq<char>, start: int, mask: Seq<bool>)
    requires
        0 <= start <= text.len(),
        forall|k: int| 0 <= k ==> !#[trigger] three_marks(text, k),
    ensures
        fence_mask(text, start, None, mask) == mask,
    decreases text.len() - start,
{
    lemma_line_end(text, start);
    let nl = line_end(text, start);
    lemma_quiet_line(text, start, nl);
    if nl < text.len() {
        lemma_all_quiet(text, nl + 1, mask);
    }
}

proof fn lemma_inline_skips(text: Seq<char>, a: int, b: int, mask: Seq<bool>)
    requires
        0 <= a <= b <= text.len(),
        mask.len() == text.len(),
        forall|k: int| a <= k < b ==> #[trigger] text[k] != '`' && text[k] != '<',
    ensures
        inline_mask(text, a, mask) == inline_mask(text, b, mask),
    decreases b - a,
{
    if a < b {
        assert(text[a] != '`' && text[a] != '<');
        lemma_inline_skips(text, a + 1, b, mask);
    }
}

/// What is before the point that a mask starts from stays as it is.
proof fn lemma_inline_keeps(text: Seq<char>, i: int, mask: Seq<bool>, p: int)
    requires
        0 <= p < i,
        p < mask.len(),
        mask.len() == text.len(),
    ensures
        inline_mask(text, i, mask)[p] == mask[p],
    decreases text.len() - i,
{
    if i < text.len() {
        if mask[i] {
            lemma_inline_keeps(text, i + 1, mask, p);
        } else if text[i] == '`' {
            lemma_run_end(text, i, '`');
            let end = run_end(text, i, '`');
            lemma_backtick_close(text, end, end - i, mask);
            match backtick_close(text, end, end - i, mask) {
                Some(close) => {
                    lemma_inline_keeps(text, close, filled(mask, i, close), p);
                },
                None => {
                    lemma_inline_keeps(text, end, mask, p);
                },
            }
        } else if text[i] == '<' {
            lemma_tag_region(text, i, mask);
            let end = tag_region_end(text, i, mask);
            if end > i {
                lemma_inline_keeps(text, end, filled(mask, i, end), p);
            } else {
                lemma_inline_keeps(text, i + 1, mask, p);
            }
        } else {
            lemma_inline_keeps(text, i + 1, mask, p);
        }
    }
}

proof fn lemma_close_is(text: Seq<char>, k: int, j: int, r: int, mask: Seq<bool>)
    requires
        0 <= k <= j,
        r > 0,
        j + r <= text.len(),
        mask.len() == text.len(),
        forall|q: int| k <= q < j ==> #[trigger] text[q] != '`',
        forall|q: int| j <= q < j + r ==> #[trigger] text[q] == '`',
        j + r < text.len() ==> text[j + r] != '`',
        forall|q: int| 0 <= q < mask.len() ==> !#[trigger] mask[q],
    ensures
        backtick_close(text, k, r, mask) == Some(j + r),
    decreases j - k,
{
    if k < j {
        assert(text[k] != '`');
        assert(!mask[k]);
        lemma_close_is(text, k + 1, j, r, mask);
    } else {
        assert(!mask[k]);
        lemma_run_is(text, j, '`', j + r);
    }
}

/// Inline code is no prose: where the first mark of a text is a run of backticks
/// and the next backticks are a run of the same length, everything from the
/// first run to the end of the second is hidden, and nothing before it.
pub proof fn law_inline_code_is_hidden(text: Seq<char>, i: int, r: int, j: int, p: int)
    requires
        forall|k: int| 0 <= k ==> !#[trigger] three_marks(text, k),
        0 <= i < i + r <= j < j + r <= text.len(),
        forall|k: int| 0 <= k < i ==> #[trigger] text[k] != '`' && text[k] != '<',
        forall|k: int| i <= k < i + r || j <= k < j + r ==> #[trigger] text[k] == '`',
        forall|k: int| i + r <= k < j ==> #[trigger] text[k] != '`',
        i + r < j,
        j + r < text.len() ==> text[j + r] != '`',
        0 <= p < j + r,
    ensures
        mask_of(text)[p] == (i <= p),
{
    let none = Seq::new(text.len(), |k: int| false);
    lemma_no_fences(text);
    lemma_inline_skips(text, 0, i, none);
    lemma_run_is(text, i, '`', i + r);
    lemma_close_is(text, i + r, j, r, none);
    let hidden = filled(none, i, j + r);
    assert(text[i] == '`');
    assert(mask_of(text) == inline_mask(text, j + r, hidden));
    lemma_inline_keeps(text, j + r, hidden, p);
}

/// A single mark that no other mark follows hides nothing.
pub proof fn law_a_lone_backtick_hides_nothing(text: Seq<char>, i: int, p: int)
    requires
        0 <= i < text.len(),
        text[i] == '`',
        forall|k: int| 0 <= k < text.len() && k != i ==> #[trigger] text[k] != '`' && text[k] != '<'
            && text[k] != '~',
        0 <= p < text.len(),
    ensures
        !mask_of(text)[p],
{
    let none = Seq::new(text.len(), |k: int| false);
    assert forall|k: int| 0 <= k implies !#[trigger] three_marks(text, k) by {
        if three_marks(text, k) {
            if k == i {
                assert(text[k + 1] != '`');
            }
        }
    }
    lemma_no_fences(text);
    lemma_inline_skips(text, 0, i, none);
    lemma_run_is(text, i, '`', i + 1);
    lemma_no_close(text, i + 1, none);
    lemma_inline_skips(text, i + 1, text.len() as int, none);
}

proof fn lemma_no_close(text: Seq<char>, k: int, mask: Seq<bool>)
    requires
        0 <= k <= text.len(),
        forall|q: int| k <= q < text.len() ==> #[trigger] text[q] != '`',
    ensures
        backtick_close(text, k, 1, mask) is None,
    decreases text.len() - k,
{
    if k < text.len() {
        assert(text[k] != '`');
        lemma_no_close(text, k + 1, mask);
    }
}

proof fn lemma_tag_close_is(text: Seq<char>, k: int, g: int)
    requires
        0 <= k <= g < text.len(),
        text[g] == '>',
        forall|q: int|
            k <= q < g ==> #[trigger] text[q] != '>' && text[q] != '<' && text[q] != '"' && text[q]
                != '\'',
    ensures
        tag_close(text, k, None) == Some(g),
    decreases g - k,
{
    if k < g {
        assert(text[k] != '>');
        lemma_tag_close_is(text, k + 1, g);
    }
}

/// A tag is no prose: where the first mark of a text is a `<` before a letter,
/// the text is hidden from there at least to the `>` that ends the tag, and not
/// before.
pub proof fn law_tags_are_hidden(text: Seq<char>, i: int, g: int, p: int)
    requires
        forall|k: int| 0 <= k ==> !#[trigger] three_marks(text, k),
        0 <= i,
        i + 1 < g < text.len(),
        forall|k: int| 0 <= k < i ==> #[trigger] text[k] != '`' && text[k] != '<',
        text[i] == '<',
        'a' <= text[i + 1] <= 'z' || 'A' <= text[i + 1] <= 'Z',
        text[g] == '>',
        forall|k: int|
            i < k < g ==> #[trigger] text[k] != '>' && text[k] != '<' && text[k] != '"' && text[k]
                != '\'',
        0 <= p <= g,
    ensures
        mask_of(text)[p] == (i <= p),
{
    let none = Seq::new(text.len(), |k: int| false);
    lemma_no_fences(text);
    lemma_inline_skips(text, 0, i, none);
    let name_end = name_tail_end(text, i + 2);
    lemma_name_tail_end(text, i + 2);
    lemma_name_stops(text, i + 2, g);
    lemma_tag_close_is(text, name_end, g);
    lemma_tag_region(text, i, none);
    assert(name_end_at(text, i + 1) == Some(name_end));
    let end = tag_region_end(text, i, none);
    lemma_matching_close(text, g + 1, text.subrange(i + 1, name_end), none, 1);
    assert(end > g);
    let hidden = filled(none, i, end);
    assert(mask_of(text) == inline_mask(text, end, hidden));
    lemma_inline_keeps(text, end, hidden, p);
}

proof fn lemma_name_stops(text: Seq<char>, k: int, g: int)
    requires
        0 <= k <= g < text.len(),
        text[g] == '>',
    ensures
        name_tail_end(text, k) <= g,
    decreases g - k,
{
    if k < g {
        lemma_name_stops(text, k + 1, g);
    }
}

// ---------------------------------------------------------------------------
// Typed or pasted
// ---------------------------------------------------------------------------
/// How many line ends a text has.
pub open spec fn newlines(text: Seq<char>, from: int) -> int
    decreases text.len() - from,
{
    if from < 0 || from >= text.len() {
        0
    } else {
        newlines(text, from + 1) + if text[from] == '\n' {
            1int
        } else {
            0
        }
    }
}

proof fn lemma_newlines_skip(text: Seq<char>, a: int, b: int)
    requires
        0 <= a <= b <= text.len(),
        forall|k: int| a <= k < b ==> #[trigger] text[k] != '\n',
    ensures
        newlines(text, a) == newlines(text, b),
    decreases b - a,
{
    if a < b {
        assert(text[a] != '\n');
        lemma_newlines_skip(text, a + 1, b);
    }
}

proof fn lemma_line_count(text: Seq<char>, from: int)
    requires
        0 <= from <= text.len(),
    ensures
        line_spans(text, from).len() == newlines(text, from) + 1,
    decreases text.len() - from,
{
    lemma_line_end(text, from);
    let nl = line_end(text, from);
    lemma_newlines_skip(text, from, nl);
    if nl < text.len() {
        lemma_line_count(text, nl + 1);
    }
}

/// A prompt looks typed exactly where it has eight units or more and not too
/// many, at most twenty-four line ends, no line of more than six hundred units,
/// no slash behind its leading white space, and at least three fifths of what is
/// not white space are prose.
pub proof fn law_typed_prompts_are_short_prose(prompt: Seq<char>, max: int)
    ensures
        typed_shape(prompt, max) <==> {
            &&& 8 <= utf16_len(prompt) <= max
            &&& newlines(prompt, 0) <= 24
            &&& forall|s: int, e: int|
                #[trigger] is_line(prompt, s, e) ==> utf16_len(prompt.subrange(s, e)) <= 600
            &&& forall|i: int|
                0 <= i < prompt.len() && #[trigger] prompt[i] == '/' ==> exists|j: int|
                    0 <= j < i && !js_space(#[trigger] prompt[j])
            &&& inked_units(prompt) > 0
            &&& 10 * prose_units(prompt, mask_of(prompt)) >= 6 * inked_units(prompt)
        },
{
    let lines = line_spans(prompt, 0);
    lemma_line_count(prompt, 0);
    lemma_lines(prompt, 0);
    lemma_ink_start(prompt, 0);
    let at = ink_start(prompt, 0);
    assert(!js_space('/'));
    assert(!slash_command(prompt) <==> forall|i: int|
        0 <= i < prompt.len() && #[trigger] prompt[i] == '/' ==> exists|j: int|
            0 <= j < i && !js_space(#[trigger] prompt[j])) by {
        if slash_command(prompt) {
            assert(prompt[at] == '/');
        } else {
            assert forall|i: int| 0 <= i < prompt.len() && #[trigger] prompt[i] == '/' implies exists|
                j: int,
            | 0 <= j < i && !js_space(#[trigger] prompt[j]) by {
                assert(at <= i);
                assert(!js_space(prompt[at]));
            }
        }
    }
    if forall|k: int|
        0 <= k < lines.len() ==> {
            let (a, b) = #[trigger] lines[k];
            utf16_len(prompt.subrange(a, b)) <= 600
        } {
        assert forall|s: int, e: int| #[trigger] is_line(prompt, s, e) implies utf16_len(
            prompt.subrange(s, e),
        ) <= 600 by {
            assert(lines.contains((s, e)));
            let k = choose|k: int| 0 <= k < lines.len() && lines[k] == (s, e);
            assert(utf16_len(prompt.subrange(lines[k].0, lines[k].1)) <= 600);
        }
    } else {
        let k = choose|k: int|
            0 <= k < lines.len() && {
                let (a, b) = #[trigger] lines[k];
                utf16_len(prompt.subrange(a, b)) > 600
            };
        assert(is_line(prompt, lines[k].0, lines[k].1));
    }
}

} // verus!
