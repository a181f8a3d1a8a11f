//! What the prose words of a prompt are, said of the prompt as a whole.

use crate::prose::{
    codeish, ink_start, js_space, kept_words, lemma_line_end, lemma_word_edges, line_end,
    line_spans, mask_of, plain_token, prose_word, slash_command,
    spans_from, starts_arrow, survives, token_end, token_start, word_char, word_start, word_stop,
    words_of, words_of_lines, ProseWord,
};
use crate::unicode::{byte_len, lowercase, uppercase, utf16_len};
use vstd::prelude::*;

verus! {

/// The characters from `s` up to `e` are a whole line of `text`.
pub open spec fn is_line(text: Seq<char>, s: int, e: int) -> bool {
    &&& 0 <= s <= e <= text.len()
    &&& forall|i: int| s <= i < e ==> #[trigger] text[i] != '\n'
    &&& s > 0 ==> text[s - 1] == '\n'
    &&& e < text.len() ==> text[e] == '\n'
}

/// The characters from `a` up to `b` are all the letters, marks and
/// apostrophes of `text` around them.
pub open spec fn is_run(text: Seq<char>, a: int, b: int) -> bool {
    &&& 0 <= a < b <= text.len()
    &&& forall|i: int| a <= i < b ==> word_char(#[trigger] text[i])
    &&& a > 0 ==> !word_char(text[a - 1])
    &&& b < text.len() ==> !word_char(text[b])
}

/// No white space parts position `i` from the characters from `a` up to `b`.
pub open spec fn in_token(text: Seq<char>, a: int, b: int, i: int) -> bool {
    &&& 0 <= i < text.len()
    &&& forall|j: int| i <= j < a || b <= j <= i ==> !js_space(#[trigger] text[j])
}

/// None of the characters that only code has.
pub open spec fn prose_char(c: char) -> bool {
    &&& c != '\\'
    &&& c != '/'
    &&& c != '@'
    &&& c != '_'
    &&& c != '='
    &&& c != ':'
    &&& c != '{'
    &&& c != '}'
    &&& c != '['
    &&& c != ']'
    &&& c != '<'
    &&& c != '>'
    &&& !('0' <= c <= '9')
}

/// The white-space-delimited token around the characters from `a` up to `b`
/// holds no character of code, no digit and no capital behind a small letter.
pub open spec fn stands_in_prose(text: Seq<char>, a: int, b: int) -> bool {
    &&& forall|i: int| #[trigger] in_token(text, a, b, i) ==> prose_char(text[i])
    &&& forall|i: int|
        #[trigger] in_token(text, a, b, i) && in_token(text, a, b, i - 1) ==> !(uppercase(text[i])
            && lowercase(text[i - 1]))
}

/// The line from `s` up to `e` is one that words are completed on: at most a
/// thousand units, no command behind leading white space, no arrow.
pub open spec fn is_prose_line(text: Seq<char>, s: int, e: int) -> bool {
    &&& is_line(text, s, e)
    &&& utf16_len(text.subrange(s, e)) <= 1000
    &&& forall|i: int|
        s <= i < e && #[trigger] text[i] == '/' ==> exists|j: int|
            s <= j < i && !js_space(#[trigger] text[j])
    &&& !(e - s >= 2 && (text[s] == '-' || text[s] == '=') && text[s + 1] == '>')
}

/// The characters from `a` up to `b` on the line from `s` up to `e` are a word
/// that can be completed.
pub open spec fn completable(text: Seq<char>, s: int, e: int, a: int, b: int) -> bool {
    &&& is_prose_line(text, s, e)
    &&& s <= a < b <= e
    &&& is_run(text, a, b)
    &&& stands_in_prose(text, a, b)
    &&& survives(text, mask_of(text), a, b)
    &&& survives(text.subrange(s, e), mask_of(text.subrange(s, e)), a - s, b - s)
}

/// The byte range of the characters from `a` up to `b`.
pub open spec fn byte_range(text: Seq<char>, a: int, b: int) -> ProseWord {
    ProseWord {
        start: byte_len(text.take(a)) as usize,
        end: byte_len(text.take(b)) as usize,
    }
}

proof fn lemma_newline_is_space()
    ensures
        js_space('\n'),
        !word_char('\n'),
{
}

proof fn lemma_token_start(line: Seq<char>, a: int)
    requires
        0 <= a <= line.len(),
    ensures
        0 <= token_start(line, a) <= a,
        forall|j: int| token_start(line, a) <= j < a ==> !js_space(#[trigger] line[j]),
        token_start(line, a) > 0 ==> js_space(line[token_start(line, a) - 1]),
    decreases a,
{
    if a > 0 && !js_space(line[a - 1]) {
        lemma_token_start(line, a - 1);
    }
}

proof fn lemma_token_end(line: Seq<char>, b: int)
    requires
        0 <= b <= line.len(),
    ensures
        b <= token_end(line, b) <= line.len(),
        forall|j: int| b <= j < token_end(line, b) ==> !js_space(#[trigger] line[j]),
        token_end(line, b) < line.len() ==> js_space(line[token_end(line, b)]),
    decreases line.len() - b,
{
    if b < line.len() && !js_space(line[b]) {
        lemma_token_end(line, b + 1);
    }
}

/// The token of a line is the token of the text.
proof fn lemma_token(text: Seq<char>, s: int, e: int, a: int, b: int, i: int)
    requires
        is_line(text, s, e),
        s <= a < b <= e,
    ensures
        ({
            let line = text.subrange(s, e);
            in_token(text, a, b, i) <==> s + token_start(line, a - s) <= i < s + token_end(
                line,
                b - s,
            )
        }),
{
    let line = text.subrange(s, e);
    let from = token_start(line, a - s);
    let to = token_end(line, b - s);
    lemma_token_start(line, a - s);
    lemma_token_end(line, b - s);
    lemma_newline_is_space();
    if s + from <= i < s + to {
        assert forall|j: int| i <= j < a || b <= j <= i implies !js_space(#[trigger] text[j]) by {
            assert(text[j] == line[j - s]);
        }
    } else if in_token(text, a, b, i) {
        if i < s + from {
            if from > 0 {
                assert(js_space(line[from - 1]));
                assert(text[s + from - 1] == line[from - 1]);
            } else {
                assert(js_space(text[s - 1]));
            }
        } else {
            if to < line.len() {
                assert(js_space(line[to]));
                assert(text[s + to] == line[to]);
            } else {
                assert(js_space(text[e]));
            }
        }
    }
}

proof fn lemma_plain(text: Seq<char>, s: int, e: int, a: int, b: int)
    requires
        is_line(text, s, e),
        s <= a < b <= e,
    ensures
        ({
            let line = text.subrange(s, e);
            stands_in_prose(text, a, b) <==> plain_token(
                line,
                token_start(line, a - s),
                token_end(line, b - s),
            )
        }),
{
    let line = text.subrange(s, e);
    let from = token_start(line, a - s);
    let to = token_end(line, b - s);
    lemma_token_start(line, a - s);
    lemma_token_end(line, b - s);
    assert forall|i: int| #[trigger] in_token(text, a, b, i) <==> s + from <= i < s + to by {
        lemma_token(text, s, e, a, b, i);
    }
    if plain_token(line, from, to) {
        assert forall|i: int| #[trigger] in_token(text, a, b, i) implies prose_char(text[i]) by {
            assert(text[i] == line[i - s]);
        }
        assert forall|i: int|
            #[trigger] in_token(text, a, b, i) && in_token(text, a, b, i - 1) implies !(uppercase(
            text[i],
        ) && lowercase(text[i - 1])) by {
            assert(text[i] == line[i - s]);
            assert(text[i - 1] == line[i - 1 - s]);
        }
    }
    if stands_in_prose(text, a, b) {
        assert forall|k: int| from <= k < to implies !codeish(#[trigger] line[k]) && !('0' <= line[k]
            <= '9') by {
            assert(in_token(text, a, b, s + k));
            assert(text[s + k] == line[k]);
        }
        assert forall|k: int| from < k < to implies !(uppercase(#[trigger] line[k]) && lowercase(
            line[k - 1],
        )) by {
            assert(in_token(text, a, b, s + k));
            assert(in_token(text, a, b, s + k - 1));
            assert(text[s + k] == line[k]);
            assert(text[s + k - 1] == line[k - 1]);
        }
    }
}

pub proof fn lemma_ink_start(line: Seq<char>, i: int)
    requires
        0 <= i <= line.len(),
    ensures
        i <= ink_start(line, i) <= line.len(),
        forall|j: int| i <= j < ink_start(line, i) ==> js_space(#[trigger] line[j]),
        ink_start(line, i) < line.len() ==> !js_space(line[ink_start(line, i)]),
    decreases line.len() - i,
{
    if i < line.len() && js_space(line[i]) {
        lemma_ink_start(line, i + 1);
    }
}

proof fn lemma_prose_line(text: Seq<char>, s: int, e: int)
    requires
        is_line(text, s, e),
    ensures
        ({
            let line = text.subrange(s, e);
            is_prose_line(text, s, e) <==> utf16_len(line) <= 1000 && !slash_command(line)
                && !starts_arrow(line)
        }),
{
    let line = text.subrange(s, e);
    lemma_ink_start(line, 0);
    let at = ink_start(line, 0);
    assert(!js_space('/'));
    if slash_command(line) {
        assert(text[s + at] == '/');
        if is_prose_line(text, s, e) {
            let j = choose|j: int| s <= j < s + at && !js_space(#[trigger] text[j]);
            assert(line[j - s] == text[j]);
        }
    } else {
        assert forall|i: int| s <= i < e && #[trigger] text[i] == '/' implies exists|j: int|
            s <= j < i && !js_space(#[trigger] text[j]) by {
            assert(line[i - s] == text[i]);
            assert(at <= i - s);
            assert(text[s + at] == line[at]);
        }
    }
    if e - s >= 2 {
        assert(line[0] == text[s]);
        assert(line[1] == text[s + 1]);
    }
}

/// The lines of a text are its lines.
pub proof fn lemma_lines(text: Seq<char>, from: int)
    requires
        0 <= from <= text.len(),
        from > 0 ==> text[from - 1] == '\n',
    ensures
        forall|k: int|
            0 <= k < line_spans(text, from).len() ==> {
                let (s, e) = #[trigger] line_spans(text, from)[k];
                is_line(text, s, e) && from <= s
            },
        forall|s: int, e: int|
            from <= s && #[trigger] is_line(text, s, e) ==> line_spans(text, from).contains((s, e)),
    decreases text.len() - from,
{
    lemma_line_end(text, from);
    let nl = line_end(text, from);
    let all = line_spans(text, from);
    assert(all[0] == (from, nl));
    if nl < text.len() {
        let rest = line_spans(text, nl + 1);
        lemma_lines(text, nl + 1);
        assert forall|k: int| 0 <= k < all.len() implies {
            let (s, e) = #[trigger] all[k];
            is_line(text, s, e) && from <= s
        } by {
            if k > 0 {
                assert(all[k] == rest[k - 1]);
            }
        }
    }
    assert forall|s: int, e: int| from <= s && #[trigger] is_line(text, s, e) implies all.contains(
        (s, e),
    ) by {
        if s > from {
            assert(text[s - 1] == '\n');
            assert(s > nl);
            let rest = line_spans(text, nl + 1);
            assert(rest.contains((s, e)));
            let k = choose|k: int| 0 <= k < rest.len() && rest[k] == (s, e);
            assert(all[k + 1] == (s, e));
        } else {
            if e < nl {
                assert(text[e] == '\n');
            } else if nl < e {
                assert(text[nl] == '\n');
            }
        }
    }
}

/// The spans of a line are its runs of word characters.
proof fn lemma_runs(line: Seq<char>, from: int)
    requires
        0 <= from <= line.len(),
        from > 0 ==> from == line.len() || !word_char(line[from]) || !word_char(line[from - 1]),
    ensures
        forall|k: int|
            0 <= k < spans_from(line, from).len() ==> {
                let (a, b) = #[trigger] spans_from(line, from)[k];
                is_run(line, a, b) && from <= a
            },
        forall|a: int, b: int|
            from <= a && #[trigger] is_run(line, a, b) ==> spans_from(line, from).contains((a, b)),
    decreases line.len() - from,
{
    lemma_word_edges(line, from);
    let start = word_start(line, from);
    let all = spans_from(line, from);
    if start < line.len() {
        lemma_word_edges(line, start);
        let end = word_stop(line, start);
        let rest = spans_from(line, end);
        lemma_runs(line, end);
        assert(all[0] == (start, end));
        assert(is_run(line, start, end));
        assert forall|k: int| 0 <= k < all.len() implies {
            let (a, b) = #[trigger] all[k];
            is_run(line, a, b) && from <= a
        } by {
            if k > 0 {
                assert(all[k] == rest[k - 1]);
            }
        }
        assert forall|a: int, b: int| from <= a && #[trigger] is_run(line, a, b) implies all.contains(
            (a, b),
        ) by {
            assert(word_char(line[a]));
            if a < end {
                if a > start {
                    assert(word_char(line[a - 1]));
                }
                if b < end {
                    assert(word_char(line[b]));
                } else if end < b {
                    assert(word_char(line[end]));
                }
            } else {
                assert(rest.contains((a, b)));
                let k = choose|k: int| 0 <= k < rest.len() && rest[k] == (a, b);
                assert(all[k + 1] == (a, b));
            }
        }
    } else {
        assert forall|a: int, b: int| from <= a && #[trigger] is_run(line, a, b) implies false by {
            assert(word_char(line[a]));
        }
    }
}

/// A run of a line is a run of the text.
proof fn lemma_run_of_line(text: Seq<char>, s: int, e: int, a: int, b: int)
    requires
        is_line(text, s, e),
        s <= a < b <= e,
    ensures
        is_run(text, a, b) <==> is_run(text.subrange(s, e), a - s, b - s),
{
    let line = text.subrange(s, e);
    lemma_newline_is_space();
    if is_run(text, a, b) {
        assert forall|i: int| a - s <= i < b - s implies word_char(#[trigger] line[i]) by {
            assert(line[i] == text[i + s]);
        }
    }
    if is_run(line, a - s, b - s) {
        assert forall|i: int| a <= i < b implies word_char(#[trigger] text[i]) by {
            assert(line[i - s] == text[i]);
        }
        if a > s {
            assert(line[a - s - 1] == text[a - 1]);
        }
        if b < e {
            assert(line[b - s] == text[b]);
        }
    }
}

/// The words kept of a line are those that pass.
proof fn lemma_kept(text: Seq<char>, mask: Seq<bool>, s: int, e: int, j: int)
    requires
        0 <= s <= e <= text.len(),
        0 <= j <= spans_from(text.subrange(s, e), 0).len(),
    ensures
        ({
            let line = text.subrange(s, e);
            let spans = spans_from(line, 0);
            let kept = kept_words(text, mask, s, e, j);
            &&& forall|n: int|
                0 <= n < kept.len() ==> exists|k: int|
                    0 <= k < j && prose_word(line, mask_of(line), #[trigger] spans[k].0, spans[k].1)
                        && survives(text, mask, s + spans[k].0, s + spans[k].1) && #[trigger] kept[n]
                        == byte_range(text, s + spans[k].0, s + spans[k].1)
            &&& forall|k: int|
                0 <= k < j && prose_word(line, mask_of(line), #[trigger] spans[k].0, spans[k].1)
                    && survives(text, mask, s + spans[k].0, s + spans[k].1) ==> kept.contains(
                    byte_range(text, s + spans[k].0, s + spans[k].1),
                )
        }),
    decreases j,
{
    if j > 0 {
        lemma_kept(text, mask, s, e, j - 1);
        let line = text.subrange(s, e);
        let spans = spans_from(line, 0);
        let prior = kept_words(text, mask, s, e, j - 1);
        let kept = kept_words(text, mask, s, e, j);
        assert forall|n: int| 0 <= n < kept.len() implies exists|k: int|
            0 <= k < j && prose_word(line, mask_of(line), #[trigger] spans[k].0, spans[k].1)
                && survives(text, mask, s + spans[k].0, s + spans[k].1) && #[trigger] kept[n]
                == byte_range(text, s + spans[k].0, s + spans[k].1) by {
            if n < prior.len() {
                assert(kept[n] == prior[n]);
                let k = choose|k: int|
                    0 <= k < j - 1 && prose_word(
                        line,
                        mask_of(line),
                        #[trigger] spans[k].0,
                        spans[k].1,
                    ) && survives(text, mask, s + spans[k].0, s + spans[k].1) && prior[n]
                        == byte_range(text, s + spans[k].0, s + spans[k].1);
                assert(spans[k].0 == spans[k].0);
            } else {
                assert(spans[j - 1].0 == spans[j - 1].0);
            }
        }
        assert forall|k: int|
            0 <= k < j && prose_word(line, mask_of(line), #[trigger] spans[k].0, spans[k].1)
                && survives(text, mask, s + spans[k].0, s + spans[k].1) implies kept.contains(
            byte_range(text, s + spans[k].0, s + spans[k].1),
        ) by {
            let w = byte_range(text, s + spans[k].0, s + spans[k].1);
            if k < j - 1 {
                assert(prior.contains(w));
                let n = choose|n: int| 0 <= n < prior.len() && prior[n] == w;
                assert(kept[n] == w);
            } else {
                assert(kept[kept.len() - 1] == w);
            }
        }
    }
}

/// A span of a line passes exactly where its word is completable.
proof fn lemma_passes(text: Seq<char>, s: int, e: int, a: int, b: int)
    requires
        is_line(text, s, e),
        s <= a < b <= e,
        is_run(text.subrange(s, e), a - s, b - s),
        utf16_len(text.subrange(s, e)) <= 1000,
    ensures
        ({
            let line = text.subrange(s, e);
            completable(text, s, e, a, b) <==> prose_word(line, mask_of(line), a - s, b - s)
                && survives(text, mask_of(text), a, b)
        }),
{
    lemma_run_of_line(text, s, e, a, b);
    lemma_plain(text, s, e, a, b);
    lemma_prose_line(text, s, e);
}

/// The words that the line from `s` up to `e` gives.
spec fn line_words(text: Seq<char>, s: int, e: int) -> Seq<ProseWord> {
    let line = text.subrange(s, e);
    if utf16_len(line) <= 1000 {
        kept_words(text, mask_of(text), s, e, spans_from(line, 0).len() as int)
    } else {
        Seq::empty()
    }
}

/// The range is that of a completable word of the line from `s` up to `e`.
pub open spec fn of_line(text: Seq<char>, s: int, e: int, w: ProseWord) -> bool {
    exists|a: int, b: int|
        #[trigger] completable(text, s, e, a, b) && w == byte_range(text, a, b)
}

/// What one line gives.
proof fn lemma_line_words(text: Seq<char>, s: int, e: int)
    requires
        is_line(text, s, e),
    ensures
        forall|m: int|
            0 <= m < line_words(text, s, e).len() ==> of_line(
                text,
                s,
                e,
                #[trigger] line_words(text, s, e)[m],
            ),
        forall|a: int, b: int|
            #[trigger] completable(text, s, e, a, b) ==> line_words(text, s, e).contains(
                byte_range(text, a, b),
            ),
{
    let line = text.subrange(s, e);
    let spans = spans_from(line, 0);
    let kept = line_words(text, s, e);
    if utf16_len(line) <= 1000 {
        lemma_runs(line, 0);
        lemma_kept(text, mask_of(text), s, e, spans.len() as int);
        assert forall|m: int| 0 <= m < kept.len() implies of_line(
            text,
            s,
            e,
            #[trigger] kept[m],
        ) by {
            let k = choose|k: int|
                0 <= k < spans.len() && prose_word(
                    line,
                    mask_of(line),
                    #[trigger] spans[k].0,
                    spans[k].1,
                ) && survives(text, mask_of(text), s + spans[k].0, s + spans[k].1) && kept[m]
                    == byte_range(text, s + spans[k].0, s + spans[k].1);
            let (a, b) = spans[k];
            assert(is_run(line, a, b));
            lemma_passes(text, s, e, s + a, s + b);
            assert(completable(text, s, e, s + a, s + b));
        }
        assert forall|a: int, b: int| #[trigger] completable(text, s, e, a, b) implies kept.contains(
            byte_range(text, a, b),
        ) by {
            lemma_run_of_line(text, s, e, a, b);
            lemma_passes(text, s, e, a, b);
            assert(is_run(line, a - s, b - s));
            assert(spans.contains((a - s, b - s)));
            let i = choose|i: int| 0 <= i < spans.len() && spans[i] == (a - s, b - s);
            assert(spans[i].0 == a - s);
        }
    }
}

/// What the first `n` lines give.
proof fn lemma_words_of_lines(text: Seq<char>, n: int, w: ProseWord)
    requires
        0 <= n <= line_spans(text, 0).len(),
    ensures
        words_of_lines(text, n).contains(w) <==> exists|k: int|
            0 <= k < n && line_words(
                text,
                (#[trigger] line_spans(text, 0)[k]).0,
                line_spans(text, 0)[k].1,
            ).contains(w),
    decreases n,
{
    if n > 0 {
        lemma_words_of_lines(text, n - 1, w);
        let lines = line_spans(text, 0);
        let (s, e) = lines[n - 1];
        let prior = words_of_lines(text, n - 1);
        let words = words_of_lines(text, n);
        let more = line_words(text, s, e);
        assert(words == prior + more);
        if words.contains(w) {
            let i = choose|i: int| 0 <= i < words.len() && words[i] == w;
            if i < prior.len() {
                assert(prior[i] == w);
                let k = choose|k: int|
                    0 <= k < n - 1 && line_words(text, (#[trigger] lines[k]).0, lines[k].1).contains(
                        w,
                    );
                assert(line_words(text, lines[k].0, lines[k].1).contains(w));
            } else {
                assert(more[i - prior.len()] == w);
                assert(line_words(text, lines[n - 1].0, lines[n - 1].1).contains(w));
            }
        }
        if exists|k: int|
            0 <= k < n && line_words(text, (#[trigger] lines[k]).0, lines[k].1).contains(w) {
            let k = choose|k: int|
                0 <= k < n && line_words(text, (#[trigger] lines[k]).0, lines[k].1).contains(w);
            if k < n - 1 {
                assert(prior.contains(w));
                let j = choose|j: int| 0 <= j < prior.len() && prior[j] == w;
                assert(words[j] == w);
            } else {
                let j = choose|j: int| 0 <= j < more.len() && more[j] == w;
                assert(words[prior.len() + j] == w);
            }
        }
    }
}

/// Every word of a prompt is a whole run of letters that survives the mask, on
/// a line of prose, and no character of the white-space-delimited token around
/// it is one that only code has; a prompt of more than twenty thousand units
/// has no words.
pub proof fn law_words_stand_in_prose(prompt: Seq<char>, k: int)
    requires
        0 <= k < words_of(prompt).len(),
    ensures
        utf16_len(prompt) <= 20_000,
        exists|s: int, e: int| #[trigger] of_line(prompt, s, e, words_of(prompt)[k]),
{
    let lines = line_spans(prompt, 0);
    let w = words_of(prompt)[k];
    lemma_lines(prompt, 0);
    lemma_words_of_lines(prompt, lines.len() as int, w);
    assert(words_of_lines(prompt, lines.len() as int).contains(w));
    let n = choose|n: int|
        0 <= n < lines.len() && line_words(prompt, (#[trigger] lines[n]).0, lines[n].1).contains(w);
    let (s, e) = lines[n];
    lemma_line_words(prompt, s, e);
    let i = choose|i: int|
        0 <= i < line_words(prompt, s, e).len() && line_words(prompt, s, e)[i] == w;
    assert(of_line(prompt, s, e, line_words(prompt, s, e)[i]));
}

/// Every run of letters on a line of prose that survives the mask and stands in
/// a token without characters of code is a word of its prompt.
pub proof fn law_prose_is_offered(prompt: Seq<char>, s: int, e: int, a: int, b: int)
    requires
        utf16_len(prompt) <= 20_000,
        completable(prompt, s, e, a, b),
    ensures
        words_of(prompt).contains(byte_range(prompt, a, b)),
{
    let lines = line_spans(prompt, 0);
    let w = byte_range(prompt, a, b);
    lemma_lines(prompt, 0);
    lemma_words_of_lines(prompt, lines.len() as int, w);
    lemma_line_words(prompt, s, e);
    assert(lines.contains((s, e)));
    let k = choose|k: int| 0 <= k < lines.len() && lines[k] == (s, e);
    assert(line_words(prompt, lines[k].0, lines[k].1).contains(w));
}

/// White space is what a script's own trimming takes away: the tab, the line
/// ends and the spaces of Unicode, by their numbers.
pub proof fn law_white_space_by_number(c: char)
    ensures
        js_space(c) <==> {
            let n = c as u32;
            ||| 9 <= n <= 13
            ||| n == 32
            ||| n == 160
            ||| n == 5760
            ||| 8192 <= n <= 8202
            ||| n == 8232
            ||| n == 8233
            ||| n == 8239
            ||| n == 8287
            ||| n == 12288
            ||| n == 65279
        },
{
}

} // verus!
