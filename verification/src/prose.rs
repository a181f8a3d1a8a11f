//! Prose gating shared by the prediction engines: which words of a prompt are
//! completable prose, and whether a prompt looks typed rather than pasted.
//!
//! Texts are sequences of characters; a mask holds one flag per character.
//! Length caps count UTF-16 units. Offsets handed out are byte offsets into
//! the UTF-8 text.

use crate::patterns::{compile, find_at, found, in_category, latin_letter, source, LETTER};
use crate::unicode::{
    at_boundary, byte_len, byte_offsets, char_utf16_len, char_utf8_len, chars_of,
    lemma_byte_len_monotone, lemma_byte_len_prefix, lemma_chars_before, lemma_encode_concat,
    lemma_encode_push, lemma_utf16_within_bytes, lowercase, string_of, to_ascii_lower, uppercase,
    utf16_len, utf16_size, utf16_units, utf8_len, ascii_lower,
};
use regex::Regex;
use vstd::prelude::*;
use vstd::utf8::*;

verus! {

/// Prompts longer than this (UTF-16 units) get no completion at all.
pub const MAX_BUFFER: usize = 20_000;

/// Lines longer than this (UTF-16 units) get no completion.
pub const MAX_LINE: usize = 1_000;

/// JavaScript `\s`.
pub open spec fn js_space(c: char) -> bool {
    ||| c == '\t'
    ||| c == '\n'
    ||| c == '\u{0B}'
    ||| c == '\u{0C}'
    ||| c == '\r'
    ||| c == ' '
    ||| c == '\u{A0}'
    ||| c == '\u{1680}'
    ||| '\u{2000}' <= c <= '\u{200A}'
    ||| c == '\u{2028}'
    ||| c == '\u{2029}'
    ||| c == '\u{202F}'
    ||| c == '\u{205F}'
    ||| c == '\u{3000}'
    ||| c == '\u{FEFF}'
}

/// JavaScript `\s`: the characters `String.prototype.trim` strips.
pub fn is_js_space(c: char) -> (r: bool)
    ensures
        r == js_space(c),
{
    c == '\t' || c == '\n' || c == '\u{0B}' || c == '\u{0C}' || c == '\r' || c == ' ' || c
        == '\u{A0}' || c == '\u{1680}' || ('\u{2000}' <= c && c <= '\u{200A}') || c == '\u{2028}'
        || c == '\u{2029}' || c == '\u{202F}' || c == '\u{205F}' || c == '\u{3000}' || c
        == '\u{FEFF}'
}

pub open spec fn ascii_letter(c: char) -> bool {
    'a' <= c <= 'z' || 'A' <= c <= 'Z'
}

pub open spec fn ascii_digit(c: char) -> bool {
    '0' <= c <= '9'
}

/// `[\p{L}\p{M}]`.
pub open spec fn letter(c: char) -> bool {
    if c <= '\u{FF}' {
        latin_letter(c)
    } else {
        found(LETTER@, seq![c], 0) is Some
    }
}

/// `[\p{L}\p{M}']`.
pub open spec fn word_char(c: char) -> bool {
    c == '\'' || letter(c)
}

fn is_ascii_letter(c: char) -> (r: bool)
    ensures
        r == ascii_letter(c),
{
    ('a' <= c && c <= 'z') || ('A' <= c && c <= 'Z')
}

fn is_ascii_digit(c: char) -> (r: bool)
    ensures
        r == ascii_digit(c),
{
    '0' <= c && c <= '9'
}

/// Whether the compiled class of letters has `c`.
pub(crate) fn class_has(class: &Regex, c: char) -> (r: bool)
    requires
        source(*class) == LETTER@,
    ensures
        r == letter(c),
        in_category(c, r),
{
    if (c as u32) < 0x80 {
        return is_ascii_letter(c);
    }
    let mut one: Vec<char> = Vec::new();
    one.push(c);
    let text = string_of(&one);
    assert(text@ =~= seq![c]);
    proof {
        lemma_byte_len_prefix(text@, 0);
        assert(byte_len(text@.take(0)) == 0);
        lemma_chars_before(text@, 0, 0);
    }
    find_at(class, text.as_str(), 0).is_some()
}

/// Whether `c` is a character of a completable word, by the compiled class of
/// letters.
pub(crate) fn class_has_word(class: &Regex, c: char) -> (r: bool)
    requires
        source(*class) == LETTER@,
    ensures
        r == word_char(c),
{
    c == '\'' || class_has(class, c)
}

/// The class of letters, compiled.
pub(crate) fn letter_class() -> (class: Regex)
    ensures
        source(class) == LETTER@,
{
    compile(LETTER).unwrap()
}

/// Tells letters from other characters over a whole text: the class of letters
/// is compiled once, when the first character outside ASCII is met.
pub struct Letters {
    class: Option<Regex>,
}

impl Letters {
    #[verifier::type_invariant]
    spec fn inv(self) -> bool {
        self.class matches Some(class) ==> source(class) == LETTER@
    }

    /// Nothing is compiled yet.
    pub fn new() -> (letters: Letters) {
        Letters { class: None }
    }

    /// `[\p{L}\p{M}]`: a letter or combining mark.
    pub fn has(&mut self, c: char) -> (r: bool)
        ensures
            r == letter(c),
            in_category(c, r),
    {
        proof {
            use_type_invariant(&*self);
        }
        if (c as u32) < 0x80 {
            return is_ascii_letter(c);
        }
        if self.class.is_none() {
            self.class = Some(letter_class());
        }
        match &self.class {
            Some(class) => class_has(class, c),
            None => false,
        }
    }

    /// `[\p{L}\p{M}']`: a character of a completable word.
    pub fn has_word(&mut self, c: char) -> (r: bool)
        ensures
            r == word_char(c),
    {
        c == '\'' || self.has(c)
    }
}

/// `[\p{L}\p{M}]`: a letter or combining mark.
pub fn is_letter(c: char) -> (r: bool)
    ensures
        r == letter(c),
        in_category(c, r),
{
    let mut letters = Letters::new();
    letters.has(c)
}

/// `[\p{L}\p{M}']`: a character of a completable word.
pub fn is_word_char(c: char) -> (r: bool)
    ensures
        r == word_char(c),
{
    c == '\'' || is_letter(c)
}

/// A word touching any of these characters is code, not prose.
pub open spec fn codeish(c: char) -> bool {
    ||| c == '\\'
    ||| c == '/'
    ||| c == '@'
    ||| c == '_'
    ||| c == '='
    ||| c == ':'
    ||| c == '{'
    ||| c == '}'
    ||| c == '['
    ||| c == ']'
    ||| c == '<'
    ||| c == '>'
}

fn is_codeish(c: char) -> (r: bool)
    ensures
        r == codeish(c),
{
    c == '\\' || c == '/' || c == '@' || c == '_' || c == '=' || c == ':' || c == '{' || c == '}'
        || c == '[' || c == ']' || c == '<' || c == '>'
}

/// Only white space.
pub open spec fn blank(s: Seq<char>) -> bool {
    forall|k: int| 0 <= k < s.len() ==> js_space(#[trigger] s[k])
}

/// Whether `chars` is only white space.
pub fn is_blank(chars: &[char]) -> (r: bool)
    ensures
        r == blank(chars@),
{
    let mut i: usize = 0;
    while i < chars.len()
        invariant
            i <= chars@.len(),
            forall|k: int| 0 <= k < i ==> js_space(#[trigger] chars@[k]),
        decreases chars@.len() - i,
    {
        if !is_js_space(chars[i]) {
            return false;
        }
        i = i + 1;
    }
    true
}

// ---------------------------------------------------------------------------
// Runs and lines
// ---------------------------------------------------------------------------
/// End of the run of `c` that starts at `i`.
pub open spec fn run_end(text: Seq<char>, i: int, c: char) -> int
    decreases text.len() - i,
{
    if 0 <= i < text.len() && text[i] == c {
        run_end(text, i + 1, c)
    } else {
        i
    }
}

/// End of the run of fence marker characters that starts at `i`.
pub open spec fn marker_end(text: Seq<char>, i: int) -> int
    decreases text.len() - i,
{
    if 0 <= i < text.len() && (text[i] == '`' || text[i] == '~') {
        marker_end(text, i + 1)
    } else {
        i
    }
}

pub proof fn lemma_run_end(text: Seq<char>, i: int, c: char)
    requires
        0 <= i <= text.len(),
    ensures
        i <= run_end(text, i, c) <= text.len(),
        forall|k: int| i <= k < run_end(text, i, c) ==> text[k] == c,
        i < text.len() && text[i] == c ==> i < run_end(text, i, c),
    decreases text.len() - i,
{
    if i < text.len() && text[i] == c {
        lemma_run_end(text, i + 1, c);
    }
}

pub proof fn lemma_marker_end(text: Seq<char>, i: int)
    requires
        0 <= i <= text.len(),
    ensures
        i <= marker_end(text, i) <= text.len(),
        forall|k: int| i <= k < marker_end(text, i) ==> text[k] == '`' || text[k] == '~',
    decreases text.len() - i,
{
    if i < text.len() && (text[i] == '`' || text[i] == '~') {
        lemma_marker_end(text, i + 1);
    }
}

/// The first newline at or after `i`, or the end of the text.
pub open spec fn line_end(text: Seq<char>, i: int) -> int
    decreases text.len() - i,
{
    if 0 <= i < text.len() && text[i] != '\n' {
        line_end(text, i + 1)
    } else {
        i
    }
}

pub proof fn lemma_line_end(text: Seq<char>, i: int)
    requires
        0 <= i <= text.len(),
    ensures
        i <= line_end(text, i) <= text.len(),
        forall|k: int| i <= k < line_end(text, i) ==> text[k] != '\n',
        line_end(text, i) < text.len() ==> text[line_end(text, i)] == '\n',
    decreases text.len() - i,
{
    if i < text.len() && text[i] != '\n' {
        lemma_line_end(text, i + 1);
    }
}

/// The lines of `text` from position `from` on, as ranges without their
/// newline.
pub open spec fn line_spans(text: Seq<char>, from: int) -> Seq<(int, int)>
    decreases text.len() - from,
    when 0 <= from <= text.len()
{
    proof {
        lemma_line_end(text, from);
    }
    let nl = line_end(text, from);
    if nl >= text.len() {
        seq![(from, nl)]
    } else {
        seq![(from, nl)] + line_spans(text, nl + 1)
    }
}

pub proof fn lemma_line_spans(text: Seq<char>, from: int)
    requires
        0 <= from <= text.len(),
    ensures
        line_spans(text, from).len() >= 1,
        forall|k: int|
            0 <= k < line_spans(text, from).len() ==> {
                let (a, b) = #[trigger] line_spans(text, from)[k];
                from <= a <= b <= text.len()
            },
        forall|j: int, k: int|
            #![trigger line_spans(text, from)[j], line_spans(text, from)[k]]
            0 <= j < k < line_spans(text, from).len() ==> line_spans(text, from)[j].1
                < line_spans(text, from)[k].0,
    decreases text.len() - from,
{
    lemma_line_end(text, from);
    let nl = line_end(text, from);
    if nl < text.len() {
        lemma_line_spans(text, nl + 1);
        let rest = line_spans(text, nl + 1);
        let all = line_spans(text, from);
        assert forall|j: int, k: int|
            #![trigger all[j], all[k]]
            0 <= j < k < all.len() implies all[j].1 < all[k].0 by {
            assert(all[k] == rest[k - 1]);
            if j > 0 {
                assert(all[j] == rest[j - 1]);
            }
        }
    }
}

fn find_run_end(text: &[char], at: usize, c: char) -> (end: usize)
    requires
        at <= text@.len(),
    ensures
        end == run_end(text@, at as int, c),
        at <= end <= text@.len(),
{
    let mut i: usize = at;
    while i < text.len() && text[i] == c
        invariant
            at <= i <= text@.len(),
            run_end(text@, at as int, c) == run_end(text@, i as int, c),
        decreases text@.len() - i,
    {
        i = i + 1;
    }
    i
}

fn find_marker_end(text: &[char], at: usize) -> (end: usize)
    requires
        at <= text@.len(),
    ensures
        end == marker_end(text@, at as int),
        at <= end <= text@.len(),
{
    let mut i: usize = at;
    while i < text.len() && (text[i] == '`' || text[i] == '~')
        invariant
            at <= i <= text@.len(),
            marker_end(text@, at as int) == marker_end(text@, i as int),
        decreases text@.len() - i,
    {
        i = i + 1;
    }
    i
}

fn find_line_end(text: &[char], at: usize) -> (end: usize)
    requires
        at <= text@.len(),
    ensures
        end == line_end(text@, at as int),
        at <= end <= text@.len(),
{
    let mut i: usize = at;
    while i < text.len() && text[i] != '\n'
        invariant
            at <= i <= text@.len(),
            line_end(text@, at as int) == line_end(text@, i as int),
        decreases text@.len() - i,
    {
        i = i + 1;
    }
    i
}

/// Pairs of positions as mathematical integers.
pub open spec fn span_view(spans: Seq<(usize, usize)>) -> Seq<(int, int)> {
    spans.map_values(|p: (usize, usize)| (p.0 as int, p.1 as int))
}

/// The lines of `text`, as ranges without their newline.
pub fn line_ranges(text: &[char]) -> (lines: Vec<(usize, usize)>)
    ensures
        span_view(lines@) == line_spans(text@, 0),
{
    let mut lines: Vec<(usize, usize)> = Vec::new();
    let mut start: usize = 0;
    let mut done: bool = false;
    assert(span_view(lines@) + line_spans(text@, 0) =~= line_spans(text@, 0));
    while !done
        invariant
            start <= text@.len(),
            !done ==> span_view(lines@) + line_spans(text@, start as int) == line_spans(text@, 0),
            done ==> span_view(lines@) == line_spans(text@, 0),
        decreases text@.len() - start, (if done { 0int } else { 1int }),
    {
        let nl = find_line_end(text, start);
        let ghost before = lines@;
        lines.push((start, nl));
        assert(span_view(lines@) =~= span_view(before).push((start as int, nl as int)));
        if nl == text.len() {
            done = true;
            assert(span_view(lines@) =~= span_view(before) + line_spans(text@, start as int));
        } else {
            assert(span_view(lines@) + line_spans(text@, nl + 1) =~= span_view(before)
                + line_spans(text@, start as int));
            start = nl + 1;
        }
    }
    lines
}

// ---------------------------------------------------------------------------
// Masking
// ---------------------------------------------------------------------------
/// Markdown fence opener (up to 3 spaces, then 3+ backticks or tildes): the
/// indent and marker lengths.
pub open spec fn fence_opening(line: Seq<char>) -> Option<(int, int)> {
    let indent = run_end(line, 0, ' ');
    let marker = marker_end(line, indent) - indent;
    if indent <= 3 && marker >= 3 {
        Some((indent, marker))
    } else {
        None
    }
}

/// Markdown fence opener of `line`, as indent and marker lengths.
pub fn fence_open(line: &[char]) -> (r: Option<(usize, usize)>)
    ensures
        match r {
            Some((indent, marker)) => fence_opening(line@) == Some((indent as int, marker as int))
                && indent + marker <= line@.len() && marker >= 3,
            None => fence_opening(line@) is None,
        },
{
    let indent = find_run_end(line, 0, ' ');
    let end = find_marker_end(line, indent);
    if indent <= 3 && end - indent >= 3 {
        Some((indent, end - indent))
    } else {
        None
    }
}

/// End of the run of tag name characters that starts at `i`.
pub open spec fn name_tail_end(text: Seq<char>, i: int) -> int
    decreases text.len() - i,
{
    if 0 <= i < text.len() && (ascii_letter(text[i]) || ascii_digit(text[i]) || text[i] == '-') {
        name_tail_end(text, i + 1)
    } else {
        i
    }
}

pub proof fn lemma_name_tail_end(text: Seq<char>, i: int)
    requires
        0 <= i <= text.len(),
    ensures
        i <= name_tail_end(text, i) <= text.len(),
    decreases text.len() - i,
{
    if i < text.len() && (ascii_letter(text[i]) || ascii_digit(text[i]) || text[i] == '-') {
        lemma_name_tail_end(text, i + 1);
    }
}

/// `[A-Za-z][A-Za-z0-9-]*` at `at`: the end of the name.
pub open spec fn name_end_at(text: Seq<char>, at: int) -> Option<int> {
    if 0 <= at < text.len() && ascii_letter(text[at]) {
        Some(name_tail_end(text, at + 1))
    } else {
        None
    }
}

/// `[A-Za-z][A-Za-z0-9-]*` at `at`; returns the end of the name.
pub fn tag_name_end(text: &[char], at: usize) -> (r: Option<usize>)
    requires
        at <= text@.len(),
    ensures
        match r {
            Some(end) => name_end_at(text@, at as int) == Some(end as int) && at < end
                <= text@.len(),
            None => name_end_at(text@, at as int) is None,
        },
{
    if !(at < text.len() && is_ascii_letter(text[at])) {
        return None;
    }
    let mut end: usize = at + 1;
    while end < text.len() && (is_ascii_letter(text[end]) || is_ascii_digit(text[end]) || text[end]
        == '-')
        invariant
            at < end <= text@.len(),
            name_tail_end(text@, at + 1) == name_tail_end(text@, end as int),
        decreases text@.len() - end,
    {
        end = end + 1;
    }
    Some(end)
}

/// End of the first unmasked backtick run of exactly `run` backticks at or
/// after `k`.
pub open spec fn backtick_close(text: Seq<char>, k: int, run: int, mask: Seq<bool>) -> Option<int>
    decreases text.len() - k,
    when 0 <= k
{
    if k >= text.len() {
        None
    } else if mask[k] || text[k] != '`' {
        backtick_close(text, k + 1, run, mask)
    } else {
        proof {
            lemma_run_end(text, k, '`');
        }
        let end = run_end(text, k, '`');
        if end - k == run {
            Some(end)
        } else {
            backtick_close(text, end, run, mask)
        }
    }
}

/// End of the closing backtick run of exactly `run` backticks, skipping masked
/// characters.
pub fn find_backtick_close(text: &[char], from: usize, run: usize, mask: &Vec<bool>) -> (r: Option<
    usize,
>)
    requires
        from <= text@.len(),
        mask@.len() == text@.len(),
    ensures
        match r {
            Some(end) => backtick_close(text@, from as int, run as int, mask@) == Some(end as int)
                && from <= end <= text@.len(),
            None => backtick_close(text@, from as int, run as int, mask@) is None,
        },
{
    let mut k: usize = from;
    while k < text.len()
        invariant
            from <= k <= text@.len(),
            mask@.len() == text@.len(),
            backtick_close(text@, from as int, run as int, mask@) == backtick_close(
                text@,
                k as int,
                run as int,
                mask@,
            ),
        decreases text@.len() - k,
    {
        if mask[k] || text[k] != '`' {
            k = k + 1;
        } else {
            let end = find_run_end(text, k, '`');
            proof {
                lemma_run_end(text@, k as int, '`');
            }
            if end - k == run {
                return Some(end);
            }
            k = end;
        }
    }
    None
}

/// Position of the `>` that closes a tag whose attributes continue at `k`,
/// inside the quotes `quote` when there are any.
pub open spec fn tag_close(text: Seq<char>, k: int, quote: Option<char>) -> Option<int>
    decreases text.len() - k,
{
    if !(0 <= k < text.len()) {
        None
    } else if quote is Some {
        if text[k] == quote->0 {
            tag_close(text, k + 1, None)
        } else {
            tag_close(text, k + 1, quote)
        }
    } else if text[k] == '"' || text[k] == '\'' {
        tag_close(text, k + 1, Some(text[k]))
    } else if text[k] == '>' {
        Some(k)
    } else if text[k] == '<' {
        None
    } else {
        tag_close(text, k + 1, None)
    }
}

pub proof fn lemma_tag_close(text: Seq<char>, k: int, quote: Option<char>)
    requires
        0 <= k,
    ensures
        match tag_close(text, k, quote) {
            Some(gt) => k <= gt < text.len() && text[gt] == '>',
            None => true,
        },
    decreases text.len() - k,
{
    if k < text.len() {
        lemma_tag_close(text, k + 1, None);
        lemma_tag_close(text, k + 1, quote);
        lemma_tag_close(text, k + 1, Some(text[k]));
    }
}

/// Position of the `>` closing a tag whose attributes start at `from`,
/// honoring quotes.
pub fn find_tag_end(text: &[char], from: usize) -> (r: Option<usize>)
    requires
        from <= text@.len(),
    ensures
        match r {
            Some(gt) => tag_close(text@, from as int, None) == Some(gt as int) && from <= gt
                < text@.len(),
            None => tag_close(text@, from as int, None) is None,
        },
{
    let mut quote: Option<char> = None;
    let mut k: usize = from;
    while k < text.len()
        invariant
            from <= k <= text@.len(),
            tag_close(text@, from as int, None) == tag_close(text@, k as int, quote),
        decreases text@.len() - k,
    {
        let c = text[k];
        match quote {
            Some(q) => {
                if c == q {
                    quote = None;
                }
            },
            None => {
                if c == '"' || c == '\'' {
                    quote = Some(c);
                } else if c == '>' {
                    return Some(k);
                } else if c == '<' {
                    return None;
                }
            },
        }
        k = k + 1;
    }
    None
}

/// Two names that differ in ASCII case at most.
pub open spec fn same_name(a: Seq<char>, b: Seq<char>) -> bool {
    a.len() == b.len() && forall|k: int|
        0 <= k < a.len() ==> ascii_lower(#[trigger] a[k]) == ascii_lower(b[k])
}

/// End (past `>`) of the `</name>` that closes the last of `depth` open
/// `<name>` tags, looking from `k` on.
pub open spec fn matching_close(
    text: Seq<char>,
    k: int,
    name: Seq<char>,
    mask: Seq<bool>,
    depth: int,
) -> Option<int>
    decreases text.len() - k,
    when 0 <= k
{
    if k >= text.len() {
        None
    } else if mask[k] || text[k] != '<' {
        matching_close(text, k + 1, name, mask, depth)
    } else {
        let closing = k + 1 < text.len() && text[k + 1] == '/';
        let m = if closing {
            k + 2
        } else {
            k + 1
        };
        match name_end_at(text, m) {
            None => matching_close(text, k + 1, name, mask, depth),
            Some(name_end) => {
                proof {
                    lemma_name_tail_end(text, m + 1);
                    lemma_tag_close(text, name_end, None);
                }
                match tag_close(text, name_end, None) {
                    None => matching_close(text, k + 1, name, mask, depth),
                    Some(gt) => {
                        if !same_name(text.subrange(m, name_end), name) {
                            matching_close(text, gt + 1, name, mask, depth)
                        } else if closing {
                            if depth == 1 {
                                Some(gt + 1)
                            } else {
                                matching_close(text, gt + 1, name, mask, depth - 1)
                            }
                        } else if text[gt - 1] != '/' {
                            matching_close(text, gt + 1, name, mask, depth + 1)
                        } else {
                            matching_close(text, gt + 1, name, mask, depth)
                        }
                    },
                }
            },
        }
    }
}

fn same_name_at(text: &[char], m: usize, end: usize, j: usize, name_end: usize) -> (r: bool)
    requires
        m <= end <= text@.len(),
        j <= name_end <= text@.len(),
    ensures
        r == same_name(
            text@.subrange(m as int, end as int),
            text@.subrange(j as int, name_end as int),
        ),
{
    if end - m != name_end - j {
        return false;
    }
    let ghost a = text@.subrange(m as int, end as int);
    let ghost b = text@.subrange(j as int, name_end as int);
    let mut k: usize = 0;
    while k < end - m
        invariant
            m <= end <= text@.len(),
            j <= name_end <= text@.len(),
            end - m == name_end - j,
            k <= end - m,
            a == text@.subrange(m as int, end as int),
            b == text@.subrange(j as int, name_end as int),
            forall|i: int| 0 <= i < k ==> ascii_lower(#[trigger] a[i]) == ascii_lower(b[i]),
        decreases end - m - k,
    {
        if to_ascii_lower(text[m + k]) != to_ascii_lower(text[j + k]) {
            assert(ascii_lower(a[k as int]) != ascii_lower(b[k as int]));
            return false;
        }
        k = k + 1;
    }
    true
}

/// End (past `>`) of the `</name>` balancing an opening `<name>`, counting
/// nesting; the name is the text between `j` and `name_end`.
pub fn find_matching_close(
    text: &[char],
    start: usize,
    j: usize,
    name_end: usize,
    mask: &Vec<bool>,
) -> (r: Option<usize>)
    requires
        start <= text@.len(),
        j <= name_end <= text@.len(),
        mask@.len() == text@.len(),
    ensures
        match r {
            Some(end) => matching_close(
                text@,
                start as int,
                text@.subrange(j as int, name_end as int),
                mask@,
                1,
            ) == Some(end as int) && start <= end <= text@.len(),
            None => matching_close(
                text@,
                start as int,
                text@.subrange(j as int, name_end as int),
                mask@,
                1,
            ) is None,
        },
{
    let ghost name = text@.subrange(j as int, name_end as int);
    let mut depth: usize = 1;
    let mut k: usize = start;
    while k < text.len()
        invariant
            start <= k <= text@.len(),
            j <= name_end <= text@.len(),
            mask@.len() == text@.len(),
            name == text@.subrange(j as int, name_end as int),
            1 <= depth <= 1 + k - start,
            matching_close(text@, start as int, name, mask@, 1) == matching_close(
                text@,
                k as int,
                name,
                mask@,
                depth as int,
            ),
        decreases text@.len() - k,
    {
        if mask[k] || text[k] != '<' {
            k = k + 1;
            continue;
        }
        let closing = k + 1 < text.len() && text[k + 1] == '/';
        let m: usize = if closing {
            k + 2
        } else {
            k + 1
        };
        let found = tag_name_end(text, m);
        match found {
            None => {
                k = k + 1;
            },
            Some(end) => {
                match find_tag_end(text, end) {
                    None => {
                        k = k + 1;
                    },
                    Some(gt) => {
                        if same_name_at(text, m, end, j, name_end) {
                            if closing {
                                if depth == 1 {
                                    return Some(gt + 1);
                                }
                                depth = depth - 1;
                            } else if text[gt - 1] != '/' {
                                depth = depth + 1;
                            }
                        }
                        k = gt + 1;
                    },
                }
            },
        }
    }
    None
}

/// Position of the first `-->` at or after `k`.
pub open spec fn comment_close(text: Seq<char>, k: int) -> Option<int>
    decreases text.len() - k,
{
    if !(0 <= k && k + 3 <= text.len()) {
        None
    } else if text[k] == '-' && text[k + 1] == '-' && text[k + 2] == '>' {
        Some(k)
    } else {
        comment_close(text, k + 1)
    }
}

fn find_comment_close(text: &[char], from: usize) -> (r: Option<usize>)
    requires
        from <= text@.len(),
    ensures
        match r {
            Some(at) => comment_close(text@, from as int) == Some(at as int) && from <= at && at + 3
                <= text@.len(),
            None => comment_close(text@, from as int) is None,
        },
{
    let mut k: usize = from;
    while text.len() - k >= 3
        invariant
            from <= k <= text@.len(),
            comment_close(text@, from as int) == comment_close(text@, k as int),
        decreases text@.len() - k,
    {
        if text[k] == '-' && text[k + 1] == '-' && text[k + 2] == '>' {
            return Some(k);
        }
        k = k + 1;
    }
    None
}

/// End of the HTML/XML construct at the `<` at `i`, or `i` when the `<` starts
/// none. An element reaches to its balancing close tag.
pub open spec fn tag_region_end(text: Seq<char>, i: int, mask: Seq<bool>) -> int {
    if i + 4 <= text.len() && text[i + 1] == '!' && text[i + 2] == '-' && text[i + 3] == '-' {
        match comment_close(text, i + 4) {
            Some(at) => at + 3,
            None => text.len() as int,
        }
    } else {
        let closing = i + 1 < text.len() && text[i + 1] == '/';
        let j = if closing {
            i + 2
        } else {
            i + 1
        };
        match name_end_at(text, j) {
            None => i,
            Some(name_end) => match tag_close(text, name_end, None) {
                None => i,
                Some(gt) => {
                    if closing || text[gt - 1] == '/' {
                        gt + 1
                    } else {
                        match matching_close(
                            text,
                            gt + 1,
                            text.subrange(j, name_end),
                            mask,
                            1,
                        ) {
                            None => gt + 1,
                            Some(close) => close,
                        }
                    }
                },
            },
        }
    }
}

/// End of the HTML/XML construct at the `<` at `i`, or `i` when the `<` starts
/// none.
pub fn tag_end_at(text: &[char], i: usize, mask: &Vec<bool>) -> (end: usize)
    requires
        i < text@.len(),
        text@[i as int] == '<',
        mask@.len() == text@.len(),
    ensures
        end == tag_region_end(text@, i as int, mask@),
        i <= end <= text@.len(),
{
    let n: usize = text.len();
    if n - i >= 4 && text[i + 1] == '!' && text[i + 2] == '-' && text[i + 3] == '-' {
        return match find_comment_close(text, i + 4) {
            Some(at) => at + 3,
            None => n,
        };
    }
    let closing = i + 1 < n && text[i + 1] == '/';
    let j: usize = if closing {
        i + 2
    } else {
        i + 1
    };
    match tag_name_end(text, j) {
        None => i,
        Some(name_end) => match find_tag_end(text, name_end) {
            None => i,
            Some(gt) => {
                if closing || text[gt - 1] == '/' {
                    gt + 1
                } else {
                    match find_matching_close(text, gt + 1, j, name_end, mask) {
                        None => gt + 1,
                        Some(close) => close,
                    }
                }
            },
        },
    }
}

/// `mask` with every position from `a` up to `b` set.
pub open spec fn filled(mask: Seq<bool>, a: int, b: int) -> Seq<bool> {
    Seq::new(mask.len(), |k: int| mask[k] || a <= k < b)
}

fn fill(mask: &mut Vec<bool>, a: usize, b: usize)
    requires
        a <= b <= old(mask)@.len(),
    ensures
        final(mask)@ == filled(old(mask)@, a as int, b as int),
{
    let ghost before = mask@;
    let mut k: usize = a;
    while k < b
        invariant
            a <= k <= b <= before.len(),
            mask@ == filled(before, a as int, k as int),
        decreases b - k,
    {
        mask.set(k, true);
        assert(mask@ =~= filled(before, a as int, k + 1));
        k = k + 1;
    }
    assert(k == b);
}

/// Whether the backtick fence line `line` has a further backtick behind its
/// marker; such a line opens nothing.
pub open spec fn info_has_backtick(line: Seq<char>, from: int) -> bool {
    exists|k: int| from <= k < line.len() && line[k] == '`'
}

/// Mask of the fenced code blocks, line by line from `start` on. `fence` is
/// the marker character and length of the block that is open.
pub open spec fn fence_mask(
    text: Seq<char>,
    start: int,
    fence: Option<(char, int)>,
    mask: Seq<bool>,
) -> Seq<bool>
    decreases text.len() - start,
    when 0 <= start <= text.len()
{
    proof {
        lemma_line_end(text, start);
    }
    let nl = line_end(text, start);
    let line = text.subrange(start, nl);
    let hidden = filled(mask, start, nl);
    let (next_fence, next_mask) = match (fence, fence_opening(line)) {
        (Some((c, len)), Some((indent, marker))) => {
            if line[indent] == c && marker >= len && blank(line.skip(indent + marker)) {
                (None, hidden)
            } else {
                (fence, hidden)
            }
        },
        (Some(_), None) => (fence, hidden),
        (None, Some((indent, marker))) => {
            if line[indent] == '`' && info_has_backtick(line, indent + marker) {
                (None, mask)
            } else {
                (Some((line[indent], marker)), hidden)
            }
        },
        (None, None) => (None, mask),
    };
    if nl >= text.len() {
        next_mask
    } else {
        fence_mask(text, nl + 1, next_fence, next_mask)
    }
}

fn contains_char(chars: &[char], from: usize, c: char) -> (r: bool)
    requires
        from <= chars@.len(),
    ensures
        r == exists|k: int| from <= k < chars@.len() && chars@[k] == c,
{
    let mut k: usize = from;
    while k < chars.len()
        invariant
            from <= k <= chars@.len(),
            forall|i: int| from <= i < k ==> chars@[i] != c,
        decreases chars@.len() - k,
    {
        if chars[k] == c {
            return true;
        }
        k = k + 1;
    }
    false
}

fn mask_fences(text: &[char], mask: &mut Vec<bool>)
    requires
        old(mask)@.len() == text@.len(),
    ensures
        final(mask)@ == fence_mask(text@, 0, None, old(mask)@),
        final(mask)@.len() == text@.len(),
{
    let ghost initial = mask@;
    let mut fence_char: char = ' ';
    let mut fence_len: usize = 0;
    let mut open: bool = false;
    let mut start: usize = 0;
    let mut done: bool = false;
    let ghost mut fence: Option<(char, int)> = None;
    while !done
        invariant
            start <= text@.len(),
            mask@.len() == text@.len(),
            fence == (if open {
                Some((fence_char, fence_len as int))
            } else {
                None::<(char, int)>
            }),
            !done ==> fence_mask(text@, start as int, fence, mask@) == fence_mask(
                text@,
                0,
                None,
                initial,
            ),
            done ==> mask@ == fence_mask(text@, 0, None, initial),
        decreases text@.len() - start, (if done { 0int } else { 1int }),
    {
        let nl = find_line_end(text, start);
        let line: &[char] = &text[start..nl];
        let opening = fence_open(line);
        if open {
            fill(mask, start, nl);
            if let Some((indent, marker)) = opening {
                let rest: &[char] = &line[indent + marker..line.len()];
                assert(rest@ =~= line@.skip(indent + marker));
                if line[indent] == fence_char && marker >= fence_len && is_blank(rest) {
                    open = false;
                    proof {
                        fence = None;
                    }
                }
            }
        } else if let Some((indent, marker)) = opening {
            let c = line[indent];
            if !(c == '`' && contains_char(line, indent + marker, '`')) {
                fence_char = c;
                fence_len = marker;
                open = true;
                proof {
                    fence = Some((c, marker as int));
                }
                fill(mask, start, nl);
            }
        }
        if nl == text.len() {
            done = true;
        } else {
            start = nl + 1;
        }
    }
}

/// Mask of inline code spans and HTML/XML from `i` on, over the text that
/// `mask` leaves.
pub open spec fn inline_mask(text: Seq<char>, i: int, mask: Seq<bool>) -> Seq<bool>
    decreases text.len() - i,
    when 0 <= i
{
    if i >= text.len() {
        mask
    } else if mask[i] {
        inline_mask(text, i + 1, mask)
    } else if text[i] == '`' {
        proof {
            lemma_run_end(text, i, '`');
            lemma_backtick_close(text, run_end(text, i, '`'), run_end(text, i, '`') - i, mask);
        }
        let end = run_end(text, i, '`');
        match backtick_close(text, end, end - i, mask) {
            Some(close) => inline_mask(text, close, filled(mask, i, close)),
            None => inline_mask(text, end, mask),
        }
    } else if text[i] == '<' {
        proof {
            lemma_tag_region(text, i, mask);
        }
        let end = tag_region_end(text, i, mask);
        if end > i {
            inline_mask(text, end, filled(mask, i, end))
        } else {
            inline_mask(text, i + 1, mask)
        }
    } else {
        inline_mask(text, i + 1, mask)
    }
}

pub proof fn lemma_comment_close(text: Seq<char>, k: int)
    requires
        0 <= k,
    ensures
        match comment_close(text, k) {
            Some(at) => k <= at && at + 3 <= text.len(),
            None => true,
        },
    decreases text.len() - k,
{
    if k + 3 <= text.len() {
        lemma_comment_close(text, k + 1);
    }
}

pub proof fn lemma_matching_close(
    text: Seq<char>,
    k: int,
    name: Seq<char>,
    mask: Seq<bool>,
    depth: int,
)
    requires
        0 <= k <= text.len(),
    ensures
        match matching_close(text, k, name, mask, depth) {
            Some(end) => k <= end <= text.len(),
            None => true,
        },
    decreases text.len() - k,
{
    if k < text.len() {
        lemma_matching_close(text, k + 1, name, mask, depth);
        if !mask[k] && text[k] == '<' {
            let m = if k + 1 < text.len() && text[k + 1] == '/' {
                k + 2
            } else {
                k + 1
            };
            if let Some(name_end) = name_end_at(text, m) {
                lemma_name_tail_end(text, m + 1);
                lemma_tag_close(text, name_end, None);
                if let Some(gt) = tag_close(text, name_end, None) {
                    lemma_matching_close(text, gt + 1, name, mask, depth);
                    lemma_matching_close(text, gt + 1, name, mask, depth - 1);
                    lemma_matching_close(text, gt + 1, name, mask, depth + 1);
                }
            }
        }
    }
}

pub proof fn lemma_tag_region(text: Seq<char>, i: int, mask: Seq<bool>)
    requires
        0 <= i < text.len(),
    ensures
        i <= tag_region_end(text, i, mask) <= text.len(),
{
    lemma_comment_close(text, i + 4);
    let j = if i + 1 < text.len() && text[i + 1] == '/' {
        i + 2
    } else {
        i + 1
    };
    if let Some(name_end) = name_end_at(text, j) {
        lemma_name_tail_end(text, j + 1);
        lemma_tag_close(text, name_end, None);
        if let Some(gt) = tag_close(text, name_end, None) {
            lemma_matching_close(text, gt + 1, text.subrange(j, name_end), mask, 1);
        }
    }
}

pub proof fn lemma_backtick_close(text: Seq<char>, k: int, run: int, mask: Seq<bool>)
    requires
        0 <= k <= text.len(),
    ensures
        match backtick_close(text, k, run, mask) {
            Some(end) => k <= end <= text.len(),
            None => true,
        },
    decreases text.len() - k,
{
    if k < text.len() {
        if mask[k] || text[k] != '`' {
            lemma_backtick_close(text, k + 1, run, mask);
        } else {
            lemma_run_end(text, k, '`');
            lemma_backtick_close(text, run_end(text, k, '`'), run, mask);
        }
    }
}

fn mask_inline(text: &[char], mask: &mut Vec<bool>)
    requires
        old(mask)@.len() == text@.len(),
    ensures
        final(mask)@ == inline_mask(text@, 0, old(mask)@),
        final(mask)@.len() == text@.len(),
{
    let ghost initial = mask@;
    let mut i: usize = 0;
    while i < text.len()
        invariant
            i <= text@.len(),
            mask@.len() == text@.len(),
            inline_mask(text@, i as int, mask@) == inline_mask(text@, 0, initial),
        decreases text@.len() - i,
    {
        if mask[i] {
            i = i + 1;
        } else if text[i] == '`' {
            let end = find_run_end(text, i, '`');
            proof {
                lemma_run_end(text@, i as int, '`');
            }
            match find_backtick_close(text, end, end - i, mask) {
                Some(close) => {
                    fill(mask, i, close);
                    i = close;
                },
                None => {
                    i = end;
                },
            }
        } else if text[i] == '<' {
            let end = tag_end_at(text, i, mask);
            if end > i {
                fill(mask, i, end);
                i = end;
            } else {
                i = i + 1;
            }
        } else {
            i = i + 1;
        }
    }
}

/// Which characters of `text` are fenced code, inline code or HTML/XML.
pub open spec fn mask_of(text: Seq<char>) -> Seq<bool> {
    inline_mask(text, 0, fence_mask(text, 0, None, Seq::new(text.len(), |k: int| false)))
}

/// Flags the characters of `text` that are fenced code, inline code or
/// HTML/XML.
pub fn mask_bits(text: &[char]) -> (mask: Vec<bool>)
    ensures
        mask@ == mask_of(text@),
        mask@.len() == text@.len(),
{
    let mut mask: Vec<bool> = Vec::new();
    let mut i: usize = 0;
    while i < text.len()
        invariant
            i <= text@.len(),
            mask@ == Seq::new(i as nat, |k: int| false),
        decreases text@.len() - i,
    {
        mask.push(false);
        i = i + 1;
        assert(mask@ =~= Seq::new(i as nat, |k: int| false));
    }
    mask_fences(text, &mut mask);
    mask_inline(text, &mut mask);
    mask
}

/// What a character becomes: a hidden one turns into as many spaces as it has
/// bytes, a newline stays.
pub open spec fn shown(c: char, hidden: bool) -> Seq<char> {
    if hidden && c != '\n' {
        Seq::new(utf8_len(c), |k: int| ' ')
    } else {
        seq![c]
    }
}

/// `text` with its hidden characters blanked out.
pub open spec fn blanked(text: Seq<char>, mask: Seq<bool>) -> Seq<char>
    decreases text.len(),
{
    if text.len() == 0 {
        Seq::empty()
    } else {
        blanked(text.drop_last(), mask) + shown(text.last(), mask[text.len() - 1])
    }
}

/// Nothing of `text` can open a masked region: no backtick, no `<`, no `~~~`.
pub open spec fn no_opener(text: Seq<char>) -> bool {
    &&& forall|k: int| 0 <= k < text.len() ==> #[trigger] text[k] != '`' && text[k] != '<'
    &&& forall|k: int|
        0 <= k && k + 2 < text.len() ==> !(#[trigger] text[k] == '~' && text[k + 1] == '~'
            && text[k + 2] == '~')
}

proof fn lemma_no_fence(text: Seq<char>, start: int, mask: Seq<bool>)
    requires
        0 <= start <= text.len(),
        no_opener(text),
    ensures
        fence_mask(text, start, None, mask) == mask,
    decreases text.len() - start,
{
    lemma_line_end(text, start);
    let nl = line_end(text, start);
    let line = text.subrange(start, nl);
    lemma_run_end(line, 0, ' ');
    let indent = run_end(line, 0, ' ');
    lemma_marker_end(line, indent);
    if marker_end(line, indent) - indent >= 3 {
        assert(line[indent] == text[start + indent]);
        assert(line[indent + 1] == text[start + indent + 1]);
        assert(line[indent + 2] == text[start + indent + 2]);
        assert(text[start + indent] == '~' && text[start + indent + 1] == '~' && text[start + indent
            + 2] == '~');
    }
    assert(fence_opening(line) is None);
    if nl < text.len() {
        lemma_no_fence(text, nl + 1, mask);
    }
}

proof fn lemma_no_inline(text: Seq<char>, i: int, mask: Seq<bool>)
    requires
        0 <= i,
        no_opener(text),
    ensures
        inline_mask(text, i, mask) == mask,
    decreases text.len() - i,
{
    if i < text.len() {
        lemma_no_inline(text, i + 1, mask);
    }
}

proof fn lemma_blanked_nothing(text: Seq<char>, mask: Seq<bool>)
    requires
        mask.len() >= text.len(),
        forall|k: int| 0 <= k < text.len() ==> !#[trigger] mask[k],
    ensures
        blanked(text, mask) == text,
    decreases text.len(),
{
    if text.len() > 0 {
        lemma_blanked_nothing(text.drop_last(), mask);
        assert(text.drop_last() + seq![text.last()] =~= text);
    }
}

/// A text that can open no masked region comes back unchanged.
pub proof fn lemma_unmasked_without_opener(text: Seq<char>)
    requires
        no_opener(text),
    ensures
        blanked(text, mask_of(text)) == text,
        mask_of(text) == Seq::new(text.len(), |k: int| false),
{
    let none = Seq::new(text.len(), |k: int| false);
    lemma_no_fence(text, 0, none);
    lemma_no_inline(text, 0, none);
    lemma_blanked_nothing(text, none);
}

proof fn lemma_spaces_len(n: nat)
    ensures
        byte_len(Seq::new(n, |k: int| ' ')) == n,
    decreases n,
{
    if n == 0 {
        assert(Seq::new(0, |k: int| ' ') =~= Seq::<char>::empty());
    } else {
        lemma_spaces_len((n - 1) as nat);
        lemma_encode_push(Seq::new((n - 1) as nat, |k: int| ' '), ' ');
        assert(Seq::new((n - 1) as nat, |k: int| ' ').push(' ') =~= Seq::new(n, |k: int| ' '));
    }
}

/// Masking keeps every byte offset: up to any character, the masked text takes
/// exactly as many bytes as the text itself, and behind that point it is the
/// rest of the text, masked.
pub proof fn law_masking_keeps_byte_offsets(text: Seq<char>, mask: Seq<bool>, k: int)
    requires
        0 <= k <= text.len(),
        mask.len() == text.len(),
    ensures
        byte_len(blanked(text, mask)) == byte_len(text),
        byte_len(blanked(text.take(k), mask.take(k))) == byte_len(text.take(k)),
        blanked(text, mask) == blanked(text.take(k), mask.take(k)) + blanked(
            text.skip(k),
            mask.skip(k),
        ),
    decreases text.len(),
{
    if text.len() == 0 {
        assert(text.take(k) =~= text);
        assert(blanked(text, mask) =~= blanked(text.take(k), mask.take(k)) + blanked(
            text.skip(k),
            mask.skip(k),
        ));
    } else {
        let head = text.drop_last();
        let hmask = mask.drop_last();
        lemma_blanked_mask_prefix(head, mask, hmask);
        let piece = shown(text.last(), mask.last());
        assert(byte_len(piece) == utf8_len(text.last())) by {
            lemma_spaces_len(utf8_len(text.last()));
            lemma_encode_push(Seq::empty(), text.last());
            assert(Seq::empty().push(text.last()) =~= seq![text.last()]);
        }
        lemma_encode_concat(blanked(head, mask), piece);
        lemma_encode_push(head, text.last());
        assert(head.push(text.last()) =~= text);
        if k < text.len() {
            law_masking_keeps_byte_offsets(head, hmask, k);
            assert(text.take(k) =~= head.take(k));
            assert(mask.take(k) =~= hmask.take(k));
            assert(text.skip(k).drop_last() =~= head.skip(k));
            lemma_blanked_mask_prefix(head.skip(k), mask.skip(k), hmask.skip(k));
            assert(text.skip(k).last() == text.last());
            assert(mask.skip(k)[text.skip(k).len() - 1] == mask.last());
            assert(blanked(text.skip(k), mask.skip(k)) =~= blanked(head.skip(k), hmask.skip(k))
                + piece);
            assert(blanked(text, mask) =~= blanked(text.take(k), mask.take(k)) + blanked(
                text.skip(k),
                mask.skip(k),
            ));
        } else {
            law_masking_keeps_byte_offsets(head, hmask, head.len() as int);
            assert(text.take(k) =~= text);
            assert(mask.take(k) =~= mask);
            assert(text.skip(k) =~= Seq::<char>::empty());
            assert(blanked(text, mask) =~= blanked(text.take(k), mask.take(k)) + blanked(
                text.skip(k),
                mask.skip(k),
            ));
        }
    }
}

/// Only the flags of a text's own characters matter.
pub proof fn lemma_blanked_mask_prefix(text: Seq<char>, a: Seq<bool>, b: Seq<bool>)
    requires
        a.len() >= text.len(),
        b.len() >= text.len(),
        forall|k: int| 0 <= k < text.len() ==> a[k] == b[k],
    ensures
        blanked(text, a) == blanked(text, b),
    decreases text.len(),
{
    if text.len() > 0 {
        lemma_blanked_mask_prefix(text.drop_last(), a, b);
    }
}

/// Whether something in `text` may open a masked region.
fn has_opener(text: &[char]) -> (r: bool)
    ensures
        r == !no_opener(text@),
{
    let mut k: usize = 0;
    while k < text.len()
        invariant
            k <= text@.len(),
            forall|i: int| 0 <= i < k ==> #[trigger] text@[i] != '`' && text@[i] != '<',
            forall|i: int|
                0 <= i < k && i + 2 < text@.len() ==> !(#[trigger] text@[i] == '~' && text@[i + 1]
                    == '~' && text@[i + 2] == '~'),
        decreases text@.len() - k,
    {
        if text[k] == '`' || text[k] == '<' {
            return true;
        }
        if text.len() - k > 2 && text[k] == '~' && text[k + 1] == '~' && text[k + 2] == '~' {
            assert(text@[k as int] == '~');
            return true;
        }
        k = k + 1;
    }
    false
}

/// Copy of `text` with fenced code, inline code, and HTML/XML blanked out.
///
/// Masked characters become spaces (newlines kept), one per UTF-8 byte, so
/// byte offsets are preserved. The text comes back unchanged when nothing can
/// open such a region.
pub fn mask_non_prose(text: &str) -> (out: String)
    ensures
        out@ == blanked(text@, mask_of(text@)),
        byte_len(out@) == byte_len(text@),
{
    let chars = chars_of(text);
    if !has_opener(&chars) {
        proof {
            lemma_unmasked_without_opener(text@);
        }
        return string_of(&chars);
    }
    let mask = mask_bits(&chars);
    let mut out = String::new();
    let mut i: usize = 0;
    while i < chars.len()
        invariant
            i <= chars@.len(),
            mask@.len() == chars@.len(),
            out@ == blanked(chars@.take(i as int), mask@),
        decreases chars@.len() - i,
    {
        let c = chars[i];
        proof {
            assert(chars@.take(i + 1).drop_last() =~= chars@.take(i as int));
            assert(chars@.take(i + 1).last() == c);
        }
        if mask[i] && c != '\n' {
            let n: usize = char_utf8_len(c);
            let mut k: usize = 0;
            let ghost before = out@;
            assert(before + Seq::new(0, |j: int| ' ') =~= before);
            while k < n
                invariant
                    k <= n,
                    out@ == before + Seq::new(k as nat, |j: int| ' '),
                decreases n - k,
            {
                out.push(' ');
                assert(before + Seq::new((k + 1) as nat, |j: int| ' ') =~= (before + Seq::new(
                    k as nat,
                    |j: int| ' ',
                )).push(' '));
                k = k + 1;
            }
        } else {
            out.push(c);
            assert(blanked(chars@.take(i as int), mask@) + seq![c] =~= blanked(
                chars@.take(i as int),
                mask@,
            ).push(c));
        }
        i = i + 1;
    }
    proof {
        assert(chars@.take(i as int) =~= chars@);
        law_masking_keeps_byte_offsets(text@, mask@, 0);
    }
    out
}

// ---------------------------------------------------------------------------
// Typed or pasted
// ---------------------------------------------------------------------------
/// UTF-16 units of the characters of `text` that are not white space.
pub open spec fn inked_units(text: Seq<char>) -> nat
    decreases text.len(),
{
    if text.len() == 0 {
        0
    } else {
        inked_units(text.drop_last()) + if js_space(text.last()) {
            0
        } else {
            utf16_units(text.last())
        }
    }
}

/// UTF-16 units of the characters of `text` that are not white space and that
/// the mask leaves.
pub open spec fn prose_units(text: Seq<char>, mask: Seq<bool>) -> nat
    decreases text.len(),
{
    if text.len() == 0 {
        0
    } else {
        prose_units(text.drop_last(), mask) + if js_space(text.last()) || mask[text.len() - 1] {
            0
        } else {
            utf16_units(text.last())
        }
    }
}

/// What survives the mask is part of what there was.
pub proof fn lemma_prose_units_bound(text: Seq<char>, mask: Seq<bool>)
    ensures
        prose_units(text, mask) <= inked_units(text) <= utf16_len(text),
    decreases text.len(),
{
    if text.len() > 0 {
        lemma_prose_units_bound(text.drop_last(), mask);
    }
}

/// The UTF-16 units of the non-white characters of `text` that survive
/// [`mask_non_prose`], and of all of them. Their quotient is the prose share of
/// the text.
pub fn prose_share(text: &str) -> (r: (usize, usize))
    ensures
        r.0 == prose_units(text@, mask_of(text@)),
        r.1 == inked_units(text@),
        r.0 <= r.1,
{
    let chars = chars_of(text);
    let mask = mask_bits(&chars);
    let mut prose: usize = 0;
    let mut total: usize = 0;
    let mut i: usize = 0;
    assert(chars@.take(0) =~= Seq::<char>::empty());
    while i < chars.len()
        invariant
            i <= chars@.len(),
            mask@.len() == chars@.len(),
            byte_len(chars@) <= usize::MAX,
            prose == prose_units(chars@.take(i as int), mask@),
            total == inked_units(chars@.take(i as int)),
            prose <= total,
        decreases chars@.len() - i,
    {
        let c = chars[i];
        proof {
            assert(chars@.take(i + 1).drop_last() =~= chars@.take(i as int));
            assert(chars@.take(i + 1).last() == c);
            lemma_prose_units_bound(chars@.take(i + 1), mask@);
            lemma_utf16_within_bytes(chars@.take(i + 1));
            lemma_byte_len_prefix(chars@, i + 1);
        }
        if !is_js_space(c) {
            let units: usize = char_utf16_len(c);
            total = total + units;
            if !mask[i] {
                prose = prose + units;
            }
        }
        i = i + 1;
    }
    assert(chars@.take(i as int) =~= chars@);
    (prose, total)
}

/// The first position at or after `i` that holds no white space.
pub open spec fn ink_start(text: Seq<char>, i: int) -> int
    decreases text.len() - i,
{
    if 0 <= i < text.len() && js_space(text[i]) {
        ink_start(text, i + 1)
    } else {
        i
    }
}

/// Behind leading white space the text starts with a slash.
pub open spec fn slash_command(text: Seq<char>) -> bool {
    let at = ink_start(text, 0);
    at < text.len() && text[at] == '/'
}

fn is_slash_command(text: &[char]) -> (r: bool)
    ensures
        r == slash_command(text@),
{
    let mut i: usize = 0;
    while i < text.len() && is_js_space(text[i])
        invariant
            i <= text@.len(),
            ink_start(text@, 0) == ink_start(text@, i as int),
        decreases text@.len() - i,
    {
        i = i + 1;
    }
    i < text.len() && text[i] == '/'
}

/// Shape rule for "a human typed this": 8 to `max` UTF-16 units, at most 25
/// lines of at most 600 units each, not a slash command, at least 60 % prose.
pub open spec fn typed_shape(prompt: Seq<char>, max: int) -> bool {
    let lines = line_spans(prompt, 0);
    &&& 8 <= utf16_len(prompt) <= max
    &&& lines.len() <= 25
    &&& forall|k: int|
        0 <= k < lines.len() ==> {
            let (a, b) = #[trigger] lines[k];
            utf16_len(prompt.subrange(a, b)) <= 600
        }
    &&& !slash_command(prompt)
    &&& inked_units(prompt) > 0
    &&& 5 * prose_units(prompt, mask_of(prompt)) >= 3 * inked_units(prompt)
}

fn looks_typed(prompt: &str, max: usize) -> (r: bool)
    requires
        max <= 5000,
    ensures
        r == typed_shape(prompt@, max as int),
{
    let chars = chars_of(prompt);
    let len = utf16_size(&chars);
    if len < 8 || len > max {
        return false;
    }
    let lines = line_ranges(&chars);
    let ghost spans = line_spans(prompt@, 0);
    proof {
        lemma_line_spans(prompt@, 0);
    }
    if lines.len() > 25 {
        return false;
    }
    let mut i: usize = 0;
    while i < lines.len()
        invariant
            i <= lines@.len(),
            chars@ == prompt@,
            byte_len(chars@) <= usize::MAX,
            spans == line_spans(prompt@, 0),
            span_view(lines@) == spans,
            forall|k: int|
                0 <= k < spans.len() ==> {
                    let (a, b) = #[trigger] spans[k];
                    0 <= a <= b <= prompt@.len()
                },
            forall|k: int|
                0 <= k < i ==> {
                    let (a, b) = #[trigger] spans[k];
                    utf16_len(prompt@.subrange(a, b)) <= 600
                },
        decreases lines@.len() - i,
    {
        let (a, b) = lines[i];
        assert(span_view(lines@)[i as int] == (a as int, b as int));
        let line: &[char] = &chars[a..b];
        proof {
            lemma_byte_len_sub(prompt@, a as int, b as int);
        }
        if utf16_size(line) > 600 {
            return false;
        }
        i = i + 1;
    }
    if is_slash_command(&chars) {
        return false;
    }
    let (prose, total) = prose_share(prompt);
    proof {
        lemma_prose_units_bound(prompt@, mask_of(prompt@));
    }
    total > 0 && 5 * prose >= 3 * total
}

proof fn lemma_byte_len_sub(s: Seq<char>, a: int, b: int)
    requires
        0 <= a <= b <= s.len(),
    ensures
        byte_len(s.subrange(a, b)) <= byte_len(s),
        byte_len(s.take(a)) + byte_len(s.subrange(a, b)) == byte_len(s.take(b)),
{
    lemma_byte_len_prefix(s, b);
    lemma_encode_concat(s.take(a), s.subrange(a, b));
    assert(s.take(a) + s.subrange(a, b) =~= s.take(b));
}

/// Typed rather than pasted: 8 to 1500 UTF-16 units, at most 25 lines, no line
/// over 600, not a slash command, at least 60 % prose.
pub fn is_typed_like(prompt: &str) -> (r: bool)
    ensures
        r == typed_shape(prompt@, 1500),
{
    looks_typed(prompt, 1500)
}

/// The paste filter for learned vocabulary: [`is_typed_like`] with a
/// 5000-unit cap, so long hand-written prompts still count.
pub fn is_learnable(prompt: &str) -> (r: bool)
    ensures
        r == typed_shape(prompt@, 5000),
{
    looks_typed(prompt, 5000)
}

/// Every prompt that looks typed is learnable.
pub proof fn law_typed_is_learnable(prompt: Seq<char>)
    requires
        typed_shape(prompt, 1500),
    ensures
        typed_shape(prompt, 5000),
{
}

// ---------------------------------------------------------------------------
// Words
// ---------------------------------------------------------------------------
/// One completable prose word of a prompt.
#[derive(Clone, Copy, Debug, PartialEq, Eq, Structural)]
pub struct ProseWord {
    /// Byte offset of the word in the prompt.
    pub start: usize,
    /// Byte offset just past the word.
    pub end: usize,
}

/// The first word character at or after `i`.
pub open spec fn word_start(line: Seq<char>, i: int) -> int
    decreases line.len() - i,
{
    if 0 <= i < line.len() && !word_char(line[i]) {
        word_start(line, i + 1)
    } else {
        i
    }
}

/// End of the run of word characters that starts at `i`.
pub open spec fn word_stop(line: Seq<char>, i: int) -> int
    decreases line.len() - i,
{
    if 0 <= i < line.len() && word_char(line[i]) {
        word_stop(line, i + 1)
    } else {
        i
    }
}

pub proof fn lemma_word_edges(line: Seq<char>, i: int)
    requires
        0 <= i <= line.len(),
    ensures
        i <= word_start(line, i) <= line.len(),
        i <= word_stop(line, i) <= line.len(),
        word_start(line, i) < line.len() ==> word_char(line[word_start(line, i)]),
        forall|k: int| i <= k < word_start(line, i) ==> !word_char(#[trigger] line[k]),
        forall|k: int| i <= k < word_stop(line, i) ==> word_char(#[trigger] line[k]),
        word_stop(line, i) < line.len() ==> !word_char(line[word_stop(line, i)]),
        i < line.len() && word_char(line[i]) ==> i < word_stop(line, i),
    decreases line.len() - i,
{
    if i < line.len() {
        lemma_word_edges(line, i + 1);
    }
}

/// The maximal runs of word characters from `i` on.
pub open spec fn spans_from(line: Seq<char>, i: int) -> Seq<(int, int)>
    decreases line.len() - i,
    when 0 <= i <= line.len()
{
    proof {
        lemma_word_edges(line, i);
        lemma_word_edges(line, word_start(line, i));
    }
    let start = word_start(line, i);
    if start >= line.len() {
        Seq::empty()
    } else {
        let end = word_stop(line, start);
        seq![(start, end)] + spans_from(line, end)
    }
}

/// `[\p{L}\p{M}']+` matches of `line`, as ranges of characters.
pub fn word_spans(line: &[char], letters: &mut Letters) -> (spans: Vec<(usize, usize)>)
    ensures
        span_view(spans@) == spans_from(line@, 0),
        spans@.len() <= line@.len(),
        forall|k: int|
            0 <= k < spans@.len() ==> #[trigger] spans@[k].0 < spans@[k].1 <= line@.len(),
{
    let mut spans: Vec<(usize, usize)> = Vec::new();
    let mut i: usize = 0;
    assert(span_view(spans@) + spans_from(line@, 0) =~= spans_from(line@, 0));
    loop
        invariant
            i <= line@.len(),
            span_view(spans@) + spans_from(line@, i as int) == spans_from(line@, 0),
            spans@.len() <= i,
            forall|k: int|
                0 <= k < spans@.len() ==> #[trigger] spans@[k].0 < spans@[k].1 <= line@.len(),
        decreases line@.len() - i,
    {
        let mut start: usize = i;
        while start < line.len() && !letters.has_word(line[start])
            invariant
                i <= start <= line@.len(),
                word_start(line@, i as int) == word_start(line@, start as int),
            decreases line@.len() - start,
        {
            start = start + 1;
        }
        if start >= line.len() {
            assert(span_view(spans@) + Seq::<(int, int)>::empty() =~= span_view(spans@));
            return spans;
        }
        let mut end: usize = start;
        while end < line.len() && letters.has_word(line[end])
            invariant
                start <= end <= line@.len(),
                word_stop(line@, start as int) == word_stop(line@, end as int),
            decreases line@.len() - end,
        {
            end = end + 1;
        }
        let ghost before = spans@;
        proof {
            lemma_word_edges(line@, start as int);
        }
        spans.push((start, end));
        assert(span_view(spans@) =~= span_view(before).push((start as int, end as int)));
        assert(span_view(spans@) + spans_from(line@, end as int) =~= span_view(before)
            + spans_from(line@, i as int));
        i = end;
    }
}

/// Some character of the range survives the mask and is not white space.
pub open spec fn survives(text: Seq<char>, mask: Seq<bool>, start: int, end: int) -> bool {
    exists|k: int| start <= k < end && !mask[k] && !js_space(#[trigger] text[k])
}

fn range_survives(text: &[char], mask: &Vec<bool>, start: usize, end: usize) -> (r: bool)
    requires
        start <= end <= text@.len(),
        mask@.len() == text@.len(),
    ensures
        r == survives(text@, mask@, start as int, end as int),
{
    let mut k: usize = start;
    while k < end
        invariant
            start <= k <= end <= text@.len(),
            mask@.len() == text@.len(),
            forall|i: int| start <= i < k ==> mask@[i] || js_space(#[trigger] text@[i]),
        decreases end - k,
    {
        if !mask[k] && !is_js_space(text[k]) {
            assert(!js_space(text@[k as int]));
            return true;
        }
        k = k + 1;
    }
    false
}

/// A range survives the mask exactly where its text in the masked copy is not
/// blank.
pub proof fn law_survives_iff_not_blank(text: Seq<char>, mask: Seq<bool>, start: int, end: int)
    requires
        0 <= start <= end <= text.len(),
        mask.len() == text.len(),
    ensures
        survives(text, mask, start, end) <==> !blank(
            blanked(text.subrange(start, end), mask.subrange(start, end)),
        ),
    decreases end - start,
{
    let part = text.subrange(start, end);
    let pmask = mask.subrange(start, end);
    if start < end {
        law_survives_iff_not_blank(text, mask, start, end - 1);
        let head = text.subrange(start, end - 1);
        let hmask = mask.subrange(start, end - 1);
        assert(part.drop_last() =~= head);
        lemma_blanked_mask_prefix(head, pmask, hmask);
        let piece = shown(part.last(), pmask[part.len() - 1]);
        let all = blanked(part, pmask);
        assert(all =~= blanked(head, hmask) + piece);
        assert(part.last() == text[end - 1]);
        assert(pmask[part.len() - 1] == mask[end - 1]);
        let prior = blanked(head, hmask);
        if blank(all) {
            assert forall|k: int| 0 <= k < prior.len() implies js_space(#[trigger] prior[k]) by {
                assert(all[k] == prior[k]);
            }
            assert(piece.len() > 0) by {
                lemma_encode_push(Seq::empty(), part.last());
            }
            assert(all[prior.len() as int] == piece[0]);
            assert(mask[end - 1] || js_space(text[end - 1]));
            if survives(text, mask, start, end) {
                let k = choose|k: int| start <= k < end && !mask[k] && !js_space(#[trigger] text[k]);
                assert(survives(text, mask, start, end - 1));
            }
        } else {
            let k = choose|k: int| 0 <= k < all.len() && !js_space(#[trigger] all[k]);
            if k < prior.len() {
                assert(prior[k] == all[k]);
                assert(survives(text, mask, start, end - 1));
                let j = choose|j: int|
                    start <= j < end - 1 && !mask[j] && !js_space(#[trigger] text[j]);
                assert(survives(text, mask, start, end));
            } else {
                assert(all[k] == piece[k - prior.len()]);
                assert(!mask[end - 1] && !js_space(text[end - 1]));
            }
        }
    } else {
        assert(part =~= Seq::<char>::empty());
    }
}

/// Start of the white-space-delimited token around `i`: behind the last white
/// space before `i`.
pub open spec fn token_start(line: Seq<char>, i: int) -> int
    decreases i,
{
    if 0 < i <= line.len() && !js_space(line[i - 1]) {
        token_start(line, i - 1)
    } else {
        i
    }
}

/// End of the white-space-delimited token around `i`.
pub open spec fn token_end(line: Seq<char>, i: int) -> int
    decreases line.len() - i,
{
    if 0 <= i < line.len() && !js_space(line[i]) {
        token_end(line, i + 1)
    } else {
        i
    }
}

/// No code characters, digits or camelCase between `a` and `b`.
pub open spec fn plain_token(line: Seq<char>, a: int, b: int) -> bool {
    &&& forall|k: int| a <= k < b ==> !codeish(#[trigger] line[k]) && !ascii_digit(line[k])
    &&& forall|k: int| a < k < b ==> !(uppercase(#[trigger] line[k]) && lowercase(line[k - 1]))
}

/// The two characters `first`, then `>`, start the line.
pub open spec fn starts_arrow(line: Seq<char>) -> bool {
    line.len() >= 2 && (line[0] == '-' || line[0] == '=') && line[1] == '>'
}

/// The word from `start` to `end` is prose of its line: it survives the mask,
/// its token has no code characters, digits or camelCase, and the line is
/// neither a slash command nor an arrow.
pub open spec fn prose_word(line: Seq<char>, mask: Seq<bool>, start: int, end: int) -> bool {
    &&& survives(line, mask, start, end)
    &&& plain_token(line, token_start(line, start), token_end(line, end))
    &&& !slash_command(line)
    &&& !starts_arrow(line)
}

/// Whether the word from `start` to `end` is prose of its line.
pub fn is_prose_word(line: &[char], mask: &Vec<bool>, start: usize, end: usize) -> (r: bool)
    requires
        start <= end <= line@.len(),
        mask@.len() == line@.len(),
    ensures
        r == prose_word(line@, mask@, start as int, end as int),
{
    if !range_survives(line, mask, start, end) {
        return false;
    }
    let mut a: usize = start;
    while a > 0 && !is_js_space(line[a - 1])
        invariant
            a <= start <= line@.len(),
            token_start(line@, start as int) == token_start(line@, a as int),
        decreases a,
    {
        a = a - 1;
    }
    let mut b: usize = end;
    while b < line.len() && !is_js_space(line[b])
        invariant
            end <= b <= line@.len(),
            token_end(line@, end as int) == token_end(line@, b as int),
        decreases line@.len() - b,
    {
        b = b + 1;
    }
    let mut k: usize = a;
    while k < b
        invariant
            a <= k <= b <= line@.len(),
            forall|i: int| a <= i < k ==> !codeish(#[trigger] line@[i]) && !ascii_digit(line@[i]),
            forall|i: int|
                a < i < k ==> !(uppercase(#[trigger] line@[i]) && lowercase(line@[i - 1])),
            a == token_start(line@, start as int),
            b == token_end(line@, end as int),
        decreases b - k,
    {
        let c = line[k];
        if is_codeish(c) || is_ascii_digit(c) {
            assert(codeish(line@[k as int]) || ascii_digit(line@[k as int]));
            return false;
        }
        if k > a && c.is_uppercase() && line[k - 1].is_lowercase() {
            assert(uppercase(line@[k as int]));
            return false;
        }
        k = k + 1;
    }
    !is_slash_command(line) && !(line.len() >= 2 && (line[0] == '-' || line[0] == '=') && line[1]
        == '>')
}

/// The prose words among the first `j` word spans of the line at `base`.
pub open spec fn kept_words(prompt: Seq<char>, mask: Seq<bool>, base: int, stop: int, j: int) -> Seq<
    ProseWord,
>
    decreases j,
{
    let line = prompt.subrange(base, stop);
    let spans = spans_from(line, 0);
    if j <= 0 {
        Seq::empty()
    } else {
        let (start, end) = spans[j - 1];
        let prior = kept_words(prompt, mask, base, stop, j - 1);
        if prose_word(line, mask_of(line), start, end) && survives(
            prompt,
            mask,
            base + start,
            base + end,
        ) {
            prior.push(
                ProseWord {
                    start: byte_len(prompt.take(base + start)) as usize,
                    end: byte_len(prompt.take(base + end)) as usize,
                },
            )
        } else {
            prior
        }
    }
}

/// The prose words of the first `k` lines.
pub open spec fn words_of_lines(prompt: Seq<char>, k: int) -> Seq<ProseWord>
    decreases k,
{
    if k <= 0 {
        Seq::empty()
    } else {
        let (base, stop) = line_spans(prompt, 0)[k - 1];
        let line = prompt.subrange(base, stop);
        words_of_lines(prompt, k - 1) + if utf16_len(line) <= MAX_LINE {
            kept_words(prompt, mask_of(prompt), base, stop, spans_from(line, 0).len() as int)
        } else {
            Seq::empty()
        }
    }
}

/// The completable words of a prompt.
pub open spec fn words_of(prompt: Seq<char>) -> Seq<ProseWord> {
    if utf16_len(prompt) > MAX_BUFFER {
        Seq::empty()
    } else {
        words_of_lines(prompt, line_spans(prompt, 0).len() as int)
    }
}

/// Every word of `prompt` the editor would offer completion for: line-level
/// prose gates, the whole-buffer prose mask, and the buffer and line caps.
pub fn prose_words(prompt: &str) -> (out: Vec<ProseWord>)
    ensures
        out@ == words_of(prompt@),
        out@.len() <= prompt@.len(),
        forall|k: int|
            0 <= k < out@.len() ==> at_boundary(prompt@, (#[trigger] out@[k]).start as int)
                && at_boundary(prompt@, out@[k].end as int) && out@[k].start < out@[k].end,
{
    let chars = chars_of(prompt);
    let mut out: Vec<ProseWord> = Vec::new();
    if utf16_size(&chars) > MAX_BUFFER {
        return out;
    }
    let offsets = byte_offsets(&chars);
    let mask = mask_bits(&chars);
    let lines = line_ranges(&chars);
    let mut letters = Letters::new();
    let ghost spans = line_spans(prompt@, 0);
    proof {
        lemma_line_spans(prompt@, 0);
    }
    let mut i: usize = 0;
    while i < lines.len()
        invariant
            i <= lines@.len(),
            chars@ == prompt@,
            byte_len(chars@) <= usize::MAX,
            mask@ == mask_of(prompt@),
            mask@.len() == chars@.len(),
            offsets@.len() == chars@.len() + 1,
            forall|k: int|
                0 <= k <= chars@.len() ==> #[trigger] offsets@[k] == byte_len(chars@.take(k)),
            spans == line_spans(prompt@, 0),
            span_view(lines@) == spans,
            forall|k: int|
                0 <= k < spans.len() ==> {
                    let (a, b) = #[trigger] spans[k];
                    0 <= a <= b <= prompt@.len()
                },
            out@ == words_of_lines(prompt@, i as int),
            forall|j: int, k: int|
                #![trigger spans[j], spans[k]]
                0 <= j < k < spans.len() ==> spans[j].1 < spans[k].0,
            out@.len() <= (if i < spans.len() {
                spans[i as int].0
            } else {
                prompt@.len() as int
            }),
            forall|k: int|
                0 <= k < out@.len() ==> at_boundary(prompt@, (#[trigger] out@[k]).start as int)
                    && at_boundary(prompt@, out@[k].end as int) && out@[k].start < out@[k].end,
        decreases lines@.len() - i,
    {
        let (base, stop) = lines[i];
        assert(span_view(lines@)[i as int] == (base as int, stop as int));
        let line: &[char] = &chars[base..stop];
        proof {
            lemma_byte_len_sub(prompt@, base as int, stop as int);
        }
        let ghost prior = out@;
        if utf16_size(line) <= MAX_LINE {
            let line_mask = mask_bits(line);
            let words = word_spans(line, &mut letters);
            let mut j: usize = 0;
            assert(prior + Seq::<ProseWord>::empty() =~= prior);
            while j < words.len()
                invariant
                    j <= words@.len(),
                    chars@ == prompt@,
                    mask@ == mask_of(prompt@),
                    mask@.len() == chars@.len(),
                    offsets@.len() == chars@.len() + 1,
                    forall|k: int|
                        0 <= k <= chars@.len() ==> #[trigger] offsets@[k] == byte_len(
                            chars@.take(k),
                        ),
                    base <= stop <= chars@.len(),
                    line@ == prompt@.subrange(base as int, stop as int),
                    line_mask@ == mask_of(line@),
                    line_mask@.len() == line@.len(),
                    span_view(words@) == spans_from(line@, 0),
                    forall|k: int|
                        0 <= k < words@.len() ==> #[trigger] words@[k].0 < words@[k].1
                            <= line@.len(),
                    out@ == prior + kept_words(prompt@, mask@, base as int, stop as int, j as int),
                    out@.len() <= prior.len() + j,
                    forall|k: int|
                        0 <= k < out@.len() ==> at_boundary(
                            prompt@,
                            (#[trigger] out@[k]).start as int,
                        ) && at_boundary(prompt@, out@[k].end as int) && out@[k].start
                            < out@[k].end,
                decreases words@.len() - j,
            {
                let (start, end) = words[j];
                assert(span_view(words@)[j as int] == (start as int, end as int));
                let ghost kept = kept_words(prompt@, mask@, base as int, stop as int, j as int);
                if is_prose_word(line, &line_mask, start, end) && range_survives(
                    &chars,
                    &mask,
                    base + start,
                    base + end,
                ) {
                    let word = ProseWord { start: offsets[base + start], end: offsets[base + end] };
                    proof {
                        assert((prior + kept).push(word) =~= prior + kept.push(word));
                        lemma_chars_before(prompt@, word.start as int, base + start);
                        lemma_chars_before(prompt@, word.end as int, base + end);
                        lemma_byte_len_monotone(prompt@, base + start, base + end);
                    }
                    out.push(word);
                }
                j = j + 1;
            }
        } else {
            assert(prior + Seq::<ProseWord>::empty() =~= prior);
        }
        proof {
            assert(spans[i as int] == (base as int, stop as int));
            if i + 1 < spans.len() {
                assert(spans[i as int].1 < spans[i + 1].0);
            }
        }
        i = i + 1;
    }
    out
}

} // verus!
