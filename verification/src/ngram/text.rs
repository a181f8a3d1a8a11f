//! Left context shared by learning and completion, so both see the same
//! history: the previous one or two prose words, a sentence start, or nothing
//! when code, digits, or markup break the chain.

use crate::prose::{word_char, Letters};
use crate::unicode::{
    at_boundary, byte_len, char_position, char_utf8_len, chars_before, chars_of, lemma_encode_push,
    lower_all, lower_chars_text, lower_form, lower_form_of, string_of, utf8_len,
};
use vstd::prelude::*;

verus! {

/// How far back (in characters) a gap between two words may reach.
pub const MAX_GAP: usize = 64;

/// One side of a left context.
#[derive(Clone, Copy, Debug, PartialEq, Eq, Structural)]
pub enum Slot {
    /// Unknown: code or symbols broke the chain.
    Unknown,
    /// Sentence or line start.
    Bos,
    /// A prose word, lowercased into the caller's buffer.
    Word,
}

/// Left context of a word: `v` is the word right before it, `u` the one before
/// `v`.
#[derive(Clone, Copy, Debug, PartialEq, Eq, Structural)]
pub struct Context {
    pub u: Slot,
    pub v: Slot,
}

/// What the characters between two words say about their connection.
#[derive(Clone, Copy, Debug, PartialEq, Eq, Structural)]
pub enum Gap {
    /// One sentence.
    Join,
    /// A sentence ends in between.
    Stop,
    /// No prose connection.
    Break,
}

/// Characters a prose token may be wrapped in: `( ) " *` and curly quotes.
pub open spec fn soft_wrap(c: char) -> bool {
    ||| c == '('
    ||| c == ')'
    ||| c == '"'
    ||| c == '*'
    ||| c == '\u{201C}'
    ||| c == '\u{201D}'
    ||| c == '\u{2018}'
    ||| c == '\u{2019}'
}

/// Whether a prose token may be wrapped in `c`.
pub fn is_soft_wrap(c: char) -> (r: bool)
    ensures
        r == soft_wrap(c),
{
    c == '(' || c == ')' || c == '"' || c == '*' || c == '\u{201C}' || c == '\u{201D}' || c
        == '\u{2018}' || c == '\u{2019}'
}

/// Characters that end a sentence or line.
pub open spec fn stops(c: char) -> bool {
    c == '\n' || c == '.' || c == '!' || c == '?' || c == ':'
}

/// Characters that keep two words in one sentence.
pub open spec fn joins(c: char) -> bool {
    c == ' ' || c == '\t' || c == ',' || c == ';' || c == '-' || c == '\u{2013}' || c == '\u{2014}'
        || soft_wrap(c)
}

/// A gap with a character that neither joins nor stops breaks the chain; else
/// one that stops ends the sentence; else the words join.
pub open spec fn gap_kind(s: Seq<char>, a: int, b: int) -> Gap {
    if exists|k: int| a <= k < b && !joins(#[trigger] s[k]) && !stops(s[k]) {
        Gap::Break
    } else if exists|k: int| a <= k < b && stops(#[trigger] s[k]) {
        Gap::Stop
    } else {
        Gap::Join
    }
}

/// Classifies the characters from `a` up to `b`.
pub fn classify_gap(s: &[char], a: usize, b: usize) -> (kind: Gap)
    requires
        a <= b <= s@.len(),
    ensures
        kind == gap_kind(s@, a as int, b as int),
{
    let mut kind: Gap = Gap::Join;
    let mut k: usize = a;
    while k < b
        invariant
            a <= k <= b <= s@.len(),
            kind == Gap::Join || kind == Gap::Stop,
            forall|i: int| a <= i < k ==> joins(#[trigger] s@[i]) || stops(s@[i]),
            kind == Gap::Stop ==> exists|i: int| a <= i < k && stops(#[trigger] s@[i]),
            kind == Gap::Join ==> forall|i: int| a <= i < k ==> !stops(#[trigger] s@[i]),
        decreases b - k,
    {
        let c = s[k];
        if c == '\n' || c == '.' || c == '!' || c == '?' || c == ':' {
            assert(stops(s@[k as int]));
            kind = Gap::Stop;
        } else if !(c == ' ' || c == '\t' || c == ',' || c == ';' || c == '-' || c == '\u{2013}'
            || c == '\u{2014}' || is_soft_wrap(c)) {
            assert(!joins(s@[k as int]) && !stops(s@[k as int]));
            return Gap::Break;
        }
        k = k + 1;
    }
    kind
}

/// Start of the gap ending at `at`: back over at most `left` characters that
/// are no word characters.
pub open spec fn gap_from(s: Seq<char>, at: int, left: int) -> int
    decreases at,
{
    if at <= 0 || left <= 0 || word_char(s[at - 1]) {
        at
    } else {
        gap_from(s, at - 1, left - 1)
    }
}

/// Start of the gap ending at `end`: walks back over non-word characters, at
/// most [`MAX_GAP`] of them.
pub fn gap_start(s: &[char], end: usize, letters: &mut Letters) -> (at: usize)
    requires
        end <= s@.len(),
    ensures
        at == gap_from(s@, end as int, MAX_GAP as int),
        at <= end,
{
    let mut at: usize = end;
    let mut left: usize = MAX_GAP;
    while at > 0 && left > 0 && !letters.has_word(s[at - 1])
        invariant
            at <= end <= s@.len(),
            gap_from(s@, end as int, MAX_GAP as int) == gap_from(s@, at as int, left as int),
        decreases at,
    {
        at = at - 1;
        left = left - 1;
    }
    at
}

/// Start of the run of word characters that ends at `at`.
pub open spec fn run_back(s: Seq<char>, at: int) -> int
    decreases at,
{
    if at <= 0 || !word_char(s[at - 1]) {
        at
    } else {
        run_back(s, at - 1)
    }
}

/// A lower-case ASCII letter right before an upper-case one.
pub open spec fn camel(s: Seq<char>, a: int, b: int) -> bool {
    exists|k: int| a < k < b && 'A' <= #[trigger] s[k] <= 'Z' && 'a' <= s[k - 1] <= 'z'
}

/// Start of the prose word ending at `end`, or nothing when there is none or
/// the token looks like code (glued to a symbol, camelCase).
pub open spec fn prose_word_start(s: Seq<char>, end: int) -> Option<int> {
    let start = run_back(s, end);
    if start == end {
        None
    } else if start > 0 && !(s[start - 1] == ' ' || s[start - 1] == '\t' || s[start - 1] == '\n'
        || s[start - 1] == '-' || soft_wrap(s[start - 1])) {
        None
    } else if camel(s, start, end) {
        None
    } else {
        Some(start)
    }
}

/// Start of the prose word ending at `end`, or nothing when there is none or
/// the token looks like code (glued to a symbol, camelCase).
pub fn word_ending_at(s: &[char], end: usize, letters: &mut Letters) -> (r: Option<usize>)
    requires
        end <= s@.len(),
    ensures
        match r {
            Some(start) => prose_word_start(s@, end as int) == Some(start as int) && start < end,
            None => prose_word_start(s@, end as int) is None,
        },
{
    let mut start: usize = end;
    while start > 0 && letters.has_word(s[start - 1])
        invariant
            start <= end <= s@.len(),
            run_back(s@, end as int) == run_back(s@, start as int),
        decreases start,
    {
        start = start - 1;
    }
    if start == end {
        return None;
    }
    if start > 0 {
        let c = s[start - 1];
        if !(c == ' ' || c == '\t' || c == '\n' || c == '-' || is_soft_wrap(c)) {
            return None;
        }
    }
    let mut k: usize = start + 1;
    while k < end
        invariant
            start < k <= end <= s@.len(),
            start == run_back(s@, end as int),
            forall|i: int|
                start < i < k ==> !('A' <= #[trigger] s@[i] <= 'Z' && 'a' <= s@[i - 1] <= 'z'),
        decreases end - k,
    {
        let c = s[k];
        let p = s[k - 1];
        if 'A' <= c && c <= 'Z' && 'a' <= p && p <= 'z' {
            assert(s@[k as int] == c);
            return None;
        }
        k = k + 1;
    }
    Some(start)
}

/// The left context that the text `s` gives the word behind it, with the two
/// words it names.
pub open spec fn context_of(s: Seq<char>) -> (Context, Seq<char>, Seq<char>) {
    let none = Seq::<char>::empty();
    let g1 = gap_from(s, s.len() as int, MAX_GAP as int);
    if g1 == 0 || gap_kind(s, g1, s.len() as int) == Gap::Stop {
        (Context { u: Slot::Unknown, v: Slot::Bos }, none, none)
    } else if gap_kind(s, g1, s.len() as int) == Gap::Break {
        (Context { u: Slot::Unknown, v: Slot::Unknown }, none, none)
    } else {
        match prose_word_start(s, g1) {
            None => (Context { u: Slot::Unknown, v: Slot::Unknown }, none, none),
            Some(prev) => {
                let v = lower_chars_text(s.subrange(prev, g1));
                let g2 = gap_from(s, prev, MAX_GAP as int);
                if g2 == 0 || gap_kind(s, g2, prev) == Gap::Stop {
                    (Context { u: Slot::Bos, v: Slot::Word }, none, v)
                } else if gap_kind(s, g2, prev) == Gap::Break {
                    (Context { u: Slot::Unknown, v: Slot::Word }, none, v)
                } else {
                    match prose_word_start(s, g2) {
                        None => (Context { u: Slot::Unknown, v: Slot::Word }, none, v),
                        Some(first) => (
                            Context { u: Slot::Word, v: Slot::Word },
                            lower_chars_text(s.subrange(first, g2)),
                            v,
                        ),
                    }
                }
            },
        }
    }
}

/// The left context that the text `s` gives the word behind it, with the two
/// words it names, lowercased.
pub fn context_at(s: &[char], letters: &mut Letters) -> (r: (Context, Vec<char>, Vec<char>))
    ensures
        (r.0, r.1@, r.2@) == context_of(s@),
{
    let end: usize = s.len();
    let none: Vec<char> = Vec::new();
    let g1 = gap_start(s, end, letters);
    if g1 == 0 {
        return (Context { u: Slot::Unknown, v: Slot::Bos }, Vec::new(), none);
    }
    match classify_gap(s, g1, end) {
        Gap::Break => {
            return (Context { u: Slot::Unknown, v: Slot::Unknown }, Vec::new(), none);
        },
        Gap::Stop => {
            return (Context { u: Slot::Unknown, v: Slot::Bos }, Vec::new(), none);
        },
        Gap::Join => {},
    }
    let prev: usize = match word_ending_at(s, g1, letters) {
        None => {
            return (Context { u: Slot::Unknown, v: Slot::Unknown }, Vec::new(), none);
        },
        Some(prev) => prev,
    };
    let v = lower_all(&s[prev..g1]);
    let g2 = gap_start(s, prev, letters);
    if g2 == 0 {
        return (Context { u: Slot::Bos, v: Slot::Word }, none, v);
    }
    match classify_gap(s, g2, prev) {
        Gap::Break => (Context { u: Slot::Unknown, v: Slot::Word }, none, v),
        Gap::Stop => (Context { u: Slot::Bos, v: Slot::Word }, none, v),
        Gap::Join => match word_ending_at(s, g2, letters) {
            None => (Context { u: Slot::Unknown, v: Slot::Word }, none, v),
            Some(first) => (Context { u: Slot::Word, v: Slot::Word }, lower_all(&s[first..g2]), v),
        },
    }
}

/// Left context of the word starting at byte `end` of `text`. Word slots are
/// lowercased into `u` and `v`; the other buffers stay as they are.
pub fn context_before(text: &str, end: usize, u: &mut String, v: &mut String) -> (context: Context)
    requires
        at_boundary(text@, end as int),
    ensures
        context == context_of(text@.take(chars_before(text@, end as int))).0,
        final(u)@ == (if context.u == Slot::Word {
            context_of(text@.take(chars_before(text@, end as int))).1
        } else {
            old(u)@
        }),
        final(v)@ == (if context.v == Slot::Word {
            context_of(text@.take(chars_before(text@, end as int))).2
        } else {
            old(v)@
        }),
{
    let chars = chars_of(text);
    let k = char_position(&chars, end);
    let before: &[char] = &chars[0..k];
    assert(before@ =~= text@.take(k as int));
    let mut letters = Letters::new();
    let (context, first, second) = context_at(before, &mut letters);
    if context.u == Slot::Word {
        *u = string_of(&first);
    }
    if context.v == Slot::Word {
        *v = string_of(&second);
    }
    context
}

/// Lowercase `text` into `out`.
pub fn lowercase_into(text: &str, out: &mut String)
    ensures
        final(out)@ == lower_chars_text(text@),
{
    let chars = chars_of(text);
    let lower = lower_all(&chars);
    *out = string_of(&lower);
}

/// Case "tail" of a surface form: the word with its first letter lowercased.
pub open spec fn case_tail(surface: Seq<char>) -> Seq<char> {
    if surface.len() == 0 {
        surface
    } else {
        lower_form(surface[0]) + surface.skip(1)
    }
}

/// The case tail of `surface`, as characters.
pub fn case_tail_chars(surface: &[char]) -> (tail: Vec<char>)
    ensures
        tail@ == case_tail(surface@),
{
    if surface.len() == 0 {
        let tail: Vec<char> = Vec::new();
        assert(tail@ =~= case_tail(surface@));
        return tail;
    }
    let mut tail = lower_form_of(surface[0]);
    let ghost first = tail@;
    let mut i: usize = 1;
    assert(first + surface@.subrange(1, 1) =~= first);
    while i < surface.len()
        invariant
            1 <= i <= surface@.len(),
            tail@ == first + surface@.subrange(1, i as int),
        decreases surface@.len() - i,
    {
        tail.push(surface[i]);
        assert(first + surface@.subrange(1, i + 1) =~= (first + surface@.subrange(
            1,
            i as int,
        )).push(surface@[i as int]));
        i = i + 1;
    }
    assert(surface@.subrange(1, i as int) =~= surface@.skip(1));
    tail
}

/// Case "tail" of a surface form: the word with its first letter lowercased.
/// Sentence-initial capitals are positional, so only the tail identifies a
/// word's own casing (`API`, `PRs`, `OAuth`).
pub fn case_tail_into(surface: &str, out: &mut String)
    ensures
        final(out)@ == case_tail(surface@),
{
    let chars = chars_of(surface);
    let tail = case_tail_chars(&chars);
    *out = string_of(&tail);
}

/// The lower-case form of `c` when that is one character of the same size.
pub open spec fn aligned_lower(c: char) -> char {
    if lower_form(c).len() == 1 && utf8_len(lower_form(c)[0]) == utf8_len(c) {
        lower_form(c)[0]
    } else {
        c
    }
}

/// Lowercase `text` into `out` keeping byte offsets: characters whose
/// lowercase form has a different UTF-8 length are kept as typed.
pub fn lowercase_aligned(text: &[char]) -> (out: Vec<char>)
    ensures
        out@ == text@.map_values(|c: char| aligned_lower(c)),
{
    let mut out: Vec<char> = Vec::new();
    let mut i: usize = 0;
    while i < text.len()
        invariant
            i <= text@.len(),
            out@.len() == i,
            forall|k: int| 0 <= k < i ==> out@[k] == aligned_lower(text@[k]),
        decreases text@.len() - i,
    {
        let c = text[i];
        let form = lower_form_of(c);
        if form.len() == 1 && char_utf8_len(form[0]) == char_utf8_len(c) {
            out.push(form[0]);
        } else {
            out.push(c);
        }
        i = i + 1;
    }
    assert(out@ =~= text@.map_values(|c: char| aligned_lower(c)));
    out
}

/// Aligned lower-casing keeps every byte offset.
pub proof fn law_aligned_lower_keeps_offsets(text: Seq<char>, k: int)
    requires
        0 <= k <= text.len(),
    ensures
        byte_len(text.map_values(|c: char| aligned_lower(c)).take(k)) == byte_len(text.take(k)),
    decreases k,
{
    let low = text.map_values(|c: char| aligned_lower(c));
    if k > 0 {
        law_aligned_lower_keeps_offsets(text, k - 1);
        lemma_encode_push(text.take(k - 1), text[k - 1]);
        lemma_encode_push(low.take(k - 1), low[k - 1]);
        assert(text.take(k - 1).push(text[k - 1]) =~= text.take(k));
        assert(low.take(k - 1).push(low[k - 1]) =~= low.take(k));
    } else {
        assert(low.take(0) =~= text.take(0));
    }
}

} // verus!
