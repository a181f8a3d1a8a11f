//! What the left context of a word is, said of the text before it.

use crate::ngram::text::{
    camel, context_of, gap_from, gap_kind, joins, prose_word_start, run_back, stops, Context, Gap, Slot,
};
use crate::prose::word_char;
use crate::unicode::lower_chars_text;
use vstd::prelude::*;

verus! {

/// Quotes, brackets and stars that prose is wrapped in.
pub open spec fn wraps(c: char) -> bool {
    c == '(' || c == ')' || c == '"' || c == '*' || c == '\u{201C}' || c == '\u{201D}' || c
        == '\u{2018}' || c == '\u{2019}'
}

/// Between two words of one sentence.
pub open spec fn stays_in_sentence(c: char) -> bool {
    c == ' ' || c == '\t' || c == ',' || c == ';' || c == '-' || c == '\u{2013}' || c == '\u{2014}'
        || wraps(c)
}

/// Between two sentences.
pub open spec fn ends_sentence(c: char) -> bool {
    c == '\n' || c == '.' || c == '!' || c == '?' || c == ':'
}

/// The characters from `p` up to `g` are a whole run of letters.
pub open spec fn whole_word(s: Seq<char>, p: int, g: int) -> bool {
    &&& 0 <= p < g <= s.len()
    &&& forall|k: int| p <= k < g ==> word_char(#[trigger] s[k])
    &&& p > 0 ==> !word_char(s[p - 1])
}

/// The run from `p` up to `g` reads as prose: it stands at the start, behind
/// white space, a hyphen or a wrapping character, and no capital follows a small
/// letter.
pub open spec fn reads_as_prose(s: Seq<char>, p: int, g: int) -> bool {
    &&& p > 0 ==> s[p - 1] == ' ' || s[p - 1] == '\t' || s[p - 1] == '\n' || s[p - 1] == '-' || wraps(
        s[p - 1],
    )
    &&& forall|k: int|
        p < k < g ==> !('A' <= #[trigger] s[k] <= 'Z' && 'a' <= s[k - 1] <= 'z')
}

proof fn lemma_gap_from(s: Seq<char>, at: int, left: int, g: int)
    requires
        0 <= g <= at <= s.len(),
        at - g <= left,
        forall|k: int| g <= k < at ==> !word_char(#[trigger] s[k]),
        g == 0 || word_char(s[g - 1]) || at - g == left,
    ensures
        gap_from(s, at, left) == g,
    decreases at,
{
    if g < at {
        assert(!word_char(s[at - 1]));
        lemma_gap_from(s, at - 1, left - 1, g);
    }
}

proof fn lemma_run_back(s: Seq<char>, at: int, p: int)
    requires
        0 <= p <= at <= s.len(),
        forall|k: int| p <= k < at ==> word_char(#[trigger] s[k]),
        p == 0 || !word_char(s[p - 1]),
    ensures
        run_back(s, at) == p,
    decreases at,
{
    if p < at {
        assert(word_char(s[at - 1]));
        lemma_run_back(s, at - 1, p);
    }
}

proof fn lemma_reads_as_prose(s: Seq<char>, p: int, g: int)
    requires
        whole_word(s, p, g),
    ensures
        prose_word_start(s, g) == (if reads_as_prose(s, p, g) {
            Some(p)
        } else {
            None
        }),
{
    lemma_run_back(s, g, p);
    if camel(s, p, g) {
        let k = choose|k: int|
            p < k < g && 'A' <= #[trigger] s[k] <= 'Z' && 'a' <= s[k - 1] <= 'z';
        assert(!reads_as_prose(s, p, g));
    } else {
        assert forall|k: int| p < k < g implies !('A' <= #[trigger] s[k] <= 'Z' && 'a' <= s[k - 1]
            <= 'z') by {}
    }
}

/// A word with no word before it in reach of the text's start opens a sentence.
pub proof fn law_first_word_opens_a_sentence(s: Seq<char>)
    requires
        s.len() <= 64,
        forall|k: int| 0 <= k < s.len() ==> !word_char(#[trigger] s[k]),
    ensures
        context_of(s).0 == (Context { u: Slot::Unknown, v: Slot::Bos }),
{
    lemma_gap_from(s, s.len() as int, 64, 0);
}

/// What the last word of the text before a word and the gap behind it say: code
/// or markup in the gap breaks the chain, an end of a sentence in it makes the
/// word open one, and else the last word is the word before, in small letters,
/// where it reads as prose.
pub proof fn law_gap_decides_the_context(s: Seq<char>, p: int, g: int)
    requires
        whole_word(s, p, g),
        s.len() - g <= 64,
        forall|k: int| g <= k < s.len() ==> !word_char(#[trigger] s[k]),
    ensures
        (exists|k: int|
            g <= k < s.len() && !stays_in_sentence(#[trigger] s[k]) && !ends_sentence(s[k]))
            ==> context_of(s).0 == (Context { u: Slot::Unknown, v: Slot::Unknown }),
        (forall|k: int|
            g <= k < s.len() ==> stays_in_sentence(#[trigger] s[k]) || ends_sentence(s[k])) && (
        exists|k: int| g <= k < s.len() && ends_sentence(#[trigger] s[k])) ==> context_of(s).0 == (
        Context { u: Slot::Unknown, v: Slot::Bos }),
        (forall|k: int| g <= k < s.len() ==> stays_in_sentence(#[trigger] s[k])) ==> if reads_as_prose(
            s,
            p,
            g,
        ) {
            context_of(s).0.v == Slot::Word && context_of(s).2 == lower_chars_text(s.subrange(p, g))
        } else {
            context_of(s).0 == (Context { u: Slot::Unknown, v: Slot::Unknown })
        },
{
    let n = s.len() as int;
    assert(word_char(s[g - 1]));
    lemma_gap_from(s, n, 64, g);
    lemma_run_back(s, g, p);
    assert forall|k: int| g <= k < n implies #[trigger] joins(s[k]) == stays_in_sentence(s[k])
        && stops(s[k]) == ends_sentence(s[k]) by {}
    lemma_reads_as_prose(s, p, g);
    if exists|k: int| g <= k < n && !stays_in_sentence(#[trigger] s[k]) && !ends_sentence(s[k]) {
        let k = choose|k: int|
            g <= k < n && !stays_in_sentence(#[trigger] s[k]) && !ends_sentence(s[k]);
        assert(!joins(s[k]) && !stops(s[k]));
        assert(gap_kind(s, g, n) == Gap::Break);
    } else if exists|k: int| g <= k < n && ends_sentence(#[trigger] s[k]) {
        let k = choose|k: int| g <= k < n && ends_sentence(#[trigger] s[k]);
        assert(stops(s[k]));
        assert(gap_kind(s, g, n) == Gap::Stop);
    } else {
        assert(gap_kind(s, g, n) == Gap::Join);
    }
}

proof fn lemma_gap_prefix(s: Seq<char>, t: Seq<char>, at: int, left: int)
    requires
        at <= s.len(),
        at <= t.len(),
        forall|k: int| 0 <= k < at ==> #[trigger] s[k] == t[k],
    ensures
        gap_from(s, at, left) == gap_from(t, at, left),
        at >= 0 ==> 0 <= gap_from(s, at, left) <= at,
    decreases at,
{
    if at > 0 && left > 0 && !word_char(s[at - 1]) {
        assert(s[at - 1] == t[at - 1]);
        lemma_gap_prefix(s, t, at - 1, left - 1);
    } else if at > 0 {
        assert(s[at - 1] == t[at - 1]);
    }
}

proof fn lemma_run_prefix(s: Seq<char>, t: Seq<char>, at: int)
    requires
        0 <= at <= s.len(),
        at <= t.len(),
        forall|k: int| 0 <= k < at ==> #[trigger] s[k] == t[k],
    ensures
        run_back(s, at) == run_back(t, at),
        0 <= run_back(s, at) <= at,
    decreases at,
{
    if at > 0 {
        assert(s[at - 1] == t[at - 1]);
        if word_char(s[at - 1]) {
            lemma_run_prefix(s, t, at - 1);
        }
    }
}

/// The word before the word before is the word before it: what a text gives as
/// `u` is what the text up to its last word gives as `v`.
pub proof fn law_second_word_is_the_context_of_the_first(s: Seq<char>, p: int, g: int)
    requires
        whole_word(s, p, g),
        s.len() - g <= 64,
        forall|k: int| g <= k < s.len() ==> stays_in_sentence(#[trigger] s[k]),
        forall|k: int| g <= k < s.len() ==> !word_char(#[trigger] s[k]),
        reads_as_prose(s, p, g),
    ensures
        context_of(s).0.u == context_of(s.take(p)).0.v,
        context_of(s).0.u == Slot::Word ==> context_of(s).1 == context_of(s.take(p)).2,
{
    let n = s.len() as int;
    let t = s.take(p);
    law_gap_decides_the_context(s, p, g);
    assert(word_char(s[g - 1]));
    lemma_gap_from(s, n, 64, g);
    lemma_run_back(s, g, p);
    assert forall|k: int| g <= k < n implies #[trigger] joins(s[k]) && !stops(s[k]) by {}
    assert(gap_kind(s, g, n) == Gap::Join);
    lemma_reads_as_prose(s, p, g);
    lemma_gap_prefix(s, t, p, 64);
    let g2 = gap_from(s, p, 64);
    assert(gap_kind(s, g2, p) == gap_kind(t, g2, p)) by {
        assert forall|k: int| g2 <= k < p implies s[k] == t[k] by {}
        if exists|k: int| g2 <= k < p && !joins(#[trigger] s[k]) && !stops(s[k]) {
            let k = choose|k: int| g2 <= k < p && !joins(#[trigger] s[k]) && !stops(s[k]);
            assert(!joins(t[k]) && !stops(t[k]));
        } else {
            assert forall|k: int| g2 <= k < p implies joins(#[trigger] t[k]) || stops(t[k]) by {
                assert(joins(s[k]) || stops(s[k]));
            }
            if exists|k: int| g2 <= k < p && stops(#[trigger] s[k]) {
                let k = choose|k: int| g2 <= k < p && stops(#[trigger] s[k]);
                assert(stops(t[k]));
            } else {
                assert forall|k: int| g2 <= k < p implies !stops(#[trigger] t[k]) by {
                    assert(!stops(s[k]));
                }
            }
        }
    }
    lemma_run_prefix(s, t, g2);
    let first = run_back(s, g2);
    assert(prose_word_start(s, g2) == prose_word_start(t, g2)) by {
        assert forall|k: int| 0 <= k < g2 implies s[k] == t[k] by {}
        if camel(s, first, g2) {
            let k = choose|k: int|
                first < k < g2 && 'A' <= #[trigger] s[k] <= 'Z' && 'a' <= s[k - 1] <= 'z';
            assert('A' <= t[k] <= 'Z' && 'a' <= t[k - 1] <= 'z');
        }
        if camel(t, first, g2) {
            let k = choose|k: int|
                first < k < g2 && 'A' <= #[trigger] t[k] <= 'Z' && 'a' <= t[k - 1] <= 'z';
            assert('A' <= s[k] <= 'Z' && 'a' <= s[k - 1] <= 'z');
        }
    }
    assert(s.subrange(first, g2) =~= t.subrange(first, g2));
}

} // verus!
