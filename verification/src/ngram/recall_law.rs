//! What is recalled of the prompt, of recent prompts and of a word's casing.

use crate::ngram::cache::{
    hits_from, hits_of, stands_at, trimmed, window_from, word_from, word_run, Hit,
};
use crate::ngram::query::{common_len, window_of};
use crate::ngram::session::{newest, newest_of};
use crate::ngram::suffix::{best_form, head_of, plain_rest, rest_of, ZERO_KEY};
use crate::ngram::text::{context_of, Context, Slot};
use crate::prose::word_char;
use crate::unicode::{alphabetic, byte_len, lemma_byte_len_prefix, lowercase, upper_text};
use vstd::prelude::*;

verus! {

// ---------------------------------------------------------------------------
// Earlier words of the prompt
// ---------------------------------------------------------------------------
/// A word of the window that starts with the key: the key stands at `start`, no
/// word character is before it, the word goes on with word characters to `end`,
/// and behind `end` come at most apostrophes, and then neither a word character
/// nor an underscore nor a digit.
pub open spec fn is_earlier_word(window: Seq<char>, key: Seq<char>, start: int, end: int, stop: int) -> bool {
    &&& 0 <= start
    &&& start + key.len() <= end <= stop <= window.len()
    &&& forall|i: int| 0 <= i < key.len() ==> #[trigger] key[i] == window[start + i]
    &&& start > 0 ==> !word_char(window[start - 1])
    &&& forall|i: int| start + key.len() <= i < stop ==> word_char(#[trigger] window[i])
    &&& forall|i: int| end <= i < stop ==> #[trigger] window[i] == '\''
    &&& end > start + key.len() ==> window[end - 1] != '\''
    &&& stop < window.len() ==> !word_char(window[stop]) && window[stop] != '_' && !('0'
        <= window[stop] <= '9')
}

/// The hit is at an earlier word.
pub open spec fn is_word_hit(window: Seq<char>, key: Seq<char>, h: Hit) -> bool {
    exists|stop: int|
        #[trigger] is_earlier_word(window, key, h.start as int, h.end as int, stop)
}

proof fn lemma_run(window: Seq<char>, i: int)
    requires
        0 <= i <= window.len(),
    ensures
        i <= word_run(window, i) <= window.len(),
        forall|k: int| i <= k < word_run(window, i) ==> word_char(#[trigger] window[k]),
        word_run(window, i) < window.len() ==> !word_char(window[word_run(window, i)]),
    decreases window.len() - i,
{
    if i < window.len() && word_char(window[i]) {
        lemma_run(window, i + 1);
    }
}

proof fn lemma_trimmed(window: Seq<char>, floor: int, end: int)
    requires
        0 <= floor <= end <= window.len(),
    ensures
        floor <= trimmed(window, floor, end) <= end,
        forall|k: int| trimmed(window, floor, end) <= k < end ==> #[trigger] window[k] == '\'',
        trimmed(window, floor, end) > floor ==> window[trimmed(window, floor, end) - 1] != '\'',
    decreases end - floor,
{
    if floor < end && window[end - 1] == '\'' {
        lemma_trimmed(window, floor, end - 1);
    }
}

/// The word at `j`, where there is one, is an earlier word.
proof fn lemma_word_from(window: Seq<char>, key: Seq<char>, j: int)
    requires
        0 <= j,
        j + key.len() <= window.len(),
    ensures
        stands_at(window, key, j) && word_from(window, key.len() as int, j) is Some
            ==> is_earlier_word(
            window,
            key,
            j,
            word_from(window, key.len() as int, j)->0,
            word_run(window, j + key.len() as int),
        ),
        forall|end: int, stop: int|
            #[trigger] is_earlier_word(window, key, j, end, stop) ==> stands_at(window, key, j)
                && word_from(window, key.len() as int, j) == Some(end),
{
    let n = key.len() as int;
    let run = word_run(window, j + n);
    lemma_run(window, j + n);
    lemma_trimmed(window, j + n, run);
    if stands_at(window, key, j) {
        assert forall|i: int| 0 <= i < key.len() implies #[trigger] key[i] == window[j + i] by {
            assert(window.subrange(j, j + n)[i] == key[i]);
        }
    }
    assert forall|end: int, stop: int| #[trigger]
        is_earlier_word(window, key, j, end, stop) implies stands_at(window, key, j) && word_from(
        window,
        n,
        j,
    ) == Some(end) by {
        assert(window.subrange(j, j + n) =~= key);
        if stop < run {
            assert(word_char(window[stop]));
        } else if run < stop {
            assert(!word_char(window[run]));
        }
        let cut = trimmed(window, j + n, run);
        if cut < end {
            assert(window[end - 1] == '\'');
        } else if end < cut {
            assert(window[cut - 1] == '\'');
        }
    }
}

/// Whether a hit is counted in the same context.
pub open spec fn follows_the_same(window: Seq<char>, start: int, context: Context, v: Seq<char>) -> bool {
    &&& context.v != Slot::Unknown
    &&& context_of(window.take(start)).0.v == context.v
    &&& context.v == Slot::Word ==> context_of(window.take(start)).2 == v
}

spec fn hit_right(
    window: Seq<char>,
    key: Seq<char>,
    context: Context,
    v: Seq<char>,
    boost: bool,
    h: Hit,
) -> bool {
    &&& h.start + key.len() <= window.len()
    &&& is_earlier_word(
        window,
        key,
        h.start as int,
        h.end as int,
        word_run(window, h.start as int + key.len() as int),
    )
    &&& h.distance == byte_len(window.skip(h.start as int))
    &&& h.same_context == (boost && follows_the_same(window, h.start as int, context, v))
}

proof fn lemma_hits(
    window: Seq<char>,
    key: Seq<char>,
    context: Context,
    v: Seq<char>,
    boost: bool,
    j: int,
)
    requires
        j <= window.len() - key.len(),
        byte_len(window) <= usize::MAX,
        window.len() <= usize::MAX,
    ensures
        ({
            let hits = hits_from(window, key, context, v, boost, j);
            &&& forall|k: int|
                0 <= k < hits.len() ==> (#[trigger] hits[k]).start <= j && hit_right(
                    window,
                    key,
                    context,
                    v,
                    boost,
                    hits[k],
                )
            &&& forall|a: int, b: int|
                0 <= a < b < hits.len() ==> (#[trigger] hits[a]).start > (#[trigger] hits[b]).start
            &&& forall|s: int, e: int, stop: int|
                s <= j && #[trigger] is_earlier_word(window, key, s, e, stop) ==> exists|k: int|
                    0 <= k < hits.len() && (#[trigger] hits[k]).start == s && hits[k].end == e
        }),
    decreases j + 1,
{
    if j >= 0 {
        lemma_hits(window, key, context, v, boost, j - 1);
        let rest = hits_from(window, key, context, v, boost, j - 1);
        let hits = hits_from(window, key, context, v, boost, j);
        lemma_word_from(window, key, j);
        lemma_byte_len_prefix(window, j);
        let word = word_from(window, key.len() as int, j);
        let here = word is Some && stands_at(window, key, j);
        assert forall|k: int| 0 <= k < hits.len() implies (#[trigger] hits[k]).start <= j
            && hit_right(window, key, context, v, boost, hits[k]) by {
            if here {
                if k > 0 {
                    assert(hits[k] == rest[k - 1]);
                }
            } else {
                assert(hits[k] == rest[k]);
            }
        }
        assert forall|a: int, b: int| 0 <= a < b < hits.len() implies (#[trigger] hits[a]).start > (
        #[trigger] hits[b]).start by {
            if here {
                assert(hits[b] == rest[b - 1]);
                if a > 0 {
                    assert(hits[a] == rest[a - 1]);
                }
            }
        }
        assert forall|s: int, e: int, stop: int|
            s <= j && #[trigger] is_earlier_word(window, key, s, e, stop) implies exists|k: int|
            0 <= k < hits.len() && (#[trigger] hits[k]).start == s && hits[k].end == e by {
            if s == j {
                assert(hits[0].start == s && hits[0].end == e);
            } else {
                let k = choose|k: int|
                    0 <= k < rest.len() && (#[trigger] rest[k]).start == s && rest[k].end == e;
                if here {
                    assert(hits[k + 1] == rest[k]);
                } else {
                    assert(hits[k] == rest[k]);
                }
            }
        }
    }
}

/// The hits are the earlier words of the window that start with the key, all of
/// them and each once, the last first; each knows how far it is from the end
/// and, where asked, whether it follows the same word.
pub proof fn law_hits_are_the_earlier_words(
    window: Seq<char>,
    key: Seq<char>,
    context: Context,
    v: Seq<char>,
    boost: bool,
)
    requires
        byte_len(window) <= usize::MAX,
        window.len() <= usize::MAX,
    ensures
        ({
            let hits = hits_of(window, key, context, v, boost);
            &&& forall|k: int|
                0 <= k < hits.len() ==> is_word_hit(window, key, #[trigger] hits[k])
            &&& forall|k: int|
                0 <= k < hits.len() ==> (#[trigger] hits[k]).distance == byte_len(
                    window.skip(hits[k].start as int),
                ) && hits[k].same_context == (boost && follows_the_same(
                    window,
                    hits[k].start as int,
                    context,
                    v,
                ))
            &&& forall|a: int, b: int|
                0 <= a < b < hits.len() ==> (#[trigger] hits[a]).start > (#[trigger] hits[b]).start
            &&& forall|s: int, e: int, stop: int|
                #[trigger] is_earlier_word(window, key, s, e, stop) ==> exists|k: int|
                    0 <= k < hits.len() && (#[trigger] hits[k]).start == s && hits[k].end == e
        }),
{
    let hits = hits_of(window, key, context, v, boost);
    lemma_hits(window, key, context, v, boost, window.len() - key.len());
    assert forall|k: int| 0 <= k < hits.len() implies is_word_hit(
        window,
        key,
        #[trigger] hits[k],
    ) by {
        assert(hit_right(window, key, context, v, boost, hits[k]));
    }
}

// ---------------------------------------------------------------------------
// Recent prompts
// ---------------------------------------------------------------------------
/// A session keeps its newest prompts: the new one is the last, those before it
/// stay in their order, and only the oldest leave once there are too many; with
/// no room for any, nothing is kept of the new one.
pub proof fn law_session_keeps_the_newest(prompts: Seq<Seq<u32>>, words: Seq<u32>, capacity: int)
    requires
        0 <= capacity,
        prompts.len() <= capacity,
    ensures
        ({
            let now = newest(prompts, words, capacity);
            &&& capacity == 0 ==> now == prompts
            &&& capacity > 0 ==> {
                &&& now.len() == (if prompts.len() < capacity {
                    prompts.len() as int + 1
                } else {
                    capacity
                })
                &&& now.last() == words
                &&& forall|k: int|
                    0 <= k < now.len() - 1 ==> #[trigger] now[k] == prompts[k + prompts.len() + 1
                        - now.len()]
            }
        }),
{
    let now = newest(prompts, words, capacity);
    if capacity > 0 {
        assert(now == newest_of(prompts.push(words), capacity));
    }
}

// ---------------------------------------------------------------------------
// Casing
// ---------------------------------------------------------------------------
/// The form shown fits the case of what was typed, no form that fits was seen
/// more often, and the plain word is shown where it fits and no fitting form was
/// seen more often than it.
pub proof fn law_shown_form_is_the_most_frequent_that_fits(
    word: Seq<char>,
    forms: Seq<(Seq<char>, u32)>,
    keys: Seq<u64>,
    plain: u64,
    tail: Seq<char>,
    k: int,
    n: int,
)
    requires
        0 <= n <= forms.len(),
        n <= keys.len(),
    ensures
        ({
            let (form, key) = best_form(word, forms, keys, plain, tail, k, n);
            let fits = tail == head_of(word, k);
            &&& forall|i: int|
                0 <= i < n && tail.is_prefix_of((#[trigger] forms[i]).0) ==> keys[i] <= key
            &&& fits ==> plain <= key
            &&& form is None ==> !fits && key == ZERO_KEY
            &&& form matches Some(f) ==> (f == word && fits && key == plain) || exists|i: int|
                0 <= i < n && f == (#[trigger] forms[i]).0 && key == keys[i] && tail.is_prefix_of(f)
            &&& fits && (forall|i: int|
                0 <= i < n && tail.is_prefix_of((#[trigger] forms[i]).0) ==> keys[i] <= plain)
                ==> form == Some(word)
        }),
    decreases n,
{
    if n > 0 {
        law_shown_form_is_the_most_frequent_that_fits(word, forms, keys, plain, tail, k, n - 1);
        let (form, key) = best_form(word, forms, keys, plain, tail, k, n);
        let prior = best_form(word, forms, keys, plain, tail, k, n - 1);
        if keys[n - 1] > prior.1 && tail.is_prefix_of(forms[n - 1].0) {
            assert(form == Some(forms[n - 1].0));
        } else if let Some(f) = form {
            if exists|i: int|
                0 <= i < n - 1 && f == (#[trigger] forms[i]).0 && key == keys[i]
                    && tail.is_prefix_of(f) {
                let i = choose|i: int|
                    0 <= i < n - 1 && f == (#[trigger] forms[i]).0 && key == keys[i]
                        && tail.is_prefix_of(f);
                assert(f == forms[i].0);
            }
        }
    }
}

/// What is shown behind the prefix completes it: put behind the part of the form
/// that was typed, it gives the form.
pub proof fn law_suffix_completes_the_form(form: Seq<char>, tail: Seq<char>)
    requires
        tail.is_prefix_of(form),
    ensures
        tail + rest_of(form, tail.len() as int) == form,
{
    assert(tail =~= form.take(tail.len() as int));
    assert(tail + rest_of(form, tail.len() as int) =~= form);
}

/// A prefix of two or more characters typed in capitals is completed in
/// capitals, and any other in small letters: one small letter, or no letter at
/// all, is enough.
pub proof fn law_capitals_are_completed_in_capitals(rest: Seq<char>, typed: Seq<char>)
    ensures
        typed.len() >= 2 && (exists|i: int| 0 <= i < typed.len() && alphabetic(#[trigger] typed[i]))
            && (forall|i: int| 0 <= i < typed.len() ==> !lowercase(#[trigger] typed[i]))
            ==> plain_rest(rest, typed, typed.len() as int) == upper_text(rest),
        typed.len() < 2 ==> plain_rest(rest, typed, typed.len() as int) == rest,
        (exists|i: int| 0 <= i < typed.len() && lowercase(#[trigger] typed[i])) ==> plain_rest(
            rest,
            typed,
            typed.len() as int,
        ) == rest,
        (forall|i: int| 0 <= i < typed.len() ==> !alphabetic(#[trigger] typed[i])) ==> plain_rest(
            rest,
            typed,
            typed.len() as int,
        ) == rest,
{
}

/// What two prefixes share is their longest common start.
pub proof fn law_shared_starts_are_the_longest(a: Seq<char>, b: Seq<char>, i: int, p: int)
    requires
        0 <= i <= p <= a.len(),
        p <= b.len(),
        forall|k: int| i <= k < p ==> #[trigger] a[k] == b[k],
        p == a.len() || p == b.len() || a[p] != b[p],
    ensures
        common_len(a, b, i) == p,
    decreases p - i,
{
    if i < p {
        assert(a[i] == b[i]);
        law_shared_starts_are_the_longest(a, b, i + 1, p);
    }
}

proof fn lemma_window_from(before: Seq<char>, limit: int, k: int)
    requires
        0 <= k <= before.len(),
    ensures
        k <= window_from(before, limit, k) <= before.len(),
        window_from(before, limit, k) == before.len() || byte_len(
            before.skip(window_from(before, limit, k)),
        ) <= limit,
        forall|p: int|
            k <= p < window_from(before, limit, k) ==> byte_len(#[trigger] before.skip(p)) > limit,
    decreases before.len() - k,
{
    if k < before.len() && byte_len(before.skip(k)) > limit {
        lemma_window_from(before, limit, k + 1);
    }
}

/// The window into a prompt is its longest end that fits the bytes allowed, and
/// has a character for each of it.
pub proof fn law_the_prompt_window_is_the_longest_that_fits(before: Seq<char>, limit: int)
    ensures
        ({
            let at = window_from(before, limit, 0);
            &&& 0 <= at <= before.len()
            &&& at == before.len() || byte_len(before.skip(at)) <= limit
            &&& forall|p: int| 0 <= p < at ==> byte_len(#[trigger] before.skip(p)) > limit
            &&& window_of(before, limit).len() == before.len() - at
        }),
{
    lemma_window_from(before, limit, 0);
}

} // verus!
