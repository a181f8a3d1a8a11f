//! The surface text that completes a typed prefix.

use crate::ngram::tail_table::forms_view;
use crate::ngram::text::{case_tail, case_tail_chars};
use crate::unicode::{
    alphabetic, chars_of, lowercase, same_chars, string_of, upper_text, upper_text_of,
};
use vstd::prelude::*;

verus! {

/// Order key of zero among the order keys of numbers.
pub const ZERO_KEY: u64 = 0x8000_0000_0000_0000;

/// What is left of `text` after `k` characters.
pub open spec fn rest_of(text: Seq<char>, k: int) -> Seq<char> {
    if k <= text.len() {
        text.skip(k)
    } else {
        Seq::empty()
    }
}

/// The first `k` characters of `text`.
pub open spec fn head_of(text: Seq<char>, k: int) -> Seq<char> {
    if k <= text.len() {
        text.take(k)
    } else {
        text
    }
}

/// Typed in capitals throughout: two or more characters, a letter among them,
/// and none in lower case.
pub open spec fn allcaps(typed: Seq<char>, k: int) -> bool {
    &&& k >= 2
    &&& exists|i: int| 0 <= i < typed.len() && alphabetic(#[trigger] typed[i])
    &&& forall|i: int| 0 <= i < typed.len() ==> !lowercase(#[trigger] typed[i])
}

/// Lowercase remainder `rest` of a word after `typed` (`k` characters),
/// uppercased when the typed prefix is ALLCAPS.
pub open spec fn plain_rest(rest: Seq<char>, typed: Seq<char>, k: int) -> Seq<char> {
    if allcaps(typed, k) {
        upper_text(rest)
    } else {
        rest
    }
}

/// Lowercase remainder `rest` of a word after `typed` (`k` characters),
/// uppercased when the typed prefix is ALLCAPS.
pub fn plain_suffix(rest: &str, typed: &str, k: usize) -> (suffix: String)
    ensures
        suffix@ == plain_rest(rest@, typed@, k as int),
{
    if k < 2 {
        return rest.to_owned();
    }
    let chars = chars_of(typed);
    let mut letter: bool = false;
    let mut i: usize = 0;
    while i < chars.len()
        invariant
            i <= chars@.len(),
            chars@ == typed@,
            letter == exists|j: int| 0 <= j < i && alphabetic(#[trigger] chars@[j]),
            forall|j: int| 0 <= j < i ==> !lowercase(#[trigger] chars@[j]),
        decreases chars@.len() - i,
    {
        let c = chars[i];
        if c.is_lowercase() {
            assert(lowercase(typed@[i as int]));
            return rest.to_owned();
        }
        if c.is_alphabetic() {
            assert(alphabetic(chars@[i as int]));
            letter = true;
        }
        i = i + 1;
    }
    if letter {
        upper_text_of(rest)
    } else {
        rest.to_owned()
    }
}

/// `text` starts with `head`.
fn begins(text: &[char], head: &[char]) -> (r: bool)
    ensures
        r == head@.is_prefix_of(text@),
{
    if head.len() > text.len() {
        return false;
    }
    let start: &[char] = &text[0..head.len()];
    assert(start@ =~= text@.take(head@.len() as int));
    let r = same_chars(start, head);
    assert(head@.is_prefix_of(text@) <==> start@ =~= head@);
    r
}

/// The form shown for a word: the plain word when its head is how the prefix
/// was typed, unless one of the first `n` seen forms that fit the typed case
/// was seen more often; among those the most frequent, the earliest on a tie.
/// The second part is the order key to beat.
pub open spec fn best_form(
    word: Seq<char>,
    forms: Seq<(Seq<char>, u32)>,
    keys: Seq<u64>,
    plain: u64,
    typed_tail: Seq<char>,
    k: int,
    n: int,
) -> (Option<Seq<char>>, u64)
    decreases n,
{
    if n <= 0 {
        if typed_tail == head_of(word, k) {
            (Some(word), plain)
        } else {
            (None, ZERO_KEY)
        }
    } else {
        let prior = best_form(word, forms, keys, plain, typed_tail, k, n - 1);
        if keys[n - 1] > prior.1 && typed_tail.is_prefix_of(forms[n - 1].0) {
            (Some(forms[n - 1].0), keys[n - 1])
        } else {
            prior
        }
    }
}

/// Surface suffix of a word after `typed`: the most frequent seen form
/// compatible with the typed case, else the lowercase rest (uppercased when
/// the prefix is ALLCAPS). `keys` orders the forms by count and `plain` is the
/// key of what is left for the plain form.
pub fn suffix(
    word: &str,
    forms: Option<&Vec<(String, u32)>>,
    keys: &Vec<u64>,
    plain: u64,
    typed: &str,
) -> (out: String)
    requires
        forms matches Some(f) ==> f@.len() == keys@.len(),
    ensures
        ({
            let seen = match forms {
                Some(f) => forms_view(f@),
                None => Seq::empty(),
            };
            let k = typed@.len() as int;
            out@ == match best_form(
                word@,
                seen,
                keys@,
                plain,
                case_tail(typed@),
                k,
                seen.len() as int,
            ).0 {
                Some(form) => rest_of(form, k),
                None => plain_rest(rest_of(word@, k), typed@, k),
            }
        }),
{
    let typed_chars = chars_of(typed);
    let tail = case_tail_chars(&typed_chars);
    let k: usize = typed_chars.len();
    let word_chars = chars_of(word);
    let head_len: usize = if k <= word_chars.len() {
        k
    } else {
        word_chars.len()
    };
    let head: &[char] = &word_chars[0..head_len];
    assert(head@ =~= head_of(word@, k as int));
    let plain_fits = same_chars(&tail, head);
    let mut best: Option<usize> = None;
    let mut key: u64 = if plain_fits {
        plain
    } else {
        ZERO_KEY
    };
    let ghost seen = match forms {
        Some(f) => forms_view(f@),
        None => Seq::empty(),
    };
    if let Some(f) = forms {
        let mut i: usize = 0;
        while i < f.len()
            invariant
                i <= f@.len(),
                f@.len() == keys@.len(),
                seen == forms_view(f@),
                k == typed@.len(),
                tail@ == case_tail(typed@),
                plain_fits == (tail@ == head_of(word@, k as int)),
                best matches Some(b) ==> b < f@.len(),
                best_form(word@, seen, keys@, plain, tail@, k as int, i as int) == (
                    match best {
                        Some(b) => Some(seen[b as int].0),
                        None => if plain_fits {
                            Some(word@)
                        } else {
                            None
                        },
                    },
                    key,
                ),
            decreases f@.len() - i,
        {
            let form = chars_of(f[i].0.as_str());
            assert(seen[i as int].0 == form@);
            if keys[i] > key && begins(&form, &tail) {
                best = Some(i);
                key = keys[i];
            }
            i = i + 1;
        }
        if let Some(b) = best {
            let form = chars_of(f[b].0.as_str());
            assert(seen[b as int].0 == form@);
            return rest_text(&form, k);
        }
    }
    if plain_fits {
        return rest_text(&word_chars, k);
    }
    let rest = rest_text(&word_chars, k);
    plain_suffix(rest.as_str(), typed, k)
}

/// What is left of `text` after `k` characters.
pub fn rest_text(text: &[char], k: usize) -> (out: String)
    ensures
        out@ == rest_of(text@, k as int),
{
    if k <= text.len() {
        let rest: &[char] = &text[k..text.len()];
        assert(rest@ =~= text@.skip(k as int));
        string_of(rest)
    } else {
        string_of(&[])
    }
}

/// Suffix of a word that was only seen earlier in the prompt: its casing there
/// when that fits how the prefix was typed, else the lowercase rest.
pub open spec fn local_rest(
    surface: Seq<char>,
    word: Seq<char>,
    typed: Seq<char>,
    key_len: int,
) -> Seq<char> {
    let form = case_tail(surface);
    let k = typed.len() as int;
    if case_tail(typed).is_prefix_of(form) {
        rest_of(form, k)
    } else {
        plain_rest(rest_of(word, key_len), typed, k)
    }
}

/// Suffix of a word that was only seen earlier in the prompt, as `surface`.
pub fn local_suffix(surface: &[char], word: &[char], typed: &str, key_len: usize) -> (out: String)
    ensures
        out@ == local_rest(surface@, word@, typed@, key_len as int),
{
    let typed_chars = chars_of(typed);
    let tail = case_tail_chars(&typed_chars);
    let k: usize = typed_chars.len();
    let form = case_tail_chars(surface);
    if begins(&form, &tail) {
        return rest_text(&form, k);
    }
    let rest = rest_text(word, key_len);
    plain_suffix(rest.as_str(), typed, k)
}

} // verus!
