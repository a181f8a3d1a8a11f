//! The prompt-local cache: words earlier in the prompt that extend the typed
//! prefix.

use crate::ngram::text::{context_at, context_of, Context, Slot};
use crate::prose::{letter, Letters};
use crate::unicode::{byte_len, same_chars, utf8_len};
use vstd::prelude::*;

verus! {

/// A character of a word.
pub open spec fn word_code(c: char) -> bool {
    c == '\'' || letter(c)
}

/// Whether `c` can be part of a word.
fn is_word_code(c: char, letters: &mut Letters) -> (r: bool)
    ensures
        r == word_code(c),
{
    c == '\'' || letters.has(c)
}

/// An occurrence of the prefix at the start of a word.
#[derive(Clone, Copy, Debug, PartialEq, Eq, Structural)]
pub struct Hit {
    /// First character of the word.
    pub start: usize,
    /// Just past its last character.
    pub end: usize,
    /// Bytes from its first character to the end of the window.
    pub distance: usize,
    /// It follows the same previous word as the prefix being typed.
    pub same_context: bool,
}

/// The key stands at `j`.
pub open spec fn stands_at(window: Seq<char>, key: Seq<char>, j: int) -> bool {
    0 <= j && j + key.len() <= window.len() && window.subrange(j, j + key.len()) == key
}

/// The first character from `i` on that is not part of a word.
pub open spec fn word_run(window: Seq<char>, i: int) -> int
    decreases window.len() - i,
{
    if 0 <= i < window.len() && word_code(window[i]) {
        word_run(window, i + 1)
    } else {
        i
    }
}

/// `end` without the apostrophes before it, not below `floor`.
pub open spec fn trimmed(window: Seq<char>, floor: int, end: int) -> int
    decreases end - floor,
{
    if floor < end && window[end - 1] == '\'' {
        trimmed(window, floor, end - 1)
    } else {
        end
    }
}

/// The word that starts at `j`, unless it starts inside another word or is an
/// identifier (`foo_bar`, `v2`).
pub open spec fn word_from(window: Seq<char>, key_len: int, j: int) -> Option<int> {
    let stop = word_run(window, j + key_len);
    let identifier = stop < window.len() && (window[stop] == '_' || ('0' <= window[stop]
        <= '9'));
    if (j > 0 && word_code(window[j - 1])) || identifier {
        None
    } else {
        Some(trimmed(window, j + key_len, stop))
    }
}

/// The left context is known and the text before `j` gives the same one.
pub open spec fn same_left(window: Seq<char>, j: int, context: Context, v: Seq<char>) -> bool {
    let seen = context_of(window.take(j));
    &&& context.v != Slot::Unknown
    &&& seen.0.v == context.v
    &&& seen.0.v == Slot::Word ==> seen.2 == v
}

/// The hits at or before `j`, last first. `boost` says whether contexts are
/// compared at all.
pub open spec fn hits_from(
    window: Seq<char>,
    key: Seq<char>,
    context: Context,
    v: Seq<char>,
    boost: bool,
    j: int,
) -> Seq<Hit>
    decreases j + 1,
{
    if j < 0 {
        Seq::empty()
    } else {
        let rest = hits_from(window, key, context, v, boost, j - 1);
        match word_from(window, key.len() as int, j) {
            Some(end) => if stands_at(window, key, j) {
                seq![
                    Hit {
                        start: j as usize,
                        end: end as usize,
                        distance: byte_len(window.skip(j)) as usize,
                        same_context: boost && same_left(window, j, context, v),
                    },
                ] + rest
            } else {
                rest
            },
            None => rest,
        }
    }
}

/// All hits, last first.
pub open spec fn hits_of(
    window: Seq<char>,
    key: Seq<char>,
    context: Context,
    v: Seq<char>,
    boost: bool,
) -> Seq<Hit> {
    hits_from(window, key, context, v, boost, window.len() - key.len())
}

/// End of the word that starts at `j`.
fn word_end(window: &[char], key_len: usize, j: usize, letters: &mut Letters) -> (end: Option<usize>)
    requires
        j + key_len <= window@.len(),
    ensures
        match end {
            Some(e) => word_from(window@, key_len as int, j as int) == Some(e as int) && j + key_len
                <= e <= window@.len(),
            None => word_from(window@, key_len as int, j as int) is None,
        },
{
    if j > 0 && is_word_code(window[j - 1], letters) {
        return None;
    }
    let floor: usize = j + key_len;
    let mut stop: usize = floor;
    while stop < window.len() && is_word_code(window[stop], letters)
        invariant
            floor <= stop <= window@.len(),
            word_run(window@, floor as int) == word_run(window@, stop as int),
        decreases window@.len() - stop,
    {
        stop = stop + 1;
    }
    if stop < window.len() && (window[stop] == '_' || ('0' <= window[stop] && window[stop]
        <= '9')) {
        return None;
    }
    let mut end: usize = stop;
    while end > floor && window[end - 1] == '\''
        invariant
            floor <= end <= stop <= window@.len(),
            trimmed(window@, floor as int, stop as int) == trimmed(
                window@,
                floor as int,
                end as int,
            ),
        decreases end,
    {
        end = end - 1;
    }
    Some(end)
}

/// The words of the window that extend `key` (or equal it), last first.
pub fn scan(
    window: &[char],
    key: &[char],
    context: &Context,
    v: &[char],
    boost: bool,
) -> (hits: Vec<Hit>)
    requires
        key@.len() > 0,
        byte_len(window@) <= usize::MAX,
    ensures
        hits@ == hits_of(window@, key@, *context, v@, boost),
        hits@.len() <= window@.len(),
        forall|i: int|
            0 <= i < hits@.len() ==> (#[trigger] hits@[i]).start + key@.len() <= hits@[i].end
                <= window@.len() && key@ == window@.subrange(
                hits@[i].start as int,
                hits@[i].start + key@.len(),
            ),
{
    let n: usize = window.len();
    let mut hits: Vec<Hit> = Vec::new();
    if key.len() > n {
        return hits;
    }
    let mut left: usize = n - key.len() + 1;
    let mut letters = Letters::new();
    let mut distance: usize = 0;
    let mut at: usize = n;
    proof {
        assert(window@.skip(n as int) =~= Seq::<char>::empty());
        assert(hits@ + hits_of(window@, key@, *context, v@, boost) =~= hits_of(
            window@,
            key@,
            *context,
            v@,
            boost,
        ));
    }
    while left > 0
        invariant
            n == window@.len(),
            key@.len() > 0,
            byte_len(window@) <= usize::MAX,
            left + key@.len() <= n + 1,
            left <= at <= n,
            at == left || at == n,
            hits@.len() + left + key@.len() <= n + 1,
            distance == byte_len(window@.skip(at as int)),
            hits@ + hits_from(window@, key@, *context, v@, boost, left - 1) == hits_of(
                window@,
                key@,
                *context,
                v@,
                boost,
            ),
            forall|i: int|
                0 <= i < hits@.len() ==> (#[trigger] hits@[i]).start + key@.len() <= hits@[i].end
                    <= window@.len() && key@ == window@.subrange(
                    hits@[i].start as int,
                    hits@[i].start + key@.len(),
                ),
        decreases left,
    {
        let j: usize = left - 1;
        while at > j
            invariant
                n == window@.len(),
                byte_len(window@) <= usize::MAX,
                j <= at <= n,
                distance == byte_len(window@.skip(at as int)),
            decreases at,
        {
            proof {
                lemma_skip_grows(window@, at - 1);
            }
            at = at - 1;
            distance = distance + crate::unicode::char_utf8_len(window[at]);
        }
        let part: &[char] = &window[j..j + key.len()];
        let ghost prior = hits@;
        let ghost rest = hits_from(window@, key@, *context, v@, boost, j - 1);
        let stands = same_chars(part, key);
        let end = word_end(window, key.len(), j, &mut letters);
        if stands {
            if let Some(e) = end {
                let mut same: bool = false;
                if boost && context.v != Slot::Unknown {
                    let before: &[char] = &window[0..j];
                    assert(before@ =~= window@.take(j as int));
                    let (seen, _u, seen_v) = context_at(before, &mut letters);
                    same = seen.v == context.v && (seen.v != Slot::Word || same_chars(&seen_v, v));
                }
                let hit = Hit { start: j, end: e, distance, same_context: same };
                hits.push(hit);
                assert(prior + (seq![hit] + rest) =~= hits@ + rest);
            }
        }
        left = j;
    }
    assert(hits@ + hits_from(window@, key@, *context, v@, boost, -1) =~= hits@);
    hits
}

/// One character less is skipped.
proof fn lemma_skip_grows(s: Seq<char>, k: int)
    requires
        0 <= k < s.len(),
    ensures
        byte_len(s.skip(k)) == byte_len(s.skip(k + 1)) + utf8_len(s[k]),
        byte_len(s.skip(k)) <= byte_len(s),
{
    assert(s.skip(k) =~= seq![s[k]] + s.skip(k + 1));
    crate::unicode::lemma_encode_concat(seq![s[k]], s.skip(k + 1));
    assert(seq![s[k]] =~= Seq::<char>::empty().push(s[k]));
    crate::unicode::lemma_encode_push(Seq::empty(), s[k]);
    assert(s =~= s.take(k) + s.skip(k));
    crate::unicode::lemma_encode_concat(s.take(k), s.skip(k));
}

/// Where the window into `before` starts: the first character whose offset
/// leaves at most `limit` bytes.
pub open spec fn window_from(before: Seq<char>, limit: int, k: int) -> int
    decreases before.len() - k,
{
    if 0 <= k < before.len() && byte_len(before.skip(k)) > limit {
        window_from(before, limit, k + 1)
    } else {
        k
    }
}

/// Where the window into `before` starts.
pub fn window_start(before: &[char], limit: usize) -> (k: usize)
    requires
        byte_len(before@) <= usize::MAX,
    ensures
        k <= before@.len(),
        k == window_from(before@, limit as int, 0),
        byte_len(before@.skip(k as int)) <= limit,
{
    let n: usize = before.len();
    let mut left: usize = 0;
    let mut i: usize = n;
    assert(before@.skip(n as int) =~= Seq::<char>::empty());
    while i > 0
        invariant
            n == before@.len(),
            byte_len(before@) <= usize::MAX,
            i <= n,
            left == byte_len(before@.skip(i as int)),
        decreases i,
    {
        proof {
            lemma_skip_grows(before@, i - 1);
        }
        i = i - 1;
        left = left + crate::unicode::char_utf8_len(before[i]);
    }
    let mut k: usize = 0;
    while k < n && left > limit
        invariant
            n == before@.len(),
            k <= n,
            left == byte_len(before@.skip(k as int)),
            window_from(before@, limit as int, 0) == window_from(before@, limit as int, k as int),
        decreases n - k,
    {
        proof {
            lemma_skip_grows(before@, k as int);
        }
        left = left - crate::unicode::char_utf8_len(before[k]);
        k = k + 1;
    }
    proof {
        if k == n {
            assert(before@.skip(n as int) =~= Seq::<char>::empty());
        }
    }
    k
}

} // verus!
