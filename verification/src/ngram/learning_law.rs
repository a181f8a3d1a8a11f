//! Learning and completing see the same history.

use crate::ngram::candidates::resolved;
use crate::ngram::context_law::law_first_word_opens_a_sentence;
use crate::ngram::learning::{
    folded, known_id, learn_word, learned, learned_slot, typed_again, Learning,
};
use crate::ngram::lexicon::{
    canonical_of, interned, refreshed_slips, slip_ids, touched, Known, Params, NONE,
};
use crate::ngram::text::{context_of, Slot};
use crate::ngram::web::WebPrior;
use crate::prose::{word_char, ProseWord};
use crate::unicode::{chars_before, lower_chars_text};
use vstd::prelude::*;

verus! {

/// No word occurs twice.
pub open spec fn distinct(words: Seq<Seq<char>>) -> bool {
    forall|i: int, j: int| 0 <= i < j < words.len() ==> words[i] != words[j]
}

/// The word `k` of the prompt, in small letters.
pub open spec fn word_text(prompt: Seq<char>, words: Seq<ProseWord>, k: int) -> Seq<char> {
    lower_chars_text(
        prompt.subrange(
            chars_before(prompt, words[k].start as int),
            chars_before(prompt, words[k].end as int),
        ),
    )
}

/// The text before word `k` of the prompt.
pub open spec fn text_before(prompt: Seq<char>, words: Seq<ProseWord>, k: int) -> Seq<char> {
    prompt.take(chars_before(prompt, words[k].start as int))
}

/// What one side of a counted context is: nothing where the slot says nothing,
/// the sentence start where it says so, and else the id of the word that it
/// names, or the word that an earlier word of the same spelling was counted as.
pub open spec fn counted_as(
    s: Learning,
    prompt: Seq<char>,
    words: Seq<ProseWord>,
    k: int,
    bos: u32,
    slot: Slot,
    word: Seq<char>,
    id: Option<u32>,
) -> bool {
    match slot {
        Slot::Unknown => id is None,
        Slot::Bos => id == Some(bos),
        Slot::Word => {
            &&& id is Some
            &&& (id->0 < s.known.words.len() && s.known.words[id->0 as int] == word) || exists|j: int|
                0 <= j < k && #[trigger] word_text(prompt, words, j) == word && s.events[j].w
                    == id->0
        },
    }
}

proof fn lemma_refreshed_words(l: Known, found: Seq<u32>, k: int)
    ensures
        refreshed_slips(l, found, k).words == l.words,
    decreases k,
{
    if k > 0 {
        lemma_refreshed_words(l, found, k - 1);
    }
}

proof fn lemma_typed_words(l: Known, id: int, canonicalize: bool)
    ensures
        typed_again(l, id, canonicalize).words == l.words,
{
    let once = Known { raw: l.raw.update(id, (l.raw[id] + 1) as u32), ..l };
    let found = slip_ids(once.words, id);
    lemma_refreshed_words(once, found, found.len() as int);
    assert(touched(once, id, canonicalize).words == once.words);
}

/// `m` has the words of `l` at their places, and none twice.
spec fn grows(l: Seq<Seq<char>>, m: Seq<Seq<char>>) -> bool {
    &&& l.len() <= m.len()
    &&& forall|i: int| 0 <= i < l.len() ==> #[trigger] m[i] == l[i]
    &&& distinct(m)
}

proof fn lemma_interned_grows(l: Known, word: Seq<char>, dict: Seq<Seq<char>>)
    requires
        distinct(l.words),
    ensures
        grows(l.words, interned(l, word, dict).words),
        interned(l, word, dict).words.contains(word),
{
    let m = interned(l, word, dict);
    if !l.words.contains(word) {
        assert(m.words == l.words.push(word));
        assert(m.words[l.words.len() as int] == word);
        assert forall|i: int, j: int| 0 <= i < j < m.words.len() implies m.words[i]
            != m.words[j] by {
            if j == l.words.len() {
                assert(l.words.contains(l.words[i]));
            }
        }
    }
}

proof fn lemma_slot_grows(
    l: Known,
    folds: Seq<(u32, u32)>,
    bos: u32,
    slot: Slot,
    word: Seq<char>,
    dict: Seq<Seq<char>>,
)
    requires
        distinct(l.words),
    ensures
        grows(l.words, learned_slot(l, folds, bos, slot, word, dict).0.words),
        slot == Slot::Word ==> learned_slot(l, folds, bos, slot, word, dict).0.words.contains(word),
{
    if slot == Slot::Word {
        lemma_interned_grows(l, word, dict);
    }
}

/// Where a spelling was folded to, if it was.
proof fn lemma_folded(folds: Seq<(u32, u32)>, id: u32, at: int)
    requires
        0 <= at <= folds.len(),
    ensures
        (folded(folds, id, at) == id && forall|i: int|
            at <= i < folds.len() ==> (#[trigger] folds[i]).0 != id) || exists|i: int|
            at <= i < folds.len() && (#[trigger] folds[i]).0 == id && folds[i].1 == folded(
                folds,
                id,
                at,
            ),
    decreases folds.len() - at,
{
    if at < folds.len() && folds[at].0 != id {
        lemma_folded(folds, id, at + 1);
    }
}

proof fn lemma_id(words: Seq<Seq<char>>, word: Seq<char>, id: int)
    requires
        distinct(words),
        0 <= id < words.len(),
        words[id] == word,
    ensures
        words.contains(word),
        words.index_of(word) == id,
{
    let j = words.index_of(word);
    assert(words[j] == word);
    if j < id {
        assert(words[j] != words[id]);
    } else if id < j {
        assert(words[id] != words[j]);
    }
}

/// What is known after the words of `s` are at their places in `m`.
spec fn context_known(
    s: Learning,
    m: Seq<Seq<char>>,
    prompt: Seq<char>,
    words: Seq<ProseWord>,
    k: int,
    bos: u32,
    slot: Slot,
    word: Seq<char>,
    id: Option<u32>,
) -> bool {
    &&& match slot {
        Slot::Unknown => id is None,
        Slot::Bos => id == Some(bos),
        Slot::Word => {
            &&& m.contains(word)
            &&& id is Some
            &&& (id->0 < m.len() && m[id->0 as int] == word) || exists|j: int|
                0 <= j < k && #[trigger] word_text(prompt, words, j) == word && s.events[j].w
                    == id->0
        },
    }
    &&& (forall|j: int| 0 <= j < k ==> #[trigger] word_text(prompt, words, j) != word) ==> id
        == resolved(m, bos, slot, word)
}

/// Every fold is one of an earlier word.
spec fn folds_known(s: Learning, prompt: Seq<char>, words: Seq<ProseWord>, k: int) -> bool {
    forall|i: int|
        0 <= i < s.folds.len() ==> (#[trigger] s.folds[i]).0 < s.known.words.len() && exists|j: int|
            0 <= j < k && #[trigger] word_text(prompt, words, j) == s.known.words[s.folds[i].0 as int]
                && s.events[j].w == s.folds[i].1
}

/// One slot, as it is learned.
proof fn lemma_slot(
    s: Learning,
    l: Known,
    prompt: Seq<char>,
    words: Seq<ProseWord>,
    k: int,
    bos: u32,
    slot: Slot,
    word: Seq<char>,
    dict: Seq<Seq<char>>,
    m: Seq<Seq<char>>,
)
    requires
        distinct(l.words),
        grows(s.known.words, l.words),
        folds_known(s, prompt, words, k),
        grows(learned_slot(l, s.folds, bos, slot, word, dict).0.words, m),
        m.len() <= NONE,
    ensures
        context_known(
            s,
            m,
            prompt,
            words,
            k,
            bos,
            slot,
            word,
            learned_slot(l, s.folds, bos, slot, word, dict).1,
        ),
{
    if slot == Slot::Word {
        let l2 = interned(l, word, dict);
        lemma_interned_grows(l, word, dict);
        let at = l2.words.index_of(word);
        assert(l2.words[at] == word);
        assert(m[at] == l2.words[at]);
        lemma_id(m, word, at);
        let id = known_id(l2.words, word);
        assert(id == at);
        lemma_folded(s.folds, id, 0);
        let to = folded(s.folds, id, 0);
        if exists|i: int|
            0 <= i < s.folds.len() && (#[trigger] s.folds[i]).0 == id && s.folds[i].1 == to {
            let i = choose|i: int|
                0 <= i < s.folds.len() && (#[trigger] s.folds[i]).0 == id && s.folds[i].1 == to;
            let j = choose|j: int|
                0 <= j < k && #[trigger] word_text(prompt, words, j)
                    == s.known.words[s.folds[i].0 as int] && s.events[j].w == s.folds[i].1;
            assert(l.words[id as int] == s.known.words[id as int]);
            assert(l2.words[id as int] == l.words[id as int]);
            assert(word_text(prompt, words, j) == word);
        }
    }
}

/// Everything that holds after the first `k` words.
spec fn all_known(
    s: Learning,
    prompt: Seq<char>,
    words: Seq<ProseWord>,
    k: int,
    learnable: bool,
    bos: u32,
    p: Params,
) -> bool {
    &&& s.events.len() == k
    &&& distinct(s.known.words)
    &&& folds_known(s, prompt, words, k)
    &&& forall|j: int| 0 <= j < k ==> #[trigger] event_known(s, prompt, words, j, learnable, bos, p)
}

spec fn event_known(
    s: Learning,
    prompt: Seq<char>,
    words: Seq<ProseWord>,
    j: int,
    learnable: bool,
    bos: u32,
    p: Params,
) -> bool {
    let (context, u_word, v_word) = context_of(text_before(prompt, words, j));
    let e = s.events[j];
    &&& context_known(s, s.known.words, prompt, words, j, bos, context.u, u_word, e.u)
    &&& context_known(s, s.known.words, prompt, words, j, bos, context.v, v_word, e.v)
    &&& !(learnable && p.canonicalize) ==> e.w < s.known.words.len() && s.known.words[e.w as int]
        == word_text(prompt, words, j)
}

proof fn lemma_context_kept(
    s: Learning,
    t: Learning,
    prompt: Seq<char>,
    words: Seq<ProseWord>,
    j: int,
    bos: u32,
    slot: Slot,
    word: Seq<char>,
    id: Option<u32>,
)
    requires
        context_known(s, s.known.words, prompt, words, j, bos, slot, word, id),
        distinct(s.known.words),
        grows(s.known.words, t.known.words),
        0 <= j <= s.events.len() <= t.events.len(),
        forall|i: int| 0 <= i < s.events.len() ==> #[trigger] t.events[i] == s.events[i],
    ensures
        context_known(t, t.known.words, prompt, words, j, bos, slot, word, id),
{
    if slot == Slot::Word {
        let at = s.known.words.index_of(word);
        assert(s.known.words[at] == word);
        assert(t.known.words[at] == word);
        lemma_id(s.known.words, word, at);
        lemma_id(t.known.words, word, at);
        if exists|i: int|
            0 <= i < j && #[trigger] word_text(prompt, words, i) == word && s.events[i].w == id->0 {
            let i = choose|i: int|
                0 <= i < j && #[trigger] word_text(prompt, words, i) == word && s.events[i].w
                    == id->0;
            assert(t.events[i] == s.events[i]);
        }
    }
}

/// One more word.
proof fn lemma_one_more(
    s: Learning,
    prompt: Seq<char>,
    words: Seq<ProseWord>,
    k: int,
    learnable: bool,
    bos: u32,
    p: Params,
    web: WebPrior,
)
    requires
        all_known(s, prompt, words, k, learnable, bos, p),
        0 <= k < words.len(),
        learn_word(
            s,
            prompt,
            chars_before(prompt, words[k].start as int),
            chars_before(prompt, words[k].end as int),
            learnable,
            bos,
            p,
            web,
        ).known.words.len() <= NONE,
    ensures
        ({
            let t = learn_word(
                s,
                prompt,
                chars_before(prompt, words[k].start as int),
                chars_before(prompt, words[k].end as int),
                learnable,
                bos,
                p,
                web,
            );
            all_known(t, prompt, words, k + 1, learnable, bos, p) && grows(
                s.known.words,
                t.known.words,
            )
        }),
{
    let a = chars_before(prompt, words[k].start as int);
    let b = chars_before(prompt, words[k].end as int);
    let t = learn_word(s, prompt, a, b, learnable, bos, p, web);
    let dict = web.dict_only.words();
    let (context, u_word, v_word) = context_of(prompt.take(a));
    let (k1, u) = learned_slot(s.known, s.folds, bos, context.u, u_word, dict);
    let (k2, v) = learned_slot(k1, s.folds, bos, context.v, v_word, dict);
    let lower = lower_chars_text(prompt.subrange(a, b));
    let k3 = interned(k2, lower, dict);
    let original = known_id(k3.words, lower);
    let target = t.events[k].w;
    lemma_slot_grows(s.known, s.folds, bos, context.u, u_word, dict);
    lemma_slot_grows(k1, s.folds, bos, context.v, v_word, dict);
    lemma_interned_grows(k2, lower, dict);
    lemma_typed_words(k3, target as int, p.canonicalize);
    lemma_typed_words(
        typed_again(k3, target as int, p.canonicalize),
        original as int,
        p.canonicalize,
    );
    let m = t.known.words;
    assert(m == k3.words);
    assert(grows(s.known.words, k1.words));
    assert(grows(k1.words, k2.words));
    assert(grows(k2.words, m));
    assert forall|i: int| 0 <= i < s.known.words.len() implies #[trigger] m[i]
        == s.known.words[i] by {
        assert(k1.words[i] == s.known.words[i]);
        assert(k2.words[i] == k1.words[i]);
    }
    assert forall|i: int| 0 <= i < k1.words.len() implies #[trigger] m[i] == k1.words[i] by {
        assert(k2.words[i] == k1.words[i]);
    }
    lemma_slot(s, s.known, prompt, words, k, bos, context.u, u_word, dict, m);
    lemma_slot(s, k1, prompt, words, k, bos, context.v, v_word, dict, m);
    assert(t.events == s.events.push(t.events[k]));
    let at = m.index_of(lower);
    assert(m[at] == lower);
    assert(original == at);
    assert(word_text(prompt, words, k) == lower);
    assert forall|j: int| 0 <= j < k + 1 implies #[trigger] event_known(
        t,
        prompt,
        words,
        j,
        learnable,
        bos,
        p,
    ) by {
        if j < k {
            assert(event_known(s, prompt, words, j, learnable, bos, p));
            let (c, uw, vw) = context_of(text_before(prompt, words, j));
            let e = s.events[j];
            lemma_context_kept(s, t, prompt, words, j, bos, c.u, uw, e.u);
            lemma_context_kept(s, t, prompt, words, j, bos, c.v, vw, e.v);
        } else {
            assert(text_before(prompt, words, k) == prompt.take(a));
            lemma_events_kept(s, t, prompt, words, k, bos, context.u, u_word, u);
            lemma_events_kept(s, t, prompt, words, k, bos, context.v, v_word, v);
        }
    }
    assert(folds_known(t, prompt, words, k + 1)) by {
        assert forall|i: int| 0 <= i < t.folds.len() implies (#[trigger] t.folds[i]).0 < m.len()
            && exists|j: int|
            0 <= j < k + 1 && #[trigger] word_text(prompt, words, j) == m[t.folds[i].0 as int]
                && t.events[j].w == t.folds[i].1 by {
            if i < s.folds.len() {
                assert(t.folds[i] == s.folds[i]);
                let j = choose|j: int|
                    0 <= j < k && #[trigger] word_text(prompt, words, j)
                        == s.known.words[s.folds[i].0 as int] && s.events[j].w == s.folds[i].1;
                assert(t.events[j] == s.events[j]);
                assert(m[s.folds[i].0 as int] == s.known.words[s.folds[i].0 as int]);
                assert(word_text(prompt, words, j) == m[t.folds[i].0 as int]);
            } else {
                assert(t.folds[i] == (original, target));
                assert(word_text(prompt, words, k) == m[t.folds[i].0 as int]);
            }
        }
    }
}

proof fn lemma_events_kept(
    s: Learning,
    t: Learning,
    prompt: Seq<char>,
    words: Seq<ProseWord>,
    k: int,
    bos: u32,
    slot: Slot,
    word: Seq<char>,
    id: Option<u32>,
)
    requires
        context_known(s, t.known.words, prompt, words, k, bos, slot, word, id),
        0 <= k <= s.events.len() <= t.events.len(),
        forall|i: int| 0 <= i < s.events.len() ==> #[trigger] t.events[i] == s.events[i],
    ensures
        context_known(t, t.known.words, prompt, words, k, bos, slot, word, id),
{
    if slot == Slot::Word && exists|i: int|
        0 <= i < k && #[trigger] word_text(prompt, words, i) == word && s.events[i].w == id->0 {
        let i = choose|i: int|
            0 <= i < k && #[trigger] word_text(prompt, words, i) == word && s.events[i].w == id->0;
        assert(t.events[i] == s.events[i]);
    }
}

proof fn lemma_learned(
    known: Known,
    prompt: Seq<char>,
    words: Seq<ProseWord>,
    k: int,
    learnable: bool,
    bos: u32,
    p: Params,
    web: WebPrior,
)
    requires
        distinct(known.words),
        0 <= k <= words.len(),
        learned(known, prompt, words, k, learnable, bos, p, web).known.words.len() <= NONE,
    ensures
        all_known(
            learned(known, prompt, words, k, learnable, bos, p, web),
            prompt,
            words,
            k,
            learnable,
            bos,
            p,
        ),
    decreases k,
{
    if k > 0 {
        lemma_learned_grows(known, prompt, words, k, learnable, bos, p, web);
        lemma_learned(known, prompt, words, k - 1, learnable, bos, p, web);
        let s = learned(known, prompt, words, k - 1, learnable, bos, p, web);
        lemma_one_more(s, prompt, words, k - 1, learnable, bos, p, web);
    }
}

/// Learning never takes a word away.
proof fn lemma_learned_grows(
    known: Known,
    prompt: Seq<char>,
    words: Seq<ProseWord>,
    k: int,
    learnable: bool,
    bos: u32,
    p: Params,
    web: WebPrior,
)
    requires
        distinct(known.words),
        0 < k,
    ensures
        distinct(learned(known, prompt, words, k, learnable, bos, p, web).known.words),
        learned(known, prompt, words, k - 1, learnable, bos, p, web).known.words.len() <= learned(
            known,
            prompt,
            words,
            k,
            learnable,
            bos,
            p,
            web,
        ).known.words.len(),
    decreases k,
{
    let s = learned(known, prompt, words, k - 1, learnable, bos, p, web);
    if k > 1 {
        lemma_learned_grows(known, prompt, words, k - 1, learnable, bos, p, web);
    }
    let a = chars_before(prompt, words[k - 1].start as int);
    let b = chars_before(prompt, words[k - 1].end as int);
    let t = learn_word(s, prompt, a, b, learnable, bos, p, web);
    let dict = web.dict_only.words();
    let (context, u_word, v_word) = context_of(prompt.take(a));
    let (k1, u) = learned_slot(s.known, s.folds, bos, context.u, u_word, dict);
    let (k2, v) = learned_slot(k1, s.folds, bos, context.v, v_word, dict);
    let lower = lower_chars_text(prompt.subrange(a, b));
    let k3 = interned(k2, lower, dict);
    let original = known_id(k3.words, lower);
    let target = if learnable {
        canonical_of(k3, web.count@, p, original as int) as u32
    } else {
        original
    };
    lemma_slot_grows(s.known, s.folds, bos, context.u, u_word, dict);
    lemma_slot_grows(k1, s.folds, bos, context.v, v_word, dict);
    lemma_interned_grows(k2, lower, dict);
    lemma_typed_words(k3, target as int, p.canonicalize);
    lemma_typed_words(
        typed_again(k3, target as int, p.canonicalize),
        original as int,
        p.canonicalize,
    );
    assert(t.known.words == k3.words);
}

/// Learning and completing see the same history: the two words that a word of a
/// learned prompt is counted behind are what the text before it names, as a
/// query behind that text finds them. A slot that names no word counts as none,
/// a sentence start as the sentence-start word, and a word as itself, or as the
/// word that an earlier word of its spelling in the prompt was counted as.
pub proof fn law_words_are_counted_in_their_context(
    known: Known,
    prompt: Seq<char>,
    words: Seq<ProseWord>,
    learnable: bool,
    bos: u32,
    p: Params,
    web: WebPrior,
    k: int,
)
    requires
        distinct(known.words),
        0 <= k < words.len(),
        learned(
            known,
            prompt,
            words,
            words.len() as int,
            learnable,
            bos,
            p,
            web,
        ).known.words.len() <= NONE,
    ensures
        ({
            let s = learned(known, prompt, words, words.len() as int, learnable, bos, p, web);
            let (context, u, v) = context_of(text_before(prompt, words, k));
            let e = s.events[k];
            &&& s.events.len() == words.len()
            &&& counted_as(s, prompt, words, k, bos, context.u, u, e.u)
            &&& counted_as(s, prompt, words, k, bos, context.v, v, e.v)
            &&& (forall|j: int| 0 <= j < k ==> #[trigger] word_text(prompt, words, j) != v) ==> e.v
                == resolved(s.known.words, bos, context.v, v)
            &&& (forall|j: int| 0 <= j < k ==> #[trigger] word_text(prompt, words, j) != u) ==> e.u
                == resolved(s.known.words, bos, context.u, u)
            &&& !(learnable && p.canonicalize) ==> e.w < s.known.words.len()
                && s.known.words[e.w as int] == word_text(prompt, words, k)
        }),
{
    lemma_learned(known, prompt, words, words.len() as int, learnable, bos, p, web);
    let s = learned(known, prompt, words, words.len() as int, learnable, bos, p, web);
    assert(event_known(s, prompt, words, k, learnable, bos, p));
}

/// The first word of a learned prompt, and every word with nothing but marks
/// between it and the start, is counted behind the sentence-start word.
pub proof fn law_first_word_is_counted_behind_the_sentence_start(
    known: Known,
    prompt: Seq<char>,
    words: Seq<ProseWord>,
    learnable: bool,
    bos: u32,
    p: Params,
    web: WebPrior,
    k: int,
)
    requires
        distinct(known.words),
        0 <= k < words.len(),
        learned(
            known,
            prompt,
            words,
            words.len() as int,
            learnable,
            bos,
            p,
            web,
        ).known.words.len() <= NONE,
        text_before(prompt, words, k).len() <= 64,
        forall|i: int|
            0 <= i < text_before(prompt, words, k).len() ==> !word_char(
                #[trigger] text_before(prompt, words, k)[i],
            ),
    ensures
        learned(
            known,
            prompt,
            words,
            words.len() as int,
            learnable,
            bos,
            p,
            web,
        ).events[k].v == Some(bos),
        learned(
            known,
            prompt,
            words,
            words.len() as int,
            learnable,
            bos,
            p,
            web,
        ).events[k].u is None,
{
    law_words_are_counted_in_their_context(known, prompt, words, learnable, bos, p, web, k);
    law_first_word_opens_a_sentence(text_before(prompt, words, k));
}

} // verus!
