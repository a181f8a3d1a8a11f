//! What typing does to the vocabulary: which words join it, which counts rise,
//! and which misspellings stay hidden.

use crate::ngram::hygiene::neighbours;
use crate::ngram::learning::{
    case_form, known_id, learn_word, learned, learned_slot, typed_again, Learning,
};
use crate::ngram::lexicon::{
    canonical_of, interned, overshadowed, refreshed_slips, slip_ids, strongest, swept, touched, Known,
    Params, NONE,
};
use crate::ngram::model::Model;
use crate::ngram::session::{occurrences, total_occurrences};
use crate::ngram::text::{case_tail, context_of, Slot};
use crate::ngram::web::WebPrior;
use crate::prose::{typed_shape, words_of, ProseWord};
use crate::unicode::{lower_chars_text, lower_text};
use vstd::prelude::*;

verus! {

proof fn lemma_slips_keep_counts(l: Known, found: Seq<u32>, k: int)
    ensures
        refreshed_slips(l, found, k).raw == l.raw,
        refreshed_slips(l, found, k).words == l.words,
    decreases k,
{
    if k > 0 {
        lemma_slips_keep_counts(l, found, k - 1);
    }
}

proof fn lemma_touched_keeps_counts(l: Known, id: int, canonicalize: bool)
    ensures
        touched(l, id, canonicalize).raw == l.raw,
        touched(l, id, canonicalize).words == l.words,
{
    let found = slip_ids(l.words, id);
    lemma_slips_keep_counts(l, found, found.len() as int);
}

/// Typing a word once more raises its count by one and no other count.
pub proof fn law_typing_raises_one_count(l: Known, id: int, canonicalize: bool)
    requires
        0 <= id < l.raw.len(),
        l.raw[id] < u32::MAX,
    ensures
        typed_again(l, id, canonicalize).raw[id] == l.raw[id] + 1,
        typed_again(l, id, canonicalize).raw.len() == l.raw.len(),
        forall|k: int|
            0 <= k < l.raw.len() && k != id ==> #[trigger] typed_again(l, id, canonicalize).raw[k]
                == l.raw[k],
        typed_again(l, id, canonicalize).words == l.words,
{
    lemma_touched_keeps_counts(
        Known { raw: l.raw.update(id, (l.raw[id] + 1) as u32), ..l },
        id,
        canonicalize,
    );
}

/// A word that is met for the first time joins the end of the vocabulary, never
/// typed, unknown to the web, and real exactly where the dictionary has it; a
/// known one changes nothing.
pub proof fn law_new_words_join_the_end(l: Known, word: Seq<char>, dict: Seq<Seq<char>>)
    requires
        l.raw.len() == l.words.len(),
        l.web.len() == l.words.len(),
        l.trusted.len() == l.words.len(),
        l.shadowed.len() == l.words.len(),
    ensures
        ({
            let now = interned(l, word, dict);
            let n = l.words.len() as int;
            &&& l.words.contains(word) ==> now == l
            &&& !l.words.contains(word) ==> {
                &&& now.words == l.words.push(word)
                &&& now.raw == l.raw.push(0)
                &&& now.web == l.web.push(NONE)
                &&& now.trusted == l.trusted.push(dict.contains(word))
                &&& now.shadowed == l.shadowed.push(false)
            }
            &&& now.words.contains(word)
        }),
{
    let now = interned(l, word, dict);
    if !l.words.contains(word) {
        assert(now.words[l.words.len() as int] == word);
    }
}

proof fn lemma_strongest_known(
    l: Known,
    web_count: Seq<u32>,
    p: Params,
    id: int,
    list: Seq<Seq<char>>,
    k: int,
)
    requires
        0 <= id < l.words.len(),
    ensures
        0 <= strongest(l, web_count, p, id, list, k).0 < l.words.len(),
    decreases k,
{
    if k > 0 {
        lemma_strongest_known(l, web_count, p, id, list, k - 1);
        if l.words.contains(list[k - 1]) {
            assert(l.words[l.words.index_of(list[k - 1])] == list[k - 1]);
        }
    }
}

/// The count of a word, none for one that is not known yet.
pub open spec fn count_of(l: Known, k: int) -> int {
    if 0 <= k < l.raw.len() {
        l.raw[k] as int
    } else {
        0
    }
}

/// The vocabulary grew at its end, by words that were never typed.
pub open spec fn only_grown(l: Known, m: Known) -> bool {
    &&& m.raw.len() == m.words.len()
    &&& l.words.is_prefix_of(m.words)
    &&& forall|k: int| #[trigger] count_of(m, k) == count_of(l, k)
}

proof fn lemma_interned(l: Known, word: Seq<char>, dict: Seq<Seq<char>>)
    requires
        l.raw.len() == l.words.len(),
    ensures
        only_grown(l, interned(l, word, dict)),
        interned(l, word, dict).words.contains(word),
{
    let now = interned(l, word, dict);
    if !l.words.contains(word) {
        assert(now.words == l.words.push(word));
        assert(now.raw == l.raw.push(0));
        assert(now.words[l.words.len() as int] == word);
    }
}

proof fn lemma_slot(
    l: Known,
    folds: Seq<(u32, u32)>,
    bos: u32,
    slot: Slot,
    word: Seq<char>,
    dict: Seq<Seq<char>>,
)
    requires
        l.raw.len() == l.words.len(),
    ensures
        only_grown(l, learned_slot(l, folds, bos, slot, word, dict).0),
{
    lemma_interned(l, word, dict);
}

/// A typed word is counted once: the count of the word it counts as rises by
/// one, and so does that of its own spelling where that is another; the recent
/// words gain the word it counts as. A pasted word raises no count and joins no
/// recent words.
pub proof fn law_typed_words_are_counted_once(
    s: Learning,
    prompt: Seq<char>,
    a: int,
    b: int,
    learnable: bool,
    bos: u32,
    p: Params,
    web: WebPrior,
)
    requires
        s.known.raw.len() == s.known.words.len(),
        s.known.words.len() + 3 < NONE,
        forall|k: int| 0 <= k < s.known.raw.len() ==> #[trigger] s.known.raw[k] + 2 <= u32::MAX,
    ensures
        ({
            let now = learn_word(s, prompt, a, b, learnable, bos, p, web);
            let own = lower_chars_text(prompt.subrange(a, b));
            let w = now.events.last().w as int;
            let o = now.known.words.index_of(own);
            &&& now.events.len() == s.events.len() + 1
            &&& 0 <= w < now.known.words.len()
            &&& now.known.words.contains(own)
            &&& s.known.words.is_prefix_of(now.known.words)
            &&& learnable ==> {
                &&& now.session == s.session.push(w as u32)
                &&& count_of(now.known, w) == count_of(s.known, w) + 1
                &&& count_of(now.known, o) == count_of(s.known, o) + 1
                &&& forall|k: int|
                    k != w && k != o ==> #[trigger] count_of(now.known, k) == count_of(s.known, k)
            }
            &&& !learnable ==> {
                &&& now.session == s.session
                &&& w == o
                &&& forall|k: int| #[trigger] count_of(now.known, k) == count_of(s.known, k)
            }
        }),
{
    let dict = web.dict_only.words();
    let (context, u_word, v_word) = context_of(prompt.take(a));
    let (k1, u) = learned_slot(s.known, s.folds, bos, context.u, u_word, dict);
    lemma_slot(s.known, s.folds, bos, context.u, u_word, dict);
    lemma_grown_by_one(s.known, s.folds, bos, context.u, u_word, dict);
    let (k2, v) = learned_slot(k1, s.folds, bos, context.v, v_word, dict);
    lemma_slot(k1, s.folds, bos, context.v, v_word, dict);
    lemma_grown_by_one(k1, s.folds, bos, context.v, v_word, dict);
    let own = lower_chars_text(prompt.subrange(a, b));
    let k3 = interned(k2, own, dict);
    lemma_interned(k2, own, dict);
    let o = k3.words.index_of(own);
    assert(k3.words[o] == own);
    assert(k3.words.len() < NONE);
    let original = known_id(k3.words, own);
    assert(original as int == o);
    let list = neighbours(k3.words[o]);
    lemma_strongest_known(k3, web.count@, p, o, list, list.len() as int);
    let t = canonical_of(k3, web.count@, p, o);
    assert(0 <= t < k3.words.len());
    let now = learn_word(s, prompt, a, b, learnable, bos, p, web);
    assert forall|k: int| #[trigger] count_of(k3, k) == count_of(s.known, k) by {
        assert(count_of(k2, k) == count_of(k1, k));
        assert(count_of(k1, k) == count_of(s.known, k));
    }
    assert(s.known.words.is_prefix_of(k3.words)) by {
        assert forall|i: int| 0 <= i < s.known.words.len() implies s.known.words[i]
            == k3.words[i] by {
            assert(k1.words[i] == s.known.words[i]);
            assert(k2.words[i] == k1.words[i]);
        }
    }
    if learnable {
        assert(count_of(k3, t) == count_of(s.known, t));
        assert(count_of(k3, o) == count_of(s.known, o));
        assert(k3.raw[t] < u32::MAX);
        assert(k3.raw[o] + 2 <= u32::MAX);
        law_typing_raises_one_count(k3, t, p.canonicalize);
        let once = typed_again(k3, t, p.canonicalize);
        if t != o {
            assert(once.raw[o] == k3.raw[o]);
            law_typing_raises_one_count(once, o, p.canonicalize);
        }
        assert forall|k: int|
            k != t && k != o implies #[trigger] count_of(now.known, k) == count_of(s.known, k) by {
            assert(count_of(k3, k) == count_of(s.known, k));
            if 0 <= k < k3.raw.len() {
                assert(once.raw[k] == k3.raw[k]);
            }
        }
    } else {
        assert(now.known == k3);
    }
}

proof fn lemma_grown_by_one(
    l: Known,
    folds: Seq<(u32, u32)>,
    bos: u32,
    slot: Slot,
    word: Seq<char>,
    dict: Seq<Seq<char>>,
)
    ensures
        learned_slot(l, folds, bos, slot, word, dict).0.words.len() <= l.words.len() + 1,
{
}

/// The written form kept for a word is the end of what was typed, differs from
/// the word, and is the word but for case.
pub proof fn law_kept_forms_differ_in_case_only(surface: Seq<char>, word: Seq<char>)
    ensures
        case_form(surface, word) is Some ==> {
            let form = case_form(surface, word)->0;
            &&& form == case_tail(surface)
            &&& form != word
            &&& form.len() == word.len()
            &&& lower_text(form) == word
        },
        case_form(surface, word) is None ==> case_tail(surface) == word || case_tail(surface).len()
            != word.len() || lower_text(case_tail(surface)) != word,
{
}

proof fn lemma_swept_keeps(l: Known, k: int, canonicalize: bool)
    requires
        0 <= k <= l.words.len(),
    ensures
        ({
            let now = swept(l, k, canonicalize);
            &&& now.words == l.words
            &&& now.raw == l.raw
            &&& now.trusted == l.trusted
            &&& now.web == l.web
            &&& now.shadowed.len() == l.words.len()
            &&& forall|i: int| k <= i < l.words.len() ==> !#[trigger] now.shadowed[i]
        }),
    decreases k,
{
    if k > 0 {
        lemma_swept_keeps(l, k - 1, canonicalize);
    }
}

/// After a sweep the misspellings that are hidden are exactly those that were
/// typed, have five or more characters and are overshadowed by what one slip
/// makes of them; without the correction of spellings none is.
pub proof fn law_a_sweep_hides_the_overshadowed(l: Known, k: int, canonicalize: bool, id: int)
    requires
        0 <= k <= l.words.len(),
        0 <= id < k,
    ensures
        !canonicalize ==> !swept(l, k, canonicalize).shadowed[id],
        canonicalize ==> (swept(l, k, canonicalize).shadowed[id] <==> !l.trusted[id] && l.raw[id] > 0
            && l.words[id].len() >= 5 && overshadowed(l, id, slip_ids(l.words, id))),
    decreases k,
{
    lemma_swept_keeps(l, k, canonicalize);
    lemma_swept_keeps(l, k - 1, canonicalize);
    let prior = swept(l, k - 1, canonicalize);
    if id < k - 1 {
        law_a_sweep_hides_the_overshadowed(l, k - 1, canonicalize, id);
    } else {
        let found = slip_ids(l.words, id);
        assert(overshadowed(prior, id, found) == overshadowed(l, id, found));
    }
}

/// A word's occurrences are counted one by one, over all prompts.
pub proof fn law_occurrences_are_counted(
    ids: Seq<u32>,
    id: u32,
    prompts: Seq<Seq<u32>>,
    more: Seq<u32>,
)
    ensures
        occurrences(Seq::empty(), id) == 0,
        occurrences(ids.push(id), id) == occurrences(ids, id) + 1,
        forall|other: u32|
            other != id ==> #[trigger] occurrences(ids.push(other), id) == occurrences(ids, id),
        total_occurrences(Seq::empty(), id) == 0,
        total_occurrences(prompts.push(more), id) == total_occurrences(prompts, id) + occurrences(
            more,
            id,
        ),
{
    assert(ids.push(id).drop_last() =~= ids);
    assert forall|other: u32| other != id implies #[trigger] occurrences(ids.push(other), id)
        == occurrences(ids, id) by {
        assert(ids.push(other).drop_last() =~= ids);
    }
    assert(prompts.push(more).drop_last() =~= prompts);
}

proof fn lemma_lesson_lengths(
    known: Known,
    prompt: Seq<char>,
    words: Seq<ProseWord>,
    k: int,
    learnable: bool,
    bos: u32,
    p: Params,
    web: WebPrior,
)
    requires
        0 <= k <= words.len(),
    ensures
        learned(known, prompt, words, k, learnable, bos, p, web).events.len() == k,
        learnable ==> learned(known, prompt, words, k, learnable, bos, p, web).session.len() == k,
        !learnable ==> learned(known, prompt, words, k, learnable, bos, p, web).session.len() == 0,
    decreases k,
{
    if k > 0 {
        lemma_lesson_lengths(known, prompt, words, k - 1, learnable, bos, p, web);
    }
}

/// Every word of a typed prompt is counted, and joins the recent words; every
/// word of a pasted one is counted where pastes count, and joins them only where
/// the prompt could have been typed; what does not count teaches nothing.
pub proof fn law_lessons_count_every_word(
    m: Model,
    prompt: Seq<char>,
    pastes_count: bool,
    web: WebPrior,
)
    ensures
        ({
            let words = words_of(prompt);
            let lesson = m.lesson(prompt, pastes_count, web);
            &&& typed_shape(prompt, 1500) || pastes_count ==> lesson.events.len() == words.len()
            &&& (typed_shape(prompt, 1500) || pastes_count) && typed_shape(prompt, 5000)
                ==> lesson.session.len() == words.len()
            &&& !typed_shape(prompt, 5000) ==> lesson.session.len() == 0
            &&& words.len() == 0 || !(typed_shape(prompt, 1500) || pastes_count)
                ==> lesson.events.len() == 0 && lesson.session.len() == 0 && lesson.known
                == m.lexicon@
        }),
{
    let words = words_of(prompt);
    let n = if m.counts_in(prompt, pastes_count) {
        words.len() as int
    } else {
        0
    };
    lemma_lesson_lengths(
        m.lexicon@,
        prompt,
        words,
        n,
        typed_shape(prompt, 5000),
        m.bos,
        m.params,
        web,
    );
}

} // verus!
