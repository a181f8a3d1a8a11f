//! What one submitted prompt teaches: the words it counts and the spellings it
//! makes known.

use crate::ngram::counts::{Event, EventView};
use crate::ngram::hygiene::slips;
use crate::ngram::lexicon::{
    canonical_of, interned, lemma_found_range, refreshed_slips, slip_ids, suggestible, tables_fit, touched,
    Known, Lexicon, Params, NONE,
};
use crate::ngram::order::sorted_texts;
use crate::ngram::text::{
    case_tail, case_tail_chars, context_at, context_of, Slot,
};
use crate::ngram::vocab::word_limit;
use crate::ngram::web::WebPrior;
use crate::prose::{Letters, ProseWord, MAX_BUFFER};
use crate::unicode::{
    at_boundary, char_position, chars_before, chars_of, lower_all, lower_chars_text, lower_text,
    lower_text_of, same_text, string_of,
};
use vstd::prelude::*;

verus! {

/// A lexicon while a prompt is learned.
#[verifier::ext_equal]
pub struct Learning {
    pub known: Known,
    /// Spellings folded so far: original id and canonical id.
    pub folds: Seq<(u32, u32)>,
    /// Words of the prompt for the session cache.
    pub session: Seq<u32>,
    /// Words to count.
    pub events: Seq<EventView>,
}

/// Where `id` was folded to, from fold `at` on.
pub open spec fn folded(folds: Seq<(u32, u32)>, id: u32, at: int) -> u32
    decreases folds.len() - at,
{
    if at >= folds.len() {
        id
    } else if folds[at].0 == id {
        folds[at].1
    } else {
        folded(folds, id, at + 1)
    }
}

/// The id of a word that is known.
pub open spec fn known_id(words: Seq<Seq<char>>, word: Seq<char>) -> u32 {
    words.index_of(word) as u32
}

/// A context slot while learning: words become known, and those folded earlier
/// in the prompt stand for their canonical spelling.
pub open spec fn learned_slot(
    l: Known,
    folds: Seq<(u32, u32)>,
    bos: u32,
    slot: Slot,
    word: Seq<char>,
    dict: Seq<Seq<char>>,
) -> (Known, Option<u32>) {
    match slot {
        Slot::Unknown => (l, None),
        Slot::Bos => (l, Some(bos)),
        Slot::Word => {
            let m = interned(l, word, dict);
            (m, Some(folded(folds, known_id(m.words, word), 0)))
        },
    }
}

/// The casing of `surface` when it is a non-plain form of `word`.
pub open spec fn case_form(surface: Seq<char>, word: Seq<char>) -> Option<Seq<char>> {
    let tail = case_tail(surface);
    if tail != word && tail.len() == word.len() && lower_text(tail) == word {
        Some(tail)
    } else {
        None
    }
}

/// `id` typed once more.
pub open spec fn typed_again(l: Known, id: int, canonicalize: bool) -> Known {
    touched(Known { raw: l.raw.update(id, (l.raw[id] + 1) as u32), ..l }, id, canonicalize)
}

/// The state after the word between characters `a` and `b` of the prompt.
pub open spec fn learn_word(
    s: Learning,
    prompt: Seq<char>,
    a: int,
    b: int,
    learnable: bool,
    bos: u32,
    p: Params,
    web: WebPrior,
) -> Learning {
    let dict = web.dict_only.words();
    let (context, u_word, v_word) = context_of(prompt.take(a));
    let (k1, u) = learned_slot(s.known, s.folds, bos, context.u, u_word, dict);
    let (k2, v) = learned_slot(k1, s.folds, bos, context.v, v_word, dict);
    let surface = prompt.subrange(a, b);
    let lower = lower_chars_text(surface);
    let k3 = interned(k2, lower, dict);
    let original = known_id(k3.words, lower);
    let target = if learnable {
        canonical_of(k3, web.count@, p, original as int) as u32
    } else {
        original
    };
    let k4 = if learnable {
        let once = typed_again(k3, target as int, p.canonicalize);
        if target != original {
            typed_again(once, original as int, p.canonicalize)
        } else {
            once
        }
    } else {
        k3
    };
    Learning {
        known: k4,
        folds: if target != original {
            s.folds.push((original, target))
        } else {
            s.folds
        },
        session: if learnable {
            s.session.push(target)
        } else {
            s.session
        },
        events: s.events.push(
            EventView { u, v, w: target, tail: case_form(surface, k3.words[target as int]) },
        ),
    }
}

/// The state after the first `k` of `words`.
pub open spec fn learned(
    known: Known,
    prompt: Seq<char>,
    words: Seq<ProseWord>,
    k: int,
    learnable: bool,
    bos: u32,
    p: Params,
    web: WebPrior,
) -> Learning
    decreases k,
{
    if k <= 0 {
        Learning { known, folds: Seq::empty(), session: Seq::empty(), events: Seq::empty() }
    } else {
        let w = words[k - 1];
        learn_word(
            learned(known, prompt, words, k - 1, learnable, bos, p, web),
            prompt,
            chars_before(prompt, w.start as int),
            chars_before(prompt, w.end as int),
            learnable,
            bos,
            p,
            web,
        )
    }
}

/// What `m` knows of the words of `l` is what `l` knows, but for how often they
/// were typed and the marks that follow from it; further words have not been
/// typed and are not of the web.
pub open spec fn extends(l: Known, m: Known) -> bool {
    &&& tables_fit(m)
    &&& l.words.len() <= m.words.len()
    &&& forall|i: int| 0 <= i < l.words.len() ==> #[trigger] m.words[i] == l.words[i]
    &&& forall|i: int| 0 <= i < l.words.len() ==> #[trigger] m.web[i] == l.web[i]
    &&& forall|i: int| 0 <= i < l.words.len() ==> #[trigger] m.trusted[i] == l.trusted[i]
    &&& forall|i: int| l.words.len() <= i < m.words.len() ==> #[trigger] m.web[i] == NONE
}

/// No spelling was typed more often, and no shadow moved.
pub open spec fn untyped(l: Known, m: Known) -> bool {
    &&& forall|i: int| 0 <= i < l.words.len() ==> #[trigger] m.raw[i] == l.raw[i]
    &&& forall|i: int| l.words.len() <= i < m.words.len() ==> #[trigger] m.raw[i] == 0
    &&& forall|i: int| 0 <= i < l.words.len() ==> #[trigger] m.shadowed[i] == l.shadowed[i]
}

/// Making a word known changes nothing of the others but their watch marks.
pub proof fn lemma_interned_extends(l: Known, word: Seq<char>, dict: Seq<Seq<char>>)
    requires
        tables_fit(l),
    ensures
        extends(l, interned(l, word, dict)),
        untyped(l, interned(l, word, dict)),
        interned(l, word, dict).words.len() <= l.words.len() + 1,
        interned(l, word, dict).words.contains(word),
{
    let m = interned(l, word, dict);
    if !l.words.contains(word) {
        assert(m.words == l.words.push(word));
        assert(m.words[l.words.len() as int] == word);
    }
}

proof fn lemma_refreshed_slips_keeps(l: Known, found: Seq<u32>, k: int)
    requires
        tables_fit(l),
        k <= found.len(),
        forall|j: int| 0 <= j < found.len() ==> #[trigger] found[j] < l.words.len(),
    ensures
        refreshed_slips(l, found, k).words == l.words,
        refreshed_slips(l, found, k).raw == l.raw,
        refreshed_slips(l, found, k).web == l.web,
        refreshed_slips(l, found, k).trusted == l.trusted,
        tables_fit(refreshed_slips(l, found, k)),
    decreases k,
{
    if k > 0 {
        lemma_refreshed_slips_keeps(l, found, k - 1);
    }
}

/// Hygiene upkeep moves only shadows and watch marks.
pub proof fn lemma_touched_keeps(l: Known, id: int, canonicalize: bool)
    requires
        tables_fit(l),
        l.words.len() < NONE,
        0 <= id < l.words.len(),
    ensures
        touched(l, id, canonicalize).words == l.words,
        touched(l, id, canonicalize).raw == l.raw,
        touched(l, id, canonicalize).web == l.web,
        touched(l, id, canonicalize).trusted == l.trusted,
        tables_fit(touched(l, id, canonicalize)),
{
    let found = slip_ids(l.words, id);
    lemma_found_range(l.words, slips(l.words[id]), slips(l.words[id]).len() as int);
    lemma_refreshed_slips_keeps(l, found, found.len() as int);
}

proof fn lemma_extends_transitive(a: Known, b: Known, c: Known)
    requires
        extends(a, b),
        extends(b, c),
    ensures
        extends(a, c),
        untyped(a, b) && untyped(b, c) ==> untyped(a, c),
{
    assert forall|i: int| 0 <= i < a.words.len() implies #[trigger] c.words[i] == a.words[i]
        && c.web[i] == a.web[i] && c.trusted[i] == a.trusted[i] by {
        assert(c.words[i] == b.words[i] && b.words[i] == a.words[i]);
        assert(c.web[i] == b.web[i] && b.web[i] == a.web[i]);
        assert(c.trusted[i] == b.trusted[i] && b.trusted[i] == a.trusted[i]);
    }
    assert forall|i: int| a.words.len() <= i < c.words.len() implies #[trigger] c.web[i] == NONE by {
        if i < b.words.len() {
            assert(c.web[i] == b.web[i]);
        }
    }
    if untyped(a, b) && untyped(b, c) {
        assert forall|i: int| 0 <= i < a.words.len() implies #[trigger] c.raw[i] == a.raw[i]
            && c.shadowed[i] == a.shadowed[i] by {
            assert(c.raw[i] == b.raw[i] && b.raw[i] == a.raw[i]);
            assert(c.shadowed[i] == b.shadowed[i] && b.shadowed[i] == a.shadowed[i]);
        }
        assert forall|i: int| a.words.len() <= i < c.words.len() implies #[trigger] c.raw[i] == 0 by {
            if i < b.words.len() {
                assert(c.raw[i] == b.raw[i]);
            }
        }
    }
}

proof fn lemma_slot_extends(
    l: Known,
    folds: Seq<(u32, u32)>,
    bos: u32,
    slot: Slot,
    word: Seq<char>,
    dict: Seq<Seq<char>>,
)
    requires
        tables_fit(l),
    ensures
        extends(l, learned_slot(l, folds, bos, slot, word, dict).0),
        untyped(l, learned_slot(l, folds, bos, slot, word, dict).0),
{
    if slot == Slot::Word {
        lemma_interned_extends(l, word, dict);
    }
}

/// A prompt that is not learnable makes no spelling typed and moves no shadow.
pub proof fn lemma_pasted_extends(
    known: Known,
    prompt: Seq<char>,
    words: Seq<ProseWord>,
    k: int,
    bos: u32,
    p: Params,
    web: WebPrior,
)
    requires
        tables_fit(known),
    ensures
        extends(known, learned(known, prompt, words, k, false, bos, p, web).known),
        untyped(known, learned(known, prompt, words, k, false, bos, p, web).known),
    decreases k,
{
    if k > 0 {
        lemma_pasted_extends(known, prompt, words, k - 1, bos, p, web);
        let s = learned(known, prompt, words, k - 1, false, bos, p, web);
        let a = chars_before(prompt, words[k - 1].start as int);
        let b = chars_before(prompt, words[k - 1].end as int);
        let dict = web.dict_only.words();
        let (context, u_word, v_word) = context_of(prompt.take(a));
        let k1 = learned_slot(s.known, s.folds, bos, context.u, u_word, dict).0;
        lemma_slot_extends(s.known, s.folds, bos, context.u, u_word, dict);
        let k2 = learned_slot(k1, s.folds, bos, context.v, v_word, dict).0;
        lemma_slot_extends(k1, s.folds, bos, context.v, v_word, dict);
        let lower = lower_chars_text(prompt.subrange(a, b));
        let k3 = interned(k2, lower, dict);
        lemma_interned_extends(k2, lower, dict);
        lemma_extends_transitive(known, s.known, k1);
        lemma_extends_transitive(known, k1, k2);
        lemma_extends_transitive(known, k2, k3);
    }
}

/// Pastes never make a word suggestible: a prompt that is not learnable leaves
/// every known word as suggestible as it was, and of the words it brings only
/// real spellings are.
pub proof fn law_pastes_never_make_a_word_suggestible(
    known: Known,
    prompt: Seq<char>,
    words: Seq<ProseWord>,
    bos: u32,
    p: Params,
    web: WebPrior,
    id: int,
)
    requires
        tables_fit(known),
        p.min_count > 0,
        0 <= id < learned(
            known,
            prompt,
            words,
            words.len() as int,
            false,
            bos,
            p,
            web,
        ).known.words.len(),
    ensures
        ({
            let after = learned(known, prompt, words, words.len() as int, false, bos, p, web).known;
            &&& id < known.words.len() ==> suggestible(after, id, p.min_count) == suggestible(
                known,
                id,
                p.min_count,
            )
            &&& id >= known.words.len() ==> suggestible(after, id, p.min_count)
                == after.trusted[id]
        }),
{
    lemma_pasted_extends(known, prompt, words, words.len() as int, bos, p, web);
}

fn fold_of(folds: &Vec<(u32, u32)>, id: u32) -> (to: u32)
    ensures
        to == folded(folds@, id, 0),
{
    let mut i: usize = 0;
    while i < folds.len()
        invariant
            i <= folds@.len(),
            folded(folds@, id, 0) == folded(folds@, id, i as int),
        decreases folds@.len() - i,
    {
        if folds[i].0 == id {
            return folds[i].1;
        }
        i = i + 1;
    }
    id
}

/// The casing of `surface` when it is a non-plain form of `word`.
pub fn non_plain_form(surface: &[char], word: &str) -> (form: Option<String>)
    ensures
        match form {
            Some(f) => case_form(surface@, word@) == Some(f@),
            None => case_form(surface@, word@) is None,
        },
{
    let tail = case_tail_chars(surface);
    let text = string_of(&tail);
    if same_text(text.as_str(), word) {
        return None;
    }
    let chars = chars_of(word);
    if tail.len() != chars.len() {
        return None;
    }
    let lower = lower_text_of(text.as_str());
    if same_text(lower.as_str(), word) {
        Some(text)
    } else {
        None
    }
}

/// Room for one prompt: every word brings at most three new spellings and is
/// typed at most twice.
pub open spec fn has_room(l: Known) -> bool {
    &&& l.words.len() + 3 * MAX_BUFFER <= word_limit()
    &&& forall|i: int| 0 <= i < l.raw.len() ==> #[trigger] l.raw[i] + 2 * MAX_BUFFER <= u32::MAX
}

/// Web ids are in range.
pub open spec fn web_ids_fit(l: Known, web: WebPrior) -> bool {
    forall|i: int| 0 <= i < l.words.len() ==> #[trigger] l.web[i] == NONE || l.web[i]
        < web.count@.len()
}

/// Events as views.
pub open spec fn event_views(events: Seq<Event>) -> Seq<EventView> {
    events.map_values(|e: Event| e@)
}

impl Lexicon {
    /// A context slot while learning.
    fn learn_slot(
        &mut self,
        folds: &Vec<(u32, u32)>,
        bos: u32,
        slot: Slot,
        word: &[char],
        web: &WebPrior,
    ) -> (id: Option<u32>)
        requires
            old(self).wf(),
            old(self)@.words.len() < word_limit(),
            bos < old(self)@.words.len(),
            web.wf(),
            sorted_texts(web.dict_only.words()),
            forall|k: int| 0 <= k < folds@.len() ==> (#[trigger] folds@[k]).1 < old(self)@.words.len(),
        ensures
            final(self).wf(),
            (final(self)@, id) == learned_slot(
                old(self)@,
                folds@,
                bos,
                slot,
                word@,
                web.dict_only.words(),
            ),
            id matches Some(i) ==> i < final(self)@.words.len(),
            final(self).vocab.base() == old(self).vocab.base(),
            final(self)@.words.len() <= old(self)@.words.len() + 1,
    {
        match slot {
            Slot::Unknown => None,
            Slot::Bos => Some(bos),
            Slot::Word => {
                let text = string_of(word);
                let ghost start = self@;
                proof {
                    lemma_interned_extends(start, word@, web.dict_only.words());
                }
                let (id, fresh) = self.intern(text.as_str(), web);
                let to = fold_of(folds, id);
                proof {
                    lemma_folded_range(folds@, id, 0, self@.words.len() as int);
                }
                Some(to)
            },
        }
    }

    /// `id` typed once more.
    fn type_again(&mut self, id: u32, canonicalize: bool)
        requires
            old(self).wf(),
            id < old(self)@.words.len(),
            old(self)@.raw[id as int] < u32::MAX,
        ensures
            final(self).wf(),
            final(self)@ == typed_again(old(self)@, id as int, canonicalize),
            final(self).vocab == old(self).vocab,
            final(self)@.raw == old(self)@.raw.update(
                id as int,
                (old(self)@.raw[id as int] + 1) as u32,
            ),
            final(self)@.web == old(self)@.web,
            final(self)@.trusted == old(self)@.trusted,
    {
        let ghost start = self@;
        let n: u32 = self.raw[id as usize];
        self.raw.set(id as usize, n + 1);
        proof {
            assert(self@ == (Known {
                raw: start.raw.update(id as int, (start.raw[id as int] + 1) as u32),
                ..start
            }));
            lemma_touched_keeps(self@, id as int, canonicalize);
        }
        self.touch_hygiene(id, canonicalize);
    }

    /// Learns the words of a prompt: the words it counts, and those for the
    /// session cache.
    #[verifier::rlimit(80)]
    #[verifier::spinoff_prover]
    pub fn learn(
        &mut self,
        prompt: &str,
        words: &Vec<ProseWord>,
        learnable: bool,
        bos: u32,
        p: &Params,
        web: &WebPrior,
    ) -> (r: (Vec<Event>, Vec<u32>))
        requires
            old(self).wf(),
            has_room(old(self)@),
            web_ids_fit(old(self)@, *web),
            bos < old(self)@.words.len(),
            web.wf(),
            sorted_texts(web.dict_only.words()),
            words@.len() <= MAX_BUFFER,
            forall|k: int|
                0 <= k < words@.len() ==> at_boundary(prompt@, (#[trigger] words@[k]).start as int)
                    && at_boundary(prompt@, words@[k].end as int) && words@[k].start
                    <= words@[k].end,
        ensures
            final(self).wf(),
            final(self).vocab.base() == old(self).vocab.base(),
            web_ids_fit(final(self)@, *web),
            extends(old(self)@, final(self)@),
            ({
                let s = learned(
                    old(self)@,
                    prompt@,
                    words@,
                    words@.len() as int,
                    learnable,
                    bos,
                    *p,
                    *web,
                );
                &&& final(self)@ == s.known
                &&& event_views(r.0@) == s.events
                &&& r.1@ == s.session
            }),
            forall|k: int|
                0 <= k < r.0@.len() ==> (#[trigger] r.0@[k])@.ids_below(
                    final(self)@.words.len() as int,
                ),
            r.1@.len() <= words@.len(),
            forall|k: int| 0 <= k < r.1@.len() ==> #[trigger] r.1@[k] < final(self)@.words.len(),
    {
        let ghost start = self@;
        let chars = chars_of(prompt);
        let ghost dict = web.dict_only.words();
        let mut folds: Vec<(u32, u32)> = Vec::new();
        let mut session: Vec<u32> = Vec::new();
        let mut events: Vec<Event> = Vec::new();
        let mut letters = Letters::new();
        let total: usize = words.len();
        let mut k: usize = 0;
        assert(event_views(events@) =~= Seq::<EventView>::empty());
        while k < total
            invariant
                self.wf(),
                chars@ == prompt@,
                dict == web.dict_only.words(),
                total == words@.len(),
                total <= MAX_BUFFER,
                k <= total,
                self@.words.len() + 3 * (MAX_BUFFER - k) <= word_limit(),
                forall|i: int|
                    0 <= i < self@.raw.len() ==> #[trigger] self@.raw[i] + 2 * (MAX_BUFFER - k)
                        <= u32::MAX,
                web_ids_fit(self@, *web),
                start.words.len() <= self@.words.len(),
                extends(start, self@),
                self.vocab.base() == old(self).vocab.base(),
                bos < start.words.len(),
                web.wf(),
                sorted_texts(dict),
                forall|j: int|
                    0 <= j < words@.len() ==> at_boundary(
                        prompt@,
                        (#[trigger] words@[j]).start as int,
                    ) && at_boundary(prompt@, words@[j].end as int) && words@[j].start
                        <= words@[j].end,
                ({
                    let s = learned(start, prompt@, words@, k as int, learnable, bos, *p, *web);
                    &&& self@ == s.known
                    &&& folds@ == s.folds
                    &&& event_views(events@) == s.events
                    &&& session@ == s.session
                }),
                forall|j: int|
                    0 <= j < folds@.len() ==> (#[trigger] folds@[j]).1 < self@.words.len(),
                forall|j: int|
                    0 <= j < events@.len() ==> (#[trigger] events@[j])@.ids_below(
                        self@.words.len() as int,
                    ),
                session@.len() <= k,
                forall|j: int| 0 <= j < session@.len() ==> #[trigger] session@[j] < self@.words.len(),
            decreases total - k,
        {
            let ghost s = learned(start, prompt@, words@, k as int, learnable, bos, *p, *web);
            let word = &words[k];
            let a = char_position(&chars, word.start);
            let b = char_position(&chars, word.end);
            proof {
                if b < a {
                    crate::unicode::lemma_byte_len_monotone(prompt@, b as int, a as int);
                }
            }
            let ghost k0 = self@;
            let before: &[char] = &chars[0..a];
            assert(before@ =~= prompt@.take(a as int));
            let (context, u_word, v_word) = context_at(before, &mut letters);
            proof {
                lemma_slot_extends(k0, folds@, bos, context.u, u_word@, dict);
            }
            let u = self.learn_slot(&folds, bos, context.u, &u_word, web);
            let ghost k1 = self@;
            proof {
                lemma_slot_extends(k1, folds@, bos, context.v, v_word@, dict);
            }
            let v = self.learn_slot(&folds, bos, context.v, &v_word, web);
            let ghost k2 = self@;
            let surface: &[char] = &chars[a..b];
            assert(surface@ =~= prompt@.subrange(a as int, b as int));
            let lower = lower_all(surface);
            let text = string_of(&lower);
            proof {
                lemma_interned_extends(k2, lower@, dict);
            }
            let (original, fresh) = self.intern(text.as_str(), web);
            let ghost k3 = self@;
            proof {
                lemma_extends_transitive(k0, k1, k2);
                lemma_extends_transitive(k0, k2, k3);
                lemma_extends_transitive(start, k0, k3);
                assert(known_id(k3.words, lower@) == original);
                assert forall|i: int| 0 <= i < k3.words.len() implies #[trigger] k3.web[i] == NONE
                    || k3.web[i] < web.count@.len() by {
                    if i < k0.words.len() {
                        assert(k3.web[i] == k0.web[i]);
                    }
                }
                assert forall|i: int| 0 <= i < k3.raw.len() implies #[trigger] k3.raw[i] + 2 * (
                MAX_BUFFER - k) <= u32::MAX by {
                    if i < k0.words.len() {
                        assert(k3.raw[i] == k0.raw[i]);
                    }
                }
            }
            let target: u32 = if learnable {
                self.canonical(original, p, web)
            } else {
                original
            };
            let tail = non_plain_form(surface, self.vocab.word(target));
            let event = Event { u, v, w: target, tail };
            let ghost prior_events = events@;
            events.push(event);
            proof {
                assert(event_views(events@) =~= event_views(prior_events).push(event@));
                assert forall|j: int| 0 <= j < events@.len() implies (
                #[trigger] events@[j])@.ids_below(k3.words.len() as int) by {
                    if j < prior_events.len() {
                        assert(prior_events[j]@.ids_below(k0.words.len() as int));
                    }
                }
            }
            if target != original {
                folds.push((original, target));
            }
            if learnable {
                self.type_again(target, p.canonicalize);
                if target != original {
                    self.type_again(original, p.canonicalize);
                }
                session.push(target);
                proof {
                    assert forall|i: int| 0 <= i < self@.raw.len() implies #[trigger] self@.raw[i]
                        + 2 * (MAX_BUFFER - k - 1) <= u32::MAX by {
                        assert(k3.raw[i] + 2 * (MAX_BUFFER - k) <= u32::MAX);
                    }
                    lemma_typed_extends(start, k3, self@);
                }
            }
            k = k + 1;
        }
        (events, session)
    }
}

/// Typing known words again keeps what was known of the words.
proof fn lemma_typed_extends(start: Known, l: Known, m: Known)
    requires
        extends(start, l),
        tables_fit(m),
        m.words == l.words,
        m.web == l.web,
        m.trusted == l.trusted,
    ensures
        extends(start, m),
{
    assert forall|i: int| 0 <= i < start.words.len() implies #[trigger] m.words[i] == start.words[i]
        && m.web[i] == start.web[i] && m.trusted[i] == start.trusted[i] by {
        assert(l.words[i] == start.words[i]);
        assert(l.web[i] == start.web[i]);
        assert(l.trusted[i] == start.trusted[i]);
    }
}

proof fn lemma_folded_range(folds: Seq<(u32, u32)>, id: u32, at: int, n: int)
    requires
        0 <= at,
        id < n,
        forall|k: int| 0 <= k < folds.len() ==> (#[trigger] folds[k]).1 < n,
    ensures
        folded(folds, id, at) < n,
    decreases folds.len() - at,
{
    if at < folds.len() && folds[at].0 != id {
        lemma_folded_range(folds, id, at + 1, n);
    }
}

} // verus!
