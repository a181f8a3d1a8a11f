//! The learned model: words, counts, and what learning a prompt changes.

use crate::ngram::counts::{moved, sound_count, stored, Cells, Counts, Event};
use crate::ngram::follower_table::{permutation, FollowerList};
use crate::ngram::learning::{event_views, has_room, learned, web_ids_fit, Learning};
use crate::ngram::lexicon::{
    bos, bos_text, id_of, suggestible, swept, Known, Lexicon, Params, NONE,
};
use crate::ngram::max_tree::{is_top_k, MaxTree};
use crate::ngram::order::sorted_texts;
use crate::ngram::pair_table::at_least_one;
use crate::ngram::session::{
    newest, newest_of, prompt_ids, renumbered_all, renumbers, total_len, Session,
};
use crate::ngram::text::Slot;
use crate::ngram::vocab::{texts, word_limit};
use crate::ngram::web::{WebPrior, NO_SLOT};
use crate::prose::{
    is_learnable, is_typed_like, prose_words, typed_shape, words_of, MAX_BUFFER,
};
use crate::unicode::{lemma_utf16_bound, utf16_len};
use vstd::prelude::*;

verus! {

/// Overflow size that triggers folding new words into the sorted base.
pub const COMPACT_AT: usize = 4096;

/// The learned model.
pub struct Model {
    pub params: Params,
    pub lexicon: Lexicon,
    pub counts: Counts,
    /// Vocabulary id per web id.
    pub web_to_id: Vec<u32>,
    /// Order keys of the unigram scores of the sorted base.
    pub tree: MaxTree,
    pub session: Session,
    /// Id of the sentence-start pseudo-word.
    pub bos: u32,
    /// Bumped by every learned-state change (invalidates query memos).
    pub version: u64,
}

/// Every id of every prompt is below `n`.
pub open spec fn session_fits(prompts: Seq<Vec<u32>>, n: int) -> bool {
    forall|p: int, k: int|
        0 <= p < prompts.len() && 0 <= k < prompts[p]@.len() ==> #[trigger] prompts[p]@[k] < n
}

/// `after` holds what `before` held, and nothing of the words up to `n`.
pub open spec fn widened(before: Counts, after: Counts, n: int) -> bool {
    let m = before.count@.len();
    &&& after.total == before.total
    &&& after.count@ == before.count@ + Seq::new((n - m) as nat, |i: int| 0u32)
    &&& after.pairs == before.pairs
    &&& after.tails == before.tails
    &&& forall|v: u32, w: u32|
        v < n ==> #[trigger] after.followers.follower(v, w) == (if v < m {
            before.followers.follower(v, w)
        } else {
            None
        })
    &&& forall|v: u32|
        v < n ==> #[trigger] after.followers.total_of(v) == (if v < m {
            before.followers.total_of(v)
        } else {
            None
        })
}

/// What a learned prompt counts.
pub struct Learned {
    /// The prompt looks typed; it counts in full.
    pub typed: bool,
    /// The words to count, in order.
    pub events: Vec<Event>,
}

/// The web prior is whole: its words and the dictionary words are in order.
pub open spec fn web_ok(web: WebPrior) -> bool {
    &&& web.wf()
    &&& sorted_texts(web.words.words())
    &&& sorted_texts(web.dict_only.words())
    &&& web.words.words().len() < NONE
}

impl Model {
    /// Every table speaks of the same words, the sentence start and the web
    /// words are among them, and no more prompts are held than `session_prompts`
    /// allows.
    pub open spec fn wf(&self, web: WebPrior) -> bool {
        let words = self.lexicon@.words;
        &&& self.lexicon.wf()
        &&& web_ids_fit(self.lexicon@, web)
        &&& self.counts.wf()
        &&& self.counts.count@.len() == words.len()
        &&& self.web_to_id@.len() == web.words.words().len()
        &&& forall|k: int|
            0 <= k < self.web_to_id@.len() ==> (#[trigger] self.web_to_id@[k]) < words.len()
                && words[self.web_to_id@[k] as int] == web.words.words()[k]
        &&& self.tree.wf()
        &&& self.tree@.len() == self.lexicon.vocab.base()
        &&& self.tree.places() >= self.tree@.len()
        &&& self.session.wf(words)
        &&& session_fits(self.session.prompts@, words.len() as int)
        &&& self.session.prompts@.len() <= self.params.session_prompts
        &&& self.bos < words.len()
        &&& words[self.bos as int] == bos_text()
    }

    /// Fresh model: the web vocabulary plus the sentence-start word.
    pub fn new(params: Params, web: &WebPrior) -> (m: Model)
        requires
            web_ok(*web),
            web.words.words().len() < word_limit(),
        ensures
            m.wf(*web),
            m.is_fresh(params),
            m.counts.sound(),
            forall|w: Seq<char>| #[trigger]
                m.lexicon@.words.contains(w) <==> web.words.words().contains(w) || w == bos_text(),
            m.lexicon@ == crate::ngram::lexicon::fresh(m.lexicon@.words, *web),
    {
        let m = Model::with_words(params, web, Vec::new());
        m
    }

    /// Nothing has been learned.
    pub open spec fn is_fresh(&self, params: Params) -> bool {
        let n = self.lexicon@.words.len();
        &&& self.params == params
        &&& sorted_texts(self.lexicon@.words)
        &&& self.lexicon.vocab.base() == n
        &&& self.version == 0
        &&& self.session.prompts@.len() == 0
        &&& self.counts.total == 0
        &&& self.counts.count@ == Seq::new(n, |i: int| 0u32)
        &&& self.counts.pairs.has_room()
        &&& forall|v: u32, w: u32|
            v < n ==> #[trigger] self.counts.followers.follower(v, w) is None
        &&& forall|v: u32| v < n ==> #[trigger] self.counts.followers.total_of(v) is None
        &&& forall|u: u32, v: u32, w: u32| #[trigger] self.counts.pairs.trigram(u, v, w) is None
        &&& forall|u: u32, v: u32| #[trigger] self.counts.pairs.stats(u, v) is None
        &&& forall|id: u32| #[trigger] self.counts.tails.forms_of(id).len() == 0
        &&& self.tree@ == Seq::new(n, |i: int| 0u32)
    }

    /// Model with no learned state whose sorted base holds the web
    /// vocabulary, the sentence-start word, and `extra` (any order, repeats
    /// allowed). The scores are all lowest until [`Model::rebuild_ranges`].
    pub fn with_words(params: Params, web: &WebPrior, extra: Vec<String>) -> (m: Model)
        requires
            web_ok(*web),
            web.words.words().len() + extra@.len() < word_limit(),
        ensures
            m.wf(*web),
            m.is_fresh(params),
            m.counts.sound(),
            forall|w: Seq<char>| #[trigger]
                m.lexicon@.words.contains(w) <==> web.words.words().contains(w) || texts(
                    extra@,
                ).contains(w) || w == bos_text(),
            m.lexicon@ == crate::ngram::lexicon::fresh(m.lexicon@.words, *web),
    {
        let (lexicon, web_to_id) = Lexicon::with_words(web, extra);
        let n: usize = lexicon.vocab.len();
        let counts = Counts::new(n);
        let ghost words = lexicon@.words;
        assert(words.contains(bos_text()));
        let found = lexicon.find(bos());
        let at: u32 = match found {
            Some(id) => id,
            None => 0,
        };
        let zeros: Vec<u32> = vec![0u32; n];
        assert(zeros@ =~= Seq::new(n as nat, |i: int| 0u32));
        proof {
            assert(words[words.index_of(bos_text())] == bos_text());
            assert forall|k: int| 0 <= k < web_to_id@.len() implies (#[trigger] web_to_id@[k])
                < words.len() && words[web_to_id@[k] as int] == web.words.words()[k] by {
                let w = web.words.words()[k];
                assert(id_of(words, w) == Some(web_to_id@[k] as int));
                assert(words[words.index_of(w)] == w);
            }
            assert forall|i: int| 0 <= i < words.len() implies #[trigger] lexicon@.web[i] == NONE
                || lexicon@.web[i] < web.count@.len() by {
                let ww = web.words.words();
                if ww.contains(words[i]) {
                    assert(ww[ww.index_of(words[i])] == words[i]);
                }
            }
        }
        Model {
            params,
            lexicon,
            counts,
            web_to_id,
            tree: MaxTree::new(zeros),
            session: Session::new(),
            bos: at,
            version: 0,
        }
    }

    /// Replaces the order keys of the base's unigram scores.
    pub fn rebuild_ranges(&mut self, keys: Vec<u32>, web: &WebPrior)
        requires
            old(self).wf(*web),
            keys@.len() == old(self).lexicon.vocab.base(),
        ensures
            final(self).wf(*web),
            final(self).tree@ == keys@,
            *final(self) == (Model { tree: final(self).tree, ..*old(self) }),
    {
        proof {
            self.lexicon.vocab.law_vocab_order();
        }
        self.tree = MaxTree::new(keys);
    }

    /// Top-`k` base ids of `[lo, hi)` by score.
    pub fn top_k(&self, lo: usize, hi: usize, k: usize, web: &WebPrior) -> (top: Vec<u32>)
        requires
            self.wf(*web),
            hi <= self.lexicon.vocab.base(),
        ensures
            is_top_k(self.tree@, lo as int, hi as int, k as int, top@),
    {
        let mut heap: Vec<u32> = Vec::new();
        let mut out: Vec<u32> = Vec::new();
        self.tree.top_k(lo, hi, k, &mut heap, &mut out);
        assert(out@.skip(0) =~= out@);
        out
    }

    /// A real spelling.
    pub fn trusted(&self, id: u32) -> (r: bool)
        requires
            self.lexicon.wf(),
            id < self.lexicon@.words.len(),
        ensures
            r == self.lexicon@.trusted[id as int],
    {
        self.lexicon.trusted(id)
    }

    /// May `id` be suggested?
    pub fn eligible(&self, id: u32) -> (r: bool)
        requires
            self.lexicon.wf(),
            id < self.lexicon@.words.len(),
        ensures
            r == suggestible(self.lexicon@, id as int, self.params.min_count),
    {
        self.lexicon.eligible(id, self.params.min_count)
    }

    /// Resolve a context slot to an id (words must already be known).
    pub fn resolve(&self, slot: Slot, word: &str) -> (id: Option<u32>)
        requires
            self.lexicon.wf(),
            self.bos < self.lexicon@.words.len(),
        ensures
            match slot {
                Slot::Unknown => id is None,
                Slot::Bos => id == Some(self.bos),
                Slot::Word => match id {
                    Some(i) => id_of(self.lexicon@.words, word@) == Some(i as int),
                    None => id_of(self.lexicon@.words, word@) is None,
                },
            },
            id matches Some(i) ==> i < self.lexicon@.words.len(),
    {
        match slot {
            Slot::Unknown => None,
            Slot::Bos => Some(self.bos),
            Slot::Word => self.lexicon.find(word),
        }
    }

    /// Refill the session cache from restored prompts (oldest first).
    pub fn restore_session(&mut self, prompts: Vec<Vec<u32>>)
        requires
            old(self).lexicon.wf(),
            session_fits(prompts@, old(self).lexicon@.words.len() as int),
            total_len(prompt_ids(prompts@)) < u32::MAX,
        ensures
            *final(self) == (Model { session: final(self).session, ..*old(self) }),
            final(self).session.wf(old(self).lexicon@.words),
            session_fits(
                final(self).session.prompts@,
                old(self).lexicon@.words.len() as int,
            ),
            prompt_ids(final(self).session.prompts@) == (if old(self).params.session_prompts == 0 {
                Seq::<Seq<u32>>::empty()
            } else {
                newest_of(prompt_ids(prompts@), old(self).params.session_prompts as int)
            }),
    {
        let ghost n = self.lexicon@.words.len() as int;
        let ghost all = prompt_ids(prompts@);
        let capacity: usize = self.params.session_prompts;
        let ghost cap = capacity as int;
        let mut session = Session::new();
        assert(prompt_ids(session.prompts@) =~= Seq::<Seq<u32>>::empty());
        assert(all.take(0) =~= Seq::<Seq<u32>>::empty());
        let mut k: usize = 0;
        while k < prompts.len()
            invariant
                *self == *old(self),
                k <= prompts@.len(),
                self.lexicon.wf(),
                n == self.lexicon@.words.len(),
                cap == capacity,
                all == prompt_ids(prompts@),
                total_len(all) < u32::MAX,
                session_fits(prompts@, n),
                session.wf(self.lexicon@.words),
                session_fits(session.prompts@, n),
                prompt_ids(session.prompts@) == (if cap == 0 {
                    Seq::<Seq<u32>>::empty()
                } else {
                    newest_of(all.take(k as int), cap)
                }),
            decreases prompts@.len() - k,
        {
            let ghost held = prompt_ids(session.prompts@);
            let words = copy_ids(&prompts[k]);
            proof {
                assert(all[k as int] == words@);
                lemma_newest_len(all, k as int, cap);
                assert(all.take(k + 1) =~= all.take(k as int).push(words@));
                assert forall|j: int| 0 <= j < words@.len() implies #[trigger] words@[j] < n by {
                    assert(prompts@[k as int]@[j] < n);
                }
            }
            let ghost before = session.prompts@;
            let ghost ids = words@;
            session.push(words, capacity, &self.lexicon.vocab);
            proof {
                lemma_pushed_fits(before, session.prompts@, ids, cap, n);
                if cap > 0 {
                    lemma_newest_step(all.take(k as int), ids, cap);
                }
            }
            k = k + 1;
        }
        assert(all.take(prompts@.len() as int) =~= all);
        self.session = session;
    }

    /// Learn one submitted prompt: its words become known, misspellings are
    /// folded and watched, and the session cache moves on. The words to count
    /// come back; prompts that do not look typed count only when
    /// `pastes_count`.
    pub fn learn(&mut self, prompt: &str, pastes_count: bool, web: &WebPrior) -> (r: Learned)
        requires
            old(self).wf(*web),
            web_ok(*web),
            has_room(old(self).lexicon@),
            old(self).version < u64::MAX,
            total_len(prompt_ids(old(self).session.prompts@)) + MAX_BUFFER < u32::MAX,
        ensures
            final(self).wf(*web),
            final(self).params == old(self).params,
            final(self).version == old(self).version + 1,
            final(self).bos == old(self).bos,
            final(self).web_to_id == old(self).web_to_id,
            final(self).tree == old(self).tree,
            final(self).lexicon.vocab.base() == old(self).lexicon.vocab.base(),
            r.typed == typed_shape(prompt@, 1500),
            old(self).counts.sound() ==> final(self).counts.sound(),
            ({
                let s = old(self).lesson(prompt@, pastes_count, *web);
                &&& final(self).lexicon@ == s.known
                &&& event_views(r.events@) == s.events
                &&& widened(old(self).counts, final(self).counts, s.known.words.len() as int)
                &&& prompt_ids(final(self).session.prompts@) == (if old(self).counts_in(
                    prompt@,
                    pastes_count,
                ) && typed_shape(prompt@, 5000) {
                    newest(
                        prompt_ids(old(self).session.prompts@),
                        s.session,
                        old(self).params.session_prompts as int,
                    )
                } else {
                    prompt_ids(old(self).session.prompts@)
                })
            }),
            forall|k: int|
                0 <= k < r.events@.len() ==> (#[trigger] r.events@[k])@.ids_below(
                    final(self).lexicon@.words.len() as int,
                ),
    {
        let ghost start = *self;
        self.version = self.version + 1;
        let words = prose_words(prompt);
        let typed = is_typed_like(prompt);
        if words.len() == 0 || !(typed || pastes_count) {
            assert(start.counts.count@ + Seq::new(0, |i: int| 0u32) =~= start.counts.count@);
            let events: Vec<Event> = Vec::new();
            assert(event_views(events@) =~= Seq::empty());
            return Learned { typed, events };
        }
        let learnable = typed || is_learnable(prompt);
        proof {
            lemma_utf16_bound(prompt@);
            assert(utf16_len(prompt@) <= MAX_BUFFER);
        }
        let (events, session) = self.lexicon.learn(
            prompt,
            &words,
            learnable,
            self.bos,
            &self.params,
            web,
        );
        let ghost words_before = start.lexicon@.words;
        let ghost words_after = self.lexicon@.words;
        proof {
            lemma_session_widens(start.session, words_before, words_after);
        }
        if learnable {
            let ghost before = self.session.prompts@;
            self.session.push(session, self.params.session_prompts, &self.lexicon.vocab);
            proof {
                lemma_pushed_fits(
                    before,
                    self.session.prompts@,
                    session@,
                    self.params.session_prompts as int,
                    words_after.len() as int,
                );
                assert(prompt_ids(self.session.prompts@).len() == self.session.prompts@.len());
                assert(prompt_ids(before).len() == before.len());
            }
        }
        self.widen();
        Learned { typed, events }
    }

    /// The prompt has words and its words count.
    pub open spec fn counts_in(&self, prompt: Seq<char>, pastes_count: bool) -> bool {
        words_of(prompt).len() > 0 && (typed_shape(prompt, 1500) || pastes_count)
    }

    /// What the lexicon becomes and what is counted when `prompt` is learned.
    pub open spec fn lesson(&self, prompt: Seq<char>, pastes_count: bool, web: WebPrior) -> Learning {
        let words = words_of(prompt);
        learned(
            self.lexicon@,
            prompt,
            words,
            if self.counts_in(prompt, pastes_count) {
                words.len() as int
            } else {
                0
            },
            typed_shape(prompt, 5000),
            self.bos,
            self.params,
            web,
        )
    }

    /// Gives every word its place among the counts.
    fn widen(&mut self)
        requires
            old(self).lexicon.wf(),
            old(self).counts.wf(),
            old(self).counts.count@.len() <= old(self).lexicon@.words.len(),
        ensures
            *final(self) == (Model { counts: final(self).counts, ..*old(self) }),
            final(self).counts.wf(),
            final(self).counts.count@.len() == old(self).lexicon@.words.len(),
            widened(
                old(self).counts,
                final(self).counts,
                old(self).lexicon@.words.len() as int,
            ),
    {
        let n: usize = self.lexicon.vocab.len();
        let ghost start = self.counts;
        let ghost m = start.count@.len();
        assert(start.count@ + Seq::new(0, |i: int| 0u32) =~= start.count@);
        while self.counts.count.len() < n
            invariant
                *self == (Model { counts: self.counts, ..*old(self) }),
                self.lexicon.wf(),
                n == self.lexicon@.words.len(),
                self.counts.wf(),
                m == start.count@.len(),
                m <= self.counts.count@.len() <= n,
                widened(start, self.counts, self.counts.count@.len() as int),
            decreases n - self.counts.count@.len(),
        {
            let ghost before = self.counts;
            let ghost k = before.count@.len();
            self.counts.add_word();
            proof {
                assert(self.counts.count@ =~= start.count@ + Seq::new(
                    (k + 1 - m) as nat,
                    |i: int| 0u32,
                ));
                assert forall|v: u32, w: u32| v < k + 1 implies
                    #[trigger] self.counts.followers.follower(v, w) == (if v < m {
                    start.followers.follower(v, w)
                } else {
                    None
                }) by {
                    if v < k {
                        assert(before.followers.follower(v, w) == self.counts.followers.follower(
                            v,
                            w,
                        ));
                    }
                }
                assert forall|v: u32| v < k + 1 implies #[trigger] self.counts.followers.total_of(v)
                    == (if v < m {
                    start.followers.total_of(v)
                } else {
                    None
                }) by {
                    if v < k {
                        assert(before.followers.total_of(v) == self.counts.followers.total_of(v));
                    }
                }
            }
        }
    }

    /// The cells that counting `e` adds to.
    pub fn read(&self, e: &Event) -> (c: Cells)
        requires
            self.counts.wf(),
            e@.ids_below(self.counts.count@.len() as int),
        ensures
            c == self.counts.cells(e@),
    {
        self.counts.read(e)
    }

    /// Files the cells of `e` once they are added up, and the new score of a
    /// base word.
    pub fn store(&mut self, e: &Event, c: &Cells, key: u32, web: &WebPrior)
        requires
            old(self).wf(*web),
            old(self).counts.pairs.has_room(),
            e@.ids_below(old(self).counts.count@.len() as int),
        ensures
            final(self).wf(*web),
            *final(self) == (Model {
                counts: final(self).counts,
                tree: final(self).tree,
                ..*old(self)
            }),
            stored(old(self).counts, final(self).counts, e@, *c),
            old(self).counts.sound() && sound_count(c.count) ==> final(self).counts.sound(),
            final(self).tree@ == (if e.w < old(self).lexicon.vocab.base() {
                old(self).tree@.update(e.w as int, key)
            } else {
                old(self).tree@
            }),
    {
        self.counts.store(e, c);
        if (e.w as usize) < self.lexicon.vocab.base_len() {
            self.tree.set(e.w as usize, key);
        }
    }

    /// Fold overflow words into the sorted base and renumber every table. The
    /// scores are all lowest until [`Model::rebuild_ranges`].
    pub fn compact(&mut self, web: &WebPrior) -> (remap: Vec<u32>)
        requires
            old(self).wf(*web),
            old(self).counts.pairs.has_room(),
            old(self).version < u64::MAX,
        ensures
            final(self).wf(*web),
            final(self).params == old(self).params,
            final(self).version == old(self).version + 1,
            final(self).lexicon.vocab.base() == final(self).lexicon@.words.len(),
            renumbers(remap@, old(self).lexicon@.words, final(self).lexicon@.words),
            permutation(remap@, old(self).lexicon@.words.len() as int),
            same_knowledge(old(self).lexicon@, final(self).lexicon@, remap@),
            moved(old(self).counts, final(self).counts, remap@),
            old(self).counts.sound() ==> final(self).counts.sound(),
            final(self).counts.pairs.has_room(),
            prompt_ids(final(self).session.prompts@) == renumbered_all(
                prompt_ids(old(self).session.prompts@),
                remap@,
            ),
            final(self).bos == remap@[old(self).bos as int],
            forall|k: int|
                0 <= k < old(self).web_to_id@.len() ==> #[trigger] final(self).web_to_id@[k]
                    == remap@[old(self).web_to_id@[k] as int],
            final(self).tree@ == Seq::new(final(self).lexicon@.words.len(), |i: int| 0u32),
    {
        let ghost start = *self;
        proof {
            self.lexicon.vocab.law_vocab_order();
        }
        let remap = self.lexicon.renumber();
        let ghost old_words = start.lexicon@.words;
        let ghost words = self.lexicon@.words;
        let n: usize = self.lexicon.vocab.len();
        proof {
            lemma_renumbers_permutes(remap@, old_words, words);
        }
        self.counts.renumber(&remap);
        self.session.remap(&remap, Ghost(old_words), &self.lexicon.vocab);
        let mut web_to_id: Vec<u32> = Vec::new();
        let mut k: usize = 0;
        while k < self.web_to_id.len()
            invariant
                k <= self.web_to_id@.len(),
                self.web_to_id == start.web_to_id,
                start.wf(*web),
                n == words.len(),
                old_words == start.lexicon@.words,
                renumbers(remap@, old_words, words),
                web_to_id@.len() == k,
                forall|j: int|
                    0 <= j < k ==> (#[trigger] web_to_id@[j]) == remap@[start.web_to_id@[j] as int],
            decreases self.web_to_id@.len() - k,
        {
            assert(start.web_to_id@[k as int] < old_words.len());
            web_to_id.push(remap[self.web_to_id[k] as usize]);
            k = k + 1;
        }
        let at: usize = self.bos as usize;
        self.bos = remap[at];
        self.web_to_id = web_to_id;
        let zeros: Vec<u32> = vec![0u32; n];
        assert(zeros@ =~= Seq::new(n as nat, |i: int| 0u32));
        self.tree = MaxTree::new(zeros);
        self.version = self.version + 1;
        proof {
            assert forall|j: int| 0 <= j < self.web_to_id@.len() implies (
            #[trigger] self.web_to_id@[j]) < words.len() && words[self.web_to_id@[j] as int]
                == web.words.words()[j] by {
                let id = start.web_to_id@[j] as int;
                assert(id < old_words.len());
                assert(remap@[id] < words.len());
            }
            assert(remap@[start.bos as int] < words.len());
            lemma_renumbered_fits(
                start.session.prompts@,
                self.session.prompts@,
                remap@,
                n as int,
            );
            lemma_web_ids_move(start.lexicon@, self.lexicon@, remap@, *web);
            assert(prompt_ids(self.session.prompts@).len() == self.session.prompts@.len());
            assert(prompt_ids(start.session.prompts@).len() == start.session.prompts@.len());
        }
        remap
    }

    /// Folds the overflow words into the sorted base once there are enough.
    pub fn settle(&mut self, web: &WebPrior) -> (remap: Option<Vec<u32>>)
        requires
            old(self).wf(*web),
            old(self).counts.pairs.has_room(),
            old(self).version < u64::MAX,
        ensures
            final(self).wf(*web),
            remap is Some == (old(self).lexicon.vocab.overflow().len() >= COMPACT_AT),
            remap is None ==> *final(self) == *old(self),
            final(self).params == old(self).params,
            final(self).counts.pairs.has_room(),
            old(self).counts.sound() ==> final(self).counts.sound(),
            remap matches Some(r) ==> {
                &&& renumbers(r@, old(self).lexicon@.words, final(self).lexicon@.words)
                &&& permutation(r@, old(self).lexicon@.words.len() as int)
                &&& same_knowledge(old(self).lexicon@, final(self).lexicon@, r@)
                &&& moved(old(self).counts, final(self).counts, r@)
                &&& prompt_ids(final(self).session.prompts@) == renumbered_all(
                    prompt_ids(old(self).session.prompts@),
                    r@,
                )
                &&& final(self).bos == r@[old(self).bos as int]
                &&& forall|k: int|
                    0 <= k < old(self).web_to_id@.len() ==> #[trigger] final(self).web_to_id@[k]
                        == r@[old(self).web_to_id@[k] as int]
                &&& final(self).version == old(self).version + 1
                &&& final(self).lexicon.vocab.base() == final(self).lexicon@.words.len()
                &&& final(self).tree@ == Seq::new(final(self).lexicon@.words.len(), |i: int| 0u32)
            },
    {
        if self.lexicon.vocab.overflow_len() >= COMPACT_AT {
            Some(self.compact(web))
        } else {
            None
        }
    }

    /// Drop trigrams seen only in pastes (weighted count below 1) and the
    /// contexts left without trigrams. Surviving contexts keep their unpruned
    /// totals.
    pub fn prune_trigrams(&mut self, web: &WebPrior)
        requires
            old(self).wf(*web),
            old(self).counts.pairs.has_room(),
            old(self).version < u64::MAX,
        ensures
            final(self).wf(*web),
            final(self).counts.pairs.has_room(),
            old(self).counts.sound() ==> final(self).counts.sound(),
            final(self).version == old(self).version + 1,
            *final(self) == (Model {
                counts: Counts { pairs: final(self).counts.pairs, ..old(self).counts },
                version: final(self).version,
                ..*old(self)
            }),
            forall|u: u32, v: u32, w: u32|
                u != NONE ==> #[trigger] final(self).counts.pairs.trigram(u, v, w) == (match old(
                    self).counts.pairs.trigram(u, v, w) {
                    Some(bits) => if at_least_one(bits) {
                        Some(bits)
                    } else {
                        None
                    },
                    None => None,
                }),
            forall|u: u32, v: u32|
                u != NONE ==> #[trigger] final(self).counts.pairs.stats(u, v) == (if old(
                    self).counts.pairs.pair_kept(u, v) {
                    old(self).counts.pairs.stats(u, v)
                } else {
                    None
                }),
    {
        let ghost n = self.counts.count@.len() as int;
        assert(self.counts.pairs.ids_below(n));
        self.counts.pairs.prune();
        self.version = self.version + 1;
    }

    /// Recompute every hygiene flag (after a restore).
    pub fn sweep_hygiene(&mut self)
        requires
            old(self).lexicon.wf(),
        ensures
            final(self).lexicon.wf(),
            final(self).lexicon@ == swept(
                old(self).lexicon@,
                old(self).lexicon@.words.len() as int,
                old(self).params.canonicalize,
            ),
            final(self).lexicon.vocab == old(self).lexicon.vocab,
            *final(self) == (Model { lexicon: final(self).lexicon, ..*old(self) }),
    {
        self.lexicon.sweep_hygiene(self.params.canonicalize);
    }

    /// Follower list of context `v`.
    pub fn followers_of(&self, v: u32) -> (list: Option<&FollowerList>)
        requires
            self.counts.wf(),
            v < self.counts.count@.len(),
        ensures
            match list {
                Some(l) => {
                    &&& l.wf(self.counts.count@.len() as int)
                    &&& self.counts.followers.total_of(v) == Some(l.total)
                    &&& forall|w: u32| #[trigger]
                        self.counts.followers.follower(v, w) == l.count_of(w)
                },
                None => self.counts.followers.total_of(v) is None && forall|w: u32| #[trigger]
                    self.counts.followers.follower(v, w) is None,
            },
    {
        self.counts.followers.list(v)
    }

    /// Web bigram slot of context `v`.
    pub fn web_slot_of(&self, v: u32, web: &WebPrior) -> (slot: u32)
        requires
            self.wf(*web),
            web.wf(),
            v < self.lexicon@.words.len(),
        ensures
            slot == (if v == self.bos {
                web.slot@[web.words.words().len() as int]
            } else if self.lexicon@.web[v as int] == NONE {
                NO_SLOT
            } else {
                web.slot@[self.lexicon@.web[v as int] as int]
            }),
            slot == NO_SLOT || slot < web.start@.len() - 1,
    {
        if v == self.bos {
            return web.slot(web.len());
        }
        let wid: u32 = self.lexicon.web_id[v as usize];
        assert(self.lexicon@.web[v as int] == wid);
        if wid == NONE {
            NO_SLOT
        } else {
            web.slot(wid as usize)
        }
    }
}

fn copy_ids(ids: &Vec<u32>) -> (out: Vec<u32>)
    ensures
        out@ == ids@,
{
    let mut out: Vec<u32> = Vec::new();
    let mut i: usize = 0;
    while i < ids.len()
        invariant
            i <= ids@.len(),
            out@ == ids@.take(i as int),
        decreases ids@.len() - i,
    {
        out.push(ids[i]);
        assert(ids@.take(i + 1) =~= ids@.take(i as int).push(ids@[i as int]));
        i = i + 1;
    }
    assert(ids@.take(i as int) =~= ids@);
    out
}

/// Under each new id `m` knows what `l` knew under the old one.
pub open spec fn same_knowledge(l: Known, m: Known, remap: Seq<u32>) -> bool {
    forall|id: int|
        0 <= id < l.words.len() ==> {
            let to = (#[trigger] remap[id]) as int;
            &&& m.words[to] == l.words[id]
            &&& m.raw[to] == l.raw[id]
            &&& m.web[to] == l.web[id]
            &&& m.trusted[to] == l.trusted[id]
            &&& m.shadowed[to] == l.shadowed[id]
            &&& m.watched[to] == l.watched[id]
        }
}

/// Folding the overflow words into the base changes no suggestion rule: every
/// word is as suggestible under its new id as it was under the old one.
pub proof fn law_compaction_keeps_suggestible_words(
    l: Known,
    m: Known,
    remap: Seq<u32>,
    id: int,
    min_count: u32,
)
    requires
        same_knowledge(l, m, remap),
        0 <= id < l.words.len(),
    ensures
        suggestible(m, remap[id] as int, min_count) == suggestible(l, id, min_count),
{
}

proof fn lemma_renumbers_permutes(remap: Seq<u32>, old_words: Seq<Seq<char>>, words: Seq<Seq<char>>)
    requires
        renumbers(remap, old_words, words),
        forall|i: int, j: int| 0 <= i < j < old_words.len() ==> old_words[i] != old_words[j],
    ensures
        permutation(remap, old_words.len() as int),
{
    assert forall|i: int, j: int|
        0 <= i < remap.len() && 0 <= j < remap.len() && #[trigger] remap[i]
            == #[trigger] remap[j] implies i == j by {
        assert(words[remap[i] as int] == old_words[i]);
        assert(words[remap[j] as int] == old_words[j]);
        if i < j {
            assert(old_words[i] != old_words[j]);
        } else if j < i {
            assert(old_words[j] != old_words[i]);
        }
    }
}

proof fn lemma_web_ids_move(l: Known, m: Known, remap: Seq<u32>, web: WebPrior)
    requires
        web_ids_fit(l, web),
        same_knowledge(l, m, remap),
        permutation(remap, l.words.len() as int),
        m.words.len() == l.words.len(),
        l.words.len() < NONE,
    ensures
        web_ids_fit(m, web),
{
    assert forall|i: int| 0 <= i < m.words.len() implies #[trigger] m.web[i] == NONE || m.web[i]
        < web.count@.len() by {
        let id = lemma_permutation_onto(remap, i);
        assert(m.web[remap[id] as int] == l.web[id]);
        assert(l.web[id] == NONE || l.web[id] < web.count@.len());
    }
}

/// Every id is the new id of some word.
pub proof fn lemma_permutation_onto(remap: Seq<u32>, to: int) -> (id: int)
    requires
        permutation(remap, remap.len() as int),
        0 <= to < remap.len(),
        remap.len() < NONE,
    ensures
        0 <= id < remap.len(),
        remap[id] == to,
{
    if !remap.contains(to as u32) {
        let image = remap.to_set();
        let range = Set::new(|x: u32| 0 <= x < remap.len());
        crate::ngram::probe::lemma_id_range(0, remap.len() as int, range);
        remap.unique_seq_to_set();
        assert(image.subset_of(range.remove(to as u32)));
        vstd::set_lib::lemma_len_subset(image, range.remove(to as u32));
        assert(false);
    }
    choose|id: int| 0 <= id < remap.len() && remap[id] == to as u32
}

proof fn lemma_renumbered_fits(a: Seq<Vec<u32>>, b: Seq<Vec<u32>>, remap: Seq<u32>, n: int)
    requires
        session_fits(a, n),
        permutation(remap, n),
        prompt_ids(b) == renumbered_all(prompt_ids(a), remap),
    ensures
        session_fits(b, n),
{
    assert(prompt_ids(a).len() == a.len());
    assert(prompt_ids(b).len() == b.len());
    assert forall|p: int, k: int| 0 <= p < b.len() && 0 <= k < b[p]@.len() implies
        #[trigger] b[p]@[k] < n by {
        assert(prompt_ids(b)[p] == b[p]@);
        assert(prompt_ids(a)[p] == a[p]@);
        assert(a[p]@[k] < n);
        assert(remap[a[p]@[k] as int] < n);
    }
}

proof fn lemma_pushed_fits(a: Seq<Vec<u32>>, b: Seq<Vec<u32>>, words: Seq<u32>, cap: int, n: int)
    requires
        session_fits(a, n),
        forall|k: int| 0 <= k < words.len() ==> #[trigger] words[k] < n,
        prompt_ids(b) == newest(prompt_ids(a), words, cap),
        cap >= 0,
    ensures
        session_fits(b, n),
{
    let all = prompt_ids(a).push(words);
    assert(prompt_ids(a).len() == a.len());
    assert(prompt_ids(b).len() == b.len());
    assert forall|p: int, k: int| 0 <= p < b.len() && 0 <= k < b[p]@.len() implies
        #[trigger] b[p]@[k] < n by {
        assert(prompt_ids(b)[p] == b[p]@);
        if cap == 0 {
            assert(prompt_ids(a)[p] == a[p]@);
            assert(a[p]@[k] < n);
        } else {
            let q = if all.len() > cap {
                p + all.len() - cap
            } else {
                p
            };
            assert(b[p]@ == all[q]);
            if q < a.len() {
                assert(prompt_ids(a)[q] == a[q]@);
                assert(a[q]@[k] < n);
            }
        }
    }
}

proof fn lemma_session_widens(s: Session, words: Seq<Seq<char>>, more: Seq<Seq<char>>)
    requires
        s.wf(words),
        session_fits(s.prompts@, words.len() as int),
        words.len() <= more.len(),
        forall|i: int| 0 <= i < words.len() ==> #[trigger] more[i] == words[i],
    ensures
        s.wf(more),
        session_fits(s.prompts@, more.len() as int),
{
    crate::ngram::session::lemma_list_widens(s.sorted@, words, more);
    assert forall|p: int, k: int| 0 <= p < s.prompts@.len() && 0 <= k < s.prompts@[p]@.len() implies
        #[trigger] s.prompts@[p]@[k] < more.len() by {
        assert(s.prompts@[p]@[k] < words.len());
    }
}

proof fn lemma_total_len_skip(prompts: Seq<Seq<u32>>, j: int)
    requires
        0 <= j <= prompts.len(),
    ensures
        total_len(prompts.skip(j)) <= total_len(prompts),
    decreases prompts.len(),
{
    if j < prompts.len() {
        lemma_total_len_skip(prompts.drop_last(), j);
        assert(prompts.skip(j).drop_last() =~= prompts.drop_last().skip(j));
        assert(prompts.skip(j).last() == prompts.last());
    } else {
        assert(prompts.skip(j) =~= Seq::empty());
    }
}

proof fn lemma_total_len_take(prompts: Seq<Seq<u32>>, k: int)
    requires
        0 <= k <= prompts.len(),
    ensures
        total_len(prompts.take(k)) <= total_len(prompts),
    decreases prompts.len(),
{
    if k < prompts.len() {
        lemma_total_len_take(prompts.drop_last(), k);
        assert(prompts.take(k) =~= prompts.drop_last().take(k));
    } else {
        assert(prompts.take(k) =~= prompts);
    }
}

proof fn lemma_newest_len(prompts: Seq<Seq<u32>>, k: int, cap: int)
    requires
        0 <= k < prompts.len(),
        cap >= 0,
    ensures
        total_len(newest_of(prompts.take(k), cap)) + prompts[k].len() <= total_len(prompts),
        prompts[k].len() <= total_len(prompts),
{
    let held = prompts.take(k);
    if held.len() > cap {
        lemma_total_len_skip(held, held.len() - cap);
    }
    let more = prompts.take(k + 1);
    lemma_total_len_take(prompts, k + 1);
    assert(more.drop_last() =~= held);
    assert(more.last() == prompts[k]);
}

proof fn lemma_newest_step(prompts: Seq<Seq<u32>>, words: Seq<u32>, cap: int)
    requires
        cap > 0,
    ensures
        newest(newest_of(prompts, cap), words, cap) == newest_of(prompts.push(words), cap),
{
    let held = newest_of(prompts, cap);
    if prompts.len() > cap {
        assert(held.push(words).skip(1) =~= prompts.push(words).skip(prompts.len() + 1 - cap));
    } else if prompts.len() == cap {
        assert(held =~= prompts);
    }
}

} // verus!
