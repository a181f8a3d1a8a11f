//! From a typed prefix to the word offered for it.

use crate::ngram::cache::{hits_of, scan, Hit};
use crate::ngram::candidates::{
    all_offered, context_stats, ctx_of, filter_overflow, first_not_below, join_followers, joined,
    known_offer, known_offers, local, look_up, look_up_all, offered, overflow_followers, place,
    Candidate, Candidates, Ctx, Offer, Pick, MAX_LOCALS, NO_ROW,
};
use crate::ngram::follower_table::FollowerList;
use crate::ngram::lexicon::{id_of, suggestible, NONE};
use crate::ngram::max_tree::is_top_k;
use crate::ngram::model::{web_ok, Model};
use crate::ngram::order::{lemma_sorted_ascends, prefix_block};
use crate::ngram::query::QueryState;
use crate::ngram::session::listed_texts;
use crate::ngram::suffix::ZERO_KEY;
use crate::ngram::web::WebPrior;
use crate::unicode::{byte_len, same_chars, same_text, string_of};
use vstd::prelude::*;

verus! {

impl Candidates {
    /// Makes every offer a candidate, and finds each.
    pub fn offer_all(&mut self, m: &Model, web: &WebPrior, ctx: &Ctx, offers: &Vec<Offer>) -> (places:
        Vec<usize>)
        requires
            m.wf(*web),
            ctx.fits(*m, *web),
            forall|k: int|
                0 <= k < offers@.len() ==> (#[trigger] offers@[k]).id < m.lexicon@.words.len(),
            old(self).wf(m.lexicon@.words.len() as int),
        ensures
            final(self).wf(m.lexicon@.words.len() as int),
            final(self).locals == old(self).locals,
            final(self).list@ == all_offered(
                *m,
                *ctx,
                old(self).list@,
                offers@,
                offers@.len() as int,
            ),
            places@.len() == offers@.len(),
            forall|k: int|
                0 <= k < places@.len() ==> (#[trigger] places@[k]) < final(self).list@.len()
                    && final(self).list@[places@[k] as int].id == offers@[k].id,
    {
        let ghost start = self.list@;
        let mut places: Vec<usize> = Vec::new();
        let mut k: usize = 0;
        while k < offers.len()
            invariant
                m.wf(*web),
                ctx.fits(*m, *web),
                forall|i: int|
                    0 <= i < offers@.len() ==> (#[trigger] offers@[i]).id < m.lexicon@.words.len(),
                self.wf(m.lexicon@.words.len() as int),
                self.locals == old(self).locals,
                k <= offers@.len(),
                self.list@ == all_offered(*m, *ctx, start, offers@, k as int),
                places@.len() == k,
                forall|i: int|
                    0 <= i < k ==> (#[trigger] places@[i]) < self.list@.len()
                        && self.list@[places@[i] as int].id == offers@[i].id,
            decreases offers@.len() - k,
        {
            let at = self.offer(m, web, ctx, &offers[k]);
            places.push(at);
            k = k + 1;
        }
        places
    }
}

/// The word a candidate stands for.
pub open spec fn cand_word(words: Seq<Seq<char>>, window: Seq<char>, c: Candidate) -> Seq<char> {
    if c.id == NONE {
        window.subrange(c.start as int, c.end as int)
    } else {
        words[c.id as int]
    }
}

/// First place from `at` on of a word outside the vocabulary, or the end.
pub open spec fn local_place(
    list: Seq<Candidate>,
    window: Seq<char>,
    word: Seq<char>,
    at: int,
) -> int
    decreases list.len() - at,
{
    if at >= list.len() || (list[at].id == NONE && window.subrange(
        list[at].start as int,
        list[at].end as int,
    ) == word) {
        at
    } else {
        local_place(list, window, word, at + 1)
    }
}

/// The candidates once the word of a hit is among them; the prefix itself
/// never is.
pub open spec fn with_hit(
    m: Model,
    web: WebPrior,
    ctx: Ctx,
    window: Seq<char>,
    key_len: int,
    list: Seq<Candidate>,
    h: Hit,
) -> Seq<Candidate> {
    let word = window.subrange(h.start as int, h.end as int);
    if h.end - h.start <= key_len {
        list
    } else {
        match id_of(m.lexicon@.words, word) {
            Some(id) => offered(m, ctx, list, known_offer(m, web, ctx, id as u32)),
            None => if local_place(list, window, word, 0) < list.len() {
                list
            } else {
                list.push(local(h.start as u32, h.end as u32))
            },
        }
    }
}

/// The candidates once the words of the first `k` hits are among them.
pub open spec fn with_hits(
    m: Model,
    web: WebPrior,
    ctx: Ctx,
    window: Seq<char>,
    key_len: int,
    list: Seq<Candidate>,
    hits: Seq<Hit>,
    k: int,
) -> Seq<Candidate>
    decreases k,
{
    if k <= 0 {
        list
    } else {
        with_hit(
            m,
            web,
            ctx,
            window,
            key_len,
            with_hits(m, web, ctx, window, key_len, list, hits, k - 1),
            hits[k - 1],
        )
    }
}

/// Local spans lie inside the window.
pub open spec fn spans_fit(list: Seq<Candidate>, window: Seq<char>) -> bool {
    forall|i: int|
        0 <= i < list.len() && (#[trigger] list[i]).id == NONE ==> list[i].start <= list[i].end
            <= window.len()
}

impl Candidates {
    fn find_local(&self, window: &[char], word: &[char]) -> (at: usize)
        requires
            spans_fit(self.list@, window@),
        ensures
            at == local_place(self.list@, window@, word@, 0),
            at <= self.list@.len(),
            at < self.list@.len() ==> self.list@[at as int].id == NONE && window@.subrange(
                self.list@[at as int].start as int,
                self.list@[at as int].end as int,
            ) == word@,
    {
        let mut at: usize = 0;
        while at < self.list.len()
            invariant
                spans_fit(self.list@, window@),
                at <= self.list@.len(),
                local_place(self.list@, window@, word@, 0) == local_place(
                    self.list@,
                    window@,
                    word@,
                    at as int,
                ),
            decreases self.list@.len() - at,
        {
            let c = self.list[at];
            assert(self.list@[at as int] == c);
            if c.id == NONE {
                let span: &[char] = &window[c.start as usize..c.end as usize];
                if same_chars(span, word) {
                    return at;
                }
            }
            at = at + 1;
        }
        at
    }

    /// Makes the words of the hits candidates, and says which candidate each
    /// hit speaks for: none when its word is the prefix itself.
    pub fn add_hits(
        &mut self,
        m: &Model,
        web: &WebPrior,
        ctx: &Ctx,
        window: &[char],
        key_len: usize,
        hits: &Vec<Hit>,
    ) -> (targets: Vec<Option<usize>>)
        requires
            m.wf(*web),
            web_ok(*web),
            web.follower@.len() < NO_ROW,
            ctx.fits(*m, *web),
            old(self).wf(m.lexicon@.words.len() as int),
            spans_fit(old(self).list@, window@),
            window@.len() <= MAX_LOCALS,
            old(self).locals + hits@.len() <= MAX_LOCALS,
            forall|k: int|
                0 <= k < hits@.len() ==> (#[trigger] hits@[k]).start + key_len <= hits@[k].end
                    <= window@.len(),
        ensures
            final(self).wf(m.lexicon@.words.len() as int),
            spans_fit(final(self).list@, window@),
            final(self).list@ == with_hits(
                *m,
                *web,
                *ctx,
                window@,
                key_len as int,
                old(self).list@,
                hits@,
                hits@.len() as int,
            ),
            targets@.len() == hits@.len(),
            forall|k: int|
                0 <= k < targets@.len() ==> match #[trigger] targets@[k] {
                    Some(t) => hits@[k].end - hits@[k].start > key_len && t
                        < final(self).list@.len() && cand_word(
                        m.lexicon@.words,
                        window@,
                        final(self).list@[t as int],
                    ) == window@.subrange(hits@[k].start as int, hits@[k].end as int),
                    None => hits@[k].end - hits@[k].start == key_len,
                },
    {
        let ghost start = self.list@;
        let ghost words = m.lexicon@.words;
        let mut targets: Vec<Option<usize>> = Vec::new();
        let mut k: usize = 0;
        while k < hits.len()
            invariant
                m.wf(*web),
                web_ok(*web),
                web.follower@.len() < NO_ROW,
                ctx.fits(*m, *web),
                words == m.lexicon@.words,
                self.wf(words.len() as int),
                spans_fit(self.list@, window@),
                window@.len() <= MAX_LOCALS,
                self.locals + hits@.len() - k <= MAX_LOCALS,
                forall|i: int|
                    0 <= i < hits@.len() ==> (#[trigger] hits@[i]).start + key_len <= hits@[i].end
                        <= window@.len(),
                k <= hits@.len(),
                self.list@ == with_hits(
                    *m,
                    *web,
                    *ctx,
                    window@,
                    key_len as int,
                    start,
                    hits@,
                    k as int,
                ),
                targets@.len() == k,
                forall|i: int|
                    0 <= i < k ==> match #[trigger] targets@[i] {
                        Some(t) => hits@[i].end - hits@[i].start > key_len && t < self.list@.len()
                            && cand_word(words, window@, self.list@[t as int]) == window@.subrange(
                            hits@[i].start as int,
                            hits@[i].end as int,
                        ),
                        None => hits@[i].end - hits@[i].start == key_len,
                    },
            decreases hits@.len() - k,
        {
            let h = hits[k];
            assert(hits@[k as int] == h);
            let ghost before = self.list@;
            let word: &[char] = &window[h.start..h.end];
            if h.end - h.start > key_len {
                let text = string_of(word);
                match m.lexicon.find(text.as_str()) {
                    Some(id) => {
                        let o = look_up(m, web, ctx, id);
                        let at = self.offer(m, web, ctx, &o);
                        targets.push(Some(at));
                        proof {
                            assert(words[words.index_of(word@)] == word@);
                        }
                    },
                    None => {
                        let at = self.find_local(window, word);
                        if at >= self.list.len() {
                            self.add_local(h.start as u32, h.end as u32, Ghost(words.len() as int));
                        }
                        targets.push(Some(at));
                    },
                }
            } else {
                targets.push(None);
            }
            proof {
                assert(before.len() <= self.list@.len());
                assert forall|i: int| 0 <= i < before.len() implies self.list@[i]
                    == #[trigger] before[i] by {}
                assert forall|i: int| 0 <= i < k implies match #[trigger] targets@[i] {
                    Some(t) => hits@[i].end - hits@[i].start > key_len && t < self.list@.len()
                        && cand_word(words, window@, self.list@[t as int]) == window@.subrange(
                        hits@[i].start as int,
                        hits@[i].end as int,
                    ),
                    None => hits@[i].end - hits@[i].start == key_len,
                } by {
                    if let Some(t) = targets@[i] {
                        assert(self.list@[t as int] == before[t as int]);
                    }
                }
            }
            k = k + 1;
        }
        targets
    }
}

/// The candidates once session word `entry` is among them: it joins only when
/// it may be suggested and is not the prefix itself, and its count is noted.
pub open spec fn with_session_word(
    m: Model,
    web: WebPrior,
    ctx: Ctx,
    key: Seq<char>,
    list: Seq<Candidate>,
    entry: (u32, u32),
) -> Seq<Candidate> {
    let id = entry.0;
    let known = place(list, id, 0) < list.len();
    if known || (suggestible(m.lexicon@, id as int, m.params.min_count)
        && m.lexicon@.words[id as int] != key) {
        let more = offered(m, ctx, list, known_offer(m, web, ctx, id));
        let at = place(more, id, 0);
        more.update(at, Candidate { session: entry.1, ..more[at] })
    } else {
        list
    }
}

/// The candidates once the first `k` session words are among them.
pub open spec fn with_session(
    m: Model,
    web: WebPrior,
    ctx: Ctx,
    key: Seq<char>,
    list: Seq<Candidate>,
    range: Seq<(u32, u32)>,
    k: int,
) -> Seq<Candidate>
    decreases k,
{
    if k <= 0 {
        list
    } else {
        with_session_word(
            m,
            web,
            ctx,
            key,
            with_session(m, web, ctx, key, list, range, k - 1),
            range[k - 1],
        )
    }
}

/// Sum of the first `k` session counts.
pub open spec fn session_sum(range: Seq<(u32, u32)>, k: int) -> int
    decreases k,
{
    if k <= 0 {
        0
    } else {
        session_sum(range, k - 1) + range[k - 1].1
    }
}

impl Candidates {
    /// Makes the session words that start with the prefix candidates, and sums
    /// their counts.
    pub fn add_session(
        &mut self,
        m: &Model,
        web: &WebPrior,
        ctx: &Ctx,
        window: &[char],
        key: &str,
        range: &[(u32, u32)],
    ) -> (total: u64)
        requires
            m.wf(*web),
            web_ok(*web),
            web.follower@.len() < NO_ROW,
            ctx.fits(*m, *web),
            old(self).wf(m.lexicon@.words.len() as int),
            spans_fit(old(self).list@, window@),
            range@.len() <= u32::MAX,
            forall|k: int|
                0 <= k < range@.len() ==> (#[trigger] range@[k]).0 < m.lexicon@.words.len(),
        ensures
            final(self).wf(m.lexicon@.words.len() as int),
            spans_fit(final(self).list@, window@),
            final(self).list@ == with_session(
                *m,
                *web,
                *ctx,
                key@,
                old(self).list@,
                range@,
                range@.len() as int,
            ),
            total == session_sum(range@, range@.len() as int),
            forall|i: int|
                0 <= i < old(self).list@.len() ==> (#[trigger] final(self).list@[i]) == (Candidate {
                    session: final(self).list@[i].session,
                    ..old(self).list@[i]
                }),
            old(self).list@.len() <= final(self).list@.len(),
    {
        let ghost start = self.list@;
        let ghost words = m.lexicon@.words;
        let mut total: u64 = 0;
        let mut k: usize = 0;
        while k < range.len()
            invariant
                m.wf(*web),
                web_ok(*web),
                web.follower@.len() < NO_ROW,
                ctx.fits(*m, *web),
                words == m.lexicon@.words,
                self.wf(words.len() as int),
                spans_fit(self.list@, window@),
                range@.len() <= u32::MAX,
                forall|i: int| 0 <= i < range@.len() ==> (#[trigger] range@[i]).0 < words.len(),
                k <= range@.len(),
                total == session_sum(range@, k as int),
                total <= k * u32::MAX,
                self.list@ == with_session(*m, *web, *ctx, key@, start, range@, k as int),
                start.len() <= self.list@.len(),
                forall|i: int|
                    0 <= i < start.len() ==> (#[trigger] self.list@[i]) == (Candidate {
                        session: self.list@[i].session,
                        ..start[i]
                    }),
            decreases range@.len() - k,
        {
            let (id, count) = range[k];
            assert(range@[k as int] == (id, count));
            let ghost before = self.list@;
            assert((k + 1) * u32::MAX <= u32::MAX * u32::MAX) by (nonlinear_arith)
                requires
                    k + 1 <= u32::MAX,
            ;
            assert((k + 1) * u32::MAX == k * u32::MAX + u32::MAX) by (nonlinear_arith);
            total = total + count as u64;
            let known = self.find(id, Ghost(words.len() as int));
            if known.is_some() || (m.eligible(id) && !same_text(m.lexicon.vocab.word(id), key)) {
                let o = look_up(m, web, ctx, id);
                let at = self.offer(m, web, ctx, &o);
                let ghost mid = self.list@;
                self.note_session(at, count, Ghost(words.len() as int));
                proof {
                    assert forall|i: int| 0 <= i < before.len() implies #[trigger] self.list@[i] == (
                    Candidate { session: self.list@[i].session, ..before[i] }) by {
                        assert(mid[i] == before[i]);
                    }
                    assert forall|i: int| 0 <= i < start.len() implies (#[trigger] self.list@[i])
                        == (Candidate { session: self.list@[i].session, ..start[i] }) by {
                        assert(before[i] == (Candidate { session: before[i].session, ..start[i] }));
                    }
                    assert forall|i: int|
                        0 <= i < self.list@.len() && (#[trigger] self.list@[i]).id == NONE implies
                        self.list@[i].start <= self.list@[i].end <= window@.len() by {
                        if i < before.len() {
                            assert(mid[i] == before[i]);
                            assert(before[i].id == NONE);
                        }
                    }
                }
            }
            k = k + 1;
        }
        total
    }
}

/// Where a candidate stands in a ranking.
#[derive(Clone, Copy, Debug, PartialEq, Eq, Structural)]
pub enum Standing {
    /// The word is already typed out.
    Finished,
    /// It was shown at a shorter prefix and typed past.
    TypedPast,
    /// A misspelling or one-off junk, not typed earlier in this prompt.
    Hidden,
    /// It may be offered.
    Offered,
}

/// Where a candidate stands; `cached` says that it was typed earlier in this
/// prompt.
pub open spec fn standing_of(
    m: Model,
    state: QueryState,
    key: Seq<char>,
    k: int,
    c: Candidate,
    cached: bool,
) -> Standing {
    let word = cand_word(m.lexicon@.words, state.window@, c);
    if byte_len(word) == byte_len(key) {
        Standing::Finished
    } else if state.typed_past(word, k) {
        Standing::TypedPast
    } else if c.id != NONE && !cached && !suggestible(m.lexicon@, c.id as int, m.params.min_count) {
        Standing::Hidden
    } else {
        Standing::Offered
    }
}

/// Where a candidate stands.
pub fn standing(
    m: &Model,
    state: &QueryState,
    key: &str,
    k: usize,
    c: &Candidate,
    cached: bool,
) -> (s: Standing)
    requires
        m.lexicon.wf(),
        c.id == NONE || c.id < m.lexicon@.words.len(),
        c.id == NONE ==> c.start <= c.end <= state.window@.len(),
    ensures
        s == standing_of(*m, *state, key@, k as int, *c, cached),
{
    let local_text: String;
    let word: &str = if c.id == NONE {
        local_text = string_of(&state.window[c.start as usize..c.end as usize]);
        local_text.as_str()
    } else {
        m.lexicon.vocab.word(c.id)
    };
    assert(word@ =~= cand_word(m.lexicon@.words, state.window@, *c));
    if word.as_bytes().len() == key.as_bytes().len() {
        return Standing::Finished;
    }
    if state.excludes(word, k) {
        return Standing::TypedPast;
    }
    if c.id != NONE && !cached && !m.eligible(c.id) {
        return Standing::Hidden;
    }
    Standing::Offered
}

/// The best of the first `n` candidates that may be offered: the one with the
/// greatest value above zero, the earliest on a tie.
pub open spec fn best_of(standings: Seq<Standing>, keys: Seq<u64>, n: int) -> Option<int>
    decreases n,
{
    if n <= 0 {
        None
    } else {
        let prior = best_of(standings, keys, n - 1);
        let floor = match prior {
            Some(b) => keys[b],
            None => ZERO_KEY,
        };
        if standings[n - 1] == Standing::Offered && keys[n - 1] > floor {
            Some(n - 1)
        } else {
            prior
        }
    }
}

/// What the best candidate is: it may be offered, its value is above zero, no
/// other that may be offered has a greater one, and none before it the same.
pub proof fn lemma_best_of(standings: Seq<Standing>, keys: Seq<u64>, n: int)
    requires
        0 <= n <= standings.len(),
        n <= keys.len(),
    ensures
        match best_of(standings, keys, n) {
            Some(b) => {
                &&& 0 <= b < n
                &&& standings[b] == Standing::Offered
                &&& keys[b] > ZERO_KEY
                &&& forall|i: int|
                    0 <= i < n && #[trigger] standings[i] == Standing::Offered ==> keys[i]
                        <= keys[b]
                &&& forall|i: int|
                    0 <= i < b && #[trigger] standings[i] == Standing::Offered ==> keys[i]
                        < keys[b]
            },
            None => forall|i: int|
                0 <= i < n && #[trigger] standings[i] == Standing::Offered ==> keys[i] <= ZERO_KEY,
        },
    decreases n,
{
    if n > 0 {
        lemma_best_of(standings, keys, n - 1);
    }
}

/// The candidate a ranking picks, given where each stands and the order key of
/// its value.
pub fn pick_best(list: &Vec<Candidate>, standings: &Vec<Standing>, keys: &Vec<u64>) -> (pick: Option<
    (usize, Pick),
>)
    requires
        standings@.len() == list@.len(),
        keys@.len() == list@.len(),
    ensures
        match pick {
            Some((b, p)) => best_of(standings@, keys@, list@.len() as int) == Some(b as int) && b
                < list@.len() && p == (if list@[b as int].id == NONE {
                Pick::Local(list@[b as int].start, list@[b as int].end)
            } else {
                Pick::Word(list@[b as int].id)
            }),
            None => best_of(standings@, keys@, list@.len() as int) is None,
        },
{
    let mut best: Option<usize> = None;
    let mut floor: u64 = ZERO_KEY;
    let mut i: usize = 0;
    while i < list.len()
        invariant
            i <= list@.len(),
            standings@.len() == list@.len(),
            keys@.len() == list@.len(),
            match best {
                Some(b) => best_of(standings@, keys@, i as int) == Some(b as int) && b < i && floor
                    == keys@[b as int],
                None => best_of(standings@, keys@, i as int) is None && floor == ZERO_KEY,
            },
        decreases list@.len() - i,
    {
        let s = standings[i];
        if s == Standing::Offered && keys[i] > floor {
            best = Some(i);
            floor = keys[i];
        }
        i = i + 1;
    }
    match best {
        Some(b) => {
            let c = list[b];
            if c.id == NONE {
                Some((b, Pick::Local(c.start, c.end)))
            } else {
                Some((b, Pick::Word(c.id)))
            }
        },
        None => None,
    }
}

/// A word shown at a shorter prefix and typed past is never picked, nor is the
/// prefix itself, nor a word that may not be suggested and was not typed
/// earlier in this prompt.
pub proof fn law_pick_is_new_and_suggestible(
    m: Model,
    state: QueryState,
    key: Seq<char>,
    k: int,
    list: Seq<Candidate>,
    cached: Seq<bool>,
    standings: Seq<Standing>,
    keys: Seq<u64>,
    b: int,
)
    requires
        standings.len() == list.len(),
        keys.len() == list.len(),
        cached.len() == list.len(),
        forall|i: int|
            0 <= i < list.len() ==> #[trigger] standings[i] == standing_of(
                m,
                state,
                key,
                k,
                list[i],
                cached[i],
            ),
        best_of(standings, keys, list.len() as int) == Some(b),
    ensures
        0 <= b < list.len(),
        !state.typed_past(cand_word(m.lexicon@.words, state.window@, list[b]), k),
        cand_word(m.lexicon@.words, state.window@, list[b]) != key,
        list[b].id != NONE && !cached[b] ==> suggestible(
            m.lexicon@,
            list[b].id as int,
            m.params.min_count,
        ),
{
    lemma_best_of(standings, keys, list.len() as int);
    assert(standings[b] == Standing::Offered);
}

/// What a ranking weighs.
pub struct Gathered {
    pub ctx: Ctx,
    /// Base ids that start with the prefix.
    pub lo: usize,
    pub hi: usize,
    /// Web ids that start with the prefix.
    pub wlo: usize,
    pub whi: usize,
    /// The context's followers that start with the prefix, history and web
    /// merged, then the overflow words.
    pub steps: Vec<Offer>,
    /// The candidate of each step.
    pub places: Vec<usize>,
    /// The most frequent base words that start with the prefix.
    pub top: Vec<u32>,
    /// The overflow words that start with the prefix.
    pub overflow: Vec<u32>,
    /// Earlier words of the prompt that start with the prefix, last first.
    pub hits: Vec<Hit>,
    /// The candidate of each hit that is longer than the prefix.
    pub targets: Vec<Option<usize>>,
    /// Words of recent prompts that start with the prefix, with their counts.
    pub session: Vec<(u32, u32)>,
    /// Sum of the session counts.
    pub session_total: u64,
    pub cands: Candidates,
}

/// The choices a ranking is asked for.
#[derive(Clone, Copy, Debug, PartialEq, Eq, Structural)]
pub struct Weighs {
    /// Web bigrams weigh.
    pub web: bool,
    /// Earlier words weigh more after the same previous word.
    pub boost: bool,
    /// Words of recent prompts weigh.
    pub session: bool,
}

/// The follower list of the context.
pub open spec fn list_of(m: Model, ctx: Ctx) -> Option<FollowerList> {
    match ctx.v {
        Some(v) => if m.counts.followers.ctx_slot@[v as int] == NONE {
            None
        } else {
            Some(m.counts.followers.lists@[m.counts.followers.ctx_slot@[v as int] as int])
        },
        None => None,
    }
}

/// The overflow followers of the context that start with `key`.
pub open spec fn overflow_steps(m: Model, ctx: Ctx, key: Seq<char>) -> Seq<Offer> {
    match list_of(m, ctx) {
        Some(f) => overflow_followers(
            f.ids.ids@,
            f.counts@,
            m.lexicon@.words,
            key,
            first_not_below(
                f.ids.ids@,
                m.lexicon.vocab.base() as int,
                0,
                f.ids.ids@.len() as int,
            ),
        ),
        None => Seq::empty(),
    }
}

/// What is weighed is what the tables hold under the prefix.
pub open spec fn gathers(
    m: Model,
    web: WebPrior,
    state: QueryState,
    key: Seq<char>,
    w: Weighs,
    g: Gathered,
) -> bool {
    let words = m.lexicon@.words;
    let offers = g.steps@ + known_offers(m, web, g.ctx, g.top@) + known_offers(
        m,
        web,
        g.ctx,
        g.overflow@,
    );
    &&& g.ctx == ctx_of(m, web, state.context, state.u@, state.v@, w.web)
    &&& prefix_block(words.take(m.lexicon.vocab.base() as int), key, g.lo as int, g.hi as int)
    &&& prefix_block(web.words.words(), key, g.wlo as int, g.whi as int)
    &&& g.steps@ == joined(
        m,
        web,
        g.ctx,
        list_of(m, g.ctx),
        g.lo as int,
        g.hi as int,
        g.wlo as int,
        g.whi as int,
    ) + overflow_steps(m, g.ctx, key)
    &&& is_top_k(m.tree@, g.lo as int, g.hi as int, m.params.top_k as int, g.top@)
    &&& exists|a: int, b: int| #[trigger]
        prefix_block(m.lexicon.vocab.overflow_texts(), key, a, b) && g.overflow@
            == m.lexicon.vocab.overflow().subrange(a, b)
    &&& g.hits@ == hits_of(state.window@, key, state.context, state.v@, w.boost)
    &&& if w.session {
        exists|a: int, b: int| #[trigger]
            prefix_block(listed_texts(m.session.sorted@, words), key, a, b) && g.session@
                == m.session.sorted@.subrange(a, b)
    } else {
        g.session@.len() == 0
    }
    &&& g.session_total == session_sum(g.session@, g.session@.len() as int)
    &&& g.cands.list@ == with_session(
        m,
        web,
        g.ctx,
        key,
        with_hits(
            m,
            web,
            g.ctx,
            state.window@,
            key.len() as int,
            all_offered(m, g.ctx, Seq::empty(), offers, offers.len() as int),
            g.hits@,
            g.hits@.len() as int,
        ),
        g.session@,
        g.session@.len() as int,
    )
    &&& g.places@.len() == g.steps@.len()
    &&& forall|k: int|
        0 <= k < g.places@.len() ==> (#[trigger] g.places@[k]) < g.cands.list@.len()
            && g.cands.list@[g.places@[k] as int].id == g.steps@[k].id
    &&& g.targets@.len() == g.hits@.len()
    &&& forall|k: int|
        0 <= k < g.targets@.len() ==> match #[trigger] g.targets@[k] {
            Some(t) => g.hits@[k].end - g.hits@[k].start > key.len() && t < g.cands.list@.len()
                && cand_word(words, state.window@, g.cands.list@[t as int])
                == state.window@.subrange(g.hits@[k].start as int, g.hits@[k].end as int),
            None => g.hits@[k].end - g.hits@[k].start == key.len(),
        }
    &&& g.cands.wf(words.len() as int)
    &&& spans_fit(g.cands.list@, state.window@)
}

/// Offers split in two are made one after the other.
proof fn lemma_all_offered_concat(
    m: Model,
    ctx: Ctx,
    list: Seq<Candidate>,
    a: Seq<Offer>,
    b: Seq<Offer>,
    k: int,
)
    requires
        0 <= k <= b.len(),
    ensures
        all_offered(m, ctx, list, a + b, a.len() + k) == all_offered(
            m,
            ctx,
            all_offered(m, ctx, list, a, a.len() as int),
            b,
            k,
        ),
    decreases k,
{
    if k == 0 {
        lemma_all_offered_prefix(m, ctx, list, a, b, a.len() as int);
    } else {
        lemma_all_offered_concat(m, ctx, list, a, b, k - 1);
        assert((a + b)[a.len() + k - 1] == b[k - 1]);
    }
}

proof fn lemma_all_offered_prefix(
    m: Model,
    ctx: Ctx,
    list: Seq<Candidate>,
    a: Seq<Offer>,
    b: Seq<Offer>,
    k: int,
)
    requires
        0 <= k <= a.len(),
    ensures
        all_offered(m, ctx, list, a + b, k) == all_offered(m, ctx, list, a, k),
    decreases k,
{
    if k > 0 {
        lemma_all_offered_prefix(m, ctx, list, a, b, k - 1);
        assert((a + b)[k - 1] == a[k - 1]);
    }
}

/// Offers only ever add candidates at the end.
proof fn lemma_all_offered_grows(m: Model, ctx: Ctx, list: Seq<Candidate>, offers: Seq<Offer>, k: int)
    ensures
        list.len() <= all_offered(m, ctx, list, offers, k).len(),
        forall|i: int|
            0 <= i < list.len() ==> #[trigger] all_offered(m, ctx, list, offers, k)[i] == list[i],
    decreases k,
{
    if k > 0 {
        lemma_all_offered_grows(m, ctx, list, offers, k - 1);
    }
}

/// Hits only ever add candidates at the end.
proof fn lemma_with_hits_grows(
    m: Model,
    web: WebPrior,
    ctx: Ctx,
    window: Seq<char>,
    key_len: int,
    list: Seq<Candidate>,
    hits: Seq<Hit>,
    k: int,
)
    ensures
        list.len() <= with_hits(m, web, ctx, window, key_len, list, hits, k).len(),
        forall|i: int|
            0 <= i < list.len() ==> #[trigger] with_hits(
                m,
                web,
                ctx,
                window,
                key_len,
                list,
                hits,
                k,
            )[i] == list[i],
    decreases k,
{
    if k > 0 {
        lemma_with_hits_grows(m, web, ctx, window, key_len, list, hits, k - 1);
    }
}

fn copy_pairs(pairs: &[(u32, u32)]) -> (out: Vec<(u32, u32)>)
    ensures
        out@ == pairs@,
{
    let mut out: Vec<(u32, u32)> = Vec::new();
    let mut i: usize = 0;
    while i < pairs.len()
        invariant
            i <= pairs@.len(),
            out@ == pairs@.take(i as int),
        decreases pairs@.len() - i,
    {
        out.push(pairs[i]);
        assert(pairs@.take(i + 1) =~= pairs@.take(i as int).push(pairs@[i as int]));
        i = i + 1;
    }
    assert(pairs@.take(i as int) =~= pairs@);
    out
}

fn copy_ids(ids: &[u32]) -> (out: Vec<u32>)
    ensures
        out@ == ids@,
{
    let mut out: Vec<u32> = Vec::new();
    let mut i: usize = 0;
    while i < ids.len()
        invariant
            i <= ids@.len(),
            out@ == ids@.take(i as int),
        decreases ids@.len() - i,
    {
        out.push(ids[i]);
        assert(ids@.take(i + 1) =~= ids@.take(i as int).push(ids@[i as int]));
        i = i + 1;
    }
    assert(ids@.take(i as int) =~= ids@);
    out
}

/// Gathers what a ranking of the completions of lowercase `key` weighs: the
/// context's followers under the prefix, its most frequent words, every
/// overflow match, and the words of the prompt-local and session caches.
pub fn gather(m: &Model, web: &WebPrior, state: &QueryState, key: &str, w: &Weighs) -> (g: Gathered)
    requires
        m.wf(*web),
        web_ok(*web),
        web.follower@.len() < NO_ROW,
        key@.len() > 0,
        state.window@.len() <= MAX_LOCALS,
        byte_len(state.window@) <= usize::MAX,
        m.session.sorted@.len() <= u32::MAX,
    ensures
        gathers(*m, *web, *state, key@, *w, g),
{
    proof {
        m.lexicon.vocab.law_vocab_order();
        lemma_sorted_ascends(web.words.words());
    }
    let ghost words = m.lexicon@.words;
    let ghost n = words.len() as int;
    let ctx = context_stats(m, web, state, w.web);
    let (lo, hi) = m.lexicon.vocab.base_range(key);
    let (wlo, whi) = web.words.range(key);
    let list: Option<&FollowerList> = match ctx.v {
        Some(v) => {
            let slot: u32 = m.counts.followers.ctx_slot[v as usize];
            if slot == NONE {
                None
            } else {
                assert(m.counts.followers.ctx_slot@[v as int] < m.counts.followers.lists@.len());
                assert(m.counts.followers.lists@[slot as int].wf(n));
                Some(&m.counts.followers.lists[slot as usize])
            }
        },
        None => None,
    };
    let mut steps = join_followers(m, web, &ctx, list, lo, hi, wlo, whi);
    let ghost first_steps = steps@;
    if let Some(f) = list {
        let mut more = filter_overflow(m, web, f, key);
        let ghost more_steps = more@;
        steps.append(&mut more);
        assert forall|k: int| 0 <= k < steps@.len() implies (#[trigger] steps@[k]).id < n by {
            if k >= first_steps.len() {
                assert(steps@[k] == more_steps[k - first_steps.len()]);
            }
        }
    }
    assert(steps@ =~= first_steps + overflow_steps(*m, ctx, key@));
    let mut cands = Candidates::new();
    let places = cands.offer_all(m, web, &ctx, &steps);
    let ghost l1 = cands.list@;
    let top = m.top_k(lo, hi, m.params.top_k, web);
    let top_offers = look_up_all(m, web, &ctx, &top);
    let _top_places = cands.offer_all(m, web, &ctx, &top_offers);
    let ghost l2 = cands.list@;
    let overflow = copy_ids(m.lexicon.vocab.overflow_range(key));
    proof {
        let (a, b) = choose|a: int, b: int| #[trigger]
            prefix_block(m.lexicon.vocab.overflow_texts(), key@, a, b) && overflow@
                == m.lexicon.vocab.overflow().subrange(a, b);
        assert forall|k: int| 0 <= k < overflow@.len() implies #[trigger] overflow@[k] < n by {
            assert(overflow@[k] == m.lexicon.vocab.overflow()[a + k]);
            assert(m.lexicon.vocab.overflow_texts().len() == m.lexicon.vocab.overflow().len());
            assert(m.lexicon.vocab.overflow().contains(overflow@[k]));
        }
    }
    let over_offers = look_up_all(m, web, &ctx, &overflow);
    let _over_places = cands.offer_all(m, web, &ctx, &over_offers);
    let ghost l3 = cands.list@;
    proof {
        let offers = steps@ + top_offers@ + over_offers@;
        lemma_all_offered_concat(
            *m,
            ctx,
            Seq::empty(),
            steps@ + top_offers@,
            over_offers@,
            over_offers@.len() as int,
        );
        lemma_all_offered_concat(
            *m,
            ctx,
            Seq::empty(),
            steps@,
            top_offers@,
            top_offers@.len() as int,
        );
        assert(l3 == all_offered(*m, ctx, Seq::empty(), offers, offers.len() as int));
        lemma_all_offered_grows(*m, ctx, l1, top_offers@, top_offers@.len() as int);
        lemma_all_offered_grows(*m, ctx, l2, over_offers@, over_offers@.len() as int);
        assert forall|k: int| 0 <= k < steps@.len() implies (#[trigger] places@[k]) < l3.len()
            && l3[places@[k] as int].id == steps@[k].id by {
            assert(l3[places@[k] as int] == l2[places@[k] as int]);
            assert(l2[places@[k] as int] == l1[places@[k] as int]);
        }
        lemma_no_locals(*m, ctx, offers, offers.len() as int);
    }
    let key_chars = crate::unicode::chars_of(key);
    let hits = scan(&state.window, &key_chars, &state.context, &state.v, w.boost);
    let targets = cands.add_hits(m, web, &ctx, &state.window, key_chars.len(), &hits);
    let ghost l4 = cands.list@;
    proof {
        lemma_with_hits_grows(
            *m,
            *web,
            ctx,
            state.window@,
            key@.len() as int,
            l3,
            hits@,
            hits@.len() as int,
        );
    }
    let session: Vec<(u32, u32)> = if w.session {
        copy_pairs(m.session.range(key, &m.lexicon.vocab))
    } else {
        Vec::new()
    };
    proof {
        if w.session {
            let (a, b) = choose|a: int, b: int| #[trigger]
                prefix_block(listed_texts(m.session.sorted@, words), key@, a, b) && session@
                    == m.session.sorted@.subrange(a, b);
            assert forall|k: int| 0 <= k < session@.len() implies (#[trigger] session@[k]).0
                < n by {
                assert(session@[k] == m.session.sorted@[a + k]);
                assert(m.session.sorted@[a + k].0 < n);
            }
        }
    }
    let session_total = cands.add_session(m, web, &ctx, &state.window, key, &session);
    proof {
        let l5 = cands.list@;
        assert forall|k: int| 0 <= k < places@.len() implies (#[trigger] places@[k]) < l5.len()
            && l5[places@[k] as int].id == steps@[k].id by {
            let p = places@[k] as int;
            assert(l4[p] == l3[p]);
            assert(l5[p] == (Candidate { session: l5[p].session, ..l4[p] }));
        }
        assert forall|k: int| 0 <= k < targets@.len() implies match #[trigger] targets@[k] {
            Some(t) => hits@[k].end - hits@[k].start > key@.len() && t < l5.len() && cand_word(
                words,
                state.window@,
                l5[t as int],
            ) == state.window@.subrange(hits@[k].start as int, hits@[k].end as int),
            None => hits@[k].end - hits@[k].start == key@.len(),
        } by {
            if let Some(t) = targets@[k] {
                assert(l5[t as int] == (Candidate { session: l5[t as int].session, ..l4[t as int]
                }));
            }
        }
    }
    Gathered {
        ctx,
        lo,
        hi,
        wlo,
        whi,
        steps,
        places,
        top,
        overflow,
        hits,
        targets,
        session,
        session_total,
        cands,
    }
}

/// Offers make no local candidates.
proof fn lemma_no_locals(m: Model, ctx: Ctx, offers: Seq<Offer>, k: int)
    requires
        0 <= k <= offers.len(),
        forall|i: int| 0 <= i < offers.len() ==> (#[trigger] offers[i]).id != NONE,
    ensures
        forall|i: int|
            0 <= i < all_offered(m, ctx, Seq::empty(), offers, k).len() ==> (
            #[trigger] all_offered(m, ctx, Seq::empty(), offers, k)[i]).id != NONE,
    decreases k,
{
    if k > 0 {
        lemma_no_locals(m, ctx, offers, k - 1);
        assert(offers[k - 1].id != NONE);
        let prior = all_offered(m, ctx, Seq::empty(), offers, k - 1);
        let now = all_offered(m, ctx, Seq::empty(), offers, k);
        assert forall|i: int| 0 <= i < now.len() implies (#[trigger] now[i]).id != NONE by {
            if i < prior.len() {
                assert(now[i] == prior[i]);
            }
        }
    }
}

} // verus!
