//! Which words a ranking weighs, and which of them may be offered.

use crate::ngram::cache::Hit;
use crate::ngram::candidates::{
    known_offer, lemma_place, offered, overflow_followers, place, Candidate, Ctx, Offer,
};
use crate::ngram::evidence_law::has_candidate;
use crate::ngram::lexicon::{id_of, suggestible, NONE};
use crate::ngram::model::Model;
use crate::ngram::order::starts_with;
use crate::ngram::query::QueryState;
use crate::ngram::ranking::{
    best_of, cand_word, lemma_best_of, local_place, session_sum, standing_of, with_hit, with_hits,
    with_session, with_session_word, Standing,
};
use crate::ngram::web::WebPrior;
use crate::unicode::byte_len;
use vstd::prelude::*;

verus! {

proof fn lemma_local_place(list: Seq<Candidate>, window: Seq<char>, word: Seq<char>, at: int)
    requires
        0 <= at <= list.len(),
    ensures
        at <= local_place(list, window, word, at) <= list.len(),
        local_place(list, window, word, at) < list.len() ==> {
            let c = list[local_place(list, window, word, at)];
            c.id == NONE && window.subrange(c.start as int, c.end as int) == word
        },
    decreases list.len() - at,
{
    if at < list.len() && !(list[at].id == NONE && window.subrange(
        list[at].start as int,
        list[at].end as int,
    ) == word) {
        lemma_local_place(list, window, word, at + 1);
    }
}

/// The list has a candidate of this word.
pub open spec fn weighs_word(
    words: Seq<Seq<char>>,
    window: Seq<char>,
    list: Seq<Candidate>,
    word: Seq<char>,
) -> bool {
    exists|i: int| 0 <= i < list.len() && cand_word(words, window, #[trigger] list[i]) == word
}

/// The word of a hit longer than the prefix.
pub open spec fn of_a_hit(
    window: Seq<char>,
    key_len: int,
    hits: Seq<Hit>,
    k: int,
    word: Seq<char>,
) -> bool {
    exists|j: int|
        0 <= j < k && (#[trigger] hits[j]).end - hits[j].start > key_len && window.subrange(
            hits[j].start as int,
            hits[j].end as int,
        ) == word
}

proof fn lemma_hit(
    m: Model,
    web: WebPrior,
    ctx: Ctx,
    window: Seq<char>,
    key_len: int,
    list: Seq<Candidate>,
    h: Hit,
)
    requires
        m.lexicon@.words.len() < NONE,
        h.start <= h.end <= window.len() < NONE,
    ensures
        ({
            let words = m.lexicon@.words;
            let word = window.subrange(h.start as int, h.end as int);
            let now = with_hit(m, web, ctx, window, key_len, list, h);
            &&& list.len() <= now.len() <= list.len() + 1
            &&& forall|i: int| 0 <= i < list.len() ==> now[i] == #[trigger] list[i]
            &&& now.len() > list.len() ==> h.end - h.start > key_len && cand_word(
                words,
                window,
                now[list.len() as int],
            ) == word && now[list.len() as int].session == 0
            &&& h.end - h.start > key_len ==> weighs_word(words, window, now, word)
        }),
{
    let words = m.lexicon@.words;
    let word = window.subrange(h.start as int, h.end as int);
    let now = with_hit(m, web, ctx, window, key_len, list, h);
    if h.end - h.start > key_len {
        match id_of(words, word) {
            Some(id) => {
                assert(words[words.index_of(word)] == word);
                lemma_place(list, id as u32, 0);
                let p = place(list, id as u32, 0);
                if p < list.len() {
                    assert(cand_word(words, window, now[p]) == word);
                } else {
                    assert(cand_word(words, window, now[list.len() as int]) == word);
                }
            },
            None => {
                lemma_local_place(list, window, word, 0);
                let p = local_place(list, window, word, 0);
                if p < list.len() {
                    assert(cand_word(words, window, now[p]) == word);
                } else {
                    assert(cand_word(words, window, now[list.len() as int]) == word);
                }
            },
        }
    }
}

/// Earlier words of the prompt are weighed: each one longer than the prefix is
/// among the candidates, known or not, and nothing else joins them.
pub proof fn law_earlier_words_are_weighed(
    m: Model,
    web: WebPrior,
    ctx: Ctx,
    window: Seq<char>,
    key_len: int,
    list: Seq<Candidate>,
    hits: Seq<Hit>,
    k: int,
)
    requires
        m.lexicon@.words.len() < NONE,
        window.len() < NONE,
        0 <= k <= hits.len(),
        forall|j: int|
            0 <= j < hits.len() ==> (#[trigger] hits[j]).start <= hits[j].end <= window.len(),
    ensures
        ({
            let words = m.lexicon@.words;
            let now = with_hits(m, web, ctx, window, key_len, list, hits, k);
            &&& list.len() <= now.len()
            &&& forall|i: int| 0 <= i < list.len() ==> now[i] == #[trigger] list[i]
            &&& forall|i: int|
                list.len() <= i < now.len() ==> of_a_hit(
                    window,
                    key_len,
                    hits,
                    k,
                    cand_word(words, window, #[trigger] now[i]),
                )
            &&& forall|j: int|
                0 <= j < k && (#[trigger] hits[j]).end - hits[j].start > key_len ==> weighs_word(
                    words,
                    window,
                    now,
                    window.subrange(hits[j].start as int, hits[j].end as int),
                )
        }),
    decreases k,
{
    if k > 0 {
        law_earlier_words_are_weighed(m, web, ctx, window, key_len, list, hits, k - 1);
        let words = m.lexicon@.words;
        let prior = with_hits(m, web, ctx, window, key_len, list, hits, k - 1);
        let now = with_hits(m, web, ctx, window, key_len, list, hits, k);
        let h = hits[k - 1];
        assert(h.start <= h.end <= window.len());
        lemma_hit(m, web, ctx, window, key_len, prior, h);
        assert forall|i: int| list.len() <= i < now.len() implies of_a_hit(
            window,
            key_len,
            hits,
            k,
            cand_word(words, window, #[trigger] now[i]),
        ) by {
            if i < prior.len() {
                assert(now[i] == prior[i]);
                let w = cand_word(words, window, prior[i]);
                assert(of_a_hit(window, key_len, hits, k - 1, w));
                let j = choose|j: int|
                    0 <= j < k - 1 && (#[trigger] hits[j]).end - hits[j].start > key_len
                        && window.subrange(hits[j].start as int, hits[j].end as int) == w;
                assert(hits[j].end - hits[j].start > key_len);
            } else {
                assert(i == prior.len());
                assert(hits[k - 1].end - hits[k - 1].start > key_len);
            }
        }
        assert forall|i: int| 0 <= i < list.len() implies now[i] == #[trigger] list[i] by {
            assert(prior[i] == list[i]);
        }
        assert forall|j: int|
            0 <= j < k && (#[trigger] hits[j]).end - hits[j].start > key_len implies weighs_word(
            words,
            window,
            now,
            window.subrange(hits[j].start as int, hits[j].end as int),
        ) by {
            if j < k - 1 {
                let w = window.subrange(hits[j].start as int, hits[j].end as int);
                assert(weighs_word(words, window, prior, w));
                let i = choose|i: int|
                    0 <= i < prior.len() && cand_word(words, window, #[trigger] prior[i]) == w;
                assert(now[i] == prior[i]);
            }
        }
    }
}

/// No two candidates are of the same known word.
pub open spec fn once_each(list: Seq<Candidate>) -> bool {
    forall|i: int, j: int|
        0 <= i < j < list.len() && (#[trigger] list[i]).id != NONE ==> list[i].id != (
        #[trigger] list[j]).id
}

/// Words of recent prompts are weighed by how often they occur there: each one
/// that may be suggested is among the candidates, with its own count, and a
/// word that does not occur there keeps the count that it had.
pub proof fn law_recent_words_have_their_counts(
    m: Model,
    web: WebPrior,
    ctx: Ctx,
    key: Seq<char>,
    list: Seq<Candidate>,
    range: Seq<(u32, u32)>,
    k: int,
)
    requires
        0 <= k <= range.len(),
        once_each(list),
        forall|i: int, j: int|
            0 <= i < j < range.len() ==> (#[trigger] range[i]).0 != (#[trigger] range[j]).0,
        forall|i: int| 0 <= i < range.len() ==> (#[trigger] range[i]).0 != NONE,
    ensures
        ({
            let now = with_session(m, web, ctx, key, list, range, k);
            &&& once_each(now)
            &&& list.len() <= now.len()
            &&& forall|i: int| 0 <= i < list.len() ==> now[i].id == (#[trigger] list[i]).id
            &&& forall|j: int, i: int|
                0 <= j < k && 0 <= i < now.len() && (#[trigger] range[j]).0 == (
                #[trigger] now[i]).id ==> now[i].session == range[j].1
            &&& forall|j: int|
                0 <= j < k && suggestible(
                    m.lexicon@,
                    (#[trigger] range[j]).0 as int,
                    m.params.min_count,
                ) && m.lexicon@.words[range[j].0 as int] != key ==> has_candidate(now, range[j].0)
            &&& forall|i: int|
                0 <= i < list.len() && (forall|j: int| 0 <= j < k ==> (#[trigger] range[j]).0
                    != list[i].id) ==> now[i].session == (#[trigger] list[i]).session
            &&& forall|i: int|
                list.len() <= i < now.len() ==> m.lexicon@.words[(#[trigger] now[i]).id as int]
                    != key && suggestible(m.lexicon@, now[i].id as int, m.params.min_count)
        }),
    decreases k,
{
    if k > 0 {
        law_recent_words_have_their_counts(m, web, ctx, key, list, range, k - 1);
        let prior = with_session(m, web, ctx, key, list, range, k - 1);
        let now = with_session(m, web, ctx, key, list, range, k);
        let id = range[k - 1].0;
        let o = known_offer(m, web, ctx, id);
        let more = offered(m, ctx, prior, o);
        lemma_place(prior, id, 0);
        lemma_place(more, id, 0);
        assert(now == with_session_word(m, web, ctx, key, prior, range[k - 1]));
        assert(once_each(more)) by {
            assert forall|i: int, j: int|
                0 <= i < j < more.len() && (#[trigger] more[i]).id != NONE implies more[i].id != (
            #[trigger] more[j]).id by {
                assert(more[i] == prior[i]);
                if j < prior.len() {
                    assert(more[j] == prior[j]);
                }
            }
        }
        assert forall|i: int| 0 <= i < prior.len() implies more[i] == #[trigger] prior[i] by {}
        let p = place(more, id, 0);
        if now != prior {
            assert(p < more.len()) by {
                if place(prior, id, 0) >= prior.len() {
                    assert(more[prior.len() as int].id == id);
                }
            }
            assert(now.len() == more.len());
            assert forall|i: int| 0 <= i < now.len() implies (#[trigger] now[i]).id == more[i].id
                && (i != p ==> now[i] == more[i]) by {}
            assert(now[p].session == range[k - 1].1);
            assert(once_each(now)) by {
                assert forall|i: int, j: int|
                    0 <= i < j < now.len() && (#[trigger] now[i]).id != NONE implies now[i].id != (
                #[trigger] now[j]).id by {
                    assert(more[i].id == now[i].id && more[j].id == now[j].id);
                }
            }
        }
        assert forall|i: int| 0 <= i < list.len() implies now[i].id == (#[trigger] list[i]).id by {
            assert(prior[i].id == list[i].id);
            if now != prior {
                assert(more[i] == prior[i]);
            }
        }
        assert forall|j: int, i: int|
            0 <= j < k && 0 <= i < now.len() && (#[trigger] range[j]).0 == (
            #[trigger] now[i]).id implies now[i].session == range[j].1 by {
            if now != prior {
                if j < k - 1 {
                    assert(range[j].0 != range[k - 1].0);
                    assert(i != p);
                    assert(now[i] == more[i]);
                    assert(i < prior.len());
                    assert(prior[i].id == range[j].0);
                } else if i != p {
                    assert(more[i].id == id && more[p].id == id);
                    if i < p {
                        assert(more[i].id != more[p].id);
                    } else {
                        assert(more[p].id != more[i].id);
                    }
                }
            } else if j == k - 1 {
                if place(prior, id, 0) < prior.len() {
                    assert(prior == more.update(p, Candidate { session: range[k - 1].1, ..more[p] }));
                    assert(more == prior);
                    if i < p {
                        assert(prior[i].id != prior[p].id);
                    } else if p < i {
                        assert(prior[p].id != prior[i].id);
                    }
                } else {
                    lemma_place(prior, id, 0);
                    assert(prior[i].id != id);
                }
            }
        }
        assert forall|j: int|
            0 <= j < k && suggestible(
                m.lexicon@,
                (#[trigger] range[j]).0 as int,
                m.params.min_count,
            ) && m.lexicon@.words[range[j].0 as int] != key implies has_candidate(
            now,
            range[j].0,
        ) by {
            if j < k - 1 {
                assert(has_candidate(prior, range[j].0));
                let i = choose|i: int| 0 <= i < prior.len() && (#[trigger] prior[i]).id == range[j].0;
                if now != prior {
                    assert(more[i] == prior[i]);
                }
                assert(now[i].id == range[j].0);
            } else {
                if place(prior, id, 0) >= prior.len() {
                    assert(more[prior.len() as int].id == id);
                }
                assert(now[p].id == id);
            }
        }
        assert forall|i: int|
            0 <= i < list.len() && (forall|j: int| 0 <= j < k ==> (#[trigger] range[j]).0
                != list[i].id) implies now[i].session == (#[trigger] list[i]).session by {
            assert(range[k - 1].0 != list[i].id);
            assert(prior[i].session == list[i].session);
            if now != prior {
                assert(more[i] == prior[i]);
                assert(prior[i].id == list[i].id);
                assert(i != p);
            }
        }
        assert forall|i: int| list.len() <= i < now.len() implies m.lexicon@.words[(
        #[trigger] now[i]).id as int] != key && suggestible(
            m.lexicon@,
            now[i].id as int,
            m.params.min_count,
        ) by {
            if i < prior.len() {
                assert(m.lexicon@.words[prior[i].id as int] != key);
                if now != prior {
                    assert(more[i] == prior[i]);
                }
            }
        }
    }
}

/// The counts of recent words are summed: one word adds its count, and two
/// lists add up.
pub proof fn law_recent_counts_are_summed(a: Seq<(u32, u32)>, b: Seq<(u32, u32)>, e: (u32, u32))
    ensures
        session_sum(a.push(e), a.len() as int + 1) == session_sum(a, a.len() as int) + e.1,
        session_sum(a + b, (a + b).len() as int) == session_sum(a, a.len() as int) + session_sum(
            b,
            b.len() as int,
        ),
        session_sum(Seq::empty(), 0) == 0,
{
    lemma_sum_concat(a, seq![e], 1);
    assert(a + seq![e] =~= a.push(e));
    assert(session_sum(seq![e], 1) == session_sum(seq![e], 0) + e.1);
    lemma_sum_concat(a, b, b.len() as int);
}

proof fn lemma_sum_prefix(a: Seq<(u32, u32)>, b: Seq<(u32, u32)>, k: int)
    requires
        0 <= k <= a.len(),
    ensures
        session_sum(a + b, k) == session_sum(a, k),
    decreases k,
{
    if k > 0 {
        lemma_sum_prefix(a, b, k - 1);
    }
}

proof fn lemma_sum_concat(a: Seq<(u32, u32)>, b: Seq<(u32, u32)>, k: int)
    requires
        0 <= k <= b.len(),
    ensures
        session_sum(a + b, a.len() + k) == session_sum(a, a.len() as int) + session_sum(b, k),
    decreases k,
{
    if k > 0 {
        lemma_sum_concat(a, b, k - 1);
        assert((a + b)[a.len() + k - 1] == b[k - 1]);
    } else {
        lemma_sum_prefix(a, b, a.len() as int);
    }
}

/// The offer is that of the follower at place `i`.
pub open spec fn offers_follower(o: Offer, ids: Seq<u32>, counts: Seq<u32>, i: int) -> bool {
    o.id == ids[i] && o.c2 == counts[i]
}

/// Of the followers outside the sorted words, those that start with the prefix
/// are weighed, each with its own count, and no others.
pub proof fn law_late_followers_are_weighed(
    ids: Seq<u32>,
    counts: Seq<u32>,
    words: Seq<Seq<char>>,
    key: Seq<char>,
    at: int,
)
    requires
        0 <= at <= ids.len(),
    ensures
        ({
            let out = overflow_followers(ids, counts, words, key, at);
            &&& forall|i: int|
                at <= i < ids.len() && starts_with(words[#[trigger] ids[i] as int], key) ==> exists|
                    k: int,
                |
                    0 <= k < out.len() && offers_follower(#[trigger] out[k], ids, counts, i)
            &&& forall|k: int|
                0 <= k < out.len() ==> starts_with(words[(#[trigger] out[k]).id as int], key)
        }),
    decreases ids.len() - at,
{
    let out = overflow_followers(ids, counts, words, key, at);
    if at < ids.len() {
        law_late_followers_are_weighed(ids, counts, words, key, at + 1);
        let rest = overflow_followers(ids, counts, words, key, at + 1);
        let skipped: int = if starts_with(words[ids[at] as int], key) {
            1
        } else {
            0
        };
        assert(out.len() == rest.len() + skipped);
        assert forall|k: int| 0 <= k < rest.len() implies out[k + skipped] == #[trigger] rest[k] by {}
        assert forall|i: int|
            at <= i < ids.len() && starts_with(words[#[trigger] ids[i] as int], key) implies exists|
            k: int,
        |
            0 <= k < out.len() && offers_follower(#[trigger] out[k], ids, counts, i) by {
            if i == at {
                assert(offers_follower(out[0], ids, counts, i));
            } else {
                let k = choose|k: int|
                    0 <= k < rest.len() && offers_follower(#[trigger] rest[k], ids, counts, i);
                assert(offers_follower(out[k + skipped], ids, counts, i));
            }
        }
        assert forall|k: int| 0 <= k < out.len() implies starts_with(
            words[(#[trigger] out[k]).id as int],
            key,
        ) by {
            if k >= skipped {
                assert(out[k] == rest[k - skipped]);
            }
        }
    }
}

/// A candidate may be offered exactly when it is longer than the prefix, was
/// not shown at a shorter one, and either may be suggested, or is a word of
/// this prompt alone, or was typed earlier in this prompt.
pub proof fn law_what_may_be_offered(
    m: Model,
    state: QueryState,
    key: Seq<char>,
    k: int,
    c: Candidate,
    cached: bool,
)
    ensures
        ({
            let word = cand_word(m.lexicon@.words, state.window@, c);
            standing_of(m, state, key, k, c, cached) == Standing::Offered <==> {
                &&& byte_len(word) != byte_len(key)
                &&& forall|i: int|
                    0 <= i < k && i < state.shown@.len() && #[trigger] state.shown@[i] is Some
                        ==> state.shown@[i]->0@ != word
                &&& c.id == NONE || cached || suggestible(
                    m.lexicon@,
                    c.id as int,
                    m.params.min_count,
                )
            }
        }),
{
    let word = cand_word(m.lexicon@.words, state.window@, c);
    if state.typed_past(word, k) {
        let i = choose|i: int|
            0 <= i < k && i < state.shown@.len() && (#[trigger] state.shown@[i] matches Some(t)
                && t@ == word);
        assert(state.shown@[i] is Some && state.shown@[i]->0@ == word);
    } else {
        assert forall|i: int|
            0 <= i < k && i < state.shown@.len() && #[trigger] state.shown@[i] is Some implies
            state.shown@[i]->0@ != word by {}
    }
}

/// The pick is the offered candidate with the greatest value, the first of
/// equals, and there is none only where no offered candidate has a value above
/// zero.
pub proof fn law_the_best_is_picked(standings: Seq<Standing>, keys: Seq<u64>, n: int)
    requires
        0 <= n <= standings.len(),
        n <= keys.len(),
    ensures
        match best_of(standings, keys, n) {
            Some(b) => {
                &&& 0 <= b < n
                &&& standings[b] == Standing::Offered
                &&& keys[b] > 0x8000_0000_0000_0000
                &&& forall|i: int|
                    0 <= i < n && #[trigger] standings[i] == Standing::Offered ==> keys[i]
                        <= keys[b] && (keys[i] == keys[b] ==> b <= i)
            },
            None => forall|i: int|
                0 <= i < n && #[trigger] standings[i] == Standing::Offered ==> keys[i]
                    <= 0x8000_0000_0000_0000,
        },
{
    lemma_best_of(standings, keys, n);
}

} // verus!
