//! What is counted is what a query weighs: the counts stored for an event are
//! read back by a query in the same left context.

use crate::ngram::candidates::{
    above_zero, all_offered, ctx_of, first_not_below, join, joined, known_offer, known_offers, made,
    offered, overflow_followers, place, Candidate, Ctx, Offer,
};
use crate::ngram::cache::Hit;
use crate::ngram::counts::{or_zero, stored, Cells, Counts, EventView};
use crate::ngram::follower_table::FollowerList;
use crate::ngram::lexicon::{id_of, NONE};
use crate::ngram::model::{web_ok, Model};
use crate::ngram::order::{prefix_block, starts_with};
use crate::ngram::query::QueryState;
use crate::ngram::ranking::{
    gathers, list_of, overflow_steps, with_hit, with_hits, with_session, with_session_word, Gathered,
    Weighs,
};
use crate::ngram::text::{Context, Slot};
use crate::ngram::web::{WebPrior, NO_SLOT};
use vstd::prelude::*;

verus! {

/// One side of a query's context stands for the word `id`: it is the sentence
/// start and `id` the sentence-start word, or it is a word and `id` that word.
pub open spec fn stands_for(m: Model, slot: Slot, text: Seq<char>, id: u32) -> bool {
    match slot {
        Slot::Unknown => false,
        Slot::Bos => id == m.bos,
        Slot::Word => id < m.lexicon@.words.len() && m.lexicon@.words[id as int] == text,
    }
}

proof fn lemma_id_of(m: Model, web: WebPrior, text: Seq<char>, id: u32)
    requires
        m.wf(web),
        id < m.lexicon@.words.len(),
        m.lexicon@.words[id as int] == text,
    ensures
        id_of(m.lexicon@.words, text) == Some(id as int),
{
    let words = m.lexicon@.words;
    m.lexicon.vocab.law_vocab_order();
    let at = words.index_of(text);
    assert(words.contains(text));
    assert(words[at] == text);
    if at < id {
        assert(words[at] != words[id as int]);
    } else if id < at {
        assert(words[id as int] != words[at]);
    }
}

/// What is stored under an event is what a query in the same context reads: the
/// pair of its context is found, with the event's total, and the event's word
/// is weighed with the counts stored for it.
pub proof fn law_stored_event_is_weighed_in_its_context(
    before: Counts,
    m: Model,
    web: WebPrior,
    e: EventView,
    c: Cells,
    context: Context,
    u: Seq<char>,
    v: Seq<char>,
    use_web: bool,
)
    requires
        m.wf(web),
        e.ids_below(m.lexicon@.words.len() as int),
        stored(before, m.counts, e, c),
        e.v is Some,
        stands_for(m, context.v, v, e.v->0),
    ensures
        ({
            let ctx = ctx_of(m, web, context, u, v, use_web);
            let o = known_offer(m, web, ctx, e.w);
            &&& ctx.v == e.v
            &&& o.id == e.w
            &&& o.c2 == c.follower
            &&& e.u is Some && stands_for(m, context.u, u, e.u->0) ==> {
                &&& ctx.pair != NONE
                &&& ctx.pair < m.counts.pairs.pair_total@.len()
                &&& m.counts.pairs.pair_total@[ctx.pair as int] == c.pair_total
                &&& above_zero(c.follower) ==> made(m, ctx, o).c3 == c.trigram
            }
        }),
{
    if context.v == Slot::Word {
        lemma_id_of(m, web, v, e.v->0);
    }
    if e.u is Some && stands_for(m, context.u, u, e.u->0) {
        if context.u == Slot::Word {
            lemma_id_of(m, web, u, e.u->0);
        }
        let pairs = m.counts.pairs;
        assert(pairs.stats(e.u->0, e.v->0) is Some);
        assert(pairs.pair_of(e.u->0, e.v->0) is Some);
    }
}

/// A word that was never counted behind the context weighs nothing there.
pub proof fn law_uncounted_words_weigh_nothing(m: Model, web: WebPrior, ctx: Ctx, id: u32)
    requires
        ctx.v is Some ==> m.counts.followers.follower(ctx.v->0, id) is None,
    ensures
        known_offer(m, web, ctx, id).c2 == 0,
        made(m, ctx, known_offer(m, web, ctx, id)).c3 == 0,
{
}

// ---------------------------------------------------------------------------
// What a ranking gathers
// ---------------------------------------------------------------------------
/// The count of `id` behind the word before.
pub open spec fn counted_after(m: Model, ctx: Ctx, id: u32) -> u32 {
    match ctx.v {
        Some(v) => or_zero(m.counts.followers.follower(v, id)),
        None => 0,
    }
}

/// The candidate has the counts of its word.
pub open spec fn weighed_right(m: Model, ctx: Ctx, c: Candidate) -> bool {
    c.id != NONE ==> {
        &&& c.c2 == counted_after(m, ctx, c.id)
        &&& c.c3 == made(m, ctx, Offer { id: c.id, c2: counted_after(m, ctx, c.id), row: c.row }).c3
    }
}

spec fn all_right(m: Model, ctx: Ctx, list: Seq<Candidate>) -> bool {
    forall|i: int| 0 <= i < list.len() ==> weighed_right(m, ctx, #[trigger] list[i])
}

/// Every first offer of a word has its count.
spec fn first_right(m: Model, ctx: Ctx, offers: Seq<Offer>) -> bool {
    forall|i: int|
        0 <= i < offers.len() && (forall|j: int| 0 <= j < i ==> (#[trigger] offers[j]).id
            != offers[i].id) ==> (#[trigger] offers[i]).c2 == counted_after(m, ctx, offers[i].id)
}

/// The list has a candidate of word `id`.
pub open spec fn has_candidate(list: Seq<Candidate>, id: u32) -> bool {
    exists|i: int| 0 <= i < list.len() && (#[trigger] list[i]).id == id
}

proof fn lemma_place(list: Seq<Candidate>, id: u32, at: int)
    requires
        0 <= at <= list.len(),
    ensures
        at <= place(list, id, at) <= list.len(),
        place(list, id, at) < list.len() ==> list[place(list, id, at)].id == id,
        forall|i: int| at <= i < place(list, id, at) ==> (#[trigger] list[i]).id != id,
    decreases list.len() - at,
{
    if at < list.len() && list[at].id != id {
        lemma_place(list, id, at + 1);
    }
}

proof fn lemma_offered(m: Model, ctx: Ctx, list: Seq<Candidate>, o: Offer)
    requires
        all_right(m, ctx, list),
        has_candidate(list, o.id) || o.c2 == counted_after(m, ctx, o.id),
    ensures
        all_right(m, ctx, offered(m, ctx, list, o)),
        has_candidate(offered(m, ctx, list, o), o.id),
        forall|id: u32| #[trigger] has_candidate(list, id) ==> has_candidate(
            offered(m, ctx, list, o),
            id,
        ),
{
    let now = offered(m, ctx, list, o);
    lemma_place(list, o.id, 0);
    if place(list, o.id, 0) >= list.len() {
        assert(now == list.push(made(m, ctx, o)));
        assert(now[list.len() as int].id == o.id);
        assert forall|i: int| 0 <= i < now.len() implies weighed_right(m, ctx, #[trigger] now[i]) by {
            if i < list.len() {
                assert(now[i] == list[i]);
            }
        }
        assert forall|id: u32| #[trigger] has_candidate(list, id) implies has_candidate(
            now,
            id,
        ) by {
            let i = choose|i: int| 0 <= i < list.len() && (#[trigger] list[i]).id == id;
            assert(now[i].id == id);
        }
    }
}

proof fn lemma_all_offered(m: Model, ctx: Ctx, offers: Seq<Offer>, k: int)
    requires
        0 <= k <= offers.len(),
        first_right(m, ctx, offers),
    ensures
        all_right(m, ctx, all_offered(m, ctx, Seq::empty(), offers, k)),
        forall|j: int|
            0 <= j < k ==> has_candidate(
                all_offered(m, ctx, Seq::empty(), offers, k),
                (#[trigger] offers[j]).id,
            ),
    decreases k,
{
    if k > 0 {
        lemma_all_offered(m, ctx, offers, k - 1);
        let prior = all_offered(m, ctx, Seq::empty(), offers, k - 1);
        let o = offers[k - 1];
        if !has_candidate(prior, o.id) {
            assert forall|j: int| 0 <= j < k - 1 implies (#[trigger] offers[j]).id
                != offers[k - 1].id by {}
        }
        lemma_offered(m, ctx, prior, o);
        let now = all_offered(m, ctx, Seq::empty(), offers, k);
        assert forall|j: int| 0 <= j < k implies has_candidate(now, (#[trigger] offers[j]).id) by {
            if j < k - 1 {
                assert(has_candidate(prior, offers[j].id));
            }
        }
    }
}

proof fn lemma_hits(
    m: Model,
    web: WebPrior,
    ctx: Ctx,
    window: Seq<char>,
    key_len: int,
    list: Seq<Candidate>,
    hits: Seq<Hit>,
    k: int,
)
    requires
        0 <= k <= hits.len(),
        all_right(m, ctx, list),
    ensures
        all_right(m, ctx, with_hits(m, web, ctx, window, key_len, list, hits, k)),
        forall|id: u32| #[trigger] has_candidate(list, id) ==> has_candidate(
            with_hits(m, web, ctx, window, key_len, list, hits, k),
            id,
        ),
    decreases k,
{
    if k > 0 {
        lemma_hits(m, web, ctx, window, key_len, list, hits, k - 1);
        let prior = with_hits(m, web, ctx, window, key_len, list, hits, k - 1);
        let h = hits[k - 1];
        let word = window.subrange(h.start as int, h.end as int);
        let now = with_hit(m, web, ctx, window, key_len, prior, h);
        if h.end - h.start > key_len {
            match id_of(m.lexicon@.words, word) {
                Some(id) => {
                    lemma_offered(m, ctx, prior, known_offer(m, web, ctx, id as u32));
                },
                None => {
                    if now != prior {
                        assert forall|i: int| 0 <= i < now.len() implies weighed_right(
                            m,
                            ctx,
                            #[trigger] now[i],
                        ) by {
                            if i < prior.len() {
                                assert(now[i] == prior[i]);
                            }
                        }
                        assert forall|id: u32| #[trigger] has_candidate(
                            prior,
                            id,
                        ) implies has_candidate(now, id) by {
                            let i = choose|i: int|
                                0 <= i < prior.len() && (#[trigger] prior[i]).id == id;
                            assert(now[i].id == id);
                        }
                    }
                },
            }
        }
    }
}

proof fn lemma_session(
    m: Model,
    web: WebPrior,
    ctx: Ctx,
    key: Seq<char>,
    list: Seq<Candidate>,
    range: Seq<(u32, u32)>,
    k: int,
)
    requires
        0 <= k <= range.len(),
        all_right(m, ctx, list),
    ensures
        all_right(m, ctx, with_session(m, web, ctx, key, list, range, k)),
        forall|id: u32| #[trigger] has_candidate(list, id) ==> has_candidate(
            with_session(m, web, ctx, key, list, range, k),
            id,
        ),
    decreases k,
{
    if k > 0 {
        lemma_session(m, web, ctx, key, list, range, k - 1);
        let prior = with_session(m, web, ctx, key, list, range, k - 1);
        let now = with_session_word(m, web, ctx, key, prior, range[k - 1]);
        let id = range[k - 1].0;
        let o = known_offer(m, web, ctx, id);
        let more = offered(m, ctx, prior, o);
        lemma_offered(m, ctx, prior, o);
        lemma_place(more, id, 0);
        if now != prior {
            assert(now.len() == more.len());
            assert forall|i: int| 0 <= i < now.len() implies weighed_right(
                m,
                ctx,
                #[trigger] now[i],
            ) && now[i].id == more[i].id by {
                assert(weighed_right(m, ctx, more[i]));
            }
            assert forall|x: u32| #[trigger] has_candidate(more, x) implies has_candidate(
                now,
                x,
            ) by {
                let i = choose|i: int| 0 <= i < more.len() && (#[trigger] more[i]).id == x;
                assert(now[i].id == x);
            }
        }
    }
}

proof fn lemma_not_below(ids: Seq<u32>, x: int, at: int, stop: int)
    requires
        at <= stop,
    ensures
        at <= first_not_below(ids, x, at, stop) <= stop,
        forall|i: int| at <= i < first_not_below(ids, x, at, stop) ==> #[trigger] ids[i] < x,
        first_not_below(ids, x, at, stop) < stop ==> ids[first_not_below(ids, x, at, stop)] >= x,
    decreases stop - at,
{
    if at < stop && ids[at] < x {
        lemma_not_below(ids, x, at + 1, stop);
    }
}

/// The count that the first offer of `x` gives it.
spec fn first_count(offers: Seq<Offer>, x: u32) -> Option<u32>
    decreases offers.len(),
{
    if offers.len() == 0 {
        None
    } else if offers[0].id == x {
        Some(offers[0].c2)
    } else {
        first_count(offers.drop_first(), x)
    }
}

proof fn lemma_first_count(offers: Seq<Offer>, x: u32, i: int)
    requires
        0 <= i < offers.len(),
        offers[i].id == x,
        forall|j: int| 0 <= j < i ==> (#[trigger] offers[j]).id != x,
    ensures
        first_count(offers, x) == Some(offers[i].c2),
    decreases i,
{
    if i > 0 {
        assert(offers[0].id != x);
        let rest = offers.drop_first();
        assert forall|j: int| 0 <= j < i - 1 implies (#[trigger] rest[j]).id != x by {
            assert(offers[j + 1].id != x);
        }
        lemma_first_count(rest, x, i - 1);
    }
}

proof fn lemma_first_count_found(offers: Seq<Offer>, x: u32)
    requires
        first_count(offers, x) is Some,
    ensures
        exists|i: int| 0 <= i < offers.len() && (#[trigger] offers[i]).id == x,
    decreases offers.len(),
{
    if offers[0].id != x {
        let rest = offers.drop_first();
        lemma_first_count_found(rest, x);
        let i = choose|i: int| 0 <= i < rest.len() && (#[trigger] rest[i]).id == x;
        assert(offers[i + 1].id == x);
    }
}

/// The first offer of `x` in a merge has the count of `x`, and a counted word
/// is offered.
proof fn lemma_join(
    ids: Seq<u32>,
    counts: Seq<u32>,
    a: int,
    a_end: int,
    to_id: Seq<u32>,
    follower: Seq<u32>,
    b: int,
    b_end: int,
    x: u32,
    at: int,
    counted: bool,
)
    requires
        forall|i: int, j: int| 0 <= i < j < ids.len() ==> ids[i] < ids[j],
        0 <= a,
        a_end <= ids.len(),
        counted ==> a <= at < a_end && ids[at] == x,
        !counted ==> forall|i: int| 0 <= i < ids.len() ==> #[trigger] ids[i] != x,
    ensures
        ({
            let out = join(ids, counts, a, a_end, to_id, follower, b, b_end);
            &&& first_count(out, x) matches Some(c) ==> c == (if counted {
                counts[at]
            } else {
                0
            })
            &&& counted ==> first_count(out, x) is Some
        }),
    decreases (if a < a_end { a_end - a } else { 0 }) + (if b < b_end { b_end - b } else { 0 }),
{
    let out = join(ids, counts, a, a_end, to_id, follower, b, b_end);
    if a >= a_end && b >= b_end {
    } else {
        let ida = ids[a];
        let idb = to_id[follower[b] as int];
        let take_a = a < a_end && (b >= b_end || ida <= idb);
        let take_b = b < b_end && (a >= a_end || idb <= ida);
        let a2 = if take_a {
            a + 1
        } else {
            a
        };
        let b2 = if take_b {
            b + 1
        } else {
            b
        };
        let rest = join(ids, counts, a2, a_end, to_id, follower, b2, b_end);
        let first = out[0];
        assert(out == seq![first] + rest);
        assert(out.drop_first() =~= rest);
        if counted && a < at {
            assert(ids[a] < ids[at]);
        }
        if first.id != x {
            lemma_join(ids, counts, a2, a_end, to_id, follower, b2, b_end, x, at, counted);
        }
    }
}

/// Where the offers of a merge come from.
proof fn lemma_join_sources(
    ids: Seq<u32>,
    counts: Seq<u32>,
    a: int,
    a_end: int,
    to_id: Seq<u32>,
    follower: Seq<u32>,
    b: int,
    b_end: int,
)
    ensures
        ({
            let out = join(ids, counts, a, a_end, to_id, follower, b, b_end);
            forall|i: int|
                0 <= i < out.len() ==> (exists|k: int| a <= k < a_end && #[trigger] ids[k] == (
                #[trigger] out[i]).id) || (exists|r: int|
                    b <= r < b_end && to_id[#[trigger] follower[r] as int] == out[i].id)
        }),
    decreases (if a < a_end { a_end - a } else { 0 }) + (if b < b_end { b_end - b } else { 0 }),
{
    let out = join(ids, counts, a, a_end, to_id, follower, b, b_end);
    if a >= a_end && b >= b_end {
    } else {
        let ida = ids[a];
        let idb = to_id[follower[b] as int];
        let take_a = a < a_end && (b >= b_end || ida <= idb);
        let take_b = b < b_end && (a >= a_end || idb <= ida);
        let a2 = if take_a {
            a + 1
        } else {
            a
        };
        let b2 = if take_b {
            b + 1
        } else {
            b
        };
        let rest = join(ids, counts, a2, a_end, to_id, follower, b2, b_end);
        lemma_join_sources(ids, counts, a2, a_end, to_id, follower, b2, b_end);
        assert(out == seq![out[0]] + rest);
        assert forall|i: int| 0 <= i < out.len() implies (exists|k: int|
            a <= k < a_end && #[trigger] ids[k] == (#[trigger] out[i]).id) || (exists|r: int|
            b <= r < b_end && to_id[#[trigger] follower[r] as int] == out[i].id) by {
            if i > 0 {
                assert(out[i] == rest[i - 1]);
                if exists|k: int| a2 <= k < a_end && #[trigger] ids[k] == rest[i - 1].id {
                    let k = choose|k: int| a2 <= k < a_end && #[trigger] ids[k] == rest[i - 1].id;
                    assert(ids[k] == out[i].id);
                } else {
                    let r = choose|r: int|
                        b2 <= r < b_end && to_id[#[trigger] follower[r] as int] == rest[i - 1].id;
                    assert(to_id[follower[r] as int] == out[i].id);
                }
            } else if take_a {
                assert(ids[a] == out[i].id);
            } else {
                assert(to_id[follower[b] as int] == out[i].id);
            }
        }
    }
}

proof fn lemma_overflow(
    ids: Seq<u32>,
    counts: Seq<u32>,
    words: Seq<Seq<char>>,
    key: Seq<char>,
    at: int,
)
    requires
        0 <= at <= ids.len(),
    ensures
        ({
            let out = overflow_followers(ids, counts, words, key, at);
            &&& forall|i: int|
                0 <= i < out.len() ==> exists|k: int|
                    at <= k < ids.len() && #[trigger] ids[k] == (#[trigger] out[i]).id && counts[k]
                        == out[i].c2
            &&& forall|k: int|
                at <= k < ids.len() && starts_with(words[(#[trigger] ids[k]) as int], key)
                    ==> exists|i: int| 0 <= i < out.len() && (#[trigger] out[i]).id == ids[k]
        }),
    decreases ids.len() - at,
{
    if at < ids.len() {
        lemma_overflow(ids, counts, words, key, at + 1);
        let out = overflow_followers(ids, counts, words, key, at);
        let rest = overflow_followers(ids, counts, words, key, at + 1);
        let here = starts_with(words[ids[at] as int], key);
        assert forall|i: int| 0 <= i < out.len() implies exists|k: int|
            at <= k < ids.len() && #[trigger] ids[k] == (#[trigger] out[i]).id && counts[k]
                == out[i].c2 by {
            let j = if here {
                i - 1
            } else {
                i
            };
            if j < 0 {
                assert(ids[at] == out[i].id);
            } else {
                assert(out[i] == rest[j]);
                let k = choose|k: int|
                    at + 1 <= k < ids.len() && #[trigger] ids[k] == rest[j].id && counts[k]
                        == rest[j].c2;
                assert(ids[k] == out[i].id);
            }
        }
        assert forall|k: int|
            at <= k < ids.len() && starts_with(words[(#[trigger] ids[k]) as int], key) implies exists|
            i: int,
        | 0 <= i < out.len() && (#[trigger] out[i]).id == ids[k] by {
            if k == at {
                assert(out[0].id == ids[k]);
            } else {
                let j = choose|j: int| 0 <= j < rest.len() && (#[trigger] rest[j]).id == ids[k];
                if here {
                    assert(out[j + 1] == rest[j]);
                } else {
                    assert(out[j] == rest[j]);
                }
            }
        }
    }
}

proof fn lemma_count_at(f: FollowerList, n: int, k: int)
    requires
        f.wf(n),
        0 <= k < f.ids.ids@.len(),
    ensures
        f.count_of(f.ids.ids@[k]) == Some(f.counts@[k]),
{
    let ids = f.ids.ids@;
    let x = ids[k];
    assert(ids.contains(x));
    let j = ids.index_of(x);
    assert(ids[j] == x);
    if j < k {
        assert(ids[j] < ids[k]);
    } else if k < j {
        assert(ids[k] < ids[j]);
    }
}

/// The ids and counts behind the context.
spec fn list_parts(m: Model, ctx: Ctx) -> (Seq<u32>, Seq<u32>) {
    match list_of(m, ctx) {
        Some(f) => (f.ids.ids@, f.counts@),
        None => (Seq::empty(), Seq::empty()),
    }
}

proof fn lemma_list_parts(m: Model, web: WebPrior, ctx: Ctx)
    requires
        m.wf(web),
        ctx.fits(m, web),
    ensures
        ({
            let (ids, counts) = list_parts(m, ctx);
            &&& forall|i: int, j: int| 0 <= i < j < ids.len() ==> ids[i] < ids[j]
            &&& forall|k: int|
                0 <= k < ids.len() ==> counted_after(m, ctx, #[trigger] ids[k]) == counts[k]
            &&& forall|x: u32|
                !ids.contains(x) ==> #[trigger] counted_after(m, ctx, x) == 0
            &&& list_of(m, ctx) matches Some(f) ==> f.wf(m.lexicon@.words.len() as int)
        }),
{
    if let Some(f) = list_of(m, ctx) {
        let v = ctx.v->0;
        let slot = m.counts.followers.ctx_slot@[v as int];
        assert(slot < m.counts.followers.lists@.len());
        let n = m.counts.followers.ctx_slot@.len() as int;
        assert(m.counts.followers.lists@[slot as int].wf(n));
        let ids = f.ids.ids@;
        assert forall|k: int| 0 <= k < ids.len() implies counted_after(m, ctx, #[trigger] ids[k])
            == f.counts@[k] by {
            lemma_count_at(f, n, k);
        }
    }
}

/// Every word of the web is a base word, as in every model once it is made or
/// compacted.
pub open spec fn web_in_base(m: Model) -> bool {
    forall|k: int|
        0 <= k < m.web_to_id@.len() ==> (#[trigger] m.web_to_id@[k]) < m.lexicon.vocab.base()
}

/// A web row under the prefix is a base word under the prefix.
proof fn lemma_web_row(m: Model, web: WebPrior, ctx: Ctx, key: Seq<char>, g: Gathered, r: int)
    requires
        m.wf(web),
        web_ok(web),
        web_in_base(m),
        ctx.fits(m, web),
        ctx.web_slot != NO_SLOT,
        prefix_block(
            m.lexicon@.words.take(m.lexicon.vocab.base() as int),
            key,
            g.lo as int,
            g.hi as int,
        ),
        prefix_block(web.words.words(), key, g.wlo as int, g.whi as int),
        ({
            let first = web.start@[ctx.web_slot as int] as int;
            let stop = web.start@[ctx.web_slot + 1] as int;
            first_not_below(web.follower@, g.wlo as int, first, stop) <= r < first_not_below(
                web.follower@,
                g.whi as int,
                first,
                stop,
            )
        }),
    ensures
        g.lo <= m.web_to_id@[web.follower@[r] as int] < g.hi,
{
    let slot = ctx.web_slot as int;
    let first = web.start@[slot] as int;
    let stop = web.start@[slot + 1] as int;
    let last = web.start@.len() - 1;
    assert(web.start@[slot] <= web.start@[slot + 1]);
    assert(web.start@[slot + 1] <= web.start@[last]);
    lemma_not_below(web.follower@, g.wlo as int, first, stop);
    lemma_not_below(web.follower@, g.whi as int, first, stop);
    let from = first_not_below(web.follower@, g.wlo as int, first, stop);
    assert(web.start@[slot] <= from);
    assert(web.follower@[from] <= web.follower@[r]);
    assert(web.follower@[r] < g.whi);
    let k = web.follower@[r] as int;
    let id = m.web_to_id@[k] as int;
    m.lexicon.vocab.law_vocab_order();
    let base = m.lexicon@.words.take(m.lexicon.vocab.base() as int);
    assert(starts_with(web.words.words()[k], key));
    assert(m.web_to_id@[k] < m.lexicon.vocab.base());
    assert(base[id] == web.words.words()[k]);
}

proof fn lemma_joined(m: Model, web: WebPrior, ctx: Ctx, key: Seq<char>, g: Gathered)
    requires
        m.wf(web),
        web_ok(web),
        web_in_base(m),
        ctx.fits(m, web),
        prefix_block(
            m.lexicon@.words.take(m.lexicon.vocab.base() as int),
            key,
            g.lo as int,
            g.hi as int,
        ),
        prefix_block(web.words.words(), key, g.wlo as int, g.whi as int),
    ensures
        ({
            let out = joined(
                m,
                web,
                ctx,
                list_of(m, ctx),
                g.lo as int,
                g.hi as int,
                g.wlo as int,
                g.whi as int,
            );
            &&& first_right(m, ctx, out)
            &&& forall|x: u32|
                g.lo <= x < g.hi && #[trigger] list_parts(m, ctx).0.contains(x) ==> exists|i: int|
                    0 <= i < out.len() && (#[trigger] out[i]).id == x
        }),
{
    let (ids, counts) = list_parts(m, ctx);
    lemma_list_parts(m, web, ctx);
    let n = ids.len() as int;
    let (first, stop) = if ctx.web_slot == NO_SLOT {
        (0int, 0int)
    } else {
        (web.start@[ctx.web_slot as int] as int, web.start@[ctx.web_slot + 1] as int)
    };
    if ctx.web_slot != NO_SLOT {
        assert(web.start@[ctx.web_slot as int] <= web.start@[ctx.web_slot + 1]);
    }
    let a = first_not_below(ids, g.lo as int, 0, n);
    let a_end = first_not_below(ids, g.hi as int, 0, n);
    let b = first_not_below(web.follower@, g.wlo as int, first, stop);
    let b_end = first_not_below(web.follower@, g.whi as int, first, stop);
    lemma_not_below(ids, g.lo as int, 0, n);
    lemma_not_below(ids, g.hi as int, 0, n);
    lemma_not_below(web.follower@, g.wlo as int, first, stop);
    lemma_not_below(web.follower@, g.whi as int, first, stop);
    let out = joined(
        m,
        web,
        ctx,
        list_of(m, ctx),
        g.lo as int,
        g.hi as int,
        g.wlo as int,
        g.whi as int,
    );
    assert(out == join(ids, counts, a, a_end, m.web_to_id@, web.follower@, b, b_end));
    lemma_join_sources(ids, counts, a, a_end, m.web_to_id@, web.follower@, b, b_end);
    assert forall|x: u32, k: int| g.lo <= x < g.hi && 0 <= k < n && #[trigger] in_place(ids, x, k) implies a
        <= k < a_end by {
        if k >= a_end && a_end < n && a_end < k {
            assert(ids[a_end] < ids[k]);
        }
    }
    assert forall|i: int|
        0 <= i < out.len() && (forall|j: int| 0 <= j < i ==> (#[trigger] out[j]).id
            != out[i].id) implies (#[trigger] out[i]).c2 == counted_after(m, ctx, out[i].id) by {
        let x = out[i].id;
        lemma_first_count(out, x, i);
        if ids.contains(x) {
            let at = choose|at: int| 0 <= at < ids.len() && ids[at] == x;
            if exists|k: int| a <= k < a_end && #[trigger] ids[k] == out[i].id {
                let k = choose|k: int| a <= k < a_end && #[trigger] ids[k] == out[i].id;
                if k < at {
                    assert(ids[k] < ids[at]);
                } else if at < k {
                    assert(ids[at] < ids[k]);
                }
            } else {
                let r = choose|r: int|
                    b <= r < b_end && m.web_to_id@[#[trigger] web.follower@[r] as int] == out[i].id;
                lemma_web_row(m, web, ctx, key, g, r);
                assert(in_place(ids, x, at));
            }
            lemma_join(
                ids,
                counts,
                a,
                a_end,
                m.web_to_id@,
                web.follower@,
                b,
                b_end,
                x,
                at,
                true,
            );
            assert(counted_after(m, ctx, ids[at]) == counts[at]);
        } else {
            assert forall|j: int| 0 <= j < ids.len() implies #[trigger] ids[j] != x by {}
            lemma_join(
                ids,
                counts,
                a,
                a_end,
                m.web_to_id@,
                web.follower@,
                b,
                b_end,
                x,
                0,
                false,
            );
        }
    }
    assert forall|x: u32| g.lo <= x < g.hi && #[trigger] ids.contains(x) implies exists|i: int|
        0 <= i < out.len() && (#[trigger] out[i]).id == x by {
        let at = choose|at: int| 0 <= at < ids.len() && ids[at] == x;
        assert(in_place(ids, x, at));
        lemma_join(ids, counts, a, a_end, m.web_to_id@, web.follower@, b, b_end, x, at, true);
        lemma_first_count_found(out, x);
    }
}

spec fn in_place(ids: Seq<u32>, x: u32, k: int) -> bool {
    ids[k] == x
}

proof fn lemma_first_right_concat(m: Model, ctx: Ctx, a: Seq<Offer>, b: Seq<Offer>)
    requires
        first_right(m, ctx, a),
        forall|i: int| 0 <= i < b.len() ==> (#[trigger] b[i]).c2 == counted_after(m, ctx, b[i].id),
    ensures
        first_right(m, ctx, a + b),
{
    let all = a + b;
    assert forall|i: int|
        0 <= i < all.len() && (forall|j: int| 0 <= j < i ==> (#[trigger] all[j]).id
            != all[i].id) implies (#[trigger] all[i]).c2 == counted_after(m, ctx, all[i].id) by {
        if i < a.len() {
            assert(all[i] == a[i]);
            assert forall|j: int| 0 <= j < i implies (#[trigger] a[j]).id != a[i].id by {
                assert(all[j].id != all[i].id);
            }
        } else {
            assert(all[i] == b[i - a.len()]);
        }
    }
}

/// The steps are those of the tables.
spec fn steps_fit(m: Model, web: WebPrior, ctx: Ctx, key: Seq<char>, g: Gathered) -> bool {
    &&& prefix_block(
        m.lexicon@.words.take(m.lexicon.vocab.base() as int),
        key,
        g.lo as int,
        g.hi as int,
    )
    &&& prefix_block(web.words.words(), key, g.wlo as int, g.whi as int)
    &&& g.steps@ == joined(
        m,
        web,
        ctx,
        list_of(m, ctx),
        g.lo as int,
        g.hi as int,
        g.wlo as int,
        g.whi as int,
    ) + overflow_steps(m, ctx, key)
}

proof fn lemma_overflow_steps(m: Model, web: WebPrior, ctx: Ctx, key: Seq<char>)
    requires
        m.wf(web),
        ctx.fits(m, web),
    ensures
        ({
            let tail = overflow_steps(m, ctx, key);
            &&& forall|i: int|
                0 <= i < tail.len() ==> (#[trigger] tail[i]).c2 == counted_after(
                    m,
                    ctx,
                    tail[i].id,
                )
            &&& forall|x: u32|
                m.lexicon.vocab.base() <= x && starts_with(m.lexicon@.words[x as int], key)
                    && #[trigger] list_parts(m, ctx).0.contains(x) ==> exists|i: int|
                    0 <= i < tail.len() && (#[trigger] tail[i]).id == x
        }),
{
    let words = m.lexicon@.words;
    let (ids, counts) = list_parts(m, ctx);
    let base = m.lexicon.vocab.base() as int;
    lemma_list_parts(m, web, ctx);
    let tail = overflow_steps(m, ctx, key);
    let n = ids.len() as int;
    let from = first_not_below(ids, base, 0, n);
    lemma_not_below(ids, base, 0, n);
    lemma_overflow(ids, counts, words, key, from);
    if list_of(m, ctx) is Some {
        assert(tail == overflow_followers(ids, counts, words, key, from));
        assert forall|i: int| 0 <= i < tail.len() implies (#[trigger] tail[i]).c2 == counted_after(
            m,
            ctx,
            tail[i].id,
        ) by {
            let k = choose|k: int|
                from <= k < ids.len() && #[trigger] ids[k] == tail[i].id && counts[k] == tail[i].c2;
            assert(counted_after(m, ctx, ids[k]) == counts[k]);
        }
        assert forall|x: u32|
            base <= x && starts_with(words[x as int], key) && #[trigger] ids.contains(
                x,
            ) implies exists|i: int| 0 <= i < tail.len() && (#[trigger] tail[i]).id == x by {
            let k = choose|k: int| 0 <= k < ids.len() && ids[k] == x;
            assert(from <= k);
            assert(starts_with(words[ids[k] as int], key));
        }
    }
}

proof fn lemma_steps(m: Model, web: WebPrior, ctx: Ctx, key: Seq<char>, g: Gathered)
    requires
        m.wf(web),
        web_ok(web),
        web_in_base(m),
        ctx.fits(m, web),
        steps_fit(m, web, ctx, key, g),
    ensures
        first_right(m, ctx, g.steps@),
{
    lemma_joined(m, web, ctx, key, g);
    lemma_overflow_steps(m, web, ctx, key);
    lemma_first_right_concat(
        m,
        ctx,
        joined(
            m,
            web,
            ctx,
            list_of(m, ctx),
            g.lo as int,
            g.hi as int,
            g.wlo as int,
            g.whi as int,
        ),
        overflow_steps(m, ctx, key),
    );
}

proof fn lemma_stepped(m: Model, web: WebPrior, ctx: Ctx, key: Seq<char>, g: Gathered, x: u32)
    requires
        m.wf(web),
        web_ok(web),
        web_in_base(m),
        ctx.fits(m, web),
        steps_fit(m, web, ctx, key, g),
        x < m.lexicon@.words.len(),
        starts_with(m.lexicon@.words[x as int], key),
        list_parts(m, ctx).0.contains(x),
    ensures
        exists|i: int| 0 <= i < g.steps@.len() && (#[trigger] g.steps@[i]).id == x,
{
    let words = m.lexicon@.words;
    let base = m.lexicon.vocab.base() as int;
    m.lexicon.vocab.law_vocab_order();
    lemma_joined(m, web, ctx, key, g);
    lemma_overflow_steps(m, web, ctx, key);
    let head = joined(
        m,
        web,
        ctx,
        list_of(m, ctx),
        g.lo as int,
        g.hi as int,
        g.wlo as int,
        g.whi as int,
    );
    let tail = overflow_steps(m, ctx, key);
    if x < base {
        assert(words.take(base)[x as int] == words[x as int]);
        let i = choose|i: int| 0 <= i < head.len() && (#[trigger] head[i]).id == x;
        assert(g.steps@[i].id == x);
    } else {
        let i = choose|i: int| 0 <= i < tail.len() && (#[trigger] tail[i]).id == x;
        assert(g.steps@[head.len() + i].id == x);
    }
}

/// Everything that a ranking gathers is weighed with the counts of its word,
/// and every word counted behind the context that starts with the prefix is
/// gathered.
pub proof fn law_gathered_words_have_their_counts(
    m: Model,
    web: WebPrior,
    state: QueryState,
    key: Seq<char>,
    w: Weighs,
    g: Gathered,
)
    requires
        m.wf(web),
        web_ok(web),
        web_in_base(m),
        g.ctx.fits(m, web),
        gathers(m, web, state, key, w, g),
    ensures
        forall|i: int|
            0 <= i < g.cands.list@.len() ==> weighed_right(m, g.ctx, #[trigger] g.cands.list@[i]),
        forall|x: u32|
            x < m.lexicon@.words.len() && starts_with(m.lexicon@.words[x as int], key) && g.ctx.v is Some
                && m.counts.followers.follower(g.ctx.v->0, x) is Some
                ==> #[trigger] has_candidate(g.cands.list@, x),
{
    let ctx = g.ctx;
    let top = known_offers(m, web, ctx, g.top@);
    let over = known_offers(m, web, ctx, g.overflow@);
    let offers = g.steps@ + top + over;
    lemma_steps(m, web, ctx, key, g);
    lemma_first_right_concat(m, ctx, g.steps@, top);
    lemma_first_right_concat(m, ctx, g.steps@ + top, over);
    lemma_all_offered(m, ctx, offers, offers.len() as int);
    let l1 = all_offered(m, ctx, Seq::empty(), offers, offers.len() as int);
    lemma_hits(
        m,
        web,
        ctx,
        state.window@,
        key.len() as int,
        l1,
        g.hits@,
        g.hits@.len() as int,
    );
    let l2 = with_hits(
        m,
        web,
        ctx,
        state.window@,
        key.len() as int,
        l1,
        g.hits@,
        g.hits@.len() as int,
    );
    lemma_session(m, web, ctx, key, l2, g.session@, g.session@.len() as int);
    assert forall|x: u32|
        x < m.lexicon@.words.len() && starts_with(m.lexicon@.words[x as int], key) && ctx.v is Some
            && m.counts.followers.follower(ctx.v->0, x) is Some implies #[trigger] has_candidate(
        g.cands.list@,
        x,
    ) by {
        assert(list_parts(m, ctx).0.contains(x));
        lemma_stepped(m, web, ctx, key, g, x);
        let i = choose|i: int| 0 <= i < g.steps@.len() && (#[trigger] g.steps@[i]).id == x;
        assert(offers[i].id == x);
        assert(has_candidate(l1, x));
        assert(has_candidate(l2, x));
    }
}

/// What is stored under an event is a candidate of every query in the same
/// context whose prefix the event's word starts with: the candidate has the
/// counts stored for the word behind the one word and behind both, and the pair
/// of the context the total stored for it.
pub proof fn law_stored_event_is_gathered(
    before: Counts,
    m: Model,
    web: WebPrior,
    e: EventView,
    c: Cells,
    state: QueryState,
    key: Seq<char>,
    w: Weighs,
    g: Gathered,
)
    requires
        m.wf(web),
        web_ok(web),
        web_in_base(m),
        g.ctx.fits(m, web),
        gathers(m, web, state, key, w, g),
        e.ids_below(m.lexicon@.words.len() as int),
        stored(before, m.counts, e, c),
        e.u is Some,
        e.v is Some,
        stands_for(m, state.context.u, state.u@, e.u->0),
        stands_for(m, state.context.v, state.v@, e.v->0),
        above_zero(c.follower),
        starts_with(m.lexicon@.words[e.w as int], key),
    ensures
        g.ctx.pair != NONE,
        m.counts.pairs.pair_total@[g.ctx.pair as int] == c.pair_total,
        has_candidate(g.cands.list@, e.w),
        forall|i: int|
            0 <= i < g.cands.list@.len() && (#[trigger] g.cands.list@[i]).id == e.w
                ==> g.cands.list@[i].c2 == c.follower && g.cands.list@[i].c3 == c.trigram,
{
    law_stored_event_is_weighed_in_its_context(
        before,
        m,
        web,
        e,
        c,
        state.context,
        state.u@,
        state.v@,
        w.web,
    );
    law_gathered_words_have_their_counts(m, web, state, key, w, g);
    assert forall|i: int|
        0 <= i < g.cands.list@.len() && (#[trigger] g.cands.list@[i]).id == e.w implies g.cands.list@[i].c2
        == c.follower && g.cands.list@[i].c3 == c.trigram by {
        assert(weighed_right(m, g.ctx, g.cands.list@[i]));
    }
}

} // verus!
