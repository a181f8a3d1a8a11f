//! Web rows are weighed for the words that they name.

use crate::ngram::cache::Hit;
use crate::ngram::candidates::{
    all_offered, first_not_below, join, known_offer, known_offers, lemma_place, made, offered, place,
    row_at, Candidate, Ctx, Offer, NO_ROW,
};
use crate::ngram::lexicon::{id_of, NONE};
use crate::ngram::model::Model;
use crate::ngram::ranking::{with_hit, with_hits, with_session, with_session_word};
use crate::ngram::web::{WebPrior, NO_SLOT};
use vstd::prelude::*;

verus! {

/// The offer is that of the history entry `k`.
pub open spec fn offers_entry(o: Offer, ids: Seq<u32>, counts: Seq<u32>, k: int) -> bool {
    o.id == ids[k] && o.c2 == counts[k]
}

/// The offer is that of the web row `r`.
pub open spec fn offers_row(o: Offer, to_id: Seq<u32>, follower: Seq<u32>, r: int) -> bool {
    o.row == r && o.id == to_id[follower[r] as int]
}

/// Joining history and web loses nothing and adds nothing: every entry of the
/// history is offered with its count, every row of the web with its word, and
/// an offer has a count or a row only from an entry or a row of its own word.
pub proof fn law_joining_keeps_every_entry_and_row(
    ids: Seq<u32>,
    counts: Seq<u32>,
    a: int,
    a_end: int,
    to_id: Seq<u32>,
    follower: Seq<u32>,
    b: int,
    b_end: int,
    k: int,
    r: int,
)
    requires
        0 <= b,
        b_end <= NO_ROW,
    ensures
        ({
            let out = join(ids, counts, a, a_end, to_id, follower, b, b_end);
            &&& a <= k < a_end ==> exists|i: int|
                0 <= i < out.len() && offers_entry(#[trigger] out[i], ids, counts, k)
            &&& b <= r < b_end ==> exists|i: int|
                0 <= i < out.len() && offers_row(#[trigger] out[i], to_id, follower, r)
            &&& forall|i: int|
                0 <= i < out.len() && (#[trigger] out[i]).row != NO_ROW ==> b <= out[i].row < b_end
                    && to_id[follower[out[i].row as int] as int] == out[i].id
        }),
    decreases (if a < a_end { a_end - a } else { 0 }) + (if b < b_end { b_end - b } else { 0 }),
{
    let out = join(ids, counts, a, a_end, to_id, follower, b, b_end);
    if a >= a_end && b >= b_end {
    } else {
        let ida = ids[a];
        let idb = to_id[follower[b] as int];
        let take_a = a < a_end && (b >= b_end || ida <= idb);
        let take_b = b < b_end && (a >= a_end || idb <= ida);
        let a2 = if take_a {
            a + 1
        } else {
            a
        };
        let b2 = if take_b {
            b + 1
        } else {
            b
        };
        let rest = join(ids, counts, a2, a_end, to_id, follower, b2, b_end);
        law_joining_keeps_every_entry_and_row(
            ids,
            counts,
            a2,
            a_end,
            to_id,
            follower,
            b2,
            b_end,
            k,
            r,
        );
        assert(out == seq![out[0]] + rest);
        assert forall|i: int| 0 <= i < rest.len() implies out[i + 1] == #[trigger] rest[i] by {}
        if a <= k < a_end {
            if take_a && k == a {
                assert(offers_entry(out[0], ids, counts, k));
            } else {
                let i = choose|i: int|
                    0 <= i < rest.len() && offers_entry(#[trigger] rest[i], ids, counts, k);
                assert(offers_entry(out[i + 1], ids, counts, k));
            }
        }
        if b <= r < b_end {
            if take_b && r == b {
                assert(offers_row(out[0], to_id, follower, r));
            } else {
                let i = choose|i: int|
                    0 <= i < rest.len() && offers_row(#[trigger] rest[i], to_id, follower, r);
                assert(offers_row(out[i + 1], to_id, follower, r));
            }
        }
        assert forall|i: int|
            0 <= i < out.len() && (#[trigger] out[i]).row != NO_ROW implies b <= out[i].row < b_end
            && to_id[follower[out[i].row as int] as int] == out[i].id by {
            if i > 0 {
                assert(out[i] == rest[i - 1]);
            }
        }
    }
}

/// A block of rising ids begins at the first that is not below its bound.
pub proof fn law_blocks_begin_at_their_bound(ids: Seq<u32>, x: int, at: int, stop: int, p: int)
    requires
        0 <= at <= p <= stop <= ids.len(),
        forall|k: int| at <= k < p ==> #[trigger] ids[k] < x,
        p < stop ==> ids[p] >= x,
    ensures
        first_not_below(ids, x, at, stop) == p,
    decreases p - at,
{
    if at < p {
        assert(ids[at] < x);
        law_blocks_begin_at_their_bound(ids, x, at + 1, stop, p);
    }
}

proof fn lemma_row_at(follower: Seq<u32>, wid: u32, r: int, stop: int)
    ensures
        match row_at(follower, wid, r, stop) {
            Some(k) => r <= k < stop && follower[k] == wid,
            None => forall|k: int| r <= k < stop ==> #[trigger] follower[k] != wid,
        },
    decreases stop - r,
{
    if r < stop && follower[r] != wid {
        lemma_row_at(follower, wid, r + 1, stop);
    }
}

/// A row stands among those of the context.
pub open spec fn row_of_context(web: WebPrior, ctx: Ctx, r: int) -> bool {
    ctx.web_slot != NO_SLOT && web.start@[ctx.web_slot as int] <= r < web.start@[ctx.web_slot + 1]
}

/// A word looked up by itself has the context's row that names it, where there
/// is one, and none otherwise.
pub proof fn law_looked_up_words_have_their_row(m: Model, web: WebPrior, ctx: Ctx, id: u32, r: int)
    requires
        web.wf(),
        web.follower@.len() < NO_ROW,
        ctx.web_slot == NO_SLOT || ctx.web_slot < web.start@.len() - 1,
    ensures
        ({
            let row = known_offer(m, web, ctx, id).row;
            &&& row != NO_ROW ==> row_of_context(web, ctx, row as int) && web.follower@[row as int]
                == m.lexicon@.web[id as int]
            &&& row_of_context(web, ctx, r) && m.lexicon@.web[id as int] != NONE && web.follower@[r]
                == m.lexicon@.web[id as int] ==> row != NO_ROW
        }),
{
    if ctx.web_slot != NO_SLOT && m.lexicon@.web[id as int] != NONE {
        let first = web.start@[ctx.web_slot as int] as int;
        let stop = web.start@[ctx.web_slot + 1] as int;
        lemma_row_at(web.follower@, m.lexicon@.web[id as int], first, stop);
        assert(web.start@[ctx.web_slot + 1] <= web.start@[web.start@.len() - 1]);
    }
}

/// A candidate's row, where it has one, is a row of the context for its word.
pub open spec fn row_right(m: Model, web: WebPrior, ctx: Ctx, id: u32, row: u32) -> bool {
    row != NO_ROW ==> row_of_context(web, ctx, row as int) && (m.web_to_id@[web.follower@[row as int] as int]
        == id || web.follower@[row as int] == m.lexicon@.web[id as int])
}

spec fn rows_right(m: Model, web: WebPrior, ctx: Ctx, list: Seq<Candidate>) -> bool {
    forall|i: int|
        0 <= i < list.len() ==> row_right(m, web, ctx, (#[trigger] list[i]).id, list[i].row)
}

proof fn lemma_offered(m: Model, web: WebPrior, ctx: Ctx, list: Seq<Candidate>, o: Offer)
    requires
        rows_right(m, web, ctx, list),
        row_right(m, web, ctx, o.id, o.row),
    ensures
        rows_right(m, web, ctx, offered(m, ctx, list, o)),
{
    let now = offered(m, ctx, list, o);
    assert forall|i: int| 0 <= i < now.len() implies row_right(
        m,
        web,
        ctx,
        (#[trigger] now[i]).id,
        now[i].row,
    ) by {
        if i < list.len() {
            assert(now[i] == list[i]);
        } else {
            assert(now[i] == made(m, ctx, o));
        }
    }
}

proof fn lemma_all_offered(m: Model, web: WebPrior, ctx: Ctx, offers: Seq<Offer>, k: int)
    requires
        0 <= k <= offers.len(),
        forall|i: int|
            0 <= i < offers.len() ==> row_right(m, web, ctx, (#[trigger] offers[i]).id, offers[i].row),
    ensures
        rows_right(m, web, ctx, all_offered(m, ctx, Seq::empty(), offers, k)),
    decreases k,
{
    if k > 0 {
        lemma_all_offered(m, web, ctx, offers, k - 1);
        assert(row_right(m, web, ctx, offers[k - 1].id, offers[k - 1].row));
        lemma_offered(
            m,
            web,
            ctx,
            all_offered(m, ctx, Seq::empty(), offers, k - 1),
            offers[k - 1],
        );
    }
}

/// Whatever is offered with the right rows keeps them as the words of the
/// prompt and of the recent prompts join: a row weighs only for the word that it
/// names, in the context that it belongs to.
pub proof fn law_rows_weigh_for_their_own_word(
    m: Model,
    web: WebPrior,
    ctx: Ctx,
    window: Seq<char>,
    key: Seq<char>,
    offers: Seq<Offer>,
    hits: Seq<Hit>,
    h: int,
    range: Seq<(u32, u32)>,
    n: int,
)
    requires
        web.wf(),
        web.follower@.len() < NO_ROW,
        ctx.web_slot == NO_SLOT || ctx.web_slot < web.start@.len() - 1,
        0 <= h <= hits.len(),
        0 <= n <= range.len(),
        forall|i: int|
            0 <= i < offers.len() ==> row_right(m, web, ctx, (#[trigger] offers[i]).id, offers[i].row),
    ensures
        ({
            let list = with_session(
                m,
                web,
                ctx,
                key,
                with_hits(
                    m,
                    web,
                    ctx,
                    window,
                    key.len() as int,
                    all_offered(m, ctx, Seq::empty(), offers, offers.len() as int),
                    hits,
                    h,
                ),
                range,
                n,
            );
            forall|i: int|
                0 <= i < list.len() ==> row_right(m, web, ctx, (#[trigger] list[i]).id, list[i].row)
        }),
    decreases h + n,
{
    let base = all_offered(m, ctx, Seq::empty(), offers, offers.len() as int);
    let seen = with_hits(m, web, ctx, window, key.len() as int, base, hits, h);
    if n > 0 {
        law_rows_weigh_for_their_own_word(
            m,
            web,
            ctx,
            window,
            key,
            offers,
            hits,
            h,
            range,
            n - 1,
        );
        let prior = with_session(m, web, ctx, key, seen, range, n - 1);
        assert(rows_right(m, web, ctx, prior));
        let now = with_session_word(m, web, ctx, key, prior, range[n - 1]);
        let id = range[n - 1].0;
        let o = known_offer(m, web, ctx, id);
        law_looked_up_words_have_their_row(m, web, ctx, id, 0);
        lemma_offered(m, web, ctx, prior, o);
        let more = offered(m, ctx, prior, o);
        lemma_place(prior, id, 0);
        lemma_place(more, id, 0);
        if place(prior, id, 0) >= prior.len() {
            assert(more[prior.len() as int].id == id);
        }
        assert(now == prior || now == more.update(
            place(more, id, 0),
            Candidate { session: range[n - 1].1, ..more[place(more, id, 0)] },
        ));
        if now != prior {
            assert forall|i: int| 0 <= i < now.len() implies row_right(
                m,
                web,
                ctx,
                (#[trigger] now[i]).id,
                now[i].row,
            ) by {
                assert(now[i].id == more[i].id && now[i].row == more[i].row);
            }
        }
    } else if h > 0 {
        law_rows_weigh_for_their_own_word(
            m,
            web,
            ctx,
            window,
            key,
            offers,
            hits,
            h - 1,
            range,
            0,
        );
        let prior = with_hits(m, web, ctx, window, key.len() as int, base, hits, h - 1);
        assert(with_session(m, web, ctx, key, prior, range, 0) == prior);
        assert(rows_right(m, web, ctx, prior));
        let hit = hits[h - 1];
        let word = window.subrange(hit.start as int, hit.end as int);
        assert(seen == with_hit(m, web, ctx, window, key.len() as int, prior, hit));
        if hit.end - hit.start > key.len() {
            match id_of(m.lexicon@.words, word) {
                Some(id) => {
                    law_looked_up_words_have_their_row(m, web, ctx, id as u32, 0);
                    lemma_offered(m, web, ctx, prior, known_offer(m, web, ctx, id as u32));
                },
                None => {
                    assert forall|i: int| 0 <= i < seen.len() implies row_right(
                        m,
                        web,
                        ctx,
                        (#[trigger] seen[i]).id,
                        seen[i].row,
                    ) by {
                        if i < prior.len() {
                            assert(seen[i] == prior[i]);
                        }
                    }
                },
            }
        }
    } else {
        lemma_all_offered(m, web, ctx, offers, offers.len() as int);
    }
}

/// Words looked up by themselves are offered with the right rows.
pub proof fn law_known_words_are_offered_with_their_rows(
    m: Model,
    web: WebPrior,
    ctx: Ctx,
    ids: Seq<u32>,
    i: int,
)
    requires
        web.wf(),
        web.follower@.len() < NO_ROW,
        ctx.web_slot == NO_SLOT || ctx.web_slot < web.start@.len() - 1,
        0 <= i < ids.len(),
    ensures
        known_offers(m, web, ctx, ids).len() == ids.len(),
        known_offers(m, web, ctx, ids)[i].id == ids[i],
        row_right(m, web, ctx, ids[i], known_offers(m, web, ctx, ids)[i].row),
{
    law_looked_up_words_have_their_row(m, web, ctx, ids[i], 0);
}

} // verus!
