//! Which words a ranking weighs, with what evidence, and which of them it
//! picks.

use crate::ngram::counts::or_zero;
use crate::ngram::follower_table::FollowerList;
use crate::ngram::lexicon::{id_of, NONE};
use crate::ngram::model::{web_ok, Model};
use crate::ngram::order::{starts_with, text_starts};
use crate::ngram::pair_table::{key_of, pair_key, INFINITE_BITS};
use crate::ngram::query::QueryState;
use crate::ngram::structures::IdTable;
use crate::ngram::text::{Context, Slot};
use crate::ngram::vocab::word_limit;
use crate::ngram::web::{WebPrior, NO_SLOT};
use crate::unicode::string_of;
use vstd::prelude::*;

verus! {

/// No row of the web prior.
pub const NO_ROW: u32 = u32::MAX;

/// The word a ranking picked.
#[derive(Clone, Copy, Debug, PartialEq, Eq, Structural)]
pub enum Pick {
    /// A vocabulary word.
    Word(u32),
    /// A word seen only earlier in this prompt: span of the cache window.
    Local(u32, u32),
}

/// The pattern is that of a number above 0.
pub open spec fn above_zero(bits: u32) -> bool {
    0 < bits <= INFINITE_BITS
}

/// The left context of a query, resolved to table entries.
#[derive(Clone, Copy, Debug, PartialEq, Eq, Structural)]
pub struct Ctx {
    /// The word before.
    pub v: Option<u32>,
    /// Index of the context pair, or `NONE`.
    pub pair: u32,
    /// Web bigram slot of the word before, or `NO_SLOT`.
    pub web_slot: u32,
}

/// The id a context slot stands for.
pub open spec fn resolved(words: Seq<Seq<char>>, bos: u32, slot: Slot, word: Seq<char>) -> Option<
    u32,
> {
    match slot {
        Slot::Unknown => None,
        Slot::Bos => Some(bos),
        Slot::Word => match id_of(words, word) {
            Some(i) => Some(i as u32),
            None => None,
        },
    }
}

/// The context of a query. `use_web` says whether web bigrams weigh at all.
pub open spec fn ctx_of(
    m: Model,
    web: WebPrior,
    context: Context,
    u: Seq<char>,
    v: Seq<char>,
    use_web: bool,
) -> Ctx {
    let words = m.lexicon@.words;
    let vid = resolved(words, m.bos, context.v, v);
    let uid = resolved(words, m.bos, context.u, u);
    Ctx {
        v: vid,
        pair: match (uid, vid) {
            (Some(a), Some(b)) => match m.counts.pairs.pair_of(a, b) {
                Some(p) => p,
                None => NONE,
            },
            _ => NONE,
        },
        web_slot: match vid {
            Some(b) => if !use_web {
                NO_SLOT
            } else if b == m.bos {
                web.slot@[web.words.words().len() as int]
            } else if m.lexicon@.web[b as int] == NONE {
                NO_SLOT
            } else {
                web.slot@[m.lexicon@.web[b as int] as int]
            },
            None => NO_SLOT,
        },
    }
}

impl Ctx {
    /// The entries exist.
    pub open spec fn fits(&self, m: Model, web: WebPrior) -> bool {
        &&& self.v matches Some(v) ==> v < m.lexicon@.words.len()
        &&& self.pair == NONE || self.pair < m.counts.pairs.pair_total@.len()
        &&& self.web_slot == NO_SLOT || self.web_slot < web.start@.len() - 1
    }
}

/// The context of a query.
pub fn context_stats(m: &Model, web: &WebPrior, state: &QueryState, use_web: bool) -> (ctx: Ctx)
    requires
        m.wf(*web),
        web_ok(*web),
    ensures
        ctx == ctx_of(*m, *web, state.context, state.u@, state.v@, use_web),
        ctx.fits(*m, *web),
{
    let u_text = string_of(&state.u);
    let v_text = string_of(&state.v);
    let vid = m.resolve(state.context.v, v_text.as_str());
    let uid = m.resolve(state.context.u, u_text.as_str());
    let mut pair: u32 = NONE;
    let mut web_slot: u32 = NO_SLOT;
    if let Some(b) = vid {
        if let Some(a) = uid {
            if let Some(p) = m.counts.pairs.pair(a, b) {
                pair = p;
            }
        }
        if use_web {
            web_slot = m.web_slot_of(b, web);
        }
    }
    Ctx { v: vid, pair, web_slot }
}

/// A word offered as a candidate, with its bigram evidence: the bits of its
/// count after the context, and its row among the context's web followers.
#[derive(Clone, Copy, Debug, PartialEq, Eq, Structural)]
pub struct Offer {
    pub id: u32,
    pub c2: u32,
    pub row: u32,
}

/// The first row from `r` up to `stop` that holds `wid`.
pub open spec fn row_at(follower: Seq<u32>, wid: u32, r: int, stop: int) -> Option<int>
    decreases stop - r,
{
    if r >= stop {
        None
    } else if follower[r] == wid {
        Some(r)
    } else {
        row_at(follower, wid, r + 1, stop)
    }
}

proof fn lemma_row_found(follower: Seq<u32>, wid: u32, from: int, stop: int, r: int)
    requires
        from <= r < stop,
        follower[r] == wid,
        forall|q: int| from <= q < r ==> #[trigger] follower[q] != wid,
    ensures
        row_at(follower, wid, from, stop) == Some(r),
    decreases r - from,
{
    if from < r {
        assert(follower[from] != wid);
        lemma_row_found(follower, wid, from + 1, stop, r);
    }
}

proof fn lemma_row_missing(follower: Seq<u32>, wid: u32, from: int, stop: int)
    requires
        forall|q: int| from <= q < stop ==> #[trigger] follower[q] != wid,
    ensures
        row_at(follower, wid, from, stop) is None,
    decreases stop - from,
{
    if from < stop {
        assert(follower[from] != wid);
        lemma_row_missing(follower, wid, from + 1, stop);
    }
}

/// The evidence of a known word.
pub open spec fn known_offer(m: Model, web: WebPrior, ctx: Ctx, id: u32) -> Offer {
    Offer {
        id,
        c2: match ctx.v {
            Some(v) => or_zero(m.counts.followers.follower(v, id)),
            None => 0,
        },
        row: if ctx.web_slot == NO_SLOT || m.lexicon@.web[id as int] == NONE {
            NO_ROW
        } else {
            match row_at(
                web.follower@,
                m.lexicon@.web[id as int],
                web.start@[ctx.web_slot as int] as int,
                web.start@[ctx.web_slot + 1] as int,
            ) {
                Some(r) => r as u32,
                None => NO_ROW,
            }
        },
    }
}

/// The evidence of a known word.
pub fn look_up(m: &Model, web: &WebPrior, ctx: &Ctx, id: u32) -> (o: Offer)
    requires
        m.wf(*web),
        web_ok(*web),
        web.follower@.len() < NO_ROW,
        ctx.fits(*m, *web),
        id < m.lexicon@.words.len(),
    ensures
        o == known_offer(*m, *web, *ctx, id),
{
    let c2: u32 = match ctx.v {
        Some(v) => match m.counts.followers.get(v, id) {
            Some(b) => b,
            None => 0,
        },
        None => 0,
    };
    let wid: u32 = m.lexicon.web_id[id as usize];
    let mut row: u32 = NO_ROW;
    if ctx.web_slot != NO_SLOT && wid != NONE {
        match web.row_of(ctx.web_slot, wid) {
            Some(r) => {
                proof {
                    let last = web.start@.len() - 1;
                    assert(web.start@[ctx.web_slot + 1] <= web.start@[last]);
                    lemma_row_found(
                        web.follower@,
                        wid,
                        web.start@[ctx.web_slot as int] as int,
                        web.start@[ctx.web_slot + 1] as int,
                        r as int,
                    );
                }
                row = r as u32;
            },
            None => {
                proof {
                    lemma_row_missing(
                        web.follower@,
                        wid,
                        web.start@[ctx.web_slot as int] as int,
                        web.start@[ctx.web_slot + 1] as int,
                    );
                }
            },
        }
    }
    Offer { id, c2, row }
}

/// The evidence of each of `ids`.
pub open spec fn known_offers(m: Model, web: WebPrior, ctx: Ctx, ids: Seq<u32>) -> Seq<Offer> {
    ids.map_values(|id: u32| known_offer(m, web, ctx, id))
}

/// The evidence of each of `ids`.
pub fn look_up_all(m: &Model, web: &WebPrior, ctx: &Ctx, ids: &[u32]) -> (out: Vec<Offer>)
    requires
        m.wf(*web),
        web_ok(*web),
        web.follower@.len() < NO_ROW,
        ctx.fits(*m, *web),
        forall|k: int| 0 <= k < ids@.len() ==> #[trigger] ids@[k] < m.lexicon@.words.len(),
    ensures
        out@ == known_offers(*m, *web, *ctx, ids@),
{
    let mut out: Vec<Offer> = Vec::new();
    let mut i: usize = 0;
    while i < ids.len()
        invariant
            m.wf(*web),
            web_ok(*web),
            web.follower@.len() < NO_ROW,
            ctx.fits(*m, *web),
            forall|k: int| 0 <= k < ids@.len() ==> #[trigger] ids@[k] < m.lexicon@.words.len(),
            i <= ids@.len(),
            out@.len() == i,
            forall|k: int|
                0 <= k < i ==> #[trigger] out@[k] == known_offer(*m, *web, *ctx, ids@[k]),
        decreases ids@.len() - i,
    {
        let o = look_up(m, web, ctx, ids[i]);
        out.push(o);
        i = i + 1;
    }
    assert(out@ =~= known_offers(*m, *web, *ctx, ids@));
    out
}

/// Merge of the history followers from `a` and the web followers from row `b`
/// in the order of their ids; a word of both lists is one offer.
pub open spec fn join(
    ids: Seq<u32>,
    counts: Seq<u32>,
    a: int,
    a_end: int,
    to_id: Seq<u32>,
    follower: Seq<u32>,
    b: int,
    b_end: int,
) -> Seq<Offer>
    decreases (if a < a_end { a_end - a } else { 0 }) + (if b < b_end { b_end - b } else { 0 }),
{
    if a >= a_end && b >= b_end {
        Seq::empty()
    } else {
        let ida = ids[a];
        let idb = to_id[follower[b] as int];
        let take_a = a < a_end && (b >= b_end || ida <= idb);
        let take_b = b < b_end && (a >= a_end || idb <= ida);
        let first = Offer {
            id: if take_a {
                ida
            } else {
                idb
            },
            c2: if take_a {
                counts[a]
            } else {
                0
            },
            row: if take_b {
                b as u32
            } else {
                NO_ROW
            },
        };
        seq![first] + join(
            ids,
            counts,
            if take_a {
                a + 1
            } else {
                a
            },
            a_end,
            to_id,
            follower,
            if take_b {
                b + 1
            } else {
                b
            },
            b_end,
        )
    }
}

/// First place from `at` up to `stop` whose id is not below `x`.
pub open spec fn first_not_below(ids: Seq<u32>, x: int, at: int, stop: int) -> int
    decreases stop - at,
{
    if at >= stop || ids[at] >= x {
        at
    } else {
        first_not_below(ids, x, at + 1, stop)
    }
}

proof fn lemma_first_not_below(ids: Seq<u32>, x: int, at: int, stop: int, p: int)
    requires
        at <= p <= stop,
        forall|i: int| at <= i < p ==> #[trigger] ids[i] < x,
        p < stop ==> ids[p] >= x,
    ensures
        first_not_below(ids, x, at, stop) == p,
    decreases p - at,
{
    if at < p {
        assert(ids[at] < x);
        lemma_first_not_below(ids, x, at + 1, stop, p);
    }
}

/// The followers of the context between base ids `lo` and `hi` and web ids
/// `wlo` and `whi`, history and web merged.
pub open spec fn joined(
    m: Model,
    web: WebPrior,
    ctx: Ctx,
    list: Option<FollowerList>,
    lo: int,
    hi: int,
    wlo: int,
    whi: int,
) -> Seq<Offer> {
    let (ids, counts) = match list {
        Some(f) => (f.ids.ids@, f.counts@),
        None => (Seq::empty(), Seq::empty()),
    };
    let n = ids.len() as int;
    let (first, stop) = if ctx.web_slot == NO_SLOT {
        (0int, 0int)
    } else {
        (web.start@[ctx.web_slot as int] as int, web.start@[ctx.web_slot + 1] as int)
    };
    join(
        ids,
        counts,
        first_not_below(ids, lo, 0, n),
        first_not_below(ids, hi, 0, n),
        m.web_to_id@,
        web.follower@,
        first_not_below(web.follower@, wlo, first, stop),
        first_not_below(web.follower@, whi, first, stop),
    )
}

/// The overflow followers from place `at` on that start with `key`.
pub open spec fn overflow_followers(
    ids: Seq<u32>,
    counts: Seq<u32>,
    words: Seq<Seq<char>>,
    key: Seq<char>,
    at: int,
) -> Seq<Offer>
    decreases ids.len() - at,
{
    if at >= ids.len() {
        Seq::empty()
    } else {
        let rest = overflow_followers(ids, counts, words, key, at + 1);
        if starts_with(words[ids[at] as int], key) {
            seq![Offer { id: ids[at], c2: counts[at], row: NO_ROW }] + rest
        } else {
            rest
        }
    }
}

/// The followers of the context between the given ids, merged.
pub fn join_followers(
    m: &Model,
    web: &WebPrior,
    ctx: &Ctx,
    list: Option<&FollowerList>,
    lo: usize,
    hi: usize,
    wlo: usize,
    whi: usize,
) -> (out: Vec<Offer>)
    requires
        m.wf(*web),
        web_ok(*web),
        web.follower@.len() < NO_ROW,
        ctx.fits(*m, *web),
        list matches Some(f) ==> f.wf(m.lexicon@.words.len() as int),
        lo <= hi <= m.lexicon@.words.len(),
        wlo <= whi <= web.words.words().len(),
    ensures
        out@ == joined(
            *m,
            *web,
            *ctx,
            (match list {
                Some(f) => Some(*f),
                None => None,
            }),
            lo as int,
            hi as int,
            wlo as int,
            whi as int,
        ),
        forall|k: int| 0 <= k < out@.len() ==> (#[trigger] out@[k]).id < m.lexicon@.words.len(),
{
    let ghost n = m.lexicon@.words.len();
    let none: Vec<u32> = Vec::new();
    let (ids, counts): (&Vec<u32>, &Vec<u32>) = match list {
        Some(f) => (&f.ids.ids, &f.counts),
        None => (&none, &none),
    };
    let mut a: usize = 0;
    let mut a_end: usize = 0;
    if let Some(f) = list {
        a = f.ids.lower_bound(lo as u32);
        a_end = f.ids.lower_bound(hi as u32);
        proof {
            let all = f.ids.ids@;
            lemma_first_not_below(all, lo as int, 0, all.len() as int, a as int);
            lemma_first_not_below(all, hi as int, 0, all.len() as int, a_end as int);
        }
    }
    let mut b: usize = 0;
    let mut b_end: usize = 0;
    if ctx.web_slot != NO_SLOT {
        b = web.lower_row(ctx.web_slot, wlo as u32);
        b_end = web.lower_row(ctx.web_slot, whi as u32);
        proof {
            let first = web.start@[ctx.web_slot as int] as int;
            let stop = web.start@[ctx.web_slot + 1] as int;
            let last = web.start@.len() - 1;
            assert(web.start@[ctx.web_slot + 1] <= web.start@[last]);
            lemma_first_not_below(web.follower@, wlo as int, first, stop, b as int);
            lemma_first_not_below(web.follower@, whi as int, first, stop, b_end as int);
        }
    }
    let ghost all = join(
        ids@,
        counts@,
        a as int,
        a_end as int,
        m.web_to_id@,
        web.follower@,
        b as int,
        b_end as int,
    );
    let mut out: Vec<Offer> = Vec::new();
    assert(out@ + all =~= all);
    while a < a_end || b < b_end
        invariant
            m.wf(*web),
            web_ok(*web),
            web.follower@.len() < NO_ROW,
            n == m.lexicon@.words.len(),
            a_end <= ids@.len(),
            counts@.len() == ids@.len(),
            forall|k: int| 0 <= k < ids@.len() ==> #[trigger] ids@[k] < n,
            b_end <= web.follower@.len(),
            out@ + join(
                ids@,
                counts@,
                a as int,
                a_end as int,
                m.web_to_id@,
                web.follower@,
                b as int,
                b_end as int,
            ) == all,
            forall|k: int| 0 <= k < out@.len() ==> (#[trigger] out@[k]).id < n,
        decreases
                (if a < a_end {
                    a_end - a
                } else {
                    0
                }) + (if b < b_end {
                    b_end - b
                } else {
                    0
                }),
    {
        let ghost prior = out@;
        let ghost a0 = a as int;
        let ghost b0 = b as int;
        let ida: u32 = if a < a_end {
            ids[a]
        } else {
            NONE
        };
        let idb: u32 = if b < b_end {
            assert(web.follower@[b as int] < web.words.words().len());
            m.web_to_id[web.follower[b] as usize]
        } else {
            NONE
        };
        proof {
            if a < a_end {
                assert(ids@[a as int] < n);
            }
            if b < b_end {
                assert(m.web_to_id@[web.follower@[b as int] as int] < n);
            }
        }
        let take_a: bool = a < a_end && ida <= idb;
        let take_b: bool = b < b_end && idb <= ida;
        let first = Offer {
            id: if take_a {
                ida
            } else {
                idb
            },
            c2: if take_a {
                counts[a]
            } else {
                0
            },
            row: if take_b {
                b as u32
            } else {
                NO_ROW
            },
        };
        out.push(first);
        if take_a {
            a = a + 1;
        }
        if take_b {
            b = b + 1;
        }
        proof {
            let rest = join(
                ids@,
                counts@,
                a as int,
                a_end as int,
                m.web_to_id@,
                web.follower@,
                b as int,
                b_end as int,
            );
            assert(join(
                ids@,
                counts@,
                a0,
                a_end as int,
                m.web_to_id@,
                web.follower@,
                b0,
                b_end as int,
            ) == seq![first] + rest);
            assert(prior + (seq![first] + rest) =~= out@ + rest);
        }
    }
    assert(out@ + Seq::<Offer>::empty() =~= out@);
    out
}

/// The overflow followers that start with `key`: their ids are not in the
/// order of their words, so each is looked at.
pub fn filter_overflow(m: &Model, web: &WebPrior, list: &FollowerList, key: &str) -> (out: Vec<Offer>)
    requires
        m.wf(*web),
        list.wf(m.lexicon@.words.len() as int),
    ensures
        out@ == overflow_followers(
            list.ids.ids@,
            list.counts@,
            m.lexicon@.words,
            key@,
            first_not_below(
                list.ids.ids@,
                m.lexicon.vocab.base() as int,
                0,
                list.ids.ids@.len() as int,
            ),
        ),
        forall|k: int| 0 <= k < out@.len() ==> (#[trigger] out@[k]).id < m.lexicon@.words.len(),
{
    proof {
        m.lexicon.vocab.law_vocab_order();
    }
    let base: usize = m.lexicon.vocab.base_len();
    let mut at: usize = list.ids.lower_bound(base as u32);
    let ghost ids = list.ids.ids@;
    let ghost words = m.lexicon@.words;
    proof {
        lemma_first_not_below(ids, base as int, 0, ids.len() as int, at as int);
    }
    let ghost all = overflow_followers(ids, list.counts@, words, key@, at as int);
    let mut out: Vec<Offer> = Vec::new();
    assert(out@ + all =~= all);
    while at < list.ids.ids.len()
        invariant
            m.wf(*web),
            list.wf(m.lexicon@.words.len() as int),
            ids == list.ids.ids@,
            words == m.lexicon@.words,
            at <= ids.len(),
            out@ + overflow_followers(ids, list.counts@, words, key@, at as int) == all,
            forall|k: int| 0 <= k < out@.len() ==> (#[trigger] out@[k]).id < words.len(),
        decreases ids.len() - at,
    {
        let id: u32 = list.ids.ids[at];
        let ghost prior = out@;
        let ghost rest = overflow_followers(ids, list.counts@, words, key@, at + 1);
        assert(ids[at as int] < words.len());
        if text_starts(m.lexicon.vocab.word(id), key) {
            let o = Offer { id, c2: list.counts[at], row: NO_ROW };
            out.push(o);
            assert(prior + (seq![o] + rest) =~= out@ + rest);
        }
        at = at + 1;
    }
    assert(out@ + Seq::<Offer>::empty() =~= out@);
    out
}

/// One word of a ranking.
#[derive(Clone, Copy, Debug, PartialEq, Eq, Structural)]
pub struct Candidate {
    /// Vocabulary id, or `NONE` for a word seen only earlier in this prompt.
    pub id: u32,
    /// Window span of a word seen only earlier in this prompt.
    pub start: u32,
    pub end: u32,
    /// Bits of the count after the context.
    pub c2: u32,
    /// Row among the context's web followers, or `NO_ROW`.
    pub row: u32,
    /// Bits of the count after the context pair.
    pub c3: u32,
    /// Occurrences in the recent prompts.
    pub session: u32,
}

/// First place from `at` on that holds word `id`, or the end.
pub open spec fn place(list: Seq<Candidate>, id: u32, at: int) -> int
    decreases list.len() - at,
{
    if at >= list.len() || list[at].id == id {
        at
    } else {
        place(list, id, at + 1)
    }
}

/// Bits of the count after the context pair; only words counted after the
/// context have one.
pub open spec fn third(m: Model, ctx: Ctx, o: Offer) -> u32 {
    let key = key_of(ctx.pair, o.id);
    if ctx.pair != NONE && above_zero(o.c2) && m.counts.pairs.tri@.dom().contains(key) {
        m.counts.pairs.tri@[key]
    } else {
        0
    }
}

/// The candidate an offer makes.
pub open spec fn made(m: Model, ctx: Ctx, o: Offer) -> Candidate {
    Candidate {
        id: o.id,
        start: 0,
        end: 0,
        c2: o.c2,
        row: o.row,
        c3: third(m, ctx, o),
        session: 0,
    }
}

/// The candidates once `o` is among them; the first offer of a word counts.
pub open spec fn offered(m: Model, ctx: Ctx, list: Seq<Candidate>, o: Offer) -> Seq<Candidate> {
    if place(list, o.id, 0) < list.len() {
        list
    } else {
        list.push(made(m, ctx, o))
    }
}

/// The candidates once the first `k` offers are among them.
pub open spec fn all_offered(
    m: Model,
    ctx: Ctx,
    list: Seq<Candidate>,
    offers: Seq<Offer>,
    k: int,
) -> Seq<Candidate>
    decreases k,
{
    if k <= 0 {
        list
    } else {
        offered(m, ctx, all_offered(m, ctx, list, offers, k - 1), offers[k - 1])
    }
}

pub proof fn lemma_place(list: Seq<Candidate>, id: u32, at: int)
    requires
        0 <= at <= list.len(),
    ensures
        at <= place(list, id, at) <= list.len(),
        place(list, id, at) < list.len() ==> list[place(list, id, at)].id == id,
        forall|i: int| at <= i < place(list, id, at) ==> (#[trigger] list[i]).id != id,
    decreases list.len() - at,
{
    if at < list.len() && list[at].id != id {
        lemma_place(list, id, at + 1);
    }
}

proof fn lemma_place_is(list: Seq<Candidate>, id: u32, at: int, p: int)
    requires
        0 <= at <= p <= list.len(),
        p < list.len() ==> list[p].id == id,
        forall|i: int| at <= i < p ==> (#[trigger] list[i]).id != id,
    ensures
        place(list, id, at) == p,
    decreases p - at,
{
    if at < p {
        assert(list[at].id != id);
        lemma_place_is(list, id, at + 1, p);
    }
}

/// The candidates of a ranking, found by id.
pub struct Candidates {
    pub list: Vec<Candidate>,
    /// Places of the vocabulary words.
    pub index: IdTable<u32>,
    /// Number of words that are not in the vocabulary.
    pub locals: usize,
}

/// Most words outside the vocabulary that a ranking weighs.
pub const MAX_LOCALS: usize = 0x4000_0000;

impl Candidates {
    /// The index finds the first place of every word, and all are below `n`.
    pub open spec fn wf(&self, n: int) -> bool {
        &&& self.index.wf()
        &&& n <= word_limit()
        &&& self.locals <= MAX_LOCALS
        &&& self.list@.len() == self.index@.dom().len() + self.locals
        &&& forall|k: u64| #[trigger] self.index@.dom().contains(k) ==> k < n
        &&& forall|id: u32|
            id < n ==> (#[trigger] self.index@.dom().contains(id as u64) <==> place(
                self.list@,
                id,
                0,
            ) < self.list@.len())
        &&& forall|id: u32|
            id < n && self.index@.dom().contains(id as u64) ==> #[trigger] self.index@[id as u64]
                == place(self.list@, id, 0)
        &&& forall|i: int|
            0 <= i < self.list@.len() ==> (#[trigger] self.list@[i]).id < n || self.list@[i].id
                == NONE
    }

    /// No candidates.
    pub fn new() -> (c: Candidates)
        ensures
            forall|n: int| n <= word_limit() ==> #[trigger] c.wf(n),
            c.list@ == Seq::<Candidate>::empty(),
            c.locals == 0,
    {
        Candidates { list: Vec::new(), index: IdTable::with_capacity(64), locals: 0 }
    }

    /// Place of word `id`, when it is a candidate.
    pub(crate) fn find(&self, id: u32, Ghost(n): Ghost<int>) -> (at: Option<usize>)
        requires
            self.wf(n),
            id < n,
        ensures
            match at {
                Some(i) => i == place(self.list@, id, 0) && i < self.list@.len(),
                None => place(self.list@, id, 0) >= self.list@.len(),
            },
    {
        match self.index.get(id as u64) {
            Some(i) => Some(i as usize),
            None => None,
        }
    }

    /// Makes `o` a candidate unless its word already is one, and finds it.
    pub fn offer(&mut self, m: &Model, web: &WebPrior, ctx: &Ctx, o: &Offer) -> (at: usize)
        requires
            m.wf(*web),
            ctx.fits(*m, *web),
            o.id < m.lexicon@.words.len(),
            old(self).wf(m.lexicon@.words.len() as int),
        ensures
            final(self).wf(m.lexicon@.words.len() as int),
            final(self).locals == old(self).locals,
            final(self).list@ == offered(*m, *ctx, old(self).list@, *o),
            at == place(final(self).list@, o.id, 0),
            at < final(self).list@.len(),
            final(self).list@[at as int].id == o.id,
    {
        let ghost n = m.lexicon@.words.len() as int;
        let ghost before = self.list@;
        let ghost index = self.index@;
        proof {
            lemma_place(before, o.id, 0);
        }
        if let Some(at) = self.find(o.id, Ghost(n)) {
            return at;
        }
        let at: usize = self.list.len();
        let mut c3: u32 = 0;
        if ctx.pair != NONE && o.c2 > 0 && o.c2 <= INFINITE_BITS {
            if let Some(b) = m.counts.pairs.tri.get(pair_key(ctx.pair, o.id)) {
                c3 = b;
            }
        }
        let cand = Candidate {
            id: o.id,
            start: 0,
            end: 0,
            c2: o.c2,
            row: o.row,
            c3,
            session: 0,
        };
        assert(cand == made(*m, *ctx, *o));
        proof {
            self.index.lemma_len();
            lemma_room(index, n, o.id);
        }
        self.list.push(cand);
        let (slot, fresh) = self.index.entry(o.id as u64);
        *slot = at as u32;
        proof {
            assert(self.index@ == index.insert(o.id as u64, at as u32));
            assert(self.index@.dom() =~= index.dom().insert(o.id as u64));
            assert forall|id: u32| id < n implies place(self.list@, id, 0) == (if id == o.id {
                at as int
            } else if place(before, id, 0) < before.len() {
                place(before, id, 0)
            } else {
                self.list@.len() as int
            }) by {
                lemma_place(before, id, 0);
                let p = place(before, id, 0);
                if id == o.id {
                    lemma_place_is(self.list@, id, 0, at as int);
                } else if p < before.len() {
                    lemma_place_is(self.list@, id, 0, p);
                } else {
                    lemma_place_is(self.list@, id, 0, self.list@.len() as int);
                }
            }
        }
        at
    }

    /// Adds a word seen only earlier in this prompt.
    pub(crate) fn add_local(&mut self, start: u32, end: u32, Ghost(n): Ghost<int>)
        requires
            old(self).wf(n),
            old(self).locals < MAX_LOCALS,
        ensures
            final(self).wf(n),
            final(self).locals == old(self).locals + 1,
            final(self).list@ == old(self).list@.push(local(start, end)),
    {
        let ghost before = self.list@;
        self.locals = self.locals + 1;
        self.list.push(
            Candidate { id: NONE, start, end, c2: 0, row: NO_ROW, c3: 0, session: 0 },
        );
        proof {
            assert forall|id: u32| id < n implies place(self.list@, id, 0) == (if place(
                before,
                id,
                0,
            ) < before.len() {
                place(before, id, 0)
            } else {
                self.list@.len() as int
            }) by {
                lemma_place(before, id, 0);
                let p = place(before, id, 0);
                if p < before.len() {
                    lemma_place_is(self.list@, id, 0, p);
                } else {
                    lemma_place_is(self.list@, id, 0, self.list@.len() as int);
                }
            }
        }
    }

    /// Notes how often the candidate at `at` occurs in the recent prompts.
    pub(crate) fn note_session(&mut self, at: usize, count: u32, Ghost(n): Ghost<int>)
        requires
            old(self).wf(n),
            at < old(self).list@.len(),
        ensures
            final(self).wf(n),
            final(self).locals == old(self).locals,
            final(self).list@ == old(self).list@.update(
                at as int,
                (Candidate { session: count, ..old(self).list@[at as int] }),
            ),
    {
        let ghost before = self.list@;
        let c = self.list[at];
        self.list.set(at, Candidate { session: count, ..c });
        proof {
            assert forall|id: u32| id < n implies place(self.list@, id, 0) == place(
                before,
                id,
                0,
            ) by {
                lemma_place(before, id, 0);
                lemma_place_is(self.list@, id, 0, place(before, id, 0));
            }
        }
    }
}

/// A candidate that is no vocabulary word.
pub open spec fn local(start: u32, end: u32) -> Candidate {
    Candidate { id: NONE, start, end, c2: 0, row: NO_ROW, c3: 0, session: 0 }
}

/// A word that is not indexed leaves room for itself.
proof fn lemma_room(index: Map<u64, u32>, n: int, id: u32)
    requires
        n <= word_limit(),
        n < NONE,
        id < n,
        index.dom().finite(),
        !index.dom().contains(id as u64),
        forall|k: u64| #[trigger] index.dom().contains(k) ==> k < n,
    ensures
        index.dom().len() + 1 <= n,
        43 * (index.dom().len() + 1) <= usize::MAX,
{
    let list = Seq::new(n as nat, |i: int| i as u64);
    assert(list.no_duplicates());
    list.unique_seq_to_set();
    let more = index.dom().insert(id as u64);
    assert(more.subset_of(list.to_set())) by {
        assert forall|k: u64| more.contains(k) implies list.to_set().contains(k) by {
            assert(list[k as int] == k);
        }
    }
    vstd::set_lib::lemma_len_subset(more, list.to_set());
}

} // verus!
