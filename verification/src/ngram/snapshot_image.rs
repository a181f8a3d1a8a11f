//! What of a model a snapshot stores.

use crate::ngram::candidates::above_zero;
use crate::ngram::follower_table::FollowerList;
use crate::ngram::lexicon::NONE;
use crate::ngram::model::{session_fits, Model};
use crate::ngram::pair_table::{lower, upper, INFINITE_BITS};
use crate::ngram::snapshot_bytes::{counts_fit, mapped_ids};
use crate::ngram::snapshot_records::{
    contexts_view, prompts_view, tails_view, words_view, Tables, TablesView, WordRecord, WordView,
};
use crate::ngram::tail_table::forms_view;
use crate::ngram::web::WebPrior;
use vstd::prelude::*;

verus! {

/// Word `id` follows some word.
pub open spec fn follows(m: Model, id: u32) -> bool {
    exists|l: int| 0 <= l < m.counts.followers.lists@.len() && (
    #[trigger] m.counts.followers.lists@[l]).ids.ids@.contains(id)
}

/// Word `id` is part of a context pair.
pub open spec fn paired(m: Model, id: u32) -> bool {
    exists|k: u64| #[trigger]
        m.counts.pairs.pairs@.dom().contains(k) && (upper(k) == id || lower(k) == id)
}

/// Word `id` ends a trigram.
pub open spec fn ends_trigram(m: Model, id: u32) -> bool {
    exists|k: u64| #[trigger] m.counts.pairs.tri@.dom().contains(k) && lower(k) == id
}

/// Word `id` occurs in a recent prompt.
pub open spec fn recent(m: Model, id: u32) -> bool {
    exists|p: int|
        0 <= p < m.session.prompts@.len() && (#[trigger] m.session.prompts@[p])@.contains(id)
}

/// Word `id` has learned state.
pub open spec fn kept(m: Model, id: u32) -> bool {
    ||| above_zero(m.counts.count@[id as int])
    ||| m.lexicon@.raw[id as int] > 0
    ||| m.counts.followers.ctx_slot@[id as int] != NONE
    ||| follows(m, id)
    ||| paired(m, id)
    ||| ends_trigram(m, id)
    ||| m.counts.tails.ids.ids@.contains(id)
    ||| recent(m, id)
}

fn mark_followers(m: &Model, keep: &mut Vec<bool>, Ghost(n): Ghost<int>)
    requires
        m.counts.followers.wf(),
        n == m.counts.followers.ctx_slot@.len(),
        old(keep)@.len() == n,
    ensures
        final(keep)@.len() == n,
        forall|id: u32|
            id < n ==> #[trigger] final(keep)@[id as int] == (old(keep)@[id as int] || follows(
                *m,
                id,
            )),
{
    let ghost start = keep@;
    let lists = &m.counts.followers.lists;
    let mut l: usize = 0;
    while l < lists.len()
        invariant
            m.counts.followers.wf(),
            n == m.counts.followers.ctx_slot@.len(),
            lists@ == m.counts.followers.lists@,
            l <= lists@.len(),
            start.len() == n,
            keep@.len() == n,
            forall|id: u32|
                id < n ==> #[trigger] keep@[id as int] == (start[id as int] || exists|k: int|
                    0 <= k < l && (#[trigger] lists@[k]).ids.ids@.contains(id)),
        decreases lists@.len() - l,
    {
        let ghost before = keep@;
        let ids = &lists[l].ids.ids;
        assert(lists@[l as int].wf(n));
        let mut i: usize = 0;
        while i < ids.len()
            invariant
                lists@ == m.counts.followers.lists@,
                l < lists@.len(),
                ids@ == lists@[l as int].ids.ids@,
                lists@[l as int].wf(n),
                i <= ids@.len(),
                before.len() == n,
                keep@.len() == n,
                forall|id: u32|
                    id < n ==> #[trigger] keep@[id as int] == (before[id as int] || ids@.take(
                        i as int,
                    ).contains(id)),
            decreases ids@.len() - i,
        {
            let ghost prior = keep@;
            let x: u32 = ids[i];
            assert(ids@[i as int] < n);
            keep.set(x as usize, true);
            proof {
                let head = ids@.take(i as int);
                let more = ids@.take(i + 1);
                assert(more =~= head.push(x));
                assert forall|id: u32| id < n implies #[trigger] keep@[id as int] == (
                before[id as int] || more.contains(id)) by {
                    lemma_push_contains(head, x, id);
                }
            }
            i = i + 1;
        }
        proof {
            assert(ids@.take(i as int) =~= ids@);
            assert forall|id: u32| id < n implies #[trigger] keep@[id as int] == (start[id as int]
                || exists|k: int| 0 <= k < l + 1 && (#[trigger] lists@[k]).ids.ids@.contains(
                id,
            )) by {
                assert(keep@[id as int] == (before[id as int] || lists@[l
                    as int].ids.ids@.contains(id)));
                if before[id as int] && !start[id as int] {
                    let k = choose|k: int|
                        0 <= k < l && (#[trigger] lists@[k]).ids.ids@.contains(id);
                    assert(lists@[k].ids.ids@.contains(id));
                }
            }
        }
        l = l + 1;
    }
    proof {
        assert forall|id: u32| id < n implies #[trigger] keep@[id as int] == (start[id as int]
            || follows(*m, id)) by {}
    }
}

proof fn lemma_push_contains(s: Seq<u32>, x: u32, y: u32)
    ensures
        s.push(x).contains(y) <==> s.contains(y) || x == y,
{
    let t = s.push(x);
    if s.contains(y) {
        let k = choose|k: int| 0 <= k < s.len() && s[k] == y;
        assert(t[k] == y);
    }
    if x == y {
        assert(t[s.len() as int] == y);
    }
    if t.contains(y) {
        let k = choose|k: int| 0 <= k < t.len() && t[k] == y;
        if k < s.len() {
            assert(s[k] == y);
        }
    }
}

fn mark_ids(ids: &Vec<u32>, keep: &mut Vec<bool>)
    requires
        forall|k: int| 0 <= k < ids@.len() ==> #[trigger] ids@[k] < old(keep)@.len(),
    ensures
        final(keep)@.len() == old(keep)@.len(),
        forall|id: u32|
            id < old(keep)@.len() ==> #[trigger] final(keep)@[id as int] == (old(keep)@[id as int]
                || ids@.contains(id)),
{
    let ghost before = keep@;
    let mut i: usize = 0;
    while i < ids.len()
        invariant
            forall|k: int| 0 <= k < ids@.len() ==> #[trigger] ids@[k] < before.len(),
            i <= ids@.len(),
            keep@.len() == before.len(),
            forall|id: u32|
                id < before.len() ==> #[trigger] keep@[id as int] == (before[id as int]
                    || ids@.take(i as int).contains(id)),
        decreases ids@.len() - i,
    {
        let x: u32 = ids[i];
        assert(ids@[i as int] < before.len());
        keep.set(x as usize, true);
        proof {
            let head = ids@.take(i as int);
            let more = ids@.take(i + 1);
            assert(more =~= head.push(x));
            assert forall|id: u32| id < before.len() implies #[trigger] keep@[id as int] == (
            before[id as int] || more.contains(id)) by {
                lemma_push_contains(head, x, id);
            }
        }
        i = i + 1;
    }
    assert(ids@.take(i as int) =~= ids@);
}

fn mark_pairs(m: &Model, keep: &mut Vec<bool>, Ghost(n): Ghost<int>)
    requires
        m.counts.pairs.wf(),
        m.counts.pairs.ids_below(n),
        old(keep)@.len() == n,
    ensures
        final(keep)@.len() == n,
        forall|id: u32|
            id < n ==> #[trigger] final(keep)@[id as int] == (old(keep)@[id as int] || paired(
                *m,
                id,
            ) || ends_trigram(*m, id)),
{
    let ghost start = keep@;
    let list = m.counts.pairs.pairs.iter();
    let mut i: usize = 0;
    while i < list.len()
        invariant
            m.counts.pairs.ids_below(n),
            start.len() == n,
            keep@.len() == n,
            i <= list@.len(),
            forall|a: int|
                0 <= a < list@.len() ==> m.counts.pairs.pairs@.contains_pair(
                    (#[trigger] list@[a]).0,
                    list@[a].1,
                ),
            forall|id: u32|
                id < n ==> #[trigger] keep@[id as int] == (start[id as int] || exists|a: int|
                    0 <= a < i && (upper((#[trigger] list@[a]).0) == id || lower(list@[a].0)
                        == id)),
        decreases list@.len() - i,
    {
        let ghost before = keep@;
        let (key, _pair) = list[i];
        assert(m.counts.pairs.pairs@.contains_pair(list@[i as int].0, list@[i as int].1));
        assert(m.counts.pairs.pairs@.dom().contains(key));
        let u: usize = (key / 0x1_0000_0000) as usize;
        let v: usize = (key % 0x1_0000_0000) as usize;
        keep.set(u, true);
        keep.set(v, true);
        proof {
            assert forall|id: u32| id < n implies #[trigger] keep@[id as int] == (start[id as int]
                || exists|a: int|
                0 <= a < i + 1 && (upper((#[trigger] list@[a]).0) == id || lower(list@[a].0)
                    == id)) by {
                if id == u || id == v {
                    assert(upper(list@[i as int].0) == id || lower(list@[i as int].0) == id);
                } else {
                    assert(keep@[id as int] == before[id as int]);
                    if before[id as int] && !start[id as int] {
                        let a = choose|a: int|
                            0 <= a < i && (upper((#[trigger] list@[a]).0) == id || lower(
                                list@[a].0,
                            ) == id);
                        assert(upper(list@[a].0) == id || lower(list@[a].0) == id);
                    }
                }
            }
        }
        i = i + 1;
    }
    let ghost mid = keep@;
    proof {
        assert forall|id: u32| id < n implies #[trigger] mid[id as int] == (start[id as int]
            || paired(*m, id)) by {
            if paired(*m, id) {
                let k = choose|k: u64| #[trigger]
                    m.counts.pairs.pairs@.dom().contains(k) && (upper(k) == id || lower(k) == id);
                let a = choose|a: int| 0 <= a < list@.len() && list@[a].0 == k;
                assert(upper(list@[a].0) == id || lower(list@[a].0) == id);
            }
            if mid[id as int] && !start[id as int] {
                let a = choose|a: int|
                    0 <= a < list@.len() && (upper((#[trigger] list@[a]).0) == id || lower(
                        list@[a].0,
                    ) == id);
                assert(m.counts.pairs.pairs@.contains_pair(list@[a].0, list@[a].1));
            }
        }
    }
    let tri = m.counts.pairs.tri.iter();
    let mut j: usize = 0;
    while j < tri.len()
        invariant
            m.counts.pairs.ids_below(n),
            mid.len() == n,
            keep@.len() == n,
            j <= tri@.len(),
            forall|a: int|
                0 <= a < tri@.len() ==> m.counts.pairs.tri@.contains_pair(
                    (#[trigger] tri@[a]).0,
                    tri@[a].1,
                ),
            forall|id: u32|
                id < n ==> #[trigger] keep@[id as int] == (mid[id as int] || exists|a: int|
                    0 <= a < j && lower((#[trigger] tri@[a]).0) == id),
        decreases tri@.len() - j,
    {
        let ghost before = keep@;
        let (key, _bits) = tri[j];
        assert(m.counts.pairs.tri@.contains_pair(tri@[j as int].0, tri@[j as int].1));
        assert(m.counts.pairs.tri@.dom().contains(key));
        let w: usize = (key % 0x1_0000_0000) as usize;
        keep.set(w, true);
        proof {
            assert forall|id: u32| id < n implies #[trigger] keep@[id as int] == (mid[id as int]
                || exists|a: int| 0 <= a < j + 1 && lower((#[trigger] tri@[a]).0) == id) by {
                if id == w {
                    assert(lower(tri@[j as int].0) == id);
                } else {
                    assert(keep@[id as int] == before[id as int]);
                    if before[id as int] && !mid[id as int] {
                        let a = choose|a: int| 0 <= a < j && lower((#[trigger] tri@[a]).0) == id;
                        assert(lower(tri@[a].0) == id);
                    }
                }
            }
        }
        j = j + 1;
    }
    proof {
        assert forall|id: u32| id < n implies #[trigger] keep@[id as int] == (start[id as int]
            || paired(*m, id) || ends_trigram(*m, id)) by {
            assert(mid[id as int] == (start[id as int] || paired(*m, id)));
            if ends_trigram(*m, id) {
                let k = choose|k: u64| #[trigger]
                    m.counts.pairs.tri@.dom().contains(k) && lower(k) == id;
                let a = choose|a: int| 0 <= a < tri@.len() && tri@[a].0 == k;
                assert(lower(tri@[a].0) == id);
            }
            if keep@[id as int] && !mid[id as int] {
                let a = choose|a: int| 0 <= a < tri@.len() && lower((#[trigger] tri@[a]).0) == id;
                assert(m.counts.pairs.tri@.contains_pair(tri@[a].0, tri@[a].1));
            }
        }
    }
}

/// Which words have learned state.
pub fn keep_flags(m: &Model, web: &WebPrior) -> (keep: Vec<bool>)
    requires
        m.wf(*web),
    ensures
        keep@.len() == m.lexicon@.words.len(),
        forall|id: u32| id < keep@.len() ==> #[trigger] keep@[id as int] == kept(*m, id),
{
    let ghost n = m.lexicon@.words.len() as int;
    let total: usize = m.lexicon.vocab.len();
    let mut keep: Vec<bool> = Vec::new();
    let mut id: usize = 0;
    while id < total
        invariant
            m.wf(*web),
            n == m.lexicon@.words.len(),
            total == n,
            id <= total,
            keep@.len() == id,
            forall|i: int|
                0 <= i < id ==> #[trigger] keep@[i] == (above_zero(m.counts.count@[i])
                    || m.lexicon@.raw[i] > 0 || m.counts.followers.ctx_slot@[i] != NONE),
        decreases total - id,
    {
        let count: u32 = m.counts.count[id];
        keep.push(
            (count > 0 && count <= INFINITE_BITS) || m.lexicon.raw[id] > 0
                || m.counts.followers.ctx_slot[id] != NONE,
        );
        id = id + 1;
    }
    let ghost k0 = keep@;
    mark_followers(m, &mut keep, Ghost(n));
    let ghost k1 = keep@;
    mark_pairs(m, &mut keep, Ghost(n));
    let ghost k2 = keep@;
    mark_ids(&m.counts.tails.ids.ids, &mut keep);
    let ghost k3 = keep@;
    let prompts = &m.session.prompts;
    let mut p: usize = 0;
    while p < prompts.len()
        invariant
            n == m.lexicon@.words.len(),
            prompts@ == m.session.prompts@,
            session_fits(prompts@, n),
            p <= prompts@.len(),
            k3.len() == n,
            keep@.len() == n,
            forall|id: u32|
                id < n ==> #[trigger] keep@[id as int] == (k3[id as int] || exists|q: int|
                    0 <= q < p && (#[trigger] prompts@[q])@.contains(id)),
        decreases prompts@.len() - p,
    {
        let ghost before = keep@;
        assert forall|k: int| 0 <= k < prompts@[p as int]@.len() implies
            #[trigger] prompts@[p as int]@[k] < n by {}
        mark_ids(&prompts[p], &mut keep);
        proof {
            assert forall|id: u32| id < n implies #[trigger] keep@[id as int] == (k3[id as int]
                || exists|q: int| 0 <= q < p + 1 && (#[trigger] prompts@[q])@.contains(id)) by {
                assert(keep@[id as int] == (before[id as int] || prompts@[p as int]@.contains(
                    id,
                )));
                if before[id as int] && !k3[id as int] {
                    let q = choose|q: int| 0 <= q < p && (#[trigger] prompts@[q])@.contains(id);
                    assert(prompts@[q]@.contains(id));
                }
            }
        }
        p = p + 1;
    }
    proof {
        assert forall|id: u32| id < n implies #[trigger] keep@[id as int] == kept(*m, id) by {
            assert(k1[id as int] == (k0[id as int] || follows(*m, id)));
            assert(k2[id as int] == (k1[id as int] || paired(*m, id) || ends_trigram(*m, id)));
            assert(k3[id as int] == (k2[id as int] || m.counts.tails.ids.ids@.contains(id)));
        }
    }
    keep
}

/// `order` holds the marked ids, ascending, and `index` their places.
pub open spec fn numbers(keep: Seq<bool>, order: Seq<u32>, index: Seq<u32>) -> bool {
    &&& index.len() == keep.len()
    &&& order.len() <= keep.len()
    &&& forall|i: int, j: int| 0 <= i < j < order.len() ==> order[i] < order[j]
    &&& forall|j: int|
        0 <= j < order.len() ==> (#[trigger] order[j]) < keep.len() && keep[order[j] as int]
            && index[order[j] as int] == j
    &&& forall|id: int|
        0 <= id < keep.len() && keep[id] ==> (#[trigger] index[id]) < order.len()
            && order[index[id] as int] == id
}

/// Numbers the marked ids in order.
pub fn number(keep: &Vec<bool>) -> (r: (Vec<u32>, Vec<u32>))
    requires
        keep@.len() < NONE,
    ensures
        numbers(keep@, r.0@, r.1@),
{
    let mut order: Vec<u32> = Vec::new();
    let mut index: Vec<u32> = Vec::new();
    let mut id: usize = 0;
    while id < keep.len()
        invariant
            keep@.len() < NONE,
            id <= keep@.len(),
            index@.len() == id,
            order@.len() <= id,
            forall|i: int, j: int| 0 <= i < j < order@.len() ==> order@[i] < order@[j],
            forall|j: int|
                0 <= j < order@.len() ==> (#[trigger] order@[j]) < id && keep@[order@[j] as int]
                    && index@[order@[j] as int] == j,
            forall|k: int|
                0 <= k < id && keep@[k] ==> (#[trigger] index@[k]) < order@.len()
                    && order@[index@[k] as int] == k,
        decreases keep@.len() - id,
    {
        if keep[id] {
            index.push(order.len() as u32);
            order.push(id as u32);
        } else {
            index.push(NONE);
        }
        id = id + 1;
    }
    (order, index)
}

/// The followers with each id replaced by its number.
pub open spec fn numbered_entries(f: FollowerList, index: Seq<u32>) -> Seq<(u32, u32)> {
    Seq::new(f.ids.ids@.len(), |k: int| (index[f.ids.ids@[k] as int], f.counts@[k]))
}

/// The contexts among the first `k` ids, each with its followers.
pub open spec fn numbered_contexts(m: Model, index: Seq<u32>, k: int) -> Seq<(u32, Seq<(u32, u32)>)>
    decreases k,
{
    if k <= 0 {
        Seq::empty()
    } else {
        let prior = numbered_contexts(m, index, k - 1);
        let slot = m.counts.followers.ctx_slot@[k - 1];
        if slot == NONE {
            prior
        } else {
            prior.push(
                (index[k - 1], numbered_entries(m.counts.followers.lists@[slot as int], index)),
            )
        }
    }
}

/// The entry is that of a trigram.
pub open spec fn trigram_pictured(m: Model, index: Seq<u32>, e: (u32, u32, u32)) -> bool {
    exists|k: u64| #[trigger]
        m.counts.pairs.tri@.dom().contains(k) && e == (
            upper(k),
            index[lower(k) as int],
            m.counts.pairs.tri@[k],
        )
}

/// What a snapshot of `m` stores: its words with learned state in order of
/// their ids, and every table with ids replaced by the words' numbers.
pub open spec fn pictures(
    m: Model,
    order: Seq<u32>,
    index: Seq<u32>,
    words: Seq<WordView>,
    t: TablesView,
) -> bool {
    let n = m.lexicon@.words.len();
    &&& numbers(Seq::new(n, |id: int| kept(m, id as u32)), order, index)
    &&& words == Seq::new(
        order.len(),
        |j: int|
            WordView {
                text: m.lexicon@.words[order[j] as int],
                count: m.counts.count@[order[j] as int],
                raw: m.lexicon@.raw[order[j] as int],
            },
    )
    &&& t.contexts == numbered_contexts(m, index, n as int)
    &&& t.pairs.len() == m.counts.pairs.pair_total@.len()
    &&& forall|k: u64| #[trigger]
        m.counts.pairs.pairs@.dom().contains(k) ==> {
            let p = m.counts.pairs.pairs@[k];
            t.pairs[p as int] == (
                index[upper(k) as int],
                index[lower(k) as int],
                m.counts.pairs.pair_total@[p as int],
                m.counts.pairs.pair_types@[p as int],
            )
        }
    &&& t.trigrams.len() == m.counts.pairs.tri@.dom().len()
    &&& forall|k: u64| #[trigger]
        m.counts.pairs.tri@.dom().contains(k) ==> t.trigrams.contains(
            (upper(k), index[lower(k) as int], m.counts.pairs.tri@[k]),
        )
    &&& forall|i: int|
        0 <= i < t.trigrams.len() ==> trigram_pictured(m, index, #[trigger] t.trigrams[i])
    &&& t.tails == Seq::new(
        m.counts.tails.ids.ids@.len(),
        |k: int|
            (index[m.counts.tails.ids.ids@[k] as int], forms_view(m.counts.tails.forms@[k]@)),
    )
    &&& t.prompts == Seq::new(
        m.session.prompts@.len(),
        |p: int| mapped_ids(m.session.prompts@[p]@, index),
    )
}

fn image_words(m: &Model, web: &WebPrior, order: &Vec<u32>) -> (words: Vec<WordRecord>)
    requires
        m.wf(*web),
        forall|j: int| 0 <= j < order@.len() ==> (#[trigger] order@[j]) < m.lexicon@.words.len(),
    ensures
        words_view(words@) == Seq::new(
            order@.len(),
            |j: int|
                WordView {
                    text: m.lexicon@.words[order@[j] as int],
                    count: m.counts.count@[order@[j] as int],
                    raw: m.lexicon@.raw[order@[j] as int],
                },
        ),
{
    let mut words: Vec<WordRecord> = Vec::new();
    let mut j: usize = 0;
    while j < order.len()
        invariant
            m.wf(*web),
            forall|i: int|
                0 <= i < order@.len() ==> (#[trigger] order@[i]) < m.lexicon@.words.len(),
            j <= order@.len(),
            words@.len() == j,
            forall|i: int|
                0 <= i < j ==> (#[trigger] words@[i])@ == (WordView {
                    text: m.lexicon@.words[order@[i] as int],
                    count: m.counts.count@[order@[i] as int],
                    raw: m.lexicon@.raw[order@[i] as int],
                }),
        decreases order@.len() - j,
    {
        let id: u32 = order[j];
        assert(order@[j as int] == id);
        let text = m.lexicon.vocab.word(id).to_owned();
        words.push(
            WordRecord {
                text,
                count: m.counts.count[id as usize],
                raw: m.lexicon.raw[id as usize],
            },
        );
        j = j + 1;
    }
    assert(words_view(words@) =~= Seq::new(
        order@.len(),
        |j: int|
            WordView {
                text: m.lexicon@.words[order@[j] as int],
                count: m.counts.count@[order@[j] as int],
                raw: m.lexicon@.raw[order@[j] as int],
            },
    ));
    words
}

fn image_entries(f: &FollowerList, index: &Vec<u32>) -> (list: Vec<(u32, u32)>)
    requires
        f.wf(index@.len() as int),
    ensures
        list@ == numbered_entries(*f, index@),
{
    let mut list: Vec<(u32, u32)> = Vec::new();
    let mut k: usize = 0;
    while k < f.ids.ids.len()
        invariant
            f.wf(index@.len() as int),
            k <= f.ids.ids@.len(),
            list@.len() == k,
            forall|i: int|
                0 <= i < k ==> #[trigger] list@[i] == (
                    index@[f.ids.ids@[i] as int],
                    f.counts@[i],
                ),
        decreases f.ids.ids@.len() - k,
    {
        assert(f.ids.ids@[k as int] < index@.len());
        list.push((index[f.ids.ids[k] as usize], f.counts[k]));
        k = k + 1;
    }
    assert(list@ =~= numbered_entries(*f, index@));
    list
}

fn image_contexts(m: &Model, web: &WebPrior, index: &Vec<u32>) -> (list: Vec<(u32, Vec<(u32, u32)>)>)
    requires
        m.wf(*web),
        index@.len() == m.lexicon@.words.len(),
    ensures
        contexts_view(list@) == numbered_contexts(*m, index@, m.lexicon@.words.len() as int),
{
    let n: usize = m.lexicon.vocab.len();
    let mut list: Vec<(u32, Vec<(u32, u32)>)> = Vec::new();
    let mut id: usize = 0;
    assert(contexts_view(list@) =~= numbered_contexts(*m, index@, 0));
    while id < n
        invariant
            m.wf(*web),
            n == m.lexicon@.words.len(),
            index@.len() == n,
            id <= n,
            contexts_view(list@) == numbered_contexts(*m, index@, id as int),
        decreases n - id,
    {
        let slot: u32 = m.counts.followers.ctx_slot[id];
        if slot != NONE {
            assert(m.counts.followers.ctx_slot@[id as int] < m.counts.followers.lists@.len());
            assert(m.counts.followers.lists@[slot as int].wf(n as int));
            let entries = image_entries(&m.counts.followers.lists[slot as usize], index);
            let ghost prior = list@;
            let ghost item = (index@[id as int], entries@);
            list.push((index[id], entries));
            assert(contexts_view(list@) =~= contexts_view(prior).push(item));
        }
        id = id + 1;
    }
    list
}

fn image_pairs(m: &Model, web: &WebPrior, index: &Vec<u32>) -> (list: Vec<(u32, u32, u32, u32)>)
    requires
        m.wf(*web),
        index@.len() == m.lexicon@.words.len(),
    ensures
        list@.len() == m.counts.pairs.pair_total@.len(),
        forall|k: u64| #[trigger]
            m.counts.pairs.pairs@.dom().contains(k) ==> {
                let p = m.counts.pairs.pairs@[k];
                list@[p as int] == (
                    index@[upper(k) as int],
                    index@[lower(k) as int],
                    m.counts.pairs.pair_total@[p as int],
                    m.counts.pairs.pair_types@[p as int],
                )
            },
{
    let table = &m.counts.pairs;
    let count: usize = table.pair_total.len();
    let ghost n = m.lexicon@.words.len() as int;
    let mut list: Vec<(u32, u32, u32, u32)> = vec![(0u32, 0u32, 0u32, 0u32); count];
    let entries = table.pairs.iter();
    let mut i: usize = 0;
    while i < entries.len()
        invariant
            table.wf(),
            table.ids_below(n),
            index@.len() == n,
            count == table.pair_total@.len(),
            list@.len() == count,
            i <= entries@.len(),
            forall|a: int|
                0 <= a < entries@.len() ==> table.pairs@.contains_pair(
                    (#[trigger] entries@[a]).0,
                    entries@[a].1,
                ),
            forall|a: int, b: int| 0 <= a < b < entries@.len() ==> entries@[a].0 != entries@[b].0,
            forall|a: int|
                0 <= a < i ==> list@[(#[trigger] entries@[a]).1 as int] == (
                    index@[upper(entries@[a].0) as int],
                    index@[lower(entries@[a].0) as int],
                    table.pair_total@[entries@[a].1 as int],
                    table.pair_types@[entries@[a].1 as int],
                ),
        decreases entries@.len() - i,
    {
        let (key, p) = entries[i];
        assert(entries@[i as int] == (key, p));
        assert(table.pairs@.contains_pair(entries@[i as int].0, entries@[i as int].1));
        assert(table.pairs@.dom().contains(key));
        let u: usize = (key / 0x1_0000_0000) as usize;
        let v: usize = (key % 0x1_0000_0000) as usize;
        list.set(
            p as usize,
            (index[u], index[v], table.pair_total[p as usize], table.pair_types[p as usize]),
        );
        proof {
            assert forall|a: int| 0 <= a < i implies (#[trigger] entries@[a]).1 != p by {
                assert(table.pairs@.contains_pair(entries@[a].0, entries@[a].1));
                assert(entries@[a].0 != entries@[i as int].0);
                if entries@[a].1 == p {
                    assert(table.pairs@[entries@[a].0] == table.pairs@[key]);
                }
            }
        }
        i = i + 1;
    }
    proof {
        assert forall|k: u64| #[trigger] table.pairs@.dom().contains(k) implies {
            let p = table.pairs@[k];
            list@[p as int] == (
                index@[upper(k) as int],
                index@[lower(k) as int],
                table.pair_total@[p as int],
                table.pair_types@[p as int],
            )
        } by {
            let a = choose|a: int| 0 <= a < entries@.len() && entries@[a].0 == k;
            assert(table.pairs@.contains_pair(entries@[a].0, entries@[a].1));
        }
    }
    list
}

fn image_trigrams(m: &Model, web: &WebPrior, index: &Vec<u32>) -> (list: Vec<(u32, u32, u32)>)
    requires
        m.wf(*web),
        index@.len() == m.lexicon@.words.len(),
    ensures
        list@.len() == m.counts.pairs.tri@.dom().len(),
        forall|k: u64| #[trigger]
            m.counts.pairs.tri@.dom().contains(k) ==> list@.contains(
                (upper(k), index@[lower(k) as int], m.counts.pairs.tri@[k]),
            ),
        forall|i: int|
            0 <= i < list@.len() ==> trigram_pictured(*m, index@, #[trigger] list@[i]),
{
    let table = &m.counts.pairs;
    let ghost n = m.lexicon@.words.len() as int;
    let entries = table.tri.iter();
    let mut list: Vec<(u32, u32, u32)> = Vec::new();
    let mut i: usize = 0;
    while i < entries.len()
        invariant
            table.wf(),
            table.ids_below(n),
            index@.len() == n,
            i <= entries@.len(),
            forall|a: int|
                0 <= a < entries@.len() ==> table.tri@.contains_pair(
                    (#[trigger] entries@[a]).0,
                    entries@[a].1,
                ),
            list@.len() == i,
            forall|a: int|
                0 <= a < i ==> #[trigger] list@[a] == (
                    upper(entries@[a].0),
                    index@[lower(entries@[a].0) as int],
                    entries@[a].1,
                ),
        decreases entries@.len() - i,
    {
        let (key, bits) = entries[i];
        assert(entries@[i as int] == (key, bits));
        assert(table.tri@.contains_pair(entries@[i as int].0, entries@[i as int].1));
        assert(table.tri@.dom().contains(key));
        let pair: u32 = (key / 0x1_0000_0000) as u32;
        let w: usize = (key % 0x1_0000_0000) as usize;
        list.push((pair, index[w], bits));
        i = i + 1;
    }
    proof {
        assert forall|k: u64| #[trigger] table.tri@.dom().contains(k) implies list@.contains(
            (upper(k), index@[lower(k) as int], table.tri@[k]),
        ) by {
            let a = choose|a: int| 0 <= a < entries@.len() && entries@[a].0 == k;
            assert(table.tri@.contains_pair(entries@[a].0, entries@[a].1));
            assert(list@[a] == (upper(k), index@[lower(k) as int], table.tri@[k]));
        }
        assert forall|a: int| 0 <= a < list@.len() implies trigram_pictured(
            *m,
            index@,
            #[trigger] list@[a],
        ) by {
            let k = entries@[a].0;
            assert(m.counts.pairs.tri@.contains_pair(entries@[a].0, entries@[a].1));
            assert(m.counts.pairs.tri@.dom().contains(k));
        }
    }
    list
}

fn copy_forms(forms: &Vec<(String, u32)>) -> (out: Vec<(String, u32)>)
    ensures
        forms_view(out@) == forms_view(forms@),
{
    let mut out: Vec<(String, u32)> = Vec::new();
    let mut i: usize = 0;
    while i < forms.len()
        invariant
            i <= forms@.len(),
            out@.len() == i,
            forall|k: int|
                0 <= k < i ==> (#[trigger] out@[k]).0@ == forms@[k].0@ && out@[k].1 == forms@[k].1,
        decreases forms@.len() - i,
    {
        let text = forms[i].0.as_str().to_owned();
        out.push((text, forms[i].1));
        i = i + 1;
    }
    assert(forms_view(out@) =~= forms_view(forms@));
    out
}

fn image_tails(m: &Model, web: &WebPrior, index: &Vec<u32>) -> (list: Vec<(u32, Vec<(String, u32)>)>)
    requires
        m.wf(*web),
        index@.len() == m.lexicon@.words.len(),
    ensures
        tails_view(list@) == Seq::new(
            m.counts.tails.ids.ids@.len(),
            |k: int|
                (index@[m.counts.tails.ids.ids@[k] as int], forms_view(m.counts.tails.forms@[k]@)),
        ),
{
    let table = &m.counts.tails;
    let ghost n = m.lexicon@.words.len() as int;
    let mut list: Vec<(u32, Vec<(String, u32)>)> = Vec::new();
    let mut k: usize = 0;
    while k < table.ids.ids.len()
        invariant
            table.wf(),
            table.ids_below(n),
            index@.len() == n,
            k <= table.ids.ids@.len(),
            list@.len() == k,
            forall|i: int|
                0 <= i < k ==> (#[trigger] list@[i]).0 == index@[table.ids.ids@[i] as int]
                    && forms_view(list@[i].1@) == forms_view(table.forms@[i]@),
        decreases table.ids.ids@.len() - k,
    {
        assert(table.ids.ids@[k as int] < n);
        let forms = copy_forms(&table.forms[k]);
        list.push((index[table.ids.ids[k] as usize], forms));
        k = k + 1;
    }
    assert(tails_view(list@) =~= Seq::new(
        table.ids.ids@.len(),
        |k: int| (index@[table.ids.ids@[k] as int], forms_view(table.forms@[k]@)),
    ));
    list
}

fn image_prompts(m: &Model, web: &WebPrior, index: &Vec<u32>) -> (list: Vec<Vec<u32>>)
    requires
        m.wf(*web),
        index@.len() == m.lexicon@.words.len(),
    ensures
        prompts_view(list@) == Seq::new(
            m.session.prompts@.len(),
            |p: int| mapped_ids(m.session.prompts@[p]@, index@),
        ),
{
    let prompts = &m.session.prompts;
    let ghost n = m.lexicon@.words.len() as int;
    let mut list: Vec<Vec<u32>> = Vec::new();
    let mut p: usize = 0;
    while p < prompts.len()
        invariant
            session_fits(prompts@, n),
            index@.len() == n,
            p <= prompts@.len(),
            list@.len() == p,
            forall|i: int|
                0 <= i < p ==> (#[trigger] list@[i])@ == mapped_ids(prompts@[i]@, index@),
        decreases prompts@.len() - p,
    {
        let mut ids: Vec<u32> = Vec::new();
        let mut k: usize = 0;
        while k < prompts[p].len()
            invariant
                session_fits(prompts@, n),
                index@.len() == n,
                p < prompts@.len(),
                k <= prompts@[p as int]@.len(),
                ids@.len() == k,
                forall|i: int|
                    0 <= i < k ==> #[trigger] ids@[i] == index@[prompts@[p as int]@[i] as int],
            decreases prompts@[p as int]@.len() - k,
        {
            assert(prompts@[p as int]@[k as int] < n);
            ids.push(index[prompts[p][k] as usize]);
            k = k + 1;
        }
        assert(ids@ =~= mapped_ids(prompts@[p as int]@, index@));
        list.push(ids);
        p = p + 1;
    }
    assert(prompts_view(list@) =~= Seq::new(
        prompts@.len(),
        |p: int| mapped_ids(prompts@[p]@, index@),
    ));
    list
}

/// What a snapshot stores.
pub struct Image {
    /// The stored ids, ascending.
    pub order: Vec<u32>,
    /// The number of each id.
    pub index: Vec<u32>,
    pub words: Vec<WordRecord>,
    pub tables: Tables,
}

/// What a snapshot of `m` stores.
pub fn image(m: &Model, web: &WebPrior) -> (img: Image)
    requires
        m.wf(*web),
    ensures
        pictures(*m, img.order@, img.index@, words_view(img.words@), img.tables@),
{
    let keep = keep_flags(m, web);
    let (order, index) = number(&keep);
    assert(keep@ =~= Seq::new(m.lexicon@.words.len(), |id: int| kept(*m, id as u32)));
    let words = image_words(m, web, &order);
    let contexts = image_contexts(m, web, &index);
    let pairs = image_pairs(m, web, &index);
    let trigrams = image_trigrams(m, web, &index);
    let tails = image_tails(m, web, &index);
    let prompts = image_prompts(m, web, &index);
    let tables = Tables { contexts, pairs, trigrams, tails, prompts };
    assert(tables@.trigrams == trigrams@ && tables@.pairs == pairs@);
    Image { order, index, words, tables }
}

/// The fields of a snapshot can hold the model's counts.
pub open spec fn fits_fields(m: Model) -> bool {
    &&& m.counts.pairs.tri@.dom().len() <= u32::MAX
    &&& forall|k: int|
        0 <= k < m.counts.tails.forms@.len() ==> (#[trigger] m.counts.tails.forms@[k])@.len()
            <= u32::MAX
    &&& m.session.prompts@.len() <= u32::MAX
    &&& forall|p: int|
        0 <= p < m.session.prompts@.len() ==> (#[trigger] m.session.prompts@[p])@.len() <= u32::MAX
}

pub proof fn lemma_contexts_shape(m: Model, web: WebPrior, index: Seq<u32>, k: int)
    requires
        m.wf(web),
        0 <= k <= m.lexicon@.words.len(),
    ensures
        numbered_contexts(m, index, k).len() <= k,
        forall|i: int|
            0 <= i < numbered_contexts(m, index, k).len() ==> exists|id: int|
                0 <= id < k && m.counts.followers.ctx_slot@[id] != NONE && (
                #[trigger] numbered_contexts(m, index, k)[i]) == (
                    index[id],
                    numbered_entries(
                        m.counts.followers.lists@[#[trigger] m.counts.followers.ctx_slot@[id] as int],
                        index,
                    ),
                ),
    decreases k,
{
    if k > 0 {
        lemma_contexts_shape(m, web, index, k - 1);
        let prior = numbered_contexts(m, index, k - 1);
        let now = numbered_contexts(m, index, k);
        let slots = m.counts.followers.ctx_slot@;
        let lists = m.counts.followers.lists@;
        assert forall|i: int| 0 <= i < now.len() implies exists|id: int|
            0 <= id < k && slots[id] != NONE && (#[trigger] now[i]) == (
                index[id],
                numbered_entries(lists[#[trigger] slots[id] as int], index),
            ) by {
            if i < prior.len() {
                assert(now[i] == prior[i]);
                let id = choose|id: int|
                    0 <= id < k - 1 && slots[id] != NONE && prior[i] == (
                        index[id],
                        numbered_entries(lists[#[trigger] slots[id] as int], index),
                    );
                assert(slots[id] != NONE);
            } else {
                assert(slots[k - 1] != NONE);
            }
        }
    }
}

/// The counts of a picture fit their fields.
pub proof fn lemma_picture_counts(
    m: Model,
    web: WebPrior,
    order: Seq<u32>,
    index: Seq<u32>,
    words: Seq<WordView>,
    t: TablesView,
)
    requires
        m.wf(web),
        fits_fields(m),
        pictures(m, order, index, words, t),
    ensures
        counts_fit(words, t),
{
    let n = m.lexicon@.words.len() as int;
    lemma_contexts_shape(m, web, index, n);
    assert forall|i: int| 0 <= i < t.contexts.len() implies (#[trigger] t.contexts[i]).1.len()
        <= u32::MAX by {
        let slots = m.counts.followers.ctx_slot@;
        let id = choose|id: int|
            0 <= id < n && slots[id] != NONE && t.contexts[i] == (
                index[id],
                numbered_entries(
                    m.counts.followers.lists@[#[trigger] slots[id] as int],
                    index,
                ),
            );
        let f = m.counts.followers.lists@[slots[id] as int];
        assert(slots[id] < m.counts.followers.lists@.len());
        assert(f.wf(n));
        lemma_ascending_len(f.ids.ids@, n);
    }
    lemma_ascending_len(m.counts.tails.ids.ids@, n);
}

proof fn lemma_ascending_len(ids: Seq<u32>, n: int)
    requires
        0 <= n,
        crate::ngram::ranges::ascending(ids),
        forall|k: int| 0 <= k < ids.len() ==> #[trigger] ids[k] < n,
    ensures
        ids.len() <= n,
    decreases n,
{
    if ids.len() > 0 {
        let rest = ids.drop_last();
        assert forall|k: int| 0 <= k < rest.len() implies #[trigger] rest[k] < n - 1 by {
            assert(ids[k] < ids[ids.len() - 1]);
            assert(ids[ids.len() - 1] < n);
        }
        assert(ids[ids.len() - 1] < n);
        lemma_ascending_len(rest, n - 1);
    }
}

} // verus!
