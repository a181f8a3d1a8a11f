//! What the expansion of a node leaves out: nothing but tokens that cannot go
//! on with the node and tokens that are less probable than every child.

use vstd::prelude::*;
use vstd::utf8::encode_utf8;

use super::ranking::{
    all_numbers, at_least, law_leading_are_the_best, leading, lemma_leading_members,
    not_a_number, place,
};
use super::search::{
    children_of, closing_tokens, free_child, lemma_spelling_members, row_fits, spelling_child,
    spelling_tokens, NodeView, SearchParams,
};
use super::token_index::{
    before, closes, continues, covers_on, kept, prefix_tokens, spells, text_at, tokens_by_kind,
    TokenIndex,
};
use crate::ngram::order::lemma_lt_irreflexive;
use crate::prose::word_char;

verus! {

/// The size of a single-precision number, with its sign: larger for the larger
/// number, and one value for both zeros.
pub open spec fn signed_size(bits: u32) -> int {
    if bits < 0x8000_0000 {
        bits as int
    } else {
        0x8000_0000 - bits
    }
}

/// Numbers compare by their signed size, and what is no number compares with
/// nothing: the exponent is all ones and the rest is not zero.
pub proof fn law_numbers_compare_by_size(a: u32, b: u32)
    ensures
        at_least(a, b, false) <==> (signed_size(a) >= signed_size(b) && -0x7f80_0000 <= signed_size(
            a,
        ) <= 0x7f80_0000 && -0x7f80_0000 <= signed_size(b) <= 0x7f80_0000),
        at_least(a, b, true) && !not_a_number(a) && !not_a_number(b) ==> signed_size(a)
            >= signed_size(b),
{
}

/// The token is one of the children's.
pub open spec fn is_child(index: &TokenIndex, params: SearchParams, node: NodeView, row: Seq<u32>, id: u32) -> bool {
    exists|i: int|
        0 <= i < children_of(index, params, node, row).len() && (#[trigger] children_of(
            index,
            params,
            node,
            row,
        )[i]).id == id
}

/// The text can stand at the front of `r`, or starts with `r` and goes on with
/// a word character.
pub open spec fn can_spell(t: Seq<char>, r: Seq<char>) -> bool {
    &&& t.len() > 0
    &&& forall|k: int| 0 <= k < t.len() && k < r.len() ==> #[trigger] t[k] == r[k]
    &&& t.len() > r.len() ==> word_char(t[r.len() as int])
}

proof fn lemma_kinds(texts: Seq<Option<Seq<char>>>, k: int)
    requires
        0 <= k <= texts.len() <= 0x1_0000_0000,
    ensures
        forall|id: u32|
            #[trigger] tokens_by_kind(texts, k, true).contains(id) <==> id < k && continues(
                texts[id as int],
            ),
        tokens_by_kind(texts, k, true).no_duplicates(),
    decreases k,
{
    if k > 0 {
        lemma_kinds(texts, k - 1);
        let prior = tokens_by_kind(texts, k - 1, true);
        let now = tokens_by_kind(texts, k, true);
        assert forall|id: u32| #[trigger] now.contains(id) <==> id < k && continues(
            texts[id as int],
        ) by {
            if continues(texts[k - 1]) {
                assert(now == prior.push((k - 1) as u32));
                if now.contains(id) {
                    let j = choose|j: int| 0 <= j < now.len() && now[j] == id;
                    if j < prior.len() {
                        assert(prior[j] == id);
                        assert(prior.contains(id));
                    }
                }
                if id < k && continues(texts[id as int]) {
                    if id < k - 1 {
                        assert(prior.contains(id));
                        let j = choose|j: int| 0 <= j < prior.len() && prior[j] == id;
                        assert(now[j] == id);
                    } else {
                        assert(now[prior.len() as int] == id);
                    }
                }
            } else {
                assert(prior.contains(id) <==> id < k - 1 && continues(texts[id as int]));
            }
        }
        if continues(texts[k - 1]) {
            assert forall|i: int, j: int| 0 <= i < j < now.len() implies now[i] != now[j] by {
                assert(prior.contains(prior[i]));
            }
        }
    }
}

proof fn lemma_kept(ids: Seq<u32>, p: spec_fn(u32) -> bool, k: int)
    requires
        0 <= k <= ids.len(),
    ensures
        forall|i: int|
            0 <= i < k && p(#[trigger] ids[i]) ==> kept(ids, p, k).contains(ids[i]),
        forall|i: int|
            0 <= i < kept(ids, p, k).len() ==> p(#[trigger] kept(ids, p, k)[i]) && ids.take(
                k,
            ).contains(kept(ids, p, k)[i]),
        ids.no_duplicates() ==> kept(ids, p, k).no_duplicates(),
    decreases k,
{
    if k > 0 {
        lemma_kept(ids, p, k - 1);
        let prior = kept(ids, p, k - 1);
        let now = kept(ids, p, k);
        assert forall|i: int| 0 <= i < now.len() implies p(#[trigger] now[i]) && ids.take(
            k,
        ).contains(now[i]) by {
            if i < prior.len() {
                assert(now[i] == prior[i]);
                let early = ids.take(k - 1);
                let j = choose|j: int| 0 <= j < early.len() && early[j] == prior[i];
                assert(ids.take(k)[j] == now[i]);
            } else {
                assert(ids.take(k)[k - 1] == now[i]);
            }
        }
        assert forall|i: int| 0 <= i < k && p(#[trigger] ids[i]) implies now.contains(ids[i]) by {
            if i < k - 1 {
                assert(prior.contains(ids[i]));
                let j = choose|j: int| 0 <= j < prior.len() && prior[j] == ids[i];
                assert(now[j] == ids[i]);
            } else {
                assert(now[prior.len() as int] == ids[i]);
            }
        }
        if ids.no_duplicates() && p(ids[k - 1]) {
            assert forall|i: int, j: int| 0 <= i < j < now.len() implies now[i] != now[j] by {
                if j == prior.len() {
                    assert(ids.take(k - 1).contains(prior[i]));
                    let early = ids.take(k - 1);
                    let m = choose|m: int| 0 <= m < early.len() && early[m] == prior[i];
                    assert(ids[m] != ids[k - 1]);
                }
            }
        }
    }
}

proof fn lemma_prefixes(texts: Seq<Option<Seq<char>>>, ids: Seq<u32>, r: Seq<char>, n: int)
    requires
        n <= r.len(),
        ids.no_duplicates(),
    ensures
        forall|i: int|
            0 <= i < ids.len() && 0 < text_at(texts, #[trigger] ids[i]).len() < n && text_at(
                texts,
                ids[i],
            ) == r.take(text_at(texts, ids[i]).len() as int) ==> prefix_tokens(
                texts,
                ids,
                r,
                n,
            ).contains(ids[i]),
        forall|i: int|
            0 <= i < prefix_tokens(texts, ids, r, n).len() ==> {
                let id = #[trigger] prefix_tokens(texts, ids, r, n)[i];
                0 < text_at(texts, id).len() < n && text_at(texts, id) == r.take(
                    text_at(texts, id).len() as int,
                ) && ids.contains(id)
            },
        prefix_tokens(texts, ids, r, n).no_duplicates(),
    decreases n,
{
    if n > 1 {
        lemma_prefixes(texts, ids, r, n - 1);
        let p = spells(texts, r.take(n - 1));
        let prior = prefix_tokens(texts, ids, r, n - 1);
        let more = kept(ids, p, ids.len() as int);
        let now = prefix_tokens(texts, ids, r, n);
        lemma_kept(ids, p, ids.len() as int);
        assert(ids.take(ids.len() as int) =~= ids);
        assert forall|i: int| 0 <= i < now.len() implies {
            let id = #[trigger] now[i];
            0 < text_at(texts, id).len() < n && text_at(texts, id) == r.take(
                text_at(texts, id).len() as int,
            ) && ids.contains(id)
        } by {
            if i < prior.len() {
                assert(now[i] == prior[i]);
            } else {
                assert(now[i] == more[i - prior.len()]);
                assert(p(now[i]));
                assert(r.take(n - 1).len() == n - 1);
            }
        }
        assert forall|i: int|
            0 <= i < ids.len() && 0 < text_at(texts, #[trigger] ids[i]).len() < n && text_at(
                texts,
                ids[i],
            ) == r.take(text_at(texts, ids[i]).len() as int) implies now.contains(ids[i]) by {
            if text_at(texts, ids[i]).len() < n - 1 {
                assert(prior.contains(ids[i]));
                let j = choose|j: int| 0 <= j < prior.len() && prior[j] == ids[i];
                assert(now[j] == ids[i]);
            } else {
                assert(p(ids[i]));
                assert(more.contains(ids[i]));
                let j = choose|j: int| 0 <= j < more.len() && more[j] == ids[i];
                assert(now[prior.len() + j] == ids[i]);
            }
        }
        assert forall|i: int, j: int| 0 <= i < j < now.len() implies now[i] != now[j] by {
            if i < prior.len() && j >= prior.len() {
                assert(text_at(texts, prior[i]).len() < n - 1);
                assert(p(more[j - prior.len()]));
            } else if j < prior.len() {
                assert(prior[i] != prior[j]);
            } else {
                assert(more[i - prior.len()] != more[j - prior.len()]);
            }
        }
    }
}

proof fn lemma_sorted_distinct(index: &TokenIndex)
    requires
        index.wf(),
    ensures
        index.sorted@.no_duplicates(),
{
    let ids = index.sorted@;
    let texts = index.texts_of();
    assert forall|i: int, j: int| 0 <= i < j < ids.len() implies ids[i] != ids[j] by {
        assert(before(texts, ids[i], ids[j]));
        if ids[i] == ids[j] {
            lemma_lt_irreflexive(encode_utf8(text_at(texts, ids[i])), 0);
        }
    }
}

/// The tokens considered while `r` remains are exactly those that can spell it,
/// each once.
pub proof fn law_spelling_tokens_are_all(index: &TokenIndex, r: Seq<char>)
    requires
        index.wf(),
        r.len() > 0,
    ensures
        spelling_tokens(index, r).no_duplicates(),
        forall|id: u32|
            id < index.texts@.len() ==> (#[trigger] spelling_tokens(index, r).contains(id)
                <==> index.texts_of()[id as int] is Some && can_spell(
                text_at(index.texts_of(), id),
                r,
            )),
{
    let texts = index.texts_of();
    let ids = index.sorted@;
    let n = r.len() as int;
    lemma_sorted_distinct(index);
    lemma_prefixes(texts, ids, r, n);
    lemma_kept(ids, covers_on(texts, r), ids.len() as int);
    assert(ids.take(ids.len() as int) =~= ids);
    let head = prefix_tokens(texts, ids, r, n);
    let tail = kept(ids, covers_on(texts, r), ids.len() as int);
    let all = spelling_tokens(index, r);
    assert(all == head + tail);
    assert forall|i: int, j: int| 0 <= i < j < all.len() implies all[i] != all[j] by {
        if i < head.len() && j >= head.len() {
            assert(text_at(texts, head[i]).len() < n);
            assert((covers_on(texts, r))(tail[j - head.len()]));
        } else if j < head.len() {
            assert(head[i] != head[j]);
        } else {
            assert(tail[i - head.len()] != tail[j - head.len()]);
        }
    }
    assert forall|id: u32| id < index.texts@.len() implies (#[trigger] all.contains(id)
        <==> texts[id as int] is Some && can_spell(text_at(texts, id), r)) by {
        let t = text_at(texts, id);
        if all.contains(id) {
            let j = choose|j: int| 0 <= j < all.len() && all[j] == id;
            if j < head.len() {
                assert(head[j] == id);
                assert(t == r.take(t.len() as int));
                assert forall|k: int| 0 <= k < t.len() && k < r.len() implies #[trigger] t[k]
                    == r[k] by {
                    assert(r.take(t.len() as int)[k] == r[k]);
                }
                assert(ids.contains(id));
            } else {
                assert(tail[j - head.len()] == id);
                assert(ids.contains(id));
                assert(t.take(n) == r);
                assert forall|k: int| 0 <= k < t.len() && k < r.len() implies #[trigger] t[k]
                    == r[k] by {
                    assert(t.take(n)[k] == r[k]);
                }
            }
        }
        if texts[id as int] is Some && can_spell(t, r) {
            assert(ids.contains(id));
            let i = choose|i: int| 0 <= i < ids.len() && ids[i] == id;
            if t.len() < n {
                assert(t =~= r.take(t.len() as int));
                assert(head.contains(ids[i]));
                let j = choose|j: int| 0 <= j < head.len() && head[j] == id;
                assert(all[j] == id);
            } else {
                assert(t.take(n) =~= r);
                assert((covers_on(texts, r))(ids[i]));
                assert(tail.contains(ids[i]));
                let j = choose|j: int| 0 <= j < tail.len() && tail[j] == id;
                assert(all[head.len() + j] == id);
            }
        }
    }
}

proof fn lemma_leading_distinct(row: Seq<u32>, ids: Seq<u32>, n: int, k: int, total: bool)
    requires
        0 <= n <= ids.len(),
        0 <= k,
        ids.no_duplicates(),
    ensures
        leading(row, ids, n, k, total).no_duplicates(),
        forall|i: int|
            0 <= i < leading(row, ids, n, k, total).len() ==> ids.take(n).contains(
                #[trigger] leading(row, ids, n, k, total)[i],
            ),
    decreases n,
{
    if n > 0 {
        lemma_leading_distinct(row, ids, n - 1, k, total);
        let best = leading(row, ids, n - 1, k, total);
        let id = ids[n - 1];
        let now = leading(row, ids, n, k, total);
        let p = place(row, best, row[id as int], total, 0);
        lemma_place_bounds(row, best, row[id as int], total, 0);
        assert forall|i: int| 0 <= i < best.len() implies best[i] != id && ids.take(n).contains(
            #[trigger] best[i],
        ) by {
            assert(ids.take(n - 1).contains(best[i]));
            let early = ids.take(n - 1);
            let m = choose|m: int| 0 <= m < early.len() && early[m] == best[i];
            assert(ids[m] != ids[n - 1]);
            assert(ids.take(n)[m] == best[i]);
        }
        assert(ids.take(n)[n - 1] == id);
        if now != best {
            assert forall|i: int| 0 <= i < now.len() implies #[trigger] now[i] == (if i < p {
                best[i]
            } else if i == p {
                id
            } else {
                best[i - 1]
            }) by {}
        }
    }
}

proof fn lemma_place_bounds(row: Seq<u32>, best: Seq<u32>, value: u32, total: bool, p: int)
    requires
        0 <= p <= best.len(),
    ensures
        p <= place(row, best, value, total, p) <= best.len(),
    decreases best.len() - p,
{
    if p < best.len() && at_least(row[best[p] as int], value, total) {
        lemma_place_bounds(row, best, value, total, p + 1);
    }
}

/// Behind the target a node goes on with the most probable tokens that start
/// with a word character: the children's tokens are such tokens, no two are the
/// same, they run from the most probable down, and where such a token is left
/// out there are as many children as are kept, none of them less probable. A
/// node whose word is as long as a word may be has no children.
pub proof fn law_free_expansion_is_complete(
    index: &TokenIndex,
    params: SearchParams,
    node: NodeView,
    row: Seq<u32>,
)
    requires
        index.wf(),
        row_fits(index, row),
        forall|id: int| 0 <= id < row.len() ==> !not_a_number(#[trigger] row[id]),
        node.remaining.len() == 0,
    ensures
        ({
            let texts = index.texts_of();
            let kids = children_of(index, params, node, row);
            &&& node.out.len() >= params.max_chars ==> kids.len() == 0
            &&& node.out.len() < params.max_chars ==> {
                &&& kids.len() == (if params.top_free < index.cont_ids@.len() {
                    params.top_free as int
                } else {
                    index.cont_ids@.len() as int
                })
                &&& forall|i: int|
                    0 <= i < kids.len() ==> (#[trigger] kids[i]).id < texts.len() && continues(
                        texts[kids[i].id as int],
                    )
                &&& forall|i: int, j: int|
                    0 <= i < j < kids.len() ==> (#[trigger] kids[i]).id != (#[trigger] kids[j]).id
                        && signed_size(row[kids[i].id as int]) >= signed_size(
                        row[kids[j].id as int],
                    )
                &&& forall|id: u32, i: int|
                    #![trigger is_child(index, params, node, row, id), kids[i]]
                    id < texts.len() && continues(texts[id as int]) && !is_child(
                        index,
                        params,
                        node,
                        row,
                        id,
                    ) && 0 <= i < kids.len() ==> signed_size(row[id as int]) <= signed_size(
                        row[kids[i].id as int],
                    )
                &&& forall|id: u32|
                    #![trigger is_child(index, params, node, row, id)]
                    id < texts.len() && continues(texts[id as int]) && !is_child(
                        index,
                        params,
                        node,
                        row,
                        id,
                    ) ==> kids.len() == params.top_free
            }
        }),
{
    let texts = index.texts_of();
    let ids = index.cont_ids@;
    let kids = children_of(index, params, node, row);
    if node.out.len() < params.max_chars {
        let n = ids.len() as int;
        let k = params.top_free as int;
        let best = leading(row, ids, n, k, false);
        lemma_kinds(texts, texts.len() as int);
        assert forall|i: int| 0 <= i < ids.len() implies !not_a_number(
            row[#[trigger] ids[i] as int],
        ) && ids[i] < texts.len() by {
            assert(ids.contains(ids[i]));
            assert(!not_a_number(row[ids[i] as int]));
        }
        law_leading_are_the_best(row, ids, n, k, false);
        lemma_leading_members(row, ids, n, k, false);
        lemma_leading_distinct(row, ids, n, k, false);
        assert(kids.len() == best.len());
        assert forall|i: int| 0 <= i < kids.len() implies (#[trigger] kids[i]).id == best[i]
            && ids.contains(best[i]) by {
            assert(kids[i] == free_child(index, node.out, best[i]));
        }
        assert forall|i: int, j: int| 0 <= i < j < kids.len() implies (#[trigger] kids[i]).id != (
        #[trigger] kids[j]).id && signed_size(row[kids[i].id as int]) >= signed_size(
            row[kids[j].id as int],
        ) by {
            assert(at_least(row[best[i] as int], row[best[j] as int], false));
        }
        assert forall|id: u32, i: int|
            #![trigger is_child(index, params, node, row, id), kids[i]]
            id < texts.len() && continues(texts[id as int]) && !is_child(
                index,
                params,
                node,
                row,
                id,
            ) && 0 <= i < kids.len() implies signed_size(row[id as int]) <= signed_size(
            row[kids[i].id as int],
        ) by {
            assert(ids.contains(id));
            let m = choose|m: int| 0 <= m < ids.len() && ids[m] == id;
            if best.contains(ids[m]) {
                let j = choose|j: int| 0 <= j < best.len() && best[j] == id;
                assert(kids[j].id == id);
            } else {
                assert(at_least(row[best[i] as int], row[ids[m] as int], false));
            }
        }
        assert forall|id: u32|
            #![trigger is_child(index, params, node, row, id)]
            id < texts.len() && continues(texts[id as int]) && !is_child(
                index,
                params,
                node,
                row,
                id,
            ) implies kids.len() == params.top_free by {
            assert(ids.contains(id));
            if kids.len() < params.top_free {
                lemma_all_listed(row, ids, n, k, false, id);
                let j = choose|j: int| 0 <= j < best.len() && best[j] == id;
                assert(kids[j].id == id);
            }
        }
    }
}

/// Where all fit, all are listed.
proof fn lemma_all_listed(row: Seq<u32>, ids: Seq<u32>, n: int, k: int, total: bool, id: u32)
    requires
        n == ids.len(),
        0 <= k,
        n < k || leading(row, ids, n, k, total).len() < k,
        total || all_numbers(row, ids),
        ids.contains(id),
        ids.no_duplicates(),
    ensures
        leading(row, ids, n, k, total).contains(id),
{
    law_leading_are_the_best(row, ids, n, k, total);
    lemma_leading_distinct(row, ids, n, k, total);
    let best = leading(row, ids, n, k, total);
    assert(ids.take(n) =~= ids);
    assert(best.len() == ids.len());
    if !best.contains(id) {
        best.unique_seq_to_set();
        ids.unique_seq_to_set();
        assert(best.to_set().subset_of(ids.to_set().remove(id))) by {
            assert forall|x: u32| best.to_set().contains(x) implies ids.to_set().remove(
                id,
            ).contains(x) by {
                assert(best.contains(x));
                let i = choose|i: int| 0 <= i < best.len() && best[i] == x;
                assert(ids.take(n).contains(best[i]));
            }
        }
        vstd::set_lib::lemma_len_subset(best.to_set(), ids.to_set().remove(id));
    }
}

/// While the target is spelled a node goes on with the most probable tokens
/// that can spell what remains: no two children have the same token, they run
/// from the most probable down, and where such a token is left out there are as
/// many children as are kept, none of them less probable.
pub proof fn law_spelling_expansion_is_complete(
    index: &TokenIndex,
    params: SearchParams,
    node: NodeView,
    row: Seq<u32>,
)
    requires
        index.wf(),
        row_fits(index, row),
        forall|id: int| 0 <= id < row.len() ==> !not_a_number(#[trigger] row[id]),
        node.remaining.len() > 0,
    ensures
        ({
            let texts = index.texts_of();
            let kids = children_of(index, params, node, row);
            &&& kids.len() <= params.top_prefix
            &&& forall|i: int|
                0 <= i < kids.len() ==> (#[trigger] kids[i]).id < texts.len() && can_spell(
                    text_at(texts, kids[i].id),
                    node.remaining,
                )
            &&& forall|i: int, j: int|
                0 <= i < j < kids.len() ==> (#[trigger] kids[i]).id != (#[trigger] kids[j]).id
                    && signed_size(row[kids[i].id as int]) >= signed_size(row[kids[j].id as int])
            &&& forall|id: u32|
                #![trigger is_child(index, params, node, row, id)]
                id < texts.len() && texts[id as int] is Some && can_spell(
                    text_at(texts, id),
                    node.remaining,
                ) && !is_child(index, params, node, row, id) ==> kids.len() == params.top_prefix
            &&& forall|id: u32, i: int|
                #![trigger is_child(index, params, node, row, id), kids[i]]
                id < texts.len() && texts[id as int] is Some && can_spell(
                    text_at(texts, id),
                    node.remaining,
                ) && !is_child(index, params, node, row, id) && 0 <= i < kids.len() ==> signed_size(
                    row[id as int],
                ) <= signed_size(row[kids[i].id as int])
        }),
{
    let texts = index.texts_of();
    let r = node.remaining;
    let ids = spelling_tokens(index, r);
    let kids = children_of(index, params, node, row);
    let n = ids.len() as int;
    let k = params.top_prefix as int;
    let best = leading(row, ids, n, k, true);
    law_spelling_tokens_are_all(index, r);
    lemma_spelling_members(index, r);
    law_leading_are_the_best(row, ids, n, k, true);
    lemma_leading_members(row, ids, n, k, true);
    lemma_leading_distinct(row, ids, n, k, true);
    assert forall|i: int| 0 <= i < kids.len() implies (#[trigger] kids[i]).id == best[i]
        && ids.contains(best[i]) && best[i] < texts.len() by {
        assert(kids[i] == spelling_child(index, r, best[i]));
        let j = choose|j: int| 0 <= j < ids.len() && ids[j] == best[i];
        assert(spelling_tokens(index, r)[j] == best[i]);
    }
    assert forall|i: int, j: int| 0 <= i < j < kids.len() implies (#[trigger] kids[i]).id != (
    #[trigger] kids[j]).id && signed_size(row[kids[i].id as int]) >= signed_size(
        row[kids[j].id as int],
    ) by {
        assert(at_least(row[best[i] as int], row[best[j] as int], true));
        assert(!not_a_number(row[best[i] as int]));
        assert(!not_a_number(row[best[j] as int]));
    }
    assert forall|id: u32|
        #![trigger is_child(index, params, node, row, id)]
        id < texts.len() && texts[id as int] is Some && can_spell(text_at(texts, id), r)
            && !is_child(index, params, node, row, id) implies kids.len() == params.top_prefix by {
        assert(ids.contains(id));
        if kids.len() < params.top_prefix {
            lemma_all_listed(row, ids, n, k, true, id);
            let j = choose|j: int| 0 <= j < best.len() && best[j] == id;
            assert(kids[j].id == id);
        }
    }
    assert forall|id: u32, i: int|
        #![trigger is_child(index, params, node, row, id), kids[i]]
        id < texts.len() && texts[id as int] is Some && can_spell(text_at(texts, id), r)
            && !is_child(index, params, node, row, id) && 0 <= i < kids.len() implies signed_size(
        row[id as int],
    ) <= signed_size(row[kids[i].id as int]) by {
        assert(ids.contains(id));
        let m = choose|m: int| 0 <= m < ids.len() && ids[m] == id;
        if best.contains(ids[m]) {
            let j = choose|j: int| 0 <= j < best.len() && best[j] == id;
            assert(kids[j].id == id);
        } else {
            assert(at_least(row[best[i] as int], row[ids[m] as int], true));
            assert(!not_a_number(row[best[i] as int]));
            assert(!not_a_number(row[id as int]));
        }
    }
}

/// The tokens whose probability stays in the prefix-consistent mass are exactly
/// those whose text agrees with what remains as far as both go.
pub proof fn law_consistent_tokens_are_all(index: &TokenIndex, r: Seq<char>, id: u32)
    requires
        index.wf(),
        r.len() > 0,
        id < index.texts@.len(),
    ensures
        (spelling_tokens(index, r) + closing_tokens(index, r)).contains(id) <==> {
            let t = text_at(index.texts_of(), id);
            &&& index.texts_of()[id as int] is Some
            &&& t.len() > 0
            &&& forall|k: int| 0 <= k < t.len() && k < r.len() ==> #[trigger] t[k] == r[k]
        },
{
    let texts = index.texts_of();
    let ids = index.sorted@;
    let t = text_at(texts, id);
    let n = r.len() as int;
    let a = spelling_tokens(index, r);
    let b = closing_tokens(index, r);
    law_spelling_tokens_are_all(index, r);
    lemma_kept(ids, closes(texts, r), ids.len() as int);
    assert(ids.take(ids.len() as int) =~= ids);
    if (a + b).contains(id) {
        let j = choose|j: int| 0 <= j < (a + b).len() && (a + b)[j] == id;
        if j < a.len() {
            assert(a[j] == id);
            assert(a.contains(id));
        } else {
            assert(b[j - a.len()] == id);
            assert((closes(texts, r))(id));
            assert(ids.contains(id));
            assert(t.take(n) == r);
            assert forall|k: int| 0 <= k < t.len() && k < r.len() implies #[trigger] t[k]
                == r[k] by {
                assert(t.take(n)[k] == r[k]);
            }
        }
    }
    if texts[id as int] is Some && t.len() > 0 && (forall|k: int|
        0 <= k < t.len() && k < r.len() ==> #[trigger] t[k] == r[k]) {
        if can_spell(t, r) {
            assert(a.contains(id));
            let j = choose|j: int| 0 <= j < a.len() && a[j] == id;
            assert((a + b)[j] == id);
        } else {
            assert(t.take(n) =~= r);
            assert(ids.contains(id));
            let i = choose|i: int| 0 <= i < ids.len() && ids[i] == id;
            assert((closes(texts, r))(ids[i]));
            assert(b.contains(ids[i]));
            let j = choose|j: int| 0 <= j < b.len() && b[j] == id;
            assert((a + b)[a.len() + j] == id);
        }
    }
}

} // verus!
