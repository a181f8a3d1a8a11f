//! What holds of every search: its words are made of word characters, their
//! paths spell the target first, no word comes twice, and neither the number of
//! words nor the number of expansions passes its limit.

use vstd::prelude::*;

use super::ranking::{leading, lemma_leading_members};
use super::search::{
    advanced, by_cost, cheapest, children_of, cost_place, free_child, has_word,
    law_cheapest_comes_first, lemma_spelling_members, proper_prefix, queued, spelling_child,
    spelling_tokens, topped_up, with_word, NodeView, SearchParams, State,
};
use super::token_index::{
    continues, covers_on, extends, lemma_run_stop, run_stop, text_at, tokens_by_kind, TokenIndex,
};
use crate::prose::word_char;

verus! {

/// The texts of a path's tokens, one after the other.
pub open spec fn path_text(texts: Seq<Option<Seq<char>>>, path: Seq<u32>) -> Seq<char>
    decreases path.len(),
{
    if path.len() == 0 {
        Seq::empty()
    } else {
        path_text(texts, path.drop_last()) + text_at(texts, path.last())
    }
}

/// Nothing but word characters.
pub open spec fn all_word_chars(s: Seq<char>) -> bool {
    forall|k: int| 0 <= k < s.len() ==> word_char(#[trigger] s[k])
}

/// A path's text is what the node says: the target as far as it is spelled, and
/// then the characters beyond it; a finished word is not empty, and may be
/// followed by more.
pub open spec fn node_ok(index: &TokenIndex, target: Seq<char>, node: NodeView) -> bool {
    let text = path_text(index.texts_of(), node.path);
    &&& all_word_chars(node.out)
    &&& node.remaining.len() > 0 ==> node.out.len() == 0
    &&& node.terminal ==> node.out.len() > 0
    &&& if node.terminal {
        node.remaining.len() == 0 && extends(text, target + node.out)
    } else {
        text + node.remaining == target + node.out
    }
}

/// Some path spells the target, then the word.
pub open spec fn reached(index: &TokenIndex, target: Seq<char>, word: Seq<char>) -> bool {
    exists|path: Seq<u32>|
        extends(#[trigger] path_text(index.texts_of(), path), target + word)
}

/// No word is empty, the words are made of word characters, some path spells
/// each behind the target, and no two are the same.
pub open spec fn words_ok(index: &TokenIndex, target: Seq<char>, words: Seq<(Seq<char>, u64)>) -> bool {
    &&& forall|i: int|
        0 <= i < words.len() ==> (#[trigger] words[i]).0.len() > 0 && all_word_chars(words[i].0)
            && reached(index, target, words[i].0)
    &&& forall|i: int, j: int|
        0 <= i < j < words.len() ==> (#[trigger] words[i]).0 != (#[trigger] words[j]).0
}

/// What every state of a search satisfies.
pub open spec fn state_ok(
    index: &TokenIndex,
    target: Seq<char>,
    state: State,
    n: int,
    budget: int,
) -> bool {
    &&& forall|i: int| 0 <= i < state.queue.len() ==> node_ok(index, target, #[trigger] state.queue[i])
    &&& words_ok(index, target, state.found)
    &&& state.found.len() <= n
    &&& state.expanded <= budget
}

/// A search starts in such a state.
pub proof fn law_search_starts_well(
    index: &TokenIndex,
    target: Seq<char>,
    root: NodeView,
    state: State,
    n: int,
    budget: int,
)
    requires
        0 <= n,
        0 <= budget,
        root.path == Seq::<u32>::empty(),
        root.remaining == target,
        root.out == Seq::<char>::empty(),
        !root.terminal,
        state.queue == seq![root],
        state.found == Seq::<(Seq<char>, u64)>::empty(),
        state.expanded == 0,
    ensures
        state_ok(index, target, state, n, budget),
{
    assert(path_text(index.texts_of(), root.path) + root.remaining =~= target + root.out);
}

proof fn lemma_with_word(
    index: &TokenIndex,
    target: Seq<char>,
    found: Seq<(Seq<char>, u64)>,
    node: NodeView,
)
    requires
        words_ok(index, target, found),
        node_ok(index, target, node),
        node.terminal,
    ensures
        words_ok(index, target, with_word(found, node.out, node.cost)),
        with_word(found, node.out, node.cost).len() <= found.len() + 1,
{
    assert(reached(index, target, node.out)) by {
        assert(extends(path_text(index.texts_of(), node.path), target + node.out));
    }
    let after = with_word(found, node.out, node.cost);
    if !has_word(found, node.out) {
        assert forall|i: int, j: int| 0 <= i < j < after.len() implies (#[trigger] after[i]).0 != (
        #[trigger] after[j]).0 by {
            if j == found.len() {
                assert(after[i] == found[i]);
            }
        }
    }
}

/// Taking nodes off the queue keeps the state good, and the node to expand is
/// good itself and not finished.
pub proof fn law_next_keeps_the_search_good(
    index: &TokenIndex,
    target: Seq<char>,
    state: State,
    n: int,
    budget: int,
)
    requires
        state_ok(index, target, state, n, budget),
    ensures
        state_ok(index, target, advanced(state, n, budget).0, n, budget),
        advanced(state, n, budget).1 matches Some(node) ==> node_ok(index, target, node)
            && !node.terminal,
    decreases state.queue.len(),
{
    if state.found.len() < n {
        let k = state.queue.len() as int;
        law_cheapest_comes_first(state.queue, false, k);
        match cheapest(state.queue, false, k) {
            Some(i) if 0 <= i < state.queue.len() => {
                let node = state.queue[i];
                let queue = state.queue.remove(i);
                assert forall|j: int| 0 <= j < queue.len() implies node_ok(
                    index,
                    target,
                    #[trigger] queue[j],
                ) by {
                    if j < i {
                        assert(queue[j] == state.queue[j]);
                    } else {
                        assert(queue[j] == state.queue[j + 1]);
                    }
                }
                if node.terminal {
                    lemma_with_word(index, target, state.found, node);
                    law_next_keeps_the_search_good(
                        index,
                        target,
                        State {
                            queue,
                            found: with_word(state.found, node.out, node.cost),
                            expanded: state.expanded,
                        },
                        n,
                        budget,
                    );
                }
            },
            _ => {},
        }
    }
}

proof fn lemma_path_push(texts: Seq<Option<Seq<char>>>, path: Seq<u32>, id: u32)
    ensures
        path_text(texts, path.push(id)) == path_text(texts, path) + text_at(texts, id),
{
    assert(path.push(id).drop_last() =~= path);
}

proof fn lemma_spelling_child(
    index: &TokenIndex,
    target: Seq<char>,
    node: NodeView,
    id: u32,
    cost: u64,
)
    requires
        node_ok(index, target, node),
        !node.terminal,
        node.remaining.len() > 0,
        proper_prefix(index, node.remaining, id) || (covers_on(index.texts_of(), node.remaining))(
            id,
        ),
    ensures
        ({
            let child = spelling_child(index, node.remaining, id);
            node_ok(
                index,
                target,
                NodeView {
                    cost,
                    path: node.path.push(id),
                    remaining: child.remaining,
                    out: child.out,
                    terminal: child.terminal,
                },
            )
        }),
{
    let texts = index.texts_of();
    let r = node.remaining;
    let t = text_at(texts, id);
    let before = path_text(texts, node.path);
    let after = path_text(texts, node.path.push(id));
    lemma_path_push(texts, node.path, id);
    assert(node.out =~= Seq::<char>::empty());
    assert(before + r == target + node.out);
    assert(target + node.out =~= target);
    if t.len() <= r.len() {
        assert(r.take(t.len() as int) =~= t);
        assert(r =~= t + r.skip(t.len() as int));
        assert(after + r.skip(t.len() as int) =~= before + (t + r.skip(t.len() as int)));
        assert(target + Seq::<char>::empty() =~= target);
    } else {
        let rest = t.skip(r.len() as int);
        let stop = run_stop(rest, 0);
        lemma_run_stop(rest, 0);
        assert(t =~= r + rest);
        assert(after =~= (before + r) + rest);
        assert(after =~= target + rest);
        if stop < rest.len() {
            assert(after.take((target + rest.take(stop)).len() as int) =~= target + rest.take(
                stop,
            ));
        } else {
            assert(rest.take(stop) =~= rest);
            assert(after + Seq::<char>::empty() =~= target + rest);
        }
    }
}

/// The tokens of a kind are such tokens.
proof fn lemma_kind_members(texts: Seq<Option<Seq<char>>>, k: int, id: u32)
    requires
        0 <= k <= texts.len() <= 0x1_0000_0000,
        tokens_by_kind(texts, k, true).contains(id),
    ensures
        id < k,
        continues(texts[id as int]),
    decreases k,
{
    let ids = tokens_by_kind(texts, k, true);
    let j = choose|j: int| 0 <= j < ids.len() && ids[j] == id;
    if k > 0 {
        let before = tokens_by_kind(texts, k - 1, true);
        if j < before.len() {
            assert(before[j] == id);
            lemma_kind_members(texts, k - 1, id);
        }
    }
}

proof fn lemma_free_child(index: &TokenIndex, target: Seq<char>, node: NodeView, id: u32, cost: u64)
    requires
        node_ok(index, target, node),
        !node.terminal,
        node.remaining.len() == 0,
        0 <= id < index.texts_of().len(),
        continues(index.texts_of()[id as int]),
    ensures
        ({
            let child = free_child(index, node.out, id);
            node_ok(
                index,
                target,
                NodeView {
                    cost,
                    path: node.path.push(id),
                    remaining: child.remaining,
                    out: child.out,
                    terminal: child.terminal,
                },
            )
        }),
{
    let texts = index.texts_of();
    let t = text_at(texts, id);
    let before = path_text(texts, node.path);
    let after = path_text(texts, node.path.push(id));
    lemma_path_push(texts, node.path, id);
    let stop = run_stop(t, 0);
    lemma_run_stop(t, 0);
    assert(stop > 0);
    assert(before + node.remaining =~= before);
    let out = node.out + t.take(stop);
    assert forall|k: int| 0 <= k < out.len() implies word_char(#[trigger] out[k]) by {
        if k >= node.out.len() {
            assert(out[k] == t[k - node.out.len()]);
        } else {
            assert(out[k] == node.out[k]);
        }
    }
    assert(after =~= (target + node.out) + t);
    if stop < t.len() {
        assert(after.take((target + out).len() as int) =~= target + out);
    } else {
        assert(t.take(stop) =~= t);
        assert(after + Seq::<char>::empty() =~= target + out);
    }
}

/// Expanding a good node queues good nodes only.
pub proof fn law_expansion_keeps_the_search_good(
    index: &TokenIndex,
    target: Seq<char>,
    params: SearchParams,
    node: NodeView,
    row: Seq<u32>,
    stop_cost: u64,
    costs: Seq<u64>,
)
    requires
        index.wf(),
        node_ok(index, target, node),
        !node.terminal,
    ensures
        ({
            let stop = node.remaining.len() == 0 && node.out.len() > 0;
            let more = queued(
                node,
                stop,
                stop_cost,
                children_of(index, params, node, row),
                costs,
            );
            forall|i: int| 0 <= i < more.len() ==> node_ok(index, target, #[trigger] more[i])
        }),
{
    let stop = node.remaining.len() == 0 && node.out.len() > 0;
    let kids = children_of(index, params, node, row);
    let more = queued(node, stop, stop_cost, kids, costs);
    let texts = index.texts_of();
    assert forall|i: int| 0 <= i < more.len() implies node_ok(index, target, #[trigger] more[i]) by {
        if stop && i == 0 {
            let text = path_text(texts, node.path);
            assert(text + node.remaining =~= text);
            assert(text.take((target + node.out).len() as int) =~= target + node.out);
        } else {
            let j = if stop {
                i - 1
            } else {
                i
            };
            if node.remaining.len() > 0 {
                let cand = spelling_tokens(index, node.remaining);
                let best = leading(row, cand, cand.len() as int, params.top_prefix as int, true);
                lemma_spelling_members(index, node.remaining);
                lemma_leading_members(
                    row,
                    cand,
                    cand.len() as int,
                    params.top_prefix as int,
                    true,
                );
                assert(kids[j] == spelling_child(index, node.remaining, best[j]));
                assert(cand.contains(best[j]));
                let k = choose|k: int| 0 <= k < cand.len() && cand[k] == best[j];
                assert(spelling_tokens(index, node.remaining)[k] == best[j]);
                lemma_spelling_child(index, target, node, best[j], costs[j]);
            } else {
                let ids = index.cont_ids@;
                let best = leading(row, ids, ids.len() as int, params.top_free as int, false);
                assert(kids[j] == free_child(index, node.out, best[j]));
                lemma_leading_members(row, ids, ids.len() as int, params.top_free as int, false);
                lemma_kind_members(texts, texts.len() as int, best[j]);
                lemma_free_child(index, target, node, best[j], costs[j]);
            }
        }
    }
}

proof fn lemma_topped_up(
    index: &TokenIndex,
    target: Seq<char>,
    queue: Seq<NodeView>,
    found: Seq<(Seq<char>, u64)>,
    n: int,
)
    requires
        forall|i: int| 0 <= i < queue.len() ==> node_ok(index, target, #[trigger] queue[i]),
        words_ok(index, target, found),
        found.len() <= n,
    ensures
        words_ok(index, target, topped_up(queue, found, n)),
        topped_up(queue, found, n).len() <= n,
    decreases queue.len(),
{
    if found.len() < n {
        let k = queue.len() as int;
        law_cheapest_comes_first(queue, true, k);
        match cheapest(queue, true, k) {
            Some(i) if 0 <= i < queue.len() => {
                let rest = queue.remove(i);
                assert forall|j: int| 0 <= j < rest.len() implies node_ok(
                    index,
                    target,
                    #[trigger] rest[j],
                ) by {
                    if j < i {
                        assert(rest[j] == queue[j]);
                    } else {
                        assert(rest[j] == queue[j + 1]);
                    }
                }
                lemma_with_word(index, target, found, queue[i]);
                lemma_topped_up(index, target, rest, with_word(found, queue[i].out, queue[i].cost), n);
            },
            _ => {},
        }
    }
}

proof fn lemma_cost_place(words: Seq<(Seq<char>, u64)>, cost: u64, p: int)
    requires
        0 <= p <= words.len(),
    ensures
        p <= cost_place(words, cost, p) <= words.len(),
        forall|j: int| p <= j < cost_place(words, cost, p) ==> (#[trigger] words[j]).1 <= cost,
        cost_place(words, cost, p) < words.len() ==> words[cost_place(words, cost, p)].1 > cost,
    decreases words.len() - p,
{
    if p < words.len() && words[p].1 <= cost {
        lemma_cost_place(words, cost, p + 1);
    }
}

/// Costs do not descend.
pub open spec fn cheapest_first(words: Seq<(Seq<char>, u64)>) -> bool {
    forall|i: int, j: int|
        0 <= i <= j < words.len() ==> (#[trigger] words[i]).1 <= (#[trigger] words[j]).1
}

proof fn lemma_by_cost(words: Seq<(Seq<char>, u64)>, k: int)
    requires
        0 <= k <= words.len(),
    ensures
        by_cost(words, k).len() == k,
        cheapest_first(by_cost(words, k)),
        forall|i: int|
            0 <= i < k ==> words.take(k).contains(#[trigger] by_cost(words, k)[i]),
        forall|i: int| 0 <= i < k ==> by_cost(words, k).contains(#[trigger] words[i]),
    decreases k,
{
    if k > 0 {
        lemma_by_cost(words, k - 1);
        let before = by_cost(words, k - 1);
        let now = by_cost(words, k);
        let e = words[k - 1];
        let p = cost_place(before, e.1, 0);
        lemma_cost_place(before, e.1, 0);
        assert(now == before.insert(p, e));
        assert forall|i: int| 0 <= i < k implies #[trigger] now[i] == (if i < p {
            before[i]
        } else if i == p {
            e
        } else {
            before[i - 1]
        }) by {}
        assert forall|i: int, j: int| 0 <= i <= j < now.len() implies (#[trigger] now[i]).1 <= (
        #[trigger] now[j]).1 by {
            if i < p && j > p {
                assert(before[i].1 <= before[j - 1].1);
            } else if i == p && j > p {
                assert(before[p].1 <= before[j - 1].1);
            }
        }
        assert forall|i: int| 0 <= i < k implies words.take(k).contains(#[trigger] now[i]) by {
            if i == p {
                assert(words.take(k)[k - 1] == e);
            } else {
                let b = if i < p {
                    i
                } else {
                    i - 1
                };
                assert(words.take(k - 1).contains(before[b]));
                let head = words.take(k - 1);
                let m = choose|m: int| 0 <= m < head.len() && head[m] == before[b];
                assert(words.take(k)[m] == before[b]);
            }
        }
        assert forall|i: int| 0 <= i < k implies now.contains(#[trigger] words[i]) by {
            if i == k - 1 {
                assert(now[p] == e);
            } else {
                assert(before.contains(words[i]));
                let b = choose|b: int| 0 <= b < before.len() && before[b] == words[i];
                if b < p {
                    assert(now[b] == words[i]);
                } else {
                    assert(now[b + 1] == words[i]);
                }
            }
        }
    }
}

/// Different words stay different in order of cost.
proof fn lemma_by_cost_distinct(words: Seq<(Seq<char>, u64)>, k: int)
    requires
        0 <= k <= words.len(),
        forall|i: int, j: int|
            0 <= i < j < words.len() ==> (#[trigger] words[i]).0 != (#[trigger] words[j]).0,
    ensures
        forall|i: int, j: int|
            0 <= i < j < by_cost(words, k).len() ==> (#[trigger] by_cost(words, k)[i]).0 != (
            #[trigger] by_cost(words, k)[j]).0,
    decreases k,
{
    if k > 0 {
        lemma_by_cost_distinct(words, k - 1);
        lemma_by_cost(words, k - 1);
        let before = by_cost(words, k - 1);
        let now = by_cost(words, k);
        let e = words[k - 1];
        let p = cost_place(before, e.1, 0);
        lemma_cost_place(before, e.1, 0);
        assert forall|b: int| 0 <= b < before.len() implies (#[trigger] before[b]).0 != e.0 by {
            assert(words.take(k - 1).contains(before[b]));
            let head = words.take(k - 1);
            let m = choose|m: int| 0 <= m < head.len() && head[m] == before[b];
            assert(words[m].0 != words[k - 1].0);
        }
        assert forall|i: int, j: int| 0 <= i < j < now.len() implies (#[trigger] now[i]).0 != (
        #[trigger] now[j]).0 by {
            let a = if i < p {
                i
            } else {
                i - 1
            };
            let b = if j < p {
                j
            } else {
                j - 1
            };
            if i != p && j != p {
                assert(now[i] == before[a] && now[j] == before[b]);
            } else if i == p {
                assert(now[j] == before[b]);
            } else {
                assert(now[i] == before[a]);
            }
        }
    }
}

/// The completions of a good state: at most `n` words, the cheapest first, no
/// word twice, each made of word characters and spelled by a path behind the
/// target.
pub proof fn law_completions_spell_the_target(
    index: &TokenIndex,
    target: Seq<char>,
    state: State,
    n: int,
    budget: int,
)
    requires
        state_ok(index, target, state, n, budget),
    ensures
        ({
            let all = topped_up(state.queue, state.found, n);
            let words = by_cost(all, all.len() as int);
            &&& words.len() <= n
            &&& cheapest_first(words)
            &&& words_ok(index, target, words)
        }),
{
    let all = topped_up(state.queue, state.found, n);
    let k = all.len() as int;
    let words = by_cost(all, k);
    lemma_topped_up(index, target, state.queue, state.found, n);
    lemma_by_cost(all, k);
    lemma_by_cost_distinct(all, k);
    assert(all.take(k) =~= all);
    assert forall|i: int| 0 <= i < words.len() implies all_word_chars((#[trigger] words[i]).0)
        && reached(index, target, words[i].0) by {
        assert(all.contains(words[i]));
        let m = choose|m: int| 0 <= m < all.len() && all[m] == words[i];
        assert(all_word_chars(all[m].0));
    }
}

} // verus!
