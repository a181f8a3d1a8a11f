//! How far the completion goes: which nodes a search takes, which words it
//! finds, which pairs are merged, and which rows are scored again.

use vstd::prelude::*;

use super::bpe::{
    best_merge, joined, law_best_merge_is_lowest_and_leftmost, merged, merges_at, token_at, Symbol,
};
use super::context::token_past;
use super::kv_session::{can_restore, restored_to, score_from, shared, with_rows};
use super::pre_tokens::{piece_spans, pre_spans, stop_of};
use super::search::{
    advanced, cheapest, has_word, law_cheapest_comes_first, queued, topped_up, with_word, ChildView,
    NodeView, State,
};
use crate::unicode::{byte_len, numeric, whitespace};

verus! {

proof fn lemma_with_word(found: Seq<(Seq<char>, u64)>, word: Seq<char>, cost: u64)
    ensures
        has_word(with_word(found, word, cost), word),
        found.is_prefix_of(with_word(found, word, cost)),
{
    let now = with_word(found, word, cost);
    if !has_word(found, word) {
        assert(now[found.len() as int].0 == word);
    }
}

proof fn lemma_has_word_grows(
    a: Seq<(Seq<char>, u64)>,
    b: Seq<(Seq<char>, u64)>,
    word: Seq<char>,
)
    requires
        a.is_prefix_of(b),
        has_word(a, word),
    ensures
        has_word(b, word),
{
    let i = choose|i: int| 0 <= i < a.len() && (#[trigger] a[i]).0 == word;
    assert(b[i] == a[i]);
}

/// A search takes the cheapest open node as long as words are wanted, nodes
/// are left and the budget lasts; every finished node that is cheaper has had
/// its word noted by then, and no word is lost.
pub proof fn law_search_goes_on_while_it_may(state: State, n: int, budget: int)
    ensures
        ({
            let (after, next) = advanced(state, n, budget);
            &&& state.found.is_prefix_of(after.found)
            &&& next is Some ==> {
                let node = next->0;
                &&& state.queue.contains(node)
                &&& !node.terminal
                &&& after.found.len() < n
                &&& state.expanded < budget
                &&& after.expanded == state.expanded + 1
                &&& forall|j: int|
                    0 <= j < state.queue.len() && (#[trigger] state.queue[j]).cost < node.cost
                        ==> state.queue[j].terminal && has_word(after.found, state.queue[j].out)
            }
            &&& next is None ==> {
                &&& after.expanded == state.expanded
                &&& after.found.len() >= n || after.queue.len() == 0 || state.expanded >= budget
            }
        }),
    decreases state.queue.len(),
{
    let (after, next) = advanced(state, n, budget);
    if state.found.len() < n {
        let k = state.queue.len() as int;
        law_cheapest_comes_first(state.queue, false, k);
        match cheapest(state.queue, false, k) {
            Some(i) if 0 <= i < state.queue.len() => {
                let node = state.queue[i];
                let queue = state.queue.remove(i);
                if node.terminal {
                    let mid = State {
                        queue,
                        found: with_word(state.found, node.out, node.cost),
                        expanded: state.expanded,
                    };
                    lemma_with_word(state.found, node.out, node.cost);
                    law_search_goes_on_while_it_may(mid, n, budget);
                    assert(advanced(mid, n, budget) == (after, next));
                    assert forall|j: int| 0 <= j < state.found.len() implies state.found[j]
                        == after.found[j] by {
                        assert(mid.found[j] == state.found[j]);
                    }
                    assert(state.found.is_prefix_of(after.found));
                    if next is Some {
                        let q = choose|q: int| 0 <= q < queue.len() && queue[q] == next->0;
                        assert(state.queue[if q < i {
                            q
                        } else {
                            q + 1
                        }] == next->0);
                        lemma_has_word_grows(mid.found, after.found, node.out);
                        assert forall|j: int|
                            0 <= j < state.queue.len() && (#[trigger] state.queue[j]).cost < (
                            next->0).cost implies state.queue[j].terminal && has_word(
                            after.found,
                            state.queue[j].out,
                        ) by {
                            if j < i {
                                assert(queue[j] == state.queue[j]);
                            } else if j > i {
                                assert(queue[j - 1] == state.queue[j]);
                            }
                        }
                    }
                } else if state.expanded < budget {
                    assert(state.queue[i] == next->0);
                } else {
                }
            },
            _ => {},
        }
    }
}

/// What is still wanted once a search has ended is taken from the finished
/// nodes: nothing found is lost, and fewer words than asked for are given only
/// where every finished node's word is among them.
pub proof fn law_finished_nodes_fill_up(
    queue: Seq<NodeView>,
    found: Seq<(Seq<char>, u64)>,
    n: int,
)
    ensures
        ({
            let all = topped_up(queue, found, n);
            &&& found.is_prefix_of(all)
            &&& all.len() >= n || forall|j: int|
                0 <= j < queue.len() && (#[trigger] queue[j]).terminal ==> has_word(
                    all,
                    queue[j].out,
                )
        }),
    decreases queue.len(),
{
    let all = topped_up(queue, found, n);
    if found.len() < n {
        law_cheapest_comes_first(queue, true, queue.len() as int);
        match cheapest(queue, true, queue.len() as int) {
            Some(i) if 0 <= i < queue.len() => {
                let mid = with_word(found, queue[i].out, queue[i].cost);
                let rest = queue.remove(i);
                lemma_with_word(found, queue[i].out, queue[i].cost);
                law_finished_nodes_fill_up(rest, mid, n);
                assert(all == topped_up(rest, mid, n));
                assert forall|j: int| 0 <= j < found.len() implies found[j] == all[j] by {
                    assert(mid[j] == found[j]);
                }
                assert(found.is_prefix_of(all));
                lemma_has_word_grows(mid, all, queue[i].out);
                if all.len() < n {
                    assert forall|j: int|
                        0 <= j < queue.len() && (#[trigger] queue[j]).terminal implies has_word(
                        all,
                        queue[j].out,
                    ) by {
                        if j < i {
                            assert(rest[j] == queue[j]);
                        } else if j > i {
                            assert(rest[j - 1] == queue[j]);
                        }
                    }
                }
            },
            _ => {},
        }
    }
}

/// Expanding a node queues each of its children with its own cost and its
/// token at the end of the path, and, where the word may end here, the node's
/// own word.
pub proof fn law_every_child_is_queued(
    node: NodeView,
    stop: bool,
    stop_cost: u64,
    children: Seq<ChildView>,
    costs: Seq<u64>,
    i: int,
)
    requires
        0 <= i < children.len(),
        costs.len() == children.len(),
    ensures
        ({
            let all = queued(node, stop, stop_cost, children, costs);
            let q = all[all.len() - children.len() + i];
            &&& all.len() == children.len() + (if stop {
                1int
            } else {
                0
            })
            &&& q.cost == costs[i]
            &&& q.path.len() == node.path.len() + 1
            &&& q.path.drop_last() == node.path
            &&& q.path.last() == children[i].id
            &&& q.out == children[i].out
            &&& q.remaining == children[i].remaining
            &&& q.terminal == children[i].terminal
            &&& stop ==> all[0].terminal && all[0].out == node.out && all[0].cost == stop_cost
                && all[0].path == node.path
        }),
{
    let all = queued(node, stop, stop_cost, children, costs);
    let q = all[all.len() - children.len() + i];
    assert(q.path.drop_last() =~= node.path);
}

/// Merging goes on until no two neighbours can be merged.
pub proof fn law_merging_leaves_no_pair(merges: Map<u64, (u32, u32)>, symbols: Seq<Symbol>)
    ensures
        forall|j: int|
            0 <= j < merged(merges, symbols).len() - 1 ==> !#[trigger] merges_at(
                merges,
                merged(merges, symbols),
                j,
            ),
        merged(merges, symbols).len() <= symbols.len(),
    decreases symbols.len(),
{
    law_best_merge_is_lowest_and_leftmost(merges, symbols, symbols.len() - 1);
    match best_merge(merges, symbols, symbols.len() - 1) {
        Some(i) if 0 <= i < symbols.len() - 1 => {
            law_merging_leaves_no_pair(merges, joined(symbols, i, token_at(merges, symbols, i)));
        },
        _ => {},
    }
}

/// One merge puts a token in the place of two neighbours, over the bytes of
/// both, and leaves the others as they are.
pub proof fn law_a_merge_joins_two_neighbours(symbols: Seq<Symbol>, i: int, id: u32)
    requires
        0 <= i < symbols.len() - 1,
    ensures
        joined(symbols, i, id) == symbols.take(i) + seq![
            (id, symbols[i].1, symbols[i + 1].2),
        ] + symbols.skip(i + 2),
{
    assert(joined(symbols, i, id) =~= symbols.take(i) + seq![
        (id, symbols[i].1, symbols[i + 1].2),
    ] + symbols.skip(i + 2));
}

/// Tokens are kept up to the first that reaches past a place in the text.
pub proof fn law_tokens_are_kept_up_to_the_place(tokens: Seq<Symbol>, start: int, i: int)
    requires
        0 <= i <= tokens.len(),
    ensures
        i <= token_past(tokens, start, i) <= tokens.len(),
        forall|k: int| i <= k < token_past(tokens, start, i) ==> (#[trigger] tokens[k]).2 <= start,
        token_past(tokens, start, i) < tokens.len() ==> tokens[token_past(tokens, start, i)].2
            > start,
    decreases tokens.len() - i,
{
    if i < tokens.len() && tokens[i].2 <= start {
        law_tokens_are_kept_up_to_the_place(tokens, start, i + 1);
    }
}

proof fn lemma_shared(a: Seq<u32>, b: Seq<u32>, i: int)
    requires
        0 <= i <= a.len(),
        i <= b.len(),
    ensures
        i <= shared(a, b, i) <= a.len(),
        shared(a, b, i) <= b.len(),
        forall|k: int| i <= k < shared(a, b, i) ==> #[trigger] a[k] == b[k],
        shared(a, b, i) < a.len() && shared(a, b, i) < b.len() ==> a[shared(a, b, i)]
            != b[shared(a, b, i)],
    decreases a.len() - i,
{
    if i < a.len() && i < b.len() && a[i] == b[i] {
        lemma_shared(a, b, i + 1);
    }
}

/// Scoring starts at the first token that differs from what is cached, and at
/// the last one where none does: the cached tokens before it are the asked
/// ones, and no more could have been kept.
pub proof fn law_scoring_starts_where_the_cache_ends(cached: Seq<u32>, full: Seq<u32>)
    requires
        full.len() > 0,
    ensures
        ({
            let from = score_from(cached, full);
            &&& 0 <= from < full.len()
            &&& from <= cached.len()
            &&& cached.take(from) == full.take(from)
            &&& from == full.len() - 1 || from == cached.len() || cached[from] != full[from]
        }),
{
    lemma_shared(cached, full, 0);
    let from = score_from(cached, full);
    assert(cached.take(from) =~= full.take(from)) by {
        assert forall|k: int| 0 <= k < from implies cached[k] == full[k] by {}
    }
}

/// Stored rows are restored as far as they reach, but never the last token:
/// each restored step is stored, and the step at which restoring ends is not,
/// or is the last.
pub proof fn law_restoring_ends_at_the_first_gap(
    kv: Map<Seq<u32>, u64>,
    full: Seq<u32>,
    base: int,
    from: int,
)
    requires
        0 <= base <= from < full.len(),
    ensures
        ({
            let to = restored_to(kv, full, base, from);
            &&& from <= to < full.len()
            &&& forall|i: int|
                from <= i < to ==> kv.contains_key(#[trigger] full.subrange(base, i + 1))
            &&& to == full.len() - 1 || !kv.contains_key(full.subrange(base, to + 1))
        }),
    decreases full.len() - from,
{
    if can_restore(kv, full, base, from) {
        law_restoring_ends_at_the_first_gap(kv, full, base, from + 1);
    }
}

proof fn lemma_rows(
    memo: Map<Seq<u32>, u64>,
    full: Seq<u32>,
    base: int,
    keep: int,
    rows: Seq<u64>,
    n: int,
    i: int,
)
    requires
        0 <= base <= keep,
        keep + n <= full.len(),
        0 <= i < n,
    ensures
        with_rows(memo, full, base, keep, rows, n).contains_key(full.subrange(base, keep + i + 1)),
        with_rows(memo, full, base, keep, rows, n)[full.subrange(base, keep + i + 1)] == rows[i],
    decreases n,
{
    if i < n - 1 {
        lemma_rows(memo, full, base, keep, rows, n - 1, i);
        assert(full.subrange(base, keep + i + 1).len() != full.subrange(base, keep + n).len());
    }
}

proof fn lemma_rows_beside(
    memo: Map<Seq<u32>, u64>,
    full: Seq<u32>,
    base: int,
    keep: int,
    rows: Seq<u64>,
    n: int,
    path: Seq<u32>,
)
    requires
        0 <= base <= keep,
        keep + n <= full.len(),
        memo.contains_key(path),
        forall|i: int| 0 <= i < n ==> path != #[trigger] full.subrange(base, keep + i + 1),
    ensures
        with_rows(memo, full, base, keep, rows, n).contains_key(path),
        with_rows(memo, full, base, keep, rows, n)[path] == memo[path],
    decreases n,
{
    if n > 0 {
        lemma_rows_beside(memo, full, base, keep, rows, n - 1, path);
        assert(path != full.subrange(base, keep + (n - 1) + 1));
    }
}

/// Each row of a score is kept under the tokens that lead to it, and what was
/// kept under other tokens stays.
pub proof fn law_rows_are_kept_under_their_tokens(
    memo: Map<Seq<u32>, u64>,
    full: Seq<u32>,
    base: int,
    keep: int,
    rows: Seq<u64>,
    n: int,
    path: Seq<u32>,
)
    requires
        0 <= base <= keep,
        keep + n <= full.len(),
    ensures
        forall|i: int|
            0 <= i < n && path == #[trigger] full.subrange(base, keep + i + 1) ==> with_rows(
                memo,
                full,
                base,
                keep,
                rows,
                n,
            ).contains_key(path) && with_rows(memo, full, base, keep, rows, n)[path] == rows[i],
        memo.contains_key(path) && (forall|i: int|
            0 <= i < n ==> path != #[trigger] full.subrange(base, keep + i + 1)) ==> with_rows(
            memo,
            full,
            base,
            keep,
            rows,
            n,
        ).contains_key(path) && with_rows(memo, full, base, keep, rows, n)[path] == memo[path],
{
    assert forall|i: int|
        0 <= i < n && path == #[trigger] full.subrange(base, keep + i + 1) implies with_rows(
        memo,
        full,
        base,
        keep,
        rows,
        n,
    ).contains_key(path) && with_rows(memo, full, base, keep, rows, n)[path] == rows[i] by {
        lemma_rows(memo, full, base, keep, rows, n, i);
    }
    if memo.contains_key(path) && (forall|i: int|
        0 <= i < n ==> path != #[trigger] full.subrange(base, keep + i + 1)) {
        lemma_rows_beside(memo, full, base, keep, rows, n, path);
    }
}

/// Each digit is a piece of its own.
pub proof fn law_each_digit_stands_alone(text: Seq<char>, start: int, i: int, at: int)
    requires
        0 <= start <= i <= at < text.len(),
        numeric(text[at]),
    ensures
        pre_spans(text, start, i).contains(
            (byte_len(text.take(at)) as int, byte_len(text.take(at + 1)) as int),
        ),
    decreases text.len() - i,
{
    let span = (byte_len(text.take(at)) as int, byte_len(text.take(at + 1)) as int);
    let all = pre_spans(text, start, i);
    if numeric(text[i]) {
        let head = piece_spans(text, start, i);
        let own = seq![(byte_len(text.take(i)) as int, byte_len(text.take(i + 1)) as int)];
        let rest = pre_spans(text, i + 1, i + 1);
        assert(all == head + own + rest);
        if i == at {
            assert(all[head.len() as int] == span);
        } else {
            law_each_digit_stands_alone(text, i + 1, i + 1, at);
            let k = choose|k: int| 0 <= k < rest.len() && rest[k] == span;
            assert(all[head.len() + 1 + k] == span);
        }
    } else {
        law_each_digit_stands_alone(text, start, i + 1, at);
    }
}

/// Of a run of white space before other text, all but the last character is a
/// piece; white space at the end, a single one, and anything else stay whole.
pub proof fn law_white_space_leaves_its_last(piece: Seq<char>, s: int, e: int)
    requires
        0 <= s < e <= piece.len(),
    ensures
        e == piece.len() ==> stop_of(piece, s, e) == e,
        e == s + 1 ==> stop_of(piece, s, e) == e,
        forall|k: int|
            s <= k < e && !whitespace(#[trigger] piece[k]) ==> stop_of(piece, s, e) == e,
        e < piece.len() && e > s + 1 && (forall|k: int|
            s <= k < e ==> whitespace(#[trigger] piece[k])) ==> stop_of(piece, s, e) == e - 1,
{
}

} // verus!
