//! Prefix-constrained best-first search to a word boundary.
//!
//! Every path first spells the target (the lead and the typed prefix) and then
//! goes on with word characters until a boundary. Paths are taken by cost, the
//! cheapest first, so that the first finished word is the most probable one.
//! A cost is the place of a number in the total order of double precision; the
//! numbers themselves are added up outside.

use vstd::prelude::*;

use super::ranking::{leaders, leading, lemma_leading_members, top_k};
use super::token_index::{
    closes, covers_on, kept, prefix_tokens, run_stop, spells, text_at, tokens_by_kind, word_run,
    TokenIndex,
};
use crate::patterns::{source, LETTER};
use crate::unicode::{chars_of, same_chars};

verus! {

/// Limits of the search.
#[derive(Clone, Copy, Debug)]
pub struct SearchParams {
    /// Expansions for the best completion; each further one adds four.
    pub max_expand: usize,
    /// Children kept per node while the target is still being spelled.
    pub top_prefix: usize,
    /// Children kept per node after the target.
    pub top_free: usize,
    /// Longest completion in characters.
    pub max_chars: usize,
}

impl Default for SearchParams {
    fn default() -> (p: SearchParams)
        ensures
            p.max_expand == 12,
            p.top_prefix == 6,
            p.top_free == 3,
            p.max_chars == 24,
    {
        SearchParams { max_expand: 12, top_prefix: 6, top_free: 3, max_chars: 24 }
    }
}

/// One path of the search.
pub struct Node {
    /// The order key of its cost.
    pub cost: u64,
    /// The tokens so far.
    pub path: Vec<u32>,
    /// The part of the target not yet spelled.
    pub remaining: Vec<char>,
    /// The characters produced beyond the target.
    pub out: Vec<char>,
    /// The word has ended.
    pub terminal: bool,
}

/// [`Node`] over mathematical sequences.
pub struct NodeView {
    pub cost: u64,
    pub path: Seq<u32>,
    pub remaining: Seq<char>,
    pub out: Seq<char>,
    pub terminal: bool,
}

impl View for Node {
    type V = NodeView;

    open spec fn view(&self) -> NodeView {
        NodeView {
            cost: self.cost,
            path: self.path@,
            remaining: self.remaining@,
            out: self.out@,
            terminal: self.terminal,
        }
    }
}

/// What one token adds to a node.
pub struct Child {
    pub id: u32,
    pub remaining: Vec<char>,
    pub out: Vec<char>,
    pub terminal: bool,
}

/// [`Child`] over mathematical sequences.
pub struct ChildView {
    pub id: u32,
    pub remaining: Seq<char>,
    pub out: Seq<char>,
    pub terminal: bool,
}

impl View for Child {
    type V = ChildView;

    open spec fn view(&self) -> ChildView {
        ChildView {
            id: self.id,
            remaining: self.remaining@,
            out: self.out@,
            terminal: self.terminal,
        }
    }
}

/// The views of some nodes.
pub open spec fn node_views(nodes: Seq<Node>) -> Seq<NodeView> {
    nodes.map_values(|n: Node| n@)
}

/// The views of some children.
pub open spec fn child_views(children: Seq<Child>) -> Seq<ChildView> {
    children.map_values(|c: Child| c@)
}

/// The tokens that can spell what remains, in order of consideration.
pub open spec fn spelling_tokens(index: &TokenIndex, r: Seq<char>) -> Seq<u32> {
    prefix_tokens(index.texts_of(), index.sorted@, r, r.len() as int) + kept(
        index.sorted@,
        covers_on(index.texts_of(), r),
        index.sorted@.len() as int,
    )
}

/// The tokens that spell what remains and close the word.
pub open spec fn closing_tokens(index: &TokenIndex, r: Seq<char>) -> Seq<u32> {
    kept(index.sorted@, closes(index.texts_of(), r), index.sorted@.len() as int)
}

/// What the token `id` adds while `r` remains to be spelled.
pub open spec fn spelling_child(index: &TokenIndex, r: Seq<char>, id: u32) -> ChildView {
    let text = text_at(index.texts_of(), id);
    if text.len() <= r.len() {
        ChildView {
            id,
            remaining: r.skip(text.len() as int),
            out: Seq::empty(),
            terminal: false,
        }
    } else {
        let rest = text.skip(r.len() as int);
        let stop = run_stop(rest, 0);
        ChildView {
            id,
            remaining: Seq::empty(),
            out: rest.take(stop),
            terminal: stop < rest.len(),
        }
    }
}

/// What the token `id` adds behind the target.
pub open spec fn free_child(index: &TokenIndex, out: Seq<char>, id: u32) -> ChildView {
    let text = text_at(index.texts_of(), id);
    let stop = run_stop(text, 0);
    ChildView {
        id,
        remaining: Seq::empty(),
        out: out + text.take(stop),
        terminal: stop < text.len(),
    }
}

/// The children of a node under the log-probabilities `row`, given as bit
/// patterns.
pub open spec fn children_of(index: &TokenIndex, params: SearchParams, node: NodeView, row: Seq<
    u32,
>) -> Seq<ChildView> {
    if node.remaining.len() > 0 {
        let cand = spelling_tokens(index, node.remaining);
        leading(row, cand, cand.len() as int, params.top_prefix as int, true).map_values(
            |id: u32| spelling_child(index, node.remaining, id),
        )
    } else if node.out.len() >= params.max_chars {
        Seq::empty()
    } else {
        let ids = index.cont_ids@;
        leading(row, ids, ids.len() as int, params.top_free as int, false).map_values(
            |id: u32| free_child(index, node.out, id),
        )
    }
}

/// What expanding a node gives.
pub struct Expansion {
    /// The target is still being spelled.
    pub spelling: bool,
    /// The tokens whose probability stays in the prefix-consistent mass.
    pub kept: Vec<u32>,
    /// The word may end here.
    pub stop: bool,
    pub children: Vec<Child>,
}

/// The tokens of a row's length all have a value.
pub open spec fn row_fits(index: &TokenIndex, row: Seq<u32>) -> bool {
    row.len() >= index.texts@.len()
}

proof fn lemma_kept_members(ids: Seq<u32>, p: spec_fn(u32) -> bool, k: int)
    requires
        0 <= k <= ids.len(),
    ensures
        forall|i: int|
            0 <= i < kept(ids, p, k).len() ==> p(#[trigger] kept(ids, p, k)[i]) && ids.contains(
                kept(ids, p, k)[i],
            ),
    decreases k,
{
    if k > 0 {
        lemma_kept_members(ids, p, k - 1);
        let before = kept(ids, p, k - 1);
        let now = kept(ids, p, k);
        assert(ids.contains(ids[k - 1]));
        assert forall|i: int| 0 <= i < now.len() implies p(#[trigger] now[i]) && ids.contains(
            now[i],
        ) by {
            if i < before.len() {
                assert(now[i] == before[i]);
            }
        }
    }
}

/// A proper, non-empty prefix of `r` is the token's text.
pub open spec fn proper_prefix(index: &TokenIndex, r: Seq<char>, id: u32) -> bool {
    let t = text_at(index.texts_of(), id);
    0 < t.len() < r.len() && r.take(t.len() as int) == t
}

proof fn lemma_prefix_members(index: &TokenIndex, r: Seq<char>, n: int)
    requires
        n <= r.len(),
    ensures
        forall|i: int|
            0 <= i < prefix_tokens(index.texts_of(), index.sorted@, r, n).len()
                ==> index.sorted@.contains(
                #[trigger] prefix_tokens(index.texts_of(), index.sorted@, r, n)[i],
            ) && proper_prefix(
                index,
                r,
                prefix_tokens(index.texts_of(), index.sorted@, r, n)[i],
            ),
    decreases n,
{
    if n > 1 {
        lemma_prefix_members(index, r, n - 1);
        let texts = index.texts_of();
        let p = spells(texts, r.take(n - 1));
        let before = prefix_tokens(texts, index.sorted@, r, n - 1);
        let more = kept(index.sorted@, p, index.sorted@.len() as int);
        lemma_kept_members(index.sorted@, p, index.sorted@.len() as int);
        let now = prefix_tokens(texts, index.sorted@, r, n);
        assert forall|i: int| 0 <= i < now.len() implies index.sorted@.contains(#[trigger] now[i])
            && proper_prefix(index, r, now[i]) by {
            if i < before.len() {
                assert(now[i] == before[i]);
            } else {
                assert(now[i] == more[i - before.len()]);
                assert(p(now[i]));
            }
        }
    }
}

/// What is known of the tokens that can spell what remains.
pub proof fn lemma_spelling_members(index: &TokenIndex, r: Seq<char>)
    requires
        index.wf(),
    ensures
        forall|i: int|
            0 <= i < spelling_tokens(index, r).len() ==> (#[trigger] spelling_tokens(index, r)[i])
                < index.texts@.len() && (proper_prefix(index, r, spelling_tokens(index, r)[i]) || (
            covers_on(index.texts_of(), r))(spelling_tokens(index, r)[i])),
        forall|i: int|
            0 <= i < closing_tokens(index, r).len() ==> (#[trigger] closing_tokens(index, r)[i])
                < index.texts@.len(),
{
    let texts = index.texts_of();
    let ids = index.sorted@;
    lemma_prefix_members(index, r, r.len() as int);
    lemma_kept_members(ids, covers_on(texts, r), ids.len() as int);
    lemma_kept_members(ids, closes(texts, r), ids.len() as int);
    let head = prefix_tokens(texts, ids, r, r.len() as int);
    let tail = kept(ids, covers_on(texts, r), ids.len() as int);
    let all = spelling_tokens(index, r);
    assert forall|i: int| 0 <= i < all.len() implies (#[trigger] all[i]) < index.texts@.len() && (
    proper_prefix(index, r, all[i]) || (covers_on(texts, r))(all[i])) by {
        if i < head.len() {
            assert(all[i] == head[i]);
        } else {
            assert(all[i] == tail[i - head.len()]);
        }
        assert(ids.contains(all[i]));
        let k = choose|k: int| 0 <= k < ids.len() && ids[k] == all[i];
        assert(ids[k] < texts.len());
    }
    let ends = closing_tokens(index, r);
    assert forall|i: int| 0 <= i < ends.len() implies (#[trigger] ends[i]) < index.texts@.len() by {
        assert(ids.contains(ends[i]));
        let k = choose|k: int| 0 <= k < ids.len() && ids[k] == ends[i];
        assert(ids[k] < texts.len());
    }
}

proof fn lemma_kind_members(index: &TokenIndex, k: int, cont: bool)
    requires
        0 <= k <= index.texts@.len() <= 0x1_0000_0000,
    ensures
        forall|i: int|
            0 <= i < tokens_by_kind(index.texts_of(), k, cont).len() ==> (#[trigger] tokens_by_kind(
                index.texts_of(),
                k,
                cont,
            )[i]) < index.texts@.len(),
    decreases k,
{
    if k > 0 {
        lemma_kind_members(index, k - 1, cont);
        let before = tokens_by_kind(index.texts_of(), k - 1, cont);
        let now = tokens_by_kind(index.texts_of(), k, cont);
        assert forall|i: int| 0 <= i < now.len() implies (#[trigger] now[i])
            < index.texts@.len() by {
            if i < before.len() {
                assert(now[i] == before[i]);
            }
        }
    }
}

/// Plans the expansion of a node under the log-probabilities `row`, given as
/// bit patterns.
pub fn plan(index: &TokenIndex, params: SearchParams, node: &Node, row: &Vec<u32>) -> (plan:
    Expansion)
    requires
        index.wf(),
        row_fits(index, row@),
    ensures
        plan.spelling == (node.remaining@.len() > 0),
        plan.kept@ == (if node.remaining@.len() > 0 {
            spelling_tokens(index, node.remaining@) + closing_tokens(index, node.remaining@)
        } else {
            Seq::empty()
        }),
        plan.stop == (node.remaining@.len() == 0 && node.out@.len() > 0),
        child_views(plan.children@) == children_of(index, params, node@, row@),
{
    let mut children: Vec<Child> = Vec::new();
    let mut kept_ids: Vec<u32> = Vec::new();
    if node.remaining.len() > 0 {
        let r: &[char] = node.remaining.as_slice();
        let (cand, mut ends) = index.prefix_children(r);
        proof {
            lemma_spelling_members(index, r@);
            assert(cand@ == spelling_tokens(index, r@));
            assert forall|k: int| 0 <= k < cand@.len() implies (#[trigger] cand@[k])
                < index.texts@.len() by {
                assert(spelling_tokens(index, r@)[k] == cand@[k]);
            }
        }
        let best = leaders(row, &cand, params.top_prefix, true);
        proof {
            lemma_leading_members(row@, cand@, cand@.len() as int, params.top_prefix as int, true);
        }
        let ghost goal = children_of(index, params, node@, row@);
        let mut i: usize = 0;
        while i < best.len()
            invariant
                index.wf(),
                r@ == node.remaining@,
                node.remaining@.len() > 0,
                i <= best@.len(),
                cand@ == spelling_tokens(index, r@),
                forall|k: int|
                    0 <= k < cand@.len() ==> (#[trigger] cand@[k]) < index.texts@.len(),
                forall|k: int| 0 <= k < best@.len() ==> cand@.contains(#[trigger] best@[k]),
                goal.len() == best@.len(),
                forall|k: int|
                    0 <= k < goal.len() ==> #[trigger] goal[k] == spelling_child(
                        index,
                        node.remaining@,
                        best@[k],
                    ),
                children@.len() == i,
                forall|k: int| 0 <= k < i ==> (#[trigger] children@[k])@ == goal[k],
            decreases best@.len() - i,
        {
            let id: u32 = best[i];
            proof {
                assert(cand@.contains(best@[i as int]));
                let k = choose|k: int| 0 <= k < cand@.len() && cand@[k] == id;
                assert(cand@[k] < index.texts@.len());
            }
            let child = spell(index, r, id);
            assert(child@ == goal[i as int]);
            children.push(child);
            i = i + 1;
        }
        assert(child_views(children@) =~= goal);
        kept_ids = cand;
        kept_ids.append(&mut ends);
        return Expansion { spelling: true, kept: kept_ids, stop: false, children };
    }
    let stop = node.out.len() > 0;
    if node.out.len() < params.max_chars {
        proof {
            lemma_kind_members(index, index.texts@.len() as int, true);
        }
        let best = top_k(row, &index.cont_ids, params.top_free);
        proof {
            lemma_leading_members(
                row@,
                index.cont_ids@,
                index.cont_ids@.len() as int,
                params.top_free as int,
                false,
            );
        }
        let ghost goal = children_of(index, params, node@, row@);
        let mut i: usize = 0;
        while i < best.len()
            invariant
                index.wf(),
                i <= best@.len(),
                forall|k: int|
                    0 <= k < index.cont_ids@.len() ==> (#[trigger] index.cont_ids@[k])
                        < index.texts@.len(),
                forall|k: int| 0 <= k < best@.len() ==> index.cont_ids@.contains(#[trigger] best@[k]),
                goal.len() == best@.len(),
                forall|k: int|
                    0 <= k < goal.len() ==> #[trigger] goal[k] == free_child(
                        index,
                        node.out@,
                        best@[k],
                    ),
                children@.len() == i,
                forall|k: int| 0 <= k < i ==> (#[trigger] children@[k])@ == goal[k],
            decreases best@.len() - i,
        {
            let id: u32 = best[i];
            proof {
                assert(index.cont_ids@.contains(best@[i as int]));
                let k = choose|k: int| 0 <= k < index.cont_ids@.len() && index.cont_ids@[k] == id;
                assert(index.cont_ids@[k] < index.texts@.len());
            }
            let child = go_on(index, &node.out, id);
            assert(child@ == goal[i as int]);
            children.push(child);
            i = i + 1;
        }
        assert(child_views(children@) =~= goal);
    } else {
        assert(child_views(children@) =~= children_of(index, params, node@, row@));
    }
    assert(kept_ids@ =~= Seq::<u32>::empty());
    Expansion { spelling: false, kept: kept_ids, stop, children }
}

fn copy_chars(chars: &[char]) -> (out: Vec<char>)
    ensures
        out@ == chars@,
{
    let mut out: Vec<char> = Vec::new();
    let mut i: usize = 0;
    while i < chars.len()
        invariant
            i <= chars@.len(),
            out@ == chars@.take(i as int),
        decreases chars@.len() - i,
    {
        out.push(chars[i]);
        assert(chars@.take(i as int).push(chars@[i as int]) =~= chars@.take(i + 1));
        i = i + 1;
    }
    assert(chars@.take(i as int) =~= chars@);
    out
}

fn copy_path(path: &Vec<u32>) -> (out: Vec<u32>)
    ensures
        out@ == path@,
{
    let mut out: Vec<u32> = Vec::new();
    let mut i: usize = 0;
    while i < path.len()
        invariant
            i <= path@.len(),
            out@ == path@.take(i as int),
        decreases path@.len() - i,
    {
        out.push(path[i]);
        assert(path@.take(i as int).push(path@[i as int]) =~= path@.take(i + 1));
        i = i + 1;
    }
    assert(path@.take(i as int) =~= path@);
    out
}

fn spell(index: &TokenIndex, r: &[char], id: u32) -> (child: Child)
    requires
        source(index.class) == LETTER@,
        id < index.texts@.len(),
    ensures
        child@ == spelling_child(index, r@, id),
{
    let text = chars_of(index.text(id));
    if text.len() <= r.len() {
        let remaining = copy_chars(&r[text.len()..r.len()]);
        assert(remaining@ =~= r@.skip(text@.len() as int));
        let out: Vec<char> = Vec::new();
        assert(out@ =~= Seq::<char>::empty());
        Child { id, remaining, out, terminal: false }
    } else {
        let rest: &[char] = &text[r.len()..text.len()];
        assert(rest@ =~= text@.skip(r@.len() as int));
        let (run, closed) = word_run(rest, &index.class);
        let remaining: Vec<char> = Vec::new();
        assert(remaining@ =~= Seq::<char>::empty());
        Child { id, remaining, out: run, terminal: closed }
    }
}

fn go_on(index: &TokenIndex, out: &Vec<char>, id: u32) -> (child: Child)
    requires
        source(index.class) == LETTER@,
        id < index.texts@.len(),
    ensures
        child@ == free_child(index, out@, id),
{
    let text = chars_of(index.text(id));
    let (mut run, closed) = word_run(text.as_slice(), &index.class);
    let mut all = copy_chars(out.as_slice());
    all.append(&mut run);
    let remaining: Vec<char> = Vec::new();
    assert(remaining@ =~= Seq::<char>::empty());
    Child { id, remaining, out: all, terminal: closed }
}

// ---------------------------------------------------------------------------
// The queue
// ---------------------------------------------------------------------------
/// The cheapest of the first `k` queued nodes, the oldest among equals; of the
/// finished ones alone where asked.
pub open spec fn cheapest(queue: Seq<NodeView>, finished: bool, k: int) -> Option<int>
    decreases k,
{
    if k <= 0 {
        None
    } else {
        let before = cheapest(queue, finished, k - 1);
        if finished && !queue[k - 1].terminal {
            before
        } else {
            match before {
                Some(i) if queue[i].cost <= queue[k - 1].cost => before,
                _ => Some(k - 1),
            }
        }
    }
}

/// The chosen node is eligible, none is cheaper, and none of its cost is older.
pub proof fn law_cheapest_comes_first(queue: Seq<NodeView>, finished: bool, k: int)
    requires
        0 <= k <= queue.len(),
    ensures
        match cheapest(queue, finished, k) {
            Some(i) => {
                &&& 0 <= i < k
                &&& finished ==> queue[i].terminal
                &&& forall|j: int|
                    0 <= j < k && (finished ==> (#[trigger] queue[j]).terminal) ==> queue[i].cost
                        < queue[j].cost || (queue[i].cost == queue[j].cost && i <= j)
            },
            None => forall|j: int|
                0 <= j < k ==> finished && !(#[trigger] queue[j]).terminal,
        },
    decreases k,
{
    if k > 0 {
        law_cheapest_comes_first(queue, finished, k - 1);
    }
}

/// A found word and the order key of its cost.
pub type Found = (Vec<char>, u64);

/// The views of some found words.
pub open spec fn found_views(found: Seq<Found>) -> Seq<(Seq<char>, u64)> {
    found.map_values(|f: Found| (f.0@, f.1))
}

/// The word is among the first `k` found.
pub open spec fn has_word(found: Seq<(Seq<char>, u64)>, word: Seq<char>) -> bool {
    exists|i: int| 0 <= i < found.len() && (#[trigger] found[i]).0 == word
}

/// The found words with one more, unless it is there already.
pub open spec fn with_word(found: Seq<(Seq<char>, u64)>, word: Seq<char>, cost: u64) -> Seq<
    (Seq<char>, u64),
> {
    if has_word(found, word) {
        found
    } else {
        found.push((word, cost))
    }
}

/// The state of a search.
pub struct State {
    pub queue: Seq<NodeView>,
    pub found: Seq<(Seq<char>, u64)>,
    pub expanded: int,
}

/// Takes nodes off the queue until one has to be expanded: the state then, and
/// the node, if there is one.
pub open spec fn advanced(state: State, n: int, budget: int) -> (State, Option<NodeView>)
    decreases state.queue.len(),
{
    if state.found.len() >= n {
        (state, None)
    } else {
        match cheapest(state.queue, false, state.queue.len() as int) {
            Some(i) if 0 <= i < state.queue.len() => {
                let node = state.queue[i];
                let queue = state.queue.remove(i);
                if node.terminal {
                    advanced(
                        State {
                            queue,
                            found: with_word(state.found, node.out, node.cost),
                            expanded: state.expanded,
                        },
                        n,
                        budget,
                    )
                } else if state.expanded >= budget {
                    (State { queue, found: state.found, expanded: state.expanded }, None)
                } else {
                    (
                        State { queue, found: state.found, expanded: state.expanded + 1 },
                        Some(node),
                    )
                }
            },
            _ => (state, None),
        }
    }
}

/// The found words topped up with the finished words still queued, cheapest
/// first, until there are `n`.
pub open spec fn topped_up(queue: Seq<NodeView>, found: Seq<(Seq<char>, u64)>, n: int) -> Seq<
    (Seq<char>, u64),
>
    decreases queue.len(),
{
    if found.len() >= n {
        found
    } else {
        match cheapest(queue, true, queue.len() as int) {
            Some(i) if 0 <= i < queue.len() => topped_up(
                queue.remove(i),
                with_word(found, queue[i].out, queue[i].cost),
                n,
            ),
            _ => found,
        }
    }
}

/// Behind the leading words that cost at most `cost`, from `p` on.
pub open spec fn cost_place(words: Seq<(Seq<char>, u64)>, cost: u64, p: int) -> int
    decreases words.len() - p,
{
    if 0 <= p < words.len() && words[p].1 <= cost {
        cost_place(words, cost, p + 1)
    } else {
        p
    }
}

/// The first `k` words by cost, cheapest first, the earlier first among equals.
pub open spec fn by_cost(words: Seq<(Seq<char>, u64)>, k: int) -> Seq<(Seq<char>, u64)>
    decreases k,
{
    if k <= 0 {
        Seq::empty()
    } else {
        let before = by_cost(words, k - 1);
        before.insert(cost_place(before, words[k - 1].1, 0), words[k - 1])
    }
}

/// The nodes that a planned expansion queues.
pub open spec fn queued(node: NodeView, stop: bool, stop_cost: u64, children: Seq<ChildView>, costs: Seq<
    u64,
>) -> Seq<NodeView> {
    let ended = NodeView {
        cost: stop_cost,
        path: node.path,
        remaining: Seq::empty(),
        out: node.out,
        terminal: true,
    };
    let more = Seq::new(
        children.len(),
        |i: int|
            NodeView {
                cost: costs[i],
                path: node.path.push(children[i].id),
                remaining: children[i].remaining,
                out: children[i].out,
                terminal: children[i].terminal,
            },
    );
    if stop {
        seq![ended] + more
    } else {
        more
    }
}

/// A best-first search for completions.
pub struct Search {
    pub queue: Vec<Node>,
    pub found: Vec<Found>,
    pub expanded: usize,
    /// Completions wanted.
    pub n: usize,
    /// Expansions allowed.
    pub budget: usize,
}

impl Search {
    /// The state.
    pub open spec fn state(&self) -> State {
        State {
            queue: node_views(self.queue@),
            found: found_views(self.found@),
            expanded: self.expanded as int,
        }
    }

    /// A search for up to `n` completions of `target`, whose first node costs
    /// `cost`.
    pub fn new(params: SearchParams, target: &str, n: usize, cost: u64) -> (s: Search)
        requires
            params.max_expand + 4 * n <= usize::MAX,
        ensures
            s.state().queue == seq![
                (NodeView {
                    cost,
                    path: Seq::empty(),
                    remaining: target@,
                    out: Seq::empty(),
                    terminal: false,
                }),
            ],
            s.state().found == Seq::<(Seq<char>, u64)>::empty(),
            s.expanded == 0,
            s.n == n,
            s.budget == params.max_expand + (if n > 0 {
                4 * (n - 1)
            } else {
                0
            }),
    {
        let extra: usize = if n > 0 {
            4 * (n - 1)
        } else {
            0
        };
        let remaining = chars_of(target);
        let root = Node {
            cost,
            path: Vec::new(),
            remaining,
            out: Vec::new(),
            terminal: false,
        };
        assert(root.path@ =~= Seq::<u32>::empty());
        assert(root.out@ =~= Seq::<char>::empty());
        let mut queue: Vec<Node> = Vec::new();
        queue.push(root);
        let s = Search {
            queue,
            found: Vec::new(),
            expanded: 0,
            n,
            budget: params.max_expand + extra,
        };
        assert(node_views(s.queue@) =~= seq![root@]);
        assert(found_views(s.found@) =~= Seq::<(Seq<char>, u64)>::empty());
        s
    }

    fn find_cheapest(&self, finished: bool) -> (best: Option<usize>)
        ensures
            match best {
                Some(i) => i < self.queue@.len() && cheapest(
                    self.state().queue,
                    finished,
                    self.queue@.len() as int,
                ) == Some(i as int),
                None => cheapest(self.state().queue, finished, self.queue@.len() as int) is None,
            },
    {
        let ghost queue = self.state().queue;
        let mut best: Option<usize> = None;
        let mut k: usize = 0;
        while k < self.queue.len()
            invariant
                queue == node_views(self.queue@),
                k <= self.queue@.len(),
                match best {
                    Some(i) => i < k && cheapest(queue, finished, k as int) == Some(i as int),
                    None => cheapest(queue, finished, k as int) is None,
                },
            decreases self.queue@.len() - k,
        {
            assert(queue[k as int] == self.queue@[k as int]@);
            if !finished || self.queue[k].terminal {
                match best {
                    Some(i) => {
                        assert(queue[i as int] == self.queue@[i as int]@);
                        if self.queue[k].cost < self.queue[i].cost {
                            best = Some(k);
                        }
                    },
                    None => {
                        best = Some(k);
                    },
                }
            }
            k = k + 1;
        }
        best
    }

    fn add(&mut self, word: Vec<char>, cost: u64)
        ensures
            final(self).state().found == with_word(old(self).state().found, word@, cost),
            final(self).queue@ == old(self).queue@,
            final(self).expanded == old(self).expanded,
            final(self).n == old(self).n,
            final(self).budget == old(self).budget,
    {
        let ghost views = self.state().found;
        let mut i: usize = 0;
        while i < self.found.len()
            invariant
                *self == *old(self),
                views == found_views(self.found@),
                i <= self.found@.len(),
                forall|k: int| 0 <= k < i ==> (#[trigger] views[k]).0 != word@,
            decreases self.found@.len() - i,
        {
            assert(views[i as int] == (self.found@[i as int].0@, self.found@[i as int].1));
            if same_chars(self.found[i].0.as_slice(), word.as_slice()) {
                assert(has_word(views, word@));
                return ;
            }
            i = i + 1;
        }
        assert(!has_word(views, word@));
        self.found.push((word, cost));
        assert(found_views(self.found@) =~= views.push((word@, cost)));
    }

    /// The next node to expand: finished words at the head of the queue are
    /// collected first. None when enough words are found, the queue is empty or
    /// the budget is spent.
    pub fn next(&mut self) -> (node: Option<Node>)
        ensures
            final(self).n == old(self).n,
            final(self).budget == old(self).budget,
            final(self).state() == advanced(
                old(self).state(),
                old(self).n as int,
                old(self).budget as int,
            ).0,
            match node {
                Some(node) => advanced(
                    old(self).state(),
                    old(self).n as int,
                    old(self).budget as int,
                ).1 == Some(node@),
                None => advanced(
                    old(self).state(),
                    old(self).n as int,
                    old(self).budget as int,
                ).1 is None,
            },
    {
        let ghost goal = advanced(self.state(), self.n as int, self.budget as int);
        while self.found.len() < self.n
            invariant
                self.n == old(self).n,
                self.budget == old(self).budget,
                advanced(self.state(), self.n as int, self.budget as int) == goal,
                goal == advanced(
                    old(self).state(),
                    old(self).n as int,
                    old(self).budget as int,
                ),
            decreases self.queue@.len(),
        {
            let ghost before = self.state();
            match self.find_cheapest(false) {
                None => {
                    return None;
                },
                Some(i) => {
                    let node = self.queue.remove(i);
                    assert(before.queue[i as int] == node@);
                    assert(node_views(self.queue@) =~= before.queue.remove(i as int));
                    if node.terminal {
                        let cost: u64 = node.cost;
                        self.add(node.out, cost);
                    } else if self.expanded >= self.budget {
                        return None;
                    } else {
                        self.expanded = self.expanded + 1;
                        return Some(node);
                    }
                },
            }
        }
        None
    }

    /// Queues what a planned expansion of `node` gives, at the costs worked out
    /// for it.
    pub fn absorb(&mut self, node: &Node, plan: Expansion, stop_cost: u64, costs: &Vec<u64>)
        requires
            costs@.len() == plan.children@.len(),
        ensures
            final(self).found@ == old(self).found@,
            final(self).expanded == old(self).expanded,
            final(self).n == old(self).n,
            final(self).budget == old(self).budget,
            final(self).state().queue == old(self).state().queue + queued(
                node@,
                plan.stop,
                stop_cost,
                child_views(plan.children@),
                costs@,
            ),
    {
        let ghost start = self.state().queue;
        let ghost kids = child_views(plan.children@);
        let ghost all = queued(node@, plan.stop, stop_cost, kids, costs@);
        let ghost shift = if plan.stop {
            1int
        } else {
            0int
        };
        if plan.stop {
            let path = copy_path(&node.path);
            let out = copy_chars(node.out.as_slice());
            let ended = Node {
                cost: stop_cost,
                path,
                remaining: Vec::new(),
                out,
                terminal: true,
            };
            assert(ended.remaining@ =~= Seq::<char>::empty());
            let ghost held = self.queue@;
            self.queue.push(ended);
            assert(node_views(self.queue@) =~= start + all.take(1)) by {
                assert(all[0] == ended@);
            }
        } else {
            assert(start + all.take(0) =~= start);
        }
        let Expansion { spelling: _, kept: _, stop: _, children } = plan;
        let mut children = children;
        let ghost total = children@;
        let count: usize = costs.len();
        let mut i: usize = 0;
        while children.len() > 0
            invariant
                count == total.len(),
                kids == child_views(total),
                costs@.len() == total.len(),
                all == queued(node@, plan.stop, stop_cost, kids, costs@),
                shift == (if plan.stop {
                    1int
                } else {
                    0int
                }),
                i + children@.len() == total.len(),
                children@ == total.skip(i as int),
                self.found@ == old(self).found@,
                self.expanded == old(self).expanded,
                self.n == old(self).n,
                self.budget == old(self).budget,
                node_views(self.queue@) == start + all.take(shift + i),
            decreases children@.len(),
        {
            let child = children.remove(0);
            proof {
                assert(total.skip(i as int).remove(0) =~= total.skip(i + 1));
                assert(child == total[i as int]);
                assert(kids[i as int] == child@);
            }
            let mut path = copy_path(&node.path);
            path.push(child.id);
            let ghost held = self.queue@;
            let next = Node {
                cost: costs[i],
                path,
                remaining: child.remaining,
                out: child.out,
                terminal: child.terminal,
            };
            self.queue.push(next);
            proof {
                assert(all[shift + i] == next@);
                assert(node_views(self.queue@) =~= node_views(held).push(next@));
                assert(all.take(shift + i).push(next@) =~= all.take(shift + i + 1));
                assert(start + all.take(shift + i + 1) =~= (start + all.take(shift + i)).push(
                    next@,
                ));
            }
            i = i + 1;
        }
        assert(all.take(shift + i) =~= all);
    }

    /// The completions: the words found, topped up with the finished words still
    /// queued, cheapest first.
    pub fn finish(&mut self) -> (words: Vec<Found>)
        ensures
            ({
                let all = topped_up(old(self).state().queue, old(self).state().found, old(
                    self,
                ).n as int);
                found_views(words@) == by_cost(all, all.len() as int)
            }),
    {
        let ghost goal = topped_up(self.state().queue, self.state().found, self.n as int);
        let mut open = true;
        while open && self.found.len() < self.n
            invariant
                self.n == old(self).n,
                open ==> topped_up(self.state().queue, self.state().found, self.n as int) == goal,
                !open ==> self.state().found == goal,
            decreases self.queue@.len() + if open {
                1int
            } else {
                0int
            },
        {
            let ghost before = self.state();
            match self.find_cheapest(true) {
                None => {
                    open = false;
                },
                Some(i) => {
                    let node = self.queue.remove(i);
                    assert(before.queue[i as int] == node@);
                    assert(node_views(self.queue@) =~= before.queue.remove(i as int));
                    let cost: u64 = node.cost;
                    self.add(node.out, cost);
                },
            }
        }
        let ghost all = found_views(self.found@);
        assert(all == goal);
        let mut words: Vec<Found> = Vec::new();
        let mut k: usize = 0;
        assert(found_views(words@) =~= Seq::<(Seq<char>, u64)>::empty());
        while k < self.found.len()
            invariant
                all == found_views(self.found@),
                k <= self.found@.len(),
                found_views(words@) == by_cost(all, k as int),
            decreases self.found@.len() - k,
        {
            let word = copy_chars(self.found[k].0.as_slice());
            let cost: u64 = self.found[k].1;
            assert(all[k as int] == (word@, cost));
            let ghost views = found_views(words@);
            let mut p: usize = 0;
            while p < words.len() && words[p].1 <= cost
                invariant
                    views == found_views(words@),
                    p <= words@.len(),
                    cost_place(views, cost, 0) == cost_place(views, cost, p as int),
                decreases words@.len() - p,
            {
                assert(views[p as int].1 == words@[p as int].1);
                p = p + 1;
            }
            proof {
                if p < words@.len() {
                    assert(views[p as int].1 == words@[p as int].1);
                }
            }
            words.insert(p, (word, cost));
            assert(found_views(words@) =~= views.insert(p as int, (word@, cost)));
            k = k + 1;
        }
        words
    }
}

} // verus!
