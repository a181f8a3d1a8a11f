//! Max segment tree over base ids: point updates and top-k inside a range.
//!
//! Leaves carry integers that order them; equal integers are interchangeable.

use crate::ngram::probe::lemma_id_range;
use vstd::arithmetic::power2::{lemma_pow2_pos, lemma_pow2_unfold, pow2};
use vstd::multiset::Multiset;
use vstd::prelude::*;
use vstd::seq_lib::to_multiset_update;
use vstd::set_lib::lemma_len_subset;

verus! {

/// Marks a subtree without leaves.
pub const NO_LEAF: u32 = u32::MAX;

/// Most leaves that the node numbers leave room for.
pub const MAX_LEAVES: usize = 0x4000_0000;

/// `node` is `p` or one of its ancestors, the parent of `p` being `p / 2`.
pub open spec fn above(node: int, p: int) -> bool
    decreases p,
{
    if p <= node || p <= 1 {
        p == node
    } else {
        above(node, p / 2)
    }
}

proof fn lemma_above_children(node: int, p: int)
    requires
        node >= 1,
        p >= 1,
    ensures
        above(node, p) <==> (p == node || above(2 * node, p) || above(2 * node + 1, p)),
        above(node, p) ==> p >= node,
    decreases p,
{
    if p > node && p > 1 {
        lemma_above_children(node, p / 2);
        if p / 2 == node {
            assert(p == 2 * node || p == 2 * node + 1);
        } else {
            if above(2 * node, p / 2) {
                lemma_above_le(2 * node, p / 2);
            }
            if above(2 * node + 1, p / 2) {
                lemma_above_le(2 * node + 1, p / 2);
            }
            if above(2 * node, p) && p != 2 * node {
                lemma_above_le(2 * node, p);
            }
            if above(2 * node + 1, p) && p != 2 * node + 1 {
                lemma_above_le(2 * node + 1, p);
            }
        }
    } else {
        if above(2 * node, p) {
            lemma_above_le(2 * node, p);
        }
        if above(2 * node + 1, p) {
            lemma_above_le(2 * node + 1, p);
        }
    }
}

proof fn lemma_above_le(node: int, p: int)
    requires
        node >= 1,
        above(node, p),
    ensures
        p >= node,
    decreases p,
{
    if p > node && p > 1 {
        lemma_above_le(node, p / 2);
    }
}

/// The two children of a node share no descendant.
proof fn lemma_siblings_disjoint(node: int, p: int)
    requires
        node >= 1,
        p >= 1,
    ensures
        !(above(2 * node, p) && above(2 * node + 1, p)),
    decreases p,
{
    if above(2 * node, p) && above(2 * node + 1, p) {
        lemma_above_le(2 * node + 1, p);
        if p == 2 * node + 1 {
            assert(!above(2 * node, p)) by {
                assert(p / 2 == node);
                if above(2 * node, p / 2) {
                    lemma_above_le(2 * node, p / 2);
                }
            }
        } else {
            lemma_siblings_disjoint(node, p / 2);
        }
    }
}

/// The better of two leaves: the first unless the second has a larger value.
pub open spec fn better(values: Seq<u32>, a: u32, b: u32) -> u32 {
    if a == NO_LEAF {
        b
    } else if b == NO_LEAF {
        a
    } else if values[b as int] > values[a as int] {
        b
    } else {
        a
    }
}

/// Max segment tree over base ids: point updates and top-k inside a range.
pub struct MaxTree {
    values: Vec<u32>,
    size: usize,
    /// `size` is two to this power.
    levels: u32,
    /// Leaf id holding each subtree's max (`NO_LEAF` when empty).
    best: Vec<u32>,
}

impl View for MaxTree {
    type V = Seq<u32>;

    closed spec fn view(&self) -> Seq<u32> {
        self.values@
    }
}

impl MaxTree {
    spec fn shaped(&self) -> bool {
        &&& 1 <= self.size <= MAX_LEAVES
        &&& self.size == pow2(self.levels as nat)
        &&& self.values@.len() <= self.size
        &&& self.best@.len() == 2 * self.size
        &&& forall|i: int|
            0 <= i < self.size ==> #[trigger] self.best@[self.size + i] == (if i
                < self.values@.len() {
                i as u32
            } else {
                NO_LEAF
            })
    }

    spec fn right(&self, node: int) -> bool {
        self.best@[node] == better(self.values@, self.best@[2 * node], self.best@[2 * node + 1])
    }

    /// Every inner node holds the better leaf of its children.
    pub closed spec fn wf(&self) -> bool {
        &&& self.shaped()
        &&& forall|node: int| 1 <= node < self.size ==> #[trigger] self.right(node)
    }

    /// Number of leaf places, at least the number of values.
    pub closed spec fn places(&self) -> nat {
        self.size as nat
    }

    /// Leaf `i` is below `node`.
    spec fn holds(&self, node: int, i: int) -> bool {
        0 <= i < self.values@.len() && above(node, self.size + i)
    }

    /// The best leaf of a node is below it and has its largest value.
    proof fn lemma_best(&self, node: int)
        requires
            self.wf(),
            1 <= node < 2 * self.size,
        ensures
            self.best@[node] == NO_LEAF ==> forall|i: int| !self.holds(node, i),
            self.best@[node] != NO_LEAF ==> {
                &&& self.best@[node] < self.values@.len()
                &&& self.holds(node, self.best@[node] as int)
                &&& forall|i: int|
                    self.holds(node, i) ==> #[trigger] self.values@[i]
                        <= self.values@[self.best@[node] as int]
            },
        decreases 2 * self.size - node,
    {
        if node >= self.size {
            let i = node - self.size;
            assert(self.best@[self.size + i] == self.best@[node]);
            assert forall|j: int| self.holds(node, j) implies j == i by {
                if self.size + j > node {
                    assert((self.size + j) / 2 < node);
                    if above(node, (self.size + j) / 2) {
                        lemma_above_le(node, (self.size + j) / 2);
                    }
                }
            }
            assert(above(node, node));
        } else {
            assert(self.right(node));
            self.lemma_best(2 * node);
            self.lemma_best(2 * node + 1);
            assert forall|i: int| self.holds(node, i) <==> (self.holds(2 * node, i) || self.holds(
                2 * node + 1,
                i,
            )) by {
                if 0 <= i < self.values@.len() {
                    lemma_above_children(node, self.size + i);
                }
            }
        }
    }

    fn pick(&self, a: u32, b: u32) -> (r: u32)
        requires
            a == NO_LEAF || a < self.values@.len(),
            b == NO_LEAF || b < self.values@.len(),
        ensures
            r == better(self.values@, a, b),
    {
        if a == NO_LEAF {
            return b;
        }
        if b == NO_LEAF {
            return a;
        }
        if self.values[b as usize] > self.values[a as usize] {
            b
        } else {
            a
        }
    }

    /// Build over `values`.
    pub fn new(values: Vec<u32>) -> (t: MaxTree)
        requires
            values@.len() <= MAX_LEAVES,
        ensures
            t.wf(),
            t@ == values@,
            t.places() >= values@.len(),
    {
        let n: usize = values.len();
        let mut size: usize = 1;
        let mut exp: u32 = 0;
        proof {
            vstd::arithmetic::power2::lemma2_to64();
        }
        while size < n
            invariant
                1 <= size,
                size <= MAX_LEAVES,
                exp <= 30,
                n <= MAX_LEAVES,
                size == pow2(exp as nat),
            decreases MAX_LEAVES - size,
        {
            proof {
                vstd::arithmetic::power2::lemma_pow2_unfold((exp + 1) as nat);
                vstd::arithmetic::power2::lemma2_to64();
                if exp < 29 {
                    vstd::arithmetic::power2::lemma_pow2_strictly_increases(
                        (exp + 1) as nat,
                        30,
                    );
                }
            }
            size = size * 2;
            exp = exp + 1;
        }
        let mut best: Vec<u32> = vec![NO_LEAF; 2 * size];
        let mut i: usize = 0;
        while i < n
            invariant
                i <= n <= size <= MAX_LEAVES,
                best@.len() == 2 * size,
                forall|k: int|
                    0 <= k < size ==> #[trigger] best@[size + k] == (if k < i {
                        k as u32
                    } else {
                        NO_LEAF
                    }),
                forall|k: int| 0 <= k < size ==> #[trigger] best@[k] == NO_LEAF,
            decreases n - i,
        {
            best.set(size + i, i as u32);
            i = i + 1;
        }
        let mut tree = MaxTree { values, size, levels: exp, best };
        let mut node: usize = size - 1;
        assert forall|k: int| node < k < 2 * size implies #[trigger] tree.best@[k] == NO_LEAF
            || tree.best@[k] < values@.len() by {
            assert(tree.best@[size + (k - size)] == tree.best@[k]);
        }
        while node >= 1
            invariant
                node < size,
                tree.size == size,
                tree.values@ == values@,
                tree.shaped(),
                forall|k: int| node < k < size ==> #[trigger] tree.right(k),
                forall|k: int|
                    node < k < 2 * size ==> #[trigger] tree.best@[k] == NO_LEAF || tree.best@[k]
                        < values@.len(),
                forall|k: int| 0 <= k <= node ==> #[trigger] tree.best@[k] == NO_LEAF,
            decreases node,
        {
            let ghost before = tree;
            let left: u32 = tree.best[2 * node];
            let rest: u32 = tree.best[2 * node + 1];
            let chosen: u32 = tree.pick(left, rest);
            tree.best.set(node, chosen);
            assert(tree.shaped()) by {
                assert forall|k: int| 0 <= k < tree.size implies #[trigger] tree.best@[tree.size + k]
                    == (if k < tree.values@.len() {
                    k as u32
                } else {
                    NO_LEAF
                }) by {
                    assert(before.best@[tree.size + k] == tree.best@[tree.size + k]);
                }
            }
            assert forall|k: int| node - 1 < k < size implies #[trigger] tree.right(k) by {
                if k > node {
                    assert(before.right(k));
                }
            }
            node = node - 1;
        }
        tree
    }

    /// Set leaf `i` to `value`.
    pub fn set(&mut self, i: usize, value: u32)
        requires
            old(self).wf(),
            i < old(self)@.len(),
        ensures
            final(self).wf(),
            final(self)@ == old(self)@.update(i as int, value),
            final(self).places() == old(self).places(),
    {
        let ghost before = *self;
        let ghost p = self.size + i;
        proof {
            assert forall|k: int| 1 <= k < 2 * self.size implies #[trigger] self.best@[k] == NO_LEAF
                || self.best@[k] < self.values@.len() by {
                before.lemma_best(k);
            }
        }
        self.values.set(i, value);
        assert forall|k: int| 1 <= k < self.size && !above(k, p) implies #[trigger] self.right(
            k,
        ) by {
            assert(before.right(k));
            before.lemma_best(2 * k);
            before.lemma_best(2 * k + 1);
            lemma_above_children(k, p);
            if before.best@[2 * k] != NO_LEAF {
                lemma_above_children(k, before.size + before.best@[2 * k]);
            }
            if before.best@[2 * k + 1] != NO_LEAF {
                lemma_above_children(k, before.size + before.best@[2 * k + 1]);
            }
        }
        let mut node: usize = (i + self.size) / 2;
        assert(node >= 1 ==> above(node as int, p)) by {
            assert(above(node as int, node as int));
        }
        proof {
            assert forall|k: int| 1 <= k < self.size && (!above(k, p) || k > node) implies
                #[trigger] self.right(k) by {
                if above(k, p) {
                    assert(above(k, p / 2));
                    lemma_above_le(k, p / 2);
                }
            }
        }
        while node >= 1
            invariant
                before.wf(),
                self.size == before.size,
                self.values@ == before.values@.update(i as int, value),
                i < before.values@.len(),
                p == self.size + i,
                self.shaped(),
                node < self.size,
                node >= 1 ==> above(node as int, p),
                forall|k: int|
                    1 <= k < self.size && (!above(k, p) || k > node) ==> #[trigger] self.right(k),
                forall|k: int|
                    1 <= k < 2 * self.size ==> #[trigger] self.best@[k] == NO_LEAF || self.best@[k]
                        < self.values@.len(),
            decreases node,
        {
            let ghost prior = *self;
            let left: u32 = self.best[2 * node];
            let rest: u32 = self.best[2 * node + 1];
            let chosen: u32 = self.pick(left, rest);
            self.best.set(node, chosen);
            assert(self.shaped()) by {
                assert forall|k: int| 0 <= k < self.size implies #[trigger] self.best@[self.size + k]
                    == (if k < self.values@.len() {
                    k as u32
                } else {
                    NO_LEAF
                }) by {
                    assert(prior.best@[self.size + k] == self.best@[self.size + k]);
                }
            }
            let ghost up = node / 2;
            assert forall|k: int| 1 <= k < self.size && (!above(k, p) || k > up) implies
                #[trigger] self.right(k) by {
                if k == node {
                } else if above(k, p) && k < node {
                    lemma_chain(k, node as int, p);
                    assert(above(k, node as int));
                    lemma_above_le(k, node as int / 2);
                } else {
                    assert(prior.right(k));
                    if 2 * k == node || 2 * k + 1 == node {
                        lemma_above_children(k, p);
                        assert(above(k, p));
                        assert(k == up);
                    }
                }
            }
            proof {
                if up >= 1 {
                    lemma_above_children(up as int, p);
                }
            }
            node = node / 2;
        }
    }

    /// The value of a node: that of its best leaf.
    spec fn key_of(&self, node: int) -> u32 {
        self.values@[self.best@[node] as int]
    }

    spec fn usable(&self, node: int) -> bool {
        1 <= node < 2 * self.size && self.best@[node] != NO_LEAF
    }

    spec fn heap_nodes(&self, heap: Seq<u32>) -> bool {
        forall|j: int| 0 <= j < heap.len() ==> self.usable(#[trigger] heap[j] as int)
    }

    spec fn heap_link(&self, heap: Seq<u32>, j: int) -> bool {
        self.key_of(heap[(j - 1) / 2] as int) >= self.key_of(heap[j] as int)
    }

    spec fn heap_ok(&self, heap: Seq<u32>) -> bool {
        &&& self.heap_nodes(heap)
        &&& forall|j: int| 1 <= j < heap.len() ==> #[trigger] self.heap_link(heap, j)
    }

    /// Nodes of the subtree at `node`.
    spec fn bulk(&self, node: int) -> int
        decreases 2 * self.size - node,
    {
        if 1 <= node < self.size {
            1 + self.bulk(2 * node) + self.bulk(2 * node + 1)
        } else {
            1
        }
    }

    /// Nodes of all the subtrees in the heap.
    spec fn weight(&self, heap: Seq<u32>) -> int
        decreases heap.len(),
    {
        if heap.len() == 0 {
            0
        } else {
            self.weight(heap.drop_last()) + self.bulk(heap.last() as int)
        }
    }

    proof fn lemma_bulk(&self, node: int)
        ensures
            self.bulk(node) >= 1,
        decreases 2 * self.size - node,
    {
        if 1 <= node < self.size {
            self.lemma_bulk(2 * node);
            self.lemma_bulk(2 * node + 1);
        }
    }

    proof fn lemma_weight(&self, heap: Seq<u32>)
        ensures
            self.weight(heap) >= 0,
        decreases heap.len(),
    {
        if heap.len() > 0 {
            self.lemma_weight(heap.drop_last());
            self.lemma_bulk(heap.last() as int);
        }
    }

    proof fn lemma_weight_update(&self, heap: Seq<u32>, i: int, node: u32)
        requires
            0 <= i < heap.len(),
        ensures
            self.weight(heap.update(i, node)) == self.weight(heap) - self.bulk(heap[i] as int)
                + self.bulk(node as int),
        decreases heap.len(),
    {
        let other = heap.update(i, node);
        if i == heap.len() - 1 {
            assert(other.drop_last() =~= heap.drop_last());
        } else {
            self.lemma_weight_update(heap.drop_last(), i, node);
            assert(other.drop_last() =~= heap.drop_last().update(i, node));
        }
    }

    fn key(&self, node: u32) -> (v: u32)
        requires
            self.wf(),
            self.usable(node as int),
        ensures
            v == self.key_of(node as int),
    {
        proof {
            self.lemma_best(node as int);
        }
        self.values[self.best[node as usize] as usize]
    }

    proof fn lemma_root_is_max(&self, heap: Seq<u32>, j: int)
        requires
            self.heap_ok(heap),
            0 <= j < heap.len(),
        ensures
            self.key_of(heap[0] as int) >= self.key_of(heap[j] as int),
        decreases j,
    {
        if j > 0 {
            assert(self.heap_link(heap, j));
            self.lemma_root_is_max(heap, (j - 1) / 2);
        }
    }

    fn push(&self, heap: &mut Vec<u32>, node: u32)
        requires
            self.wf(),
            1 <= node < 2 * self.places(),
            self.heap_ok(old(heap)@),
        ensures
            self.heap_ok(final(heap)@),
            final(heap)@.to_multiset() == (if self.usable(node as int) {
                old(heap)@.to_multiset().insert(node)
            } else {
                old(heap)@.to_multiset()
            }),
            self.weight(final(heap)@) == self.weight(old(heap)@) + (if self.usable(node as int) {
                self.bulk(node as int)
            } else {
                0
            }),
    {
        if self.best[node as usize] == NO_LEAF {
            return;
        }
        let value: u32 = self.key(node);
        let mut i: usize = heap.len();
        let ghost before = heap@;
        heap.push(node);
        proof {
            assert(heap@.drop_last() =~= before);
            before.to_multiset_ensures();
            assert forall|j: int| 1 <= j < heap@.len() && j != i implies #[trigger] self.heap_link(
                heap@,
                j,
            ) by {
                assert(self.heap_link(before, j));
            }
        }
        while i > 0
            invariant
                self.wf(),
                i < heap@.len(),
                self.usable(node as int),
                heap@[i as int] == node,
                value == self.key_of(node as int),
                self.heap_nodes(heap@),
                heap@.to_multiset() == before.to_multiset().insert(node),
                self.weight(heap@) == self.weight(before) + self.bulk(node as int),
                forall|j: int|
                    1 <= j < heap@.len() && j != i ==> #[trigger] self.heap_link(heap@, j),
                i > 0 ==> forall|j: int|
                    1 <= j < heap@.len() && (j - 1) / 2 == i ==> self.key_of(
                        heap@[(i - 1) / 2] as int,
                    ) >= self.key_of(#[trigger] heap@[j] as int),
            ensures
                self.heap_ok(heap@),
                heap@.to_multiset() == before.to_multiset().insert(node),
                self.weight(heap@) == self.weight(before) + self.bulk(node as int),
            decreases i,
        {
            let parent: usize = (i - 1) / 2;
            let above_node: u32 = heap[parent];
            if self.key(above_node) >= value {
                break;
            }
            let ghost prior = heap@;
            proof {
                self.lemma_weight_update(prior, i as int, above_node);
                self.lemma_weight_update(prior.update(i as int, above_node), parent as int, node);
                to_multiset_update(prior, i as int, above_node);
                to_multiset_update(prior.update(i as int, above_node), parent as int, node);
            }
            heap.set(i, above_node);
            heap.set(parent, node);
            proof {
                assert(heap@.to_multiset() =~= prior.to_multiset());
                assert forall|j: int| 1 <= j < heap@.len() && j != parent implies
                    #[trigger] self.heap_link(heap@, j) by {
                    if j != i {
                        assert(self.heap_link(prior, j));
                    }
                    if (j - 1) / 2 == i {
                        assert(prior[j] == heap@[j]);
                    }
                }
                if parent > 0 {
                    assert(self.heap_link(prior, parent as int));
                    assert forall|j: int| 1 <= j < heap@.len() && (j - 1) / 2 == parent implies
                        self.key_of(heap@[(parent - 1) / 2] as int) >= self.key_of(
                        #[trigger] heap@[j] as int,
                    ) by {
                        if j != i {
                            assert(self.heap_link(prior, j));
                        }
                    }
                }
            }
            i = parent;
        }
    }

    #[verifier::rlimit(60)]
    #[verifier::spinoff_prover]
    fn pop(&self, heap: &mut Vec<u32>) -> (r: Option<u32>)
        requires
            self.wf(),
            self.heap_ok(old(heap)@),
        ensures
            self.heap_ok(final(heap)@),
            match r {
                None => old(heap)@.len() == 0 && final(heap)@ == old(heap)@,
                Some(top) => {
                    &&& old(heap)@.contains(top)
                    &&& final(heap)@.to_multiset() == old(heap)@.to_multiset().remove(top)
                    &&& self.weight(final(heap)@) == self.weight(old(heap)@) - self.bulk(top as int)
                    &&& forall|j: int|
                        0 <= j < old(heap)@.len() ==> self.key_of(#[trigger] old(heap)@[j] as int)
                            <= self.key_of(top as int)
                },
            },
    {
        if heap.len() == 0 {
            return None;
        }
        let ghost whole = heap@;
        let top: u32 = heap[0];
        proof {
            assert forall|j: int| 0 <= j < whole.len() implies self.key_of(
                #[trigger] whole[j] as int,
            ) <= self.key_of(top as int) by {
                self.lemma_root_is_max(whole, j);
            }
            whole.to_multiset_ensures();
            assert(whole.contains(top));
        }
        let popped = heap.pop();
        let last: u32 = match popped {
            Some(v) => v,
            None => {
                return None;
            },
        };
        proof {
            assert(heap@ =~= whole.drop_last());
            assert(whole =~= heap@.push(last));
            heap@.to_multiset_ensures();
            assert(heap@.push(last).to_multiset() == heap@.to_multiset().insert(last));
        }
        if heap.len() == 0 {
            assert(top == last);
            assert(heap@.to_multiset() =~= whole.to_multiset().remove(top));
            return Some(top);
        }
        let ghost cut = heap@;
        proof {
            to_multiset_update(cut, 0, last);
            self.lemma_weight_update(cut, 0, last);
        }
        heap.set(0, last);
        let value: u32 = self.key(last);
        let mut i: usize = 0;
        proof {
            assert(cut[0] == top);
            assert(cut.to_multiset().contains(top));
            assert(heap@.to_multiset() =~= whole.to_multiset().remove(top));
            assert forall|j: int| 1 <= j < heap@.len() && (j - 1) / 2 != 0 implies
                #[trigger] self.heap_link(heap@, j) by {
                assert(self.heap_link(whole, j));
            }
        }
        loop
            invariant
                self.wf(),
                i < heap@.len(),
                heap@[i as int] == last,
                value == self.key_of(last as int),
                self.heap_nodes(heap@),
                heap@.to_multiset() == whole.to_multiset().remove(top),
                self.weight(heap@) == self.weight(whole) - self.bulk(top as int),
                forall|j: int|
                    1 <= j < heap@.len() && (j - 1) / 2 != i ==> #[trigger] self.heap_link(
                        heap@,
                        j,
                    ),
                i > 0 ==> forall|j: int|
                    1 <= j < heap@.len() && (j - 1) / 2 == i ==> self.key_of(
                        heap@[(i - 1) / 2] as int,
                    ) >= self.key_of(#[trigger] heap@[j] as int),
            ensures
                self.heap_ok(heap@),
                heap@.to_multiset() == whole.to_multiset().remove(top),
                self.weight(heap@) == self.weight(whole) - self.bulk(top as int),
            decreases heap@.len() - i,
        {
            let n: usize = heap.len();
            if i >= n / 2 {
                assert(2 * i + 1 >= n);
                break;
            }
            let mut child: usize = 2 * i + 1;
            if child + 1 < n && self.key(heap[child + 1]) > self.key(heap[child]) {
                child = child + 1;
            }
            let moved: u32 = heap[child];
            if self.key(moved) <= value {
                assert forall|j: int| 1 <= j < heap@.len() implies #[trigger] self.heap_link(
                    heap@,
                    j,
                ) by {
                    if (j - 1) / 2 == i {
                        assert(j == 2 * i + 1 || j == 2 * i + 2);
                    }
                }
                break;
            }
            let ghost prior = heap@;
            proof {
                prior.to_multiset_ensures();
                assert(prior.contains(last));
                self.lemma_weight_update(prior, i as int, moved);
                self.lemma_weight_update(prior.update(i as int, moved), child as int, last);
                to_multiset_update(prior, i as int, moved);
                to_multiset_update(prior.update(i as int, moved), child as int, last);
            }
            heap.set(i, moved);
            heap.set(child, last);
            proof {
                assert(heap@.to_multiset() =~= prior.to_multiset());
                assert forall|j: int| 1 <= j < heap@.len() && (j - 1) / 2 != child implies
                    #[trigger] self.heap_link(heap@, j) by {
                    if (j - 1) / 2 == i {
                        assert(j == 2 * i + 1 || j == 2 * i + 2);
                    } else {
                        assert(self.heap_link(prior, j));
                        if j == i {
                            assert(prior[child as int] == moved);
                            assert((child - 1) / 2 == i);
                        }
                    }
                }
                assert forall|j: int| 1 <= j < heap@.len() && (j - 1) / 2 == child implies
                    self.key_of(heap@[(child - 1) / 2] as int) >= self.key_of(
                    #[trigger] heap@[j] as int,
                ) by {
                    assert(self.heap_link(prior, j));
                }
            }
            i = child;
        }
        Some(top)
    }
}

/// An ancestor of `p` below `node` in number is an ancestor of `node`, when
/// `node` is an ancestor of `p` too.
proof fn lemma_chain(a: int, node: int, p: int)
    requires
        1 <= a <= node,
        above(a, p),
        above(node, p),
    ensures
        above(a, node),
    decreases p,
{
    lemma_above_le(node, p);
    if p != node {
        lemma_chain(a, node, p / 2);
    }
}

/// The ancestor of `p` that is `s` levels up.
spec fn up(p: int, s: nat) -> int
    decreases s,
{
    if s == 0 {
        p
    } else {
        up(p, (s - 1) as nat) / 2
    }
}

proof fn lemma_up_half(p: int, s: nat)
    ensures
        up(p / 2, s) == up(p, s + 1),
    decreases s,
{
    reveal_with_fuel(up, 2);
    if s > 0 {
        lemma_up_half(p, (s - 1) as nat);
    }
}

proof fn lemma_up_le(p: int, s: nat)
    requires
        p >= 0,
    ensures
        0 <= up(p, s) <= p,
    decreases s,
{
    if s > 0 {
        lemma_up_le(p, (s - 1) as nat);
    }
}

proof fn lemma_up_above(p: int, s: nat)
    requires
        p >= 1,
        up(p, s) >= 1,
    ensures
        above(up(p, s), p),
    decreases s,
{
    if s > 0 {
        lemma_up_half(p, (s - 1) as nat);
        lemma_up_le(p / 2, (s - 1) as nat);
        lemma_up_above(p / 2, (s - 1) as nat);
        lemma_above_le(up(p, s), p / 2);
    }
}

proof fn lemma_above_up(node: int, p: int) -> (s: nat)
    requires
        node >= 1,
        above(node, p),
    ensures
        up(p, s) == node,
    decreases p,
{
    lemma_above_le(node, p);
    if p == node {
        0
    } else {
        let t = lemma_above_up(node, p / 2);
        lemma_up_half(p, t);
        t + 1
    }
}

proof fn lemma_up_bounds(p: int, s: nat, levels: nat)
    requires
        pow2(levels) <= p < 2 * pow2(levels),
    ensures
        s <= levels ==> pow2((levels - s) as nat) <= up(p, s) < 2 * pow2((levels - s) as nat),
        s > levels ==> up(p, s) == 0,
    decreases s,
{
    if s > 0 {
        lemma_up_bounds(p, (s - 1) as nat, levels);
        if s <= levels {
            lemma_pow2_unfold((levels - s + 1) as nat);
        } else if s == levels + 1 {
            vstd::arithmetic::power2::lemma2_to64();
        }
    }
}

/// At one level, a node is above exactly the positions that reach it there.
proof fn lemma_level(node: int, p: int, s: nat, levels: nat)
    requires
        pow2(levels) <= p < 2 * pow2(levels),
        s <= levels,
        pow2((levels - s) as nat) <= node < 2 * pow2((levels - s) as nat),
    ensures
        above(node, p) <==> up(p, s) == node,
{
    lemma_pow2_pos((levels - s) as nat);
    lemma_pow2_pos(levels);
    lemma_up_bounds(p, s, levels);
    if up(p, s) == node {
        lemma_up_above(p, s);
    }
    if above(node, p) {
        let t = lemma_above_up(node, p);
        lemma_up_bounds(p, t, levels);
        if t < s {
            lemma_pow2_unfold((levels - t) as nat);
            lemma_pow2_monotone((levels - s) as nat, (levels - t - 1) as nat);
        } else if t > s {
            if t <= levels {
                lemma_pow2_unfold((levels - s) as nat);
                lemma_pow2_monotone((levels - t) as nat, (levels - s - 1) as nat);
            }
        }
    }
}

proof fn lemma_pow2_monotone(a: nat, b: nat)
    requires
        a <= b,
    ensures
        pow2(a) <= pow2(b),
{
    if a < b {
        vstd::arithmetic::power2::lemma_pow2_strictly_increases(a, b);
    }
}

impl MaxTree {
    /// The nodes of `m` stand for disjoint sets of leaves that, with the
    /// pending ones and those already handed out, make up the range.
    spec fn pool_ok(
        &self,
        m: Multiset<u32>,
        lo: int,
        hi: int,
        pending: spec_fn(int) -> bool,
        done: Seq<u32>,
    ) -> bool {
        &&& forall|x: u32| #[trigger] m.contains(x) ==> self.usable(x as int) && m.count(x) == 1
        &&& forall|x: u32, y: u32, i: int|
            m.contains(x) && m.contains(y) && x != y ==> !(#[trigger] self.holds(x as int, i)
                && #[trigger] self.holds(y as int, i))
        &&& forall|x: u32, i: int|
            m.contains(x) && #[trigger] self.holds(x as int, i) ==> lo <= i < hi && !pending(i)
                && !done.contains(i as u32)
        &&& forall|i: int|
            lo <= i < hi && 0 <= i < self.values@.len() ==> #[trigger] pending(i) || done.contains(
                i as u32,
            ) || exists|x: u32| m.contains(x) && #[trigger] self.holds(x as int, i)
        &&& forall|i: int| #[trigger] pending(i) ==> lo <= i < hi && !done.contains(i as u32)
        &&& forall|j: int|
            0 <= j < done.len() ==> lo <= #[trigger] done[j] < hi && done[j] < self.values@.len()
    }

    proof fn lemma_pool_insert(
        &self,
        m: Multiset<u32>,
        lo: int,
        hi: int,
        pending: spec_fn(int) -> bool,
        rest: spec_fn(int) -> bool,
        done: Seq<u32>,
        node: u32,
    )
        requires
            self.wf(),
            1 <= node < 2 * self.size,
            self.pool_ok(m, lo, hi, pending, done),
            forall|i: int| #[trigger] self.holds(node as int, i) ==> pending(i),
            forall|i: int|
                0 <= i < self.values@.len() ==> (#[trigger] rest(i) <==> (pending(i)
                    && !self.holds(node as int, i))),
            forall|i: int| #[trigger] rest(i) ==> pending(i),
        ensures
            self.usable(node as int) ==> self.pool_ok(m.insert(node), lo, hi, rest, done),
            !self.usable(node as int) ==> self.pool_ok(m, lo, hi, rest, done),
    {
        self.lemma_best(node as int);
        if self.usable(node as int) {
            let n = m.insert(node);
            let b = self.best@[node as int] as int;
            assert(self.holds(node as int, b));
            assert(!m.contains(node));
            assert forall|x: u32| #[trigger] n.contains(x) implies self.usable(x as int) && n.count(
                x,
            ) == 1 by {
                if x != node {
                    assert(m.contains(x));
                }
            }
            assert forall|x: u32, i: int|
                n.contains(x) && #[trigger] self.holds(x as int, i) implies lo <= i < hi && !rest(i)
                && !done.contains(i as u32) by {
                if x != node {
                    assert(m.contains(x));
                } else {
                    assert(pending(i));
                }
            }
            assert forall|x: u32, y: u32, i: int|
                n.contains(x) && n.contains(y) && x != y implies !(#[trigger] self.holds(
                x as int,
                i,
            ) && #[trigger] self.holds(y as int, i)) by {
                if x != node {
                    assert(m.contains(x));
                }
                if y != node {
                    assert(m.contains(y));
                }
            }
            assert forall|i: int| lo <= i < hi && 0 <= i < self.values@.len() implies
                #[trigger] rest(i) || done.contains(i as u32) || exists|x: u32|
                n.contains(x) && #[trigger] self.holds(x as int, i) by {
                if !rest(i) && !done.contains(i as u32) {
                    if pending(i) {
                        assert(n.contains(node) && self.holds(node as int, i));
                    } else {
                        let x = choose|x: u32| m.contains(x) && #[trigger] self.holds(x as int, i);
                        assert(n.contains(x) && self.holds(x as int, i));
                    }
                }
            }
        } else {
            assert forall|i: int| lo <= i < hi && 0 <= i < self.values@.len() implies
                #[trigger] rest(i) || done.contains(i as u32) || exists|x: u32|
                m.contains(x) && #[trigger] self.holds(x as int, i) by {
                assert(!self.holds(node as int, i));
                assert(rest(i) <==> pending(i));
            }
        }
    }

    proof fn lemma_pool_remove(
        &self,
        m: Multiset<u32>,
        lo: int,
        hi: int,
        done: Seq<u32>,
        node: u32,
    )
        requires
            self.wf(),
            self.pool_ok(m, lo, hi, |i: int| false, done),
            m.contains(node),
        ensures
            self.pool_ok(m.remove(node), lo, hi, |i: int| self.holds(node as int, i), done),
    {
        let n = m.remove(node);
        let pending = |i: int| self.holds(node as int, i);
        assert(m.count(node) == 1);
        assert forall|x: u32| #[trigger] n.contains(x) implies self.usable(x as int) && n.count(x)
            == 1 by {
            assert(m.contains(x));
        }
        assert forall|x: u32, i: int| n.contains(x) && #[trigger] self.holds(x as int, i) implies lo
            <= i < hi && !pending(i) && !done.contains(i as u32) by {
            assert(m.contains(x));
            assert(x != node);
        }
        assert forall|x: u32, y: u32, i: int|
            n.contains(x) && n.contains(y) && x != y implies !(#[trigger] self.holds(x as int, i)
            && #[trigger] self.holds(y as int, i)) by {
            assert(m.contains(x) && m.contains(y));
        }
        assert forall|i: int| lo <= i < hi && 0 <= i < self.values@.len() implies
            #[trigger] pending(i) || done.contains(i as u32) || exists|x: u32|
            n.contains(x) && #[trigger] self.holds(x as int, i) by {
            let none = |i: int| false;
            assert(!none(i));
            if !pending(i) && !done.contains(i as u32) {
                let x = choose|x: u32| m.contains(x) && #[trigger] self.holds(x as int, i);
                assert(n.contains(x) && self.holds(x as int, i));
            }
        }
    }

    proof fn lemma_emit(&self, m: Multiset<u32>, lo: int, hi: int, done: Seq<u32>, node: u32)
        requires
            self.wf(),
            self.size <= node < 2 * self.size,
            self.usable(node as int),
            self.pool_ok(m, lo, hi, |i: int| self.holds(node as int, i), done),
        ensures
            self.pool_ok(m, lo, hi, |i: int| false, done.push((node - self.size) as u32)),
            lo <= node - self.size < hi,
            node - self.size < self.values@.len(),
            !done.contains((node - self.size) as u32),
    {
        let id = (node - self.size) as u32;
        let pending = |i: int| self.holds(node as int, i);
        let none = |i: int| false;
        let more = done.push(id);
        self.lemma_best(node as int);
        assert(self.best@[self.size + id] == self.best@[node as int]);
        assert(above(node as int, node as int));
        assert(self.holds(node as int, id as int));
        assert(pending(id as int));
        assert forall|i: int| self.holds(node as int, i) implies i == id by {
            if self.size + i > node {
                if above(node as int, (self.size + i) / 2) {
                    lemma_above_le(node as int, (self.size + i) / 2);
                }
            }
        }
        assert forall|x: u32, i: int| m.contains(x) && #[trigger] self.holds(x as int, i) implies lo
            <= i < hi && !none(i) && !more.contains(i as u32) by {
            assert(!pending(i));
            if more.contains(i as u32) {
                let j = choose|j: int| 0 <= j < more.len() && more[j] == i as u32;
                if j < done.len() {
                    assert(done[j] == i as u32);
                } else {
                    assert(i == id);
                }
            }
        }
        assert forall|i: int| lo <= i < hi && 0 <= i < self.values@.len() implies
            #[trigger] none(i) || more.contains(i as u32) || exists|x: u32|
            m.contains(x) && #[trigger] self.holds(x as int, i) by {
            if pending(i) {
                assert(i == id);
                assert(more[done.len() as int] == id);
            } else if done.contains(i as u32) {
                let j = choose|j: int| 0 <= j < done.len() && done[j] == i as u32;
                assert(more[j] == i as u32);
            }
        }
    }

    proof fn lemma_finish(
        &self,
        heap: Seq<u32>,
        lo: int,
        hi: int,
        k: int,
        done: Seq<u32>,
        open: bool,
    )
        requires
            self.wf(),
            0 <= lo < hi <= self.size,
            done.len() <= k,
            self.pool_ok(heap.to_multiset(), lo, hi, |i: int| false, done),
            self.ranked(done, heap.to_multiset()),
            self.heap_ok(heap),
            open ==> done.len() == k,
            !open ==> heap.len() == 0,
        ensures
            is_top_k(self.values@, lo, hi, k, done),
    {
        let m = heap.to_multiset();
        let none = |i: int| false;
        let stop = if hi < self.values@.len() {
            hi
        } else {
            self.values@.len() as int
        };
        let held = if stop > lo {
            stop - lo
        } else {
            0
        };
        let range = Set::new(|x: u32| lo <= x < lo + held);
        lemma_id_range(lo, lo + held, range);
        done.unique_seq_to_set();
        assert(done.to_set().subset_of(range)) by {
            assert forall|x: u32| done.to_set().contains(x) implies range.contains(x) by {
                let j = choose|j: int| 0 <= j < done.len() && done[j] == x;
                assert(lo <= done[j] < hi);
            }
        }
        lemma_len_subset(done.to_set(), range);
        if !open {
            heap.to_multiset_ensures();
            assert(heap =~= Seq::<u32>::empty());
            assert forall|x: u32| range.contains(x) implies done.to_set().contains(x) by {
                assert(!none(x as int));
                if !done.contains(x) {
                    let y = choose|y: u32| m.contains(y) && #[trigger] self.holds(y as int, x as int);
                    assert(heap.contains(y));
                }
            }
            lemma_len_subset(range, done.to_set());
        }
        assert forall|i: int, a: int|
            lo <= i < stop && !done.contains(i as u32) && 0 <= a < done.len() implies
            #[trigger] self.values@[i] <= self.values@[#[trigger] done[a] as int] by {
            assert(!none(i));
            let x = choose|x: u32| m.contains(x) && #[trigger] self.holds(x as int, i);
            self.lemma_best(x as int);
            assert(self.values@[done[a] as int] >= self.key_of(x as int));
        }
    }

    /// Values of the ids handed out do not grow, and nothing left is larger.
    spec fn ranked(&self, done: Seq<u32>, m: Multiset<u32>) -> bool {
        &&& forall|a: int, b: int|
            0 <= a <= b < done.len() ==> self.values@[done[a] as int]
                >= self.values@[done[b] as int]
        &&& forall|x: u32, a: int|
            m.contains(x) && 0 <= a < done.len() ==> #[trigger] self.values@[done[a] as int]
                >= #[trigger] self.key_of(x as int)
        &&& done.no_duplicates()
    }
}

/// What a top-k answer over `[lo, hi)` of `values` looks like: as many
/// distinct ids of the range as there are, at most `k`, best first, and no id
/// of the range left out has a larger value than any of them.
pub open spec fn is_top_k(values: Seq<u32>, lo: int, hi: int, k: int, top: Seq<u32>) -> bool {
    let stop = if hi < values.len() {
        hi
    } else {
        values.len() as int
    };
    let held = if stop > lo {
        stop - lo
    } else {
        0
    };
    &&& top.len() == (if held < k {
        held
    } else {
        k
    })
    &&& top.no_duplicates()
    &&& forall|a: int| 0 <= a < top.len() ==> lo <= #[trigger] top[a] < stop
    &&& forall|a: int, b: int|
        0 <= a <= b < top.len() ==> values[top[a] as int] >= values[top[b] as int]
    &&& forall|i: int, a: int|
        lo <= i < stop && !top.contains(i as u32) && 0 <= a < top.len() ==> #[trigger] values[i]
            <= values[#[trigger] top[a] as int]
}

impl MaxTree {
    /// Append up to `k` ids of `[lo, hi)` to `out`, best first: best-first
    /// expansion from the canonical nodes covering the range.
    pub fn top_k(&self, lo: usize, hi: usize, k: usize, heap: &mut Vec<u32>, out: &mut Vec<u32>)
        requires
            self.wf(),
            hi <= self.places(),
        ensures
            final(out)@.len() >= old(out)@.len(),
            final(out)@.take(old(out)@.len() as int) == old(out)@,
            is_top_k(
                self@,
                lo as int,
                hi as int,
                k as int,
                final(out)@.skip(old(out)@.len() as int),
            ),
    {
        let ghost start = out@;
        if lo >= hi || k == 0 {
            assert(out@.take(start.len() as int) =~= start);
            assert(out@.skip(start.len() as int) =~= Seq::<u32>::empty());
            return;
        }
        let ghost none: Seq<u32> = Seq::empty();
        heap.clear();
        let mut l: usize = lo + self.size;
        let mut r: usize = hi + self.size;
        let ghost mut s: nat = 0;
        let ghost levels = self.levels as nat;
        let ghost mut pending: spec_fn(int) -> bool = |i: int|
            0 <= i < self.values@.len() && l <= up(self.size + i, s) < r;
        proof {
            heap@.to_multiset_ensures();
            assert(heap@.to_multiset() =~= Multiset::empty());
            assert(self.pool_ok(Multiset::empty(), lo as int, hi as int, pending, none)) by {
                assert forall|i: int| lo <= i < hi && 0 <= i < self.values@.len() implies
                    #[trigger] pending(i) by {
                    assert(up(self.size + i, 0) == self.size + i);
                }
            }
        }
        while l < r
            invariant
                self.wf(),
                levels == self.levels,
                lo < hi <= self.size,
                l <= r,
                r <= 2 * self.size,
                none == Seq::<u32>::empty(),
                s <= levels ==> pow2((levels - s) as nat) <= l && r <= 2 * pow2(
                    (levels - s) as nat,
                ),
                s > levels ==> l == r,
                pending == (|i: int| 0 <= i < self.values@.len() && l <= up(self.size + i, s) < r),
                self.heap_ok(heap@),
                self.pool_ok(heap@.to_multiset(), lo as int, hi as int, pending, none),
            decreases r,
        {
            proof {
                lemma_pow2_pos((levels - s) as nat);
                assert forall|i: int, x: int|
                    0 <= i < self.values@.len() && pow2((levels - s) as nat) <= x < 2 * pow2(
                        (levels - s) as nat,
                    ) implies (#[trigger] self.holds(x, i) <==> up(self.size + i, s) == x) by {
                    lemma_level(x, self.size + i, s, levels);
                }
            }
            if l % 2 == 1 {
                let ghost rest: spec_fn(int) -> bool = |i: int|
                    0 <= i < self.values@.len() && l + 1 <= up(self.size + i, s) < r;
                proof {
                    self.lemma_pool_insert(
                        heap@.to_multiset(),
                        lo as int,
                        hi as int,
                        pending,
                        rest,
                        none,
                        l as u32,
                    );
                }
                self.push(heap, l as u32);
                proof {
                    pending = rest;
                }
                l = l + 1;
            }
            if r % 2 == 1 {
                r = r - 1;
                let ghost rest: spec_fn(int) -> bool = |i: int|
                    0 <= i < self.values@.len() && l <= up(self.size + i, s) < r;
                proof {
                    self.lemma_pool_insert(
                        heap@.to_multiset(),
                        lo as int,
                        hi as int,
                        pending,
                        rest,
                        none,
                        r as u32,
                    );
                }
                self.push(heap, r as u32);
                proof {
                    pending = rest;
                }
            }
            let ghost old_pending = pending;
            proof {
                if s < levels {
                    lemma_pow2_unfold((levels - s) as nat);
                } else {
                    vstd::arithmetic::power2::lemma2_to64();
                }
                s = s + 1;
                pending =
                |i: int| 0 <= i < self.values@.len() && l / 2 <= up(self.size + i, s) < r / 2;
                assert forall|i: int| #[trigger] pending(i) == old_pending(i) by {
                    assert(up(self.size + i, s) == up(self.size + i, (s - 1) as nat) / 2);
                }
                assert(pending =~= old_pending);
            }
            l = l / 2;
            r = r / 2;
        }
        proof {
            assert(pending =~= (|i: int| false));
        }
        let mut emitted: usize = 0;
        let ghost mut done: Seq<u32> = Seq::empty();
        let ghost stop = if hi < self.values@.len() {
            hi as int
        } else {
            self.values@.len() as int
        };
        let mut open: bool = true;
        assert(out@ =~= start + done);
        while open && emitted < k
            invariant
                self.wf(),
                lo < hi <= self.size,
                emitted == done.len(),
                emitted <= k,
                out@ == start + done,
                self.heap_ok(heap@),
                self.pool_ok(heap@.to_multiset(), lo as int, hi as int, |i: int| false, done),
                self.ranked(done, heap@.to_multiset()),
                !open ==> heap@.len() == 0,
            decreases
                    (if open {
                        1int
                    } else {
                        0int
                    }),
                    self.weight(heap@),
        {
            let ghost before = heap@;
            let popped = self.pop(heap);
            match popped {
                None => {
                    open = false;
                },
                Some(node) => {
                    let ghost m = before.to_multiset();
                    proof {
                        before.to_multiset_ensures();
                        self.lemma_pool_remove(m, lo as int, hi as int, done, node);
                        self.lemma_best(node as int);
                        self.lemma_weight(before);
                        self.lemma_weight(heap@);
                        self.lemma_bulk(node as int);
                        assert forall|x: u32| #[trigger] m.contains(x) implies self.key_of(x as int)
                            <= self.key_of(node as int) by {
                            let j = choose|j: int| 0 <= j < before.len() && before[j] == x;
                            assert(self.key_of(before[j] as int) <= self.key_of(node as int));
                        }
                    }
                    if node as usize >= self.size {
                        let id: u32 = node - self.size as u32;
                        let ghost prior = done;
                        out.push(id);
                        emitted = emitted + 1;
                        proof {
                            done = prior.push(id);
                            assert(out@ =~= start + done);
                            self.lemma_emit(heap@.to_multiset(), lo as int, hi as int, prior, node);
                            let rest = heap@.to_multiset();
                            assert forall|x: u32| #[trigger] rest.contains(x) implies m.contains(
                                x,
                            ) by {}
                            assert(self.best@[self.size + id] == id);
                            assert(self.key_of(node as int) == self.values@[id as int]);
                            assert(self.ranked(done, rest));
                        }
                    } else {
                        let ghost low = 2 * node;
                        let ghost high = 2 * node + 1;
                        let ghost p0: spec_fn(int) -> bool = |i: int| self.holds(node as int, i);
                        let ghost p1: spec_fn(int) -> bool = |i: int|
                            self.holds(node as int, i) && !self.holds(low, i);
                        let ghost p2: spec_fn(int) -> bool = |i: int| false;
                        proof {
                            assert forall|i: int| 0 <= i < self.values@.len() implies (
                            #[trigger] self.holds(node as int, i) <==> (self.holds(low, i)
                                || self.holds(high, i))) && !(self.holds(low, i) && self.holds(
                                high,
                                i,
                            )) by {
                                lemma_above_children(node as int, self.size + i);
                                lemma_siblings_disjoint(node as int, self.size + i);
                            }
                            self.lemma_pool_insert(
                                heap@.to_multiset(),
                                lo as int,
                                hi as int,
                                p0,
                                p1,
                                done,
                                low as u32,
                            );
                        }
                        self.push(heap, 2 * node);
                        proof {
                            self.lemma_pool_insert(
                                heap@.to_multiset(),
                                lo as int,
                                hi as int,
                                p1,
                                p2,
                                done,
                                high as u32,
                            );
                        }
                        self.push(heap, 2 * node + 1);
                        proof {
                            self.lemma_best(low as int);
                            self.lemma_best(high as int);
                            let rest = heap@.to_multiset();
                            assert forall|x: u32| #[trigger] rest.contains(x) implies self.key_of(
                                x as int,
                            ) <= self.key_of(node as int) by {
                                if x == low {
                                    let b = self.best@[low as int] as int;
                                    lemma_above_children(node as int, self.size + b);
                                    assert(self.holds(node as int, b));
                                } else if x == high {
                                    let b = self.best@[high as int] as int;
                                    lemma_above_children(node as int, self.size + b);
                                    assert(self.holds(node as int, b));
                                } else {
                                    assert(m.contains(x));
                                }
                            }
                            assert(self.ranked(done, rest)) by {
                                assert(m.contains(node));
                            }
                            self.lemma_bulk(low as int);
                            self.lemma_bulk(high as int);
                            self.lemma_weight(heap@);
                        }
                    }
                },
            }
        }
        proof {
            assert(out@.take(start.len() as int) =~= start);
            assert(out@.skip(start.len() as int) =~= done);
            self.lemma_finish(heap@, lo as int, hi as int, k as int, done, open);
        }
    }
}

} // verus!
