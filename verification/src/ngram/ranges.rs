//! Prefix sums over ids, as the tree nodes they read and write, and id-sorted
//! follower lists.

use vstd::prelude::*;

verus! {

/// The largest power of two that divides `j`.
pub open spec fn lowest_one(j: nat) -> nat
    decreases j,
{
    if j == 0 {
        0
    } else if j % 2 == 1 {
        1
    } else {
        2 * lowest_one(j / 2)
    }
}

/// Node `t` of a prefix-sum tree holds the sum over the positions it covers:
/// `p` is one of them when it lies within `lowest_one(t)` at or below `t`.
pub open spec fn covers(t: nat, p: nat) -> bool {
    t - lowest_one(t) < p <= t
}

pub proof fn lemma_lowest_one(j: nat)
    requires
        j > 0,
    ensures
        0 < lowest_one(j) <= j,
    decreases j,
{
    if j % 2 == 0 {
        lemma_lowest_one(j / 2);
    }
}

/// Beyond `p` itself, a node covers `p` exactly when it covers the next node
/// on `p`'s way up.
pub proof fn lemma_covers_step(t: nat, p: nat)
    requires
        p > 0,
        t > 0,
        t != p,
    ensures
        covers(t, p) == covers(t, p + lowest_one(p)),
    decreases p,
{
    lemma_lowest_one(p);
    lemma_lowest_one(t);
    if t % 2 == 0 {
        lemma_lowest_one(t / 2);
    }
    if p % 2 == 1 {
        if t % 2 == 0 {
            assert(lowest_one(t) % 2 == 0);
        }
    } else {
        lemma_lowest_one(p / 2);
        if t % 2 == 1 {
            assert(lowest_one(t) == 1);
        } else {
            assert(t / 2 != p / 2);
            lemma_covers_step(t / 2, p / 2);
            assert(2 * (t / 2) == t && 2 * (p / 2) == p);
            assert(covers(t, p) == covers(t / 2, p / 2));
            assert((p + lowest_one(p)) / 2 == p / 2 + lowest_one(p / 2));
            assert(covers(t, p + lowest_one(p)) == covers(t / 2, p / 2 + lowest_one(p / 2)));
        }
    }
}

/// Node numbers as naturals.
pub open spec fn nodes_view(nodes: Seq<usize>) -> Seq<nat> {
    nodes.map_values(|j: usize| j as nat)
}

/// The nodes from `p` up, as far as `n`.
pub open spec fn path_up(p: nat, n: nat) -> Seq<nat>
    decreases
            (if p <= n {
                n + 1 - p
            } else {
                0
            }),
{
    if p == 0 || p > n {
        Seq::empty()
    } else {
        proof {
            lemma_lowest_one(p);
        }
        seq![p] + path_up(p + lowest_one(p), n)
    }
}

/// The nodes from `p` down to nothing.
pub open spec fn path_down(p: nat) -> Seq<nat>
    decreases p,
{
    if p == 0 {
        Seq::empty()
    } else {
        proof {
            lemma_lowest_one(p);
        }
        seq![p] + path_down((p - lowest_one(p)) as nat)
    }
}

/// An update at `p` reaches exactly the nodes that cover `p`.
pub proof fn law_update_reaches_covering_nodes(p: nat, n: nat, t: nat)
    requires
        0 < p,
        0 < t <= n,
    ensures
        path_up(p, n).contains(t) <==> covers(t, p),
    decreases
            (if p <= n {
                n + 1 - p
            } else {
                0
            }),
{
    lemma_lowest_one(p);
    lemma_lowest_one(t);
    if p > n {
        assert(path_up(p, n).len() == 0);
    } else {
        let rest = path_up(p + lowest_one(p), n);
        let whole = path_up(p, n);
        assert(whole[0] == p);
        if t == p {
        } else {
            lemma_covers_step(t, p);
            law_update_reaches_covering_nodes(p + lowest_one(p), n, t);
            assert(whole.contains(t) == rest.contains(t)) by {
                if rest.contains(t) {
                    let i = choose|i: int| 0 <= i < rest.len() && rest[i] == t;
                    assert(whole[i + 1] == t);
                }
                if whole.contains(t) {
                    let i = choose|i: int| 0 <= i < whole.len() && whole[i] == t;
                    assert(rest[i - 1] == t);
                }
            }
        }
    }
}

/// A prefix sum reads each position up to `end` through exactly one node: some
/// node on the way down covers it, and no two do.
pub proof fn law_prefix_reads_each_position_once(end: nat, p: nat)
    requires
        0 < p <= end,
    ensures
        exists|i: int|
            0 <= i < path_down(end).len() && covers(#[trigger] path_down(end)[i], p),
        forall|i: int, j: int|
            0 <= i < path_down(end).len() && 0 <= j < path_down(end).len() && covers(
                #[trigger] path_down(end)[i],
                p,
            ) && covers(#[trigger] path_down(end)[j], p) ==> i == j,
    decreases end,
{
    lemma_lowest_one(end);
    let low = (end - lowest_one(end)) as nat;
    let whole = path_down(end);
    let rest = path_down(low);
    assert(whole[0] == end);
    assert forall|i: int| 0 <= i < rest.len() implies #[trigger] rest[i] <= low by {
        lemma_path_down_bound(low, i);
    }
    assert forall|i: int| 1 <= i < whole.len() implies #[trigger] whole[i] == rest[i - 1] by {}
    if p > low {
        assert(covers(whole[0], p));
    } else {
        law_prefix_reads_each_position_once(low, p);
        let i = choose|i: int| 0 <= i < rest.len() && covers(#[trigger] rest[i], p);
        assert(covers(whole[i + 1], p));
        assert forall|i: int, j: int|
            0 <= i < whole.len() && 0 <= j < whole.len() && covers(#[trigger] whole[i], p)
                && covers(#[trigger] whole[j], p) implies i == j by {
            assert(i > 0 && j > 0);
            assert(covers(rest[i - 1], p) && covers(rest[j - 1], p));
        }
    }
}

proof fn lemma_path_down_bound(p: nat, i: int)
    requires
        0 <= i < path_down(p).len(),
    ensures
        path_down(p)[i] <= p,
    decreases p,
{
    lemma_lowest_one(p);
    if i > 0 {
        let low = (p - lowest_one(p)) as nat;
        assert(path_down(p)[i] == path_down(low)[i - 1]);
        lemma_path_down_bound(low, i - 1);
    }
}

/// The largest power of two that divides `j`.
pub fn isolate_lowest_one(j: usize) -> (r: usize)
    ensures
        r == lowest_one(j as nat),
    decreases j,
{
    if j == 0 {
        0
    } else if j % 2 == 1 {
        1
    } else {
        proof {
            lemma_lowest_one((j / 2) as nat);
        }
        2 * isolate_lowest_one(j / 2)
    }
}

/// The tree nodes that an update at index `i` adds to, in a tree over `n`
/// values whose nodes are numbered from 1.
pub fn update_nodes(i: usize, n: usize) -> (nodes: Vec<usize>)
    requires
        i < n,
        2 * n <= usize::MAX,
    ensures
        nodes_view(nodes@) == path_up((i + 1) as nat, n as nat),
{
    let mut nodes: Vec<usize> = Vec::new();
    let mut j: usize = i + 1;
    assert(nodes_view(nodes@) + path_up(j as nat, n as nat) =~= path_up(j as nat, n as nat));
    while j <= n
        invariant
            0 < j,
            2 * n <= usize::MAX,
            nodes_view(nodes@) + path_up(j as nat, n as nat) == path_up((i + 1) as nat, n as nat),
        decreases
                (if j <= n {
                    n + 1 - j
                } else {
                    0
                }),
    {
        let ghost before = nodes@;
        proof {
            lemma_lowest_one(j as nat);
        }
        nodes.push(j);
        assert(nodes_view(nodes@) =~= nodes_view(before).push(j as nat));
        let next: usize = j + isolate_lowest_one(j);
        assert(nodes_view(nodes@) + path_up(next as nat, n as nat) =~= nodes_view(before) + path_up(
            j as nat,
            n as nat,
        ));
        j = next;
    }
    assert(nodes_view(nodes@) + path_up(j as nat, n as nat) =~= nodes_view(nodes@));
    nodes
}

/// The tree nodes whose sum is the sum over the first `end` values.
pub fn prefix_nodes(end: usize) -> (nodes: Vec<usize>)
    ensures
        nodes_view(nodes@) == path_down(end as nat),
{
    let mut nodes: Vec<usize> = Vec::new();
    let mut j: usize = end;
    assert(nodes_view(nodes@) + path_down(j as nat) =~= path_down(j as nat));
    while j > 0
        invariant
            nodes_view(nodes@) + path_down(j as nat) == path_down(end as nat),
        decreases j,
    {
        let ghost before = nodes@;
        proof {
            lemma_lowest_one(j as nat);
        }
        nodes.push(j);
        assert(nodes_view(nodes@) =~= nodes_view(before).push(j as nat));
        let next: usize = j - isolate_lowest_one(j);
        assert(nodes_view(nodes@) + path_down(next as nat) =~= nodes_view(before) + path_down(
            j as nat,
        ));
        j = next;
    }
    assert(nodes_view(nodes@) + path_down(0) =~= nodes_view(nodes@));
    nodes
}

/// Strictly ascending.
pub open spec fn ascending(ids: Seq<u32>) -> bool {
    forall|i: int, j: int| 0 <= i < j < ids.len() ==> ids[i] < ids[j]
}

/// First index at or after which every id is `>= id`.
pub open spec fn is_lower_bound(ids: Seq<u32>, id: u32, at: int) -> bool {
    &&& 0 <= at <= ids.len()
    &&& forall|i: int| 0 <= i < at ==> ids[i] < id
    &&& forall|i: int| at <= i < ids.len() ==> ids[i] >= id
}

/// First index whose id is `>= id`.
pub fn lower_bound(ids: &[u32], id: u32) -> (at: usize)
    requires
        ascending(ids@),
    ensures
        is_lower_bound(ids@, id, at as int),
{
    let mut lo: usize = 0;
    let mut hi: usize = ids.len();
    while lo < hi
        invariant
            lo <= hi <= ids@.len(),
            ascending(ids@),
            forall|i: int| 0 <= i < lo ==> ids@[i] < id,
            forall|i: int| hi <= i < ids@.len() ==> ids@[i] >= id,
        decreases hi - lo,
    {
        let mid: usize = lo + (hi - lo) / 2;
        if ids[mid] < id {
            lo = mid + 1;
        } else {
            hi = mid;
        }
    }
    lo
}

/// Follower ids of one context word, sorted so that a prefix maps to a
/// contiguous slice.
pub struct Followers {
    /// Follower word ids, ascending.
    pub ids: Vec<u32>,
}

impl Followers {
    /// The ids ascend strictly.
    pub open spec fn wf(&self) -> bool {
        ascending(self.ids@)
    }

    /// No followers yet.
    pub fn new() -> (f: Followers)
        ensures
            f.wf(),
            f.ids@ == Seq::<u32>::empty(),
    {
        Followers { ids: Vec::new() }
    }

    /// First index whose id is `>= id`.
    pub fn lower_bound(&self, id: u32) -> (at: usize)
        requires
            self.wf(),
        ensures
            is_lower_bound(self.ids@, id, at as int),
    {
        lower_bound(&self.ids, id)
    }

    /// Position of `id`, made for it when it is a new follower. The flag is
    /// true when it is new, and its counts belong at that position.
    pub fn add(&mut self, id: u32) -> (r: (usize, bool))
        requires
            old(self).wf(),
        ensures
            final(self).wf(),
            is_lower_bound(old(self).ids@, id, r.0 as int),
            r.1 == !old(self).ids@.contains(id),
            r.1 ==> final(self).ids@ == old(self).ids@.insert(r.0 as int, id),
            !r.1 ==> final(self).ids@ == old(self).ids@,
            r.0 < final(self).ids@.len(),
            final(self).ids@[r.0 as int] == id,
    {
        let at = self.lower_bound(id);
        if at < self.ids.len() && self.ids[at] == id {
            assert(self.ids@[at as int] == id);
            (at, false)
        } else {
            let ghost before = self.ids@;
            proof {
                if before.contains(id) {
                    let i = choose|i: int| 0 <= i < before.len() && before[i] == id;
                    assert(i >= at);
                    assert(before[at as int] <= before[i]);
                }
            }
            self.ids.insert(at, id);
            assert forall|i: int, j: int| 0 <= i < j < self.ids@.len() implies self.ids@[i]
                < self.ids@[j] by {
                if j > at && i != at {
                    assert(self.ids@[j] == before[j - 1]);
                }
            }
            (at, true)
        }
    }

    /// Position of `id` among the followers.
    pub fn position(&self, id: u32) -> (at: Option<usize>)
        requires
            self.wf(),
        ensures
            match at {
                Some(i) => i < self.ids@.len() && self.ids@[i as int] == id,
                None => !self.ids@.contains(id),
            },
    {
        let at = self.lower_bound(id);
        if at < self.ids.len() && self.ids[at] == id {
            Some(at)
        } else {
            None
        }
    }

    /// Number of distinct followers.
    pub fn types(&self) -> (n: usize)
        ensures
            n == self.ids@.len(),
    {
        self.ids.len()
    }
}

} // verus!
