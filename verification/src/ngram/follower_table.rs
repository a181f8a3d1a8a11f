//! Follower lists by context word.
//!
//! Counts are floating-point bit patterns, kept and moved but never added up
//! here.

use crate::ngram::lexicon::NONE;
use crate::ngram::ranges::{ascending, Followers};
use vstd::prelude::*;

verus! {

// ---------------------------------------------------------------------------
// Sorting by id
// ---------------------------------------------------------------------------
/// Ids do not descend.
pub open spec fn by_id(list: Seq<(u32, u32)>) -> bool {
    forall|i: int, j: int|
        #![trigger list[i], list[j]]
        0 <= i <= j < list.len() ==> list[i].0 <= list[j].0
}

fn merge_by_id(a: &Vec<(u32, u32)>, b: &Vec<(u32, u32)>) -> (out: Vec<(u32, u32)>)
    requires
        by_id(a@),
        by_id(b@),
    ensures
        by_id(out@),
        out@.to_multiset() == a@.to_multiset().add(b@.to_multiset()),
        out@.len() == a@.len() + b@.len(),
{
    let mut out: Vec<(u32, u32)> = Vec::new();
    let mut i: usize = 0;
    let mut j: usize = 0;
    proof {
        assert(a@.take(0) =~= Seq::<(u32, u32)>::empty());
        assert(b@.take(0) =~= Seq::<(u32, u32)>::empty());
        Seq::<(u32, u32)>::empty().to_multiset_ensures();
        assert(out@ =~= Seq::<(u32, u32)>::empty());
        assert(out@.to_multiset() =~= a@.take(0).to_multiset().add(b@.take(0).to_multiset()));
    }
    while i < a.len() || j < b.len()
        invariant
            by_id(a@),
            by_id(b@),
            i <= a@.len(),
            j <= b@.len(),
            out@.len() == i + j,
            by_id(out@),
            forall|k: int|
                0 <= k < out@.len() && i < a@.len() ==> (#[trigger] out@[k]).0 <= a@[i as int].0,
            forall|k: int|
                0 <= k < out@.len() && j < b@.len() ==> (#[trigger] out@[k]).0 <= b@[j as int].0,
            out@.to_multiset() == a@.take(i as int).to_multiset().add(
                b@.take(j as int).to_multiset(),
            ),
        decreases a@.len() - i + b@.len() - j,
    {
        let first: bool = j >= b.len() || (i < a.len() && a[i].0 <= b[j].0);
        let ghost before = out@;
        if first {
            let e: (u32, u32) = a[i];
            proof {
                assert(a@.take(i + 1) =~= a@.take(i as int).push(e));
                a@.take(i as int).to_multiset_ensures();
                before.to_multiset_ensures();
            }
            out.push(e);
            proof {
                assert(out@.to_multiset() =~= a@.take(i + 1).to_multiset().add(
                    b@.take(j as int).to_multiset(),
                ));
                if i + 1 < a@.len() {
                    assert(a@[i as int].0 <= a@[i + 1].0);
                }
            }
            i = i + 1;
        } else {
            let e: (u32, u32) = b[j];
            proof {
                assert(b@.take(j + 1) =~= b@.take(j as int).push(e));
                b@.take(j as int).to_multiset_ensures();
                before.to_multiset_ensures();
            }
            out.push(e);
            proof {
                assert(out@.to_multiset() =~= a@.take(i as int).to_multiset().add(
                    b@.take(j + 1).to_multiset(),
                ));
                if j + 1 < b@.len() {
                    assert(b@[j as int].0 <= b@[j + 1].0);
                }
            }
            j = j + 1;
        }
    }
    assert(a@.take(i as int) =~= a@);
    assert(b@.take(j as int) =~= b@);
    out
}

/// The entries from `from` up to `to` in ascending order of their ids.
fn sort_span(list: &Vec<(u32, u32)>, from: usize, to: usize) -> (out: Vec<(u32, u32)>)
    requires
        from <= to <= list@.len(),
    ensures
        by_id(out@),
        out@.to_multiset() == list@.subrange(from as int, to as int).to_multiset(),
        out@.len() == to - from,
    decreases to - from,
{
    let ghost part = list@.subrange(from as int, to as int);
    if to - from <= 1 {
        let mut out: Vec<(u32, u32)> = Vec::new();
        if from < to {
            out.push(list[from]);
        }
        assert(out@ =~= part);
        return out;
    }
    let mid: usize = from + (to - from) / 2;
    let a = sort_span(list, from, mid);
    let b = sort_span(list, mid, to);
    let out = merge_by_id(&a, &b);
    proof {
        let l = list@.subrange(from as int, mid as int);
        let r = list@.subrange(mid as int, to as int);
        assert(part =~= l + r);
        vstd::seq_lib::lemma_multiset_commutative(l, r);
        assert(part.to_multiset() =~= l.to_multiset().add(r.to_multiset()));
    }
    out
}

/// The entries in ascending order of their ids.
pub fn sort_by_id(list: &Vec<(u32, u32)>) -> (out: Vec<(u32, u32)>)
    ensures
        by_id(out@),
        out@.to_multiset() == list@.to_multiset(),
        out@.len() == list@.len(),
{
    let out = sort_span(list, 0, list.len());
    assert(list@.subrange(0, list@.len() as int) =~= list@);
    out
}

/// The same entries in another order.
pub proof fn lemma_same_members(a: Seq<(u32, u32)>, b: Seq<(u32, u32)>, e: (u32, u32))
    requires
        a.to_multiset() == b.to_multiset(),
    ensures
        a.contains(e) <==> b.contains(e),
{
    broadcast use vstd::seq_lib::group_to_multiset_ensures;

    assert(a.contains(e) <==> a.to_multiset().count(e) > 0);
    assert(b.contains(e) <==> b.to_multiset().count(e) > 0);
}

// ---------------------------------------------------------------------------
// Followers
// ---------------------------------------------------------------------------
/// The followers of one context word with their counts.
pub struct FollowerList {
    pub ids: Followers,
    /// Weighted counts, parallel to the ids.
    pub counts: Vec<u32>,
    /// Sum of the counts.
    pub total: u64,
}

impl FollowerList {
    /// One count per id, ids ascending and below `n`.
    pub open spec fn wf(&self, n: int) -> bool {
        &&& self.ids.wf()
        &&& self.counts@.len() == self.ids.ids@.len()
        &&& forall|k: int| 0 <= k < self.ids.ids@.len() ==> #[trigger] self.ids.ids@[k] < n
    }

    /// The count of `w`.
    pub open spec fn count_of(&self, w: u32) -> Option<u32> {
        if self.ids.ids@.contains(w) {
            Some(self.counts@[self.ids.ids@.index_of(w)])
        } else {
            None
        }
    }

    /// Sets the count of `w`, adding it when it is new.
    fn put(&mut self, w: u32, bits: u32, Ghost(n): Ghost<int>)
        requires
            old(self).wf(n),
            w < n,
        ensures
            final(self).wf(n),
            final(self).count_of(w) == Some(bits),
            forall|x: u32| x != w ==> #[trigger] final(self).count_of(x) == old(self).count_of(x),
            final(self).total == old(self).total,
            final(self).ids.ids@.contains(w),
            forall|x: u32| #[trigger]
                final(self).ids.ids@.contains(x) <==> old(self).ids.ids@.contains(x) || x == w,
    {
        let ghost before = self.ids.ids@;
        let ghost old_counts = self.counts@;
        let (at, fresh) = self.ids.add(w);
        if fresh {
            self.counts.insert(at, bits);
        } else {
            self.counts.set(at, bits);
        }
        proof {
            let now = self.ids.ids@;
            assert(now[at as int] == w);
            assert(now.contains(w));
            lemma_ascending_index(now, at as int);
            assert forall|k: int| 0 <= k < now.len() implies #[trigger] now[k] < n by {
                if fresh {
                    if k < at {
                        assert(now[k] == before[k]);
                    } else if k > at {
                        assert(now[k] == before[k - 1]);
                    }
                } else {
                    assert(now[k] == before[k]);
                }
            }
            assert forall|x: u32| #[trigger] now.contains(x) <==> before.contains(x) || x == w by {
                if now.contains(x) {
                    let k = choose|k: int| 0 <= k < now.len() && now[k] == x;
                    if fresh {
                        if k < at {
                            assert(before[k] == x);
                        } else if k > at {
                            assert(before[k - 1] == x);
                        }
                    }
                }
                if before.contains(x) {
                    let k = choose|k: int| 0 <= k < before.len() && before[k] == x;
                    if fresh {
                        if k < at {
                            assert(now[k] == x);
                        } else {
                            assert(now[k + 1] == x);
                        }
                    }
                }
            }
            assert forall|x: u32| x != w implies #[trigger] self.count_of(x) == old(self).count_of(
                x,
            ) by {
                assert(now.contains(x) <==> before.contains(x));
                if before.contains(x) {
                    let k = before.index_of(x);
                    assert(before[k] == x);
                    let j = if fresh && k >= at {
                        k + 1
                    } else {
                        k
                    };
                    assert(now[j] == x);
                    lemma_ascending_index(now, j);
                }
            }
        }
    }

    /// The count of `w`.
    fn get(&self, w: u32, Ghost(n): Ghost<int>) -> (bits: Option<u32>)
        requires
            self.wf(n),
        ensures
            bits == self.count_of(w),
    {
        match self.ids.position(w) {
            Some(at) => {
                proof {
                    assert(self.ids.ids@.contains(w));
                    lemma_ascending_index(self.ids.ids@, at as int);
                }
                Some(self.counts[at])
            },
            None => None,
        }
    }
}

/// In an ascending list an id has one place.
pub proof fn lemma_ascending_index(ids: Seq<u32>, k: int)
    requires
        ascending(ids),
        0 <= k < ids.len(),
    ensures
        ids.contains(ids[k]),
        ids.index_of(ids[k]) == k,
{
    assert(ids.contains(ids[k]));
    let j = ids.index_of(ids[k]);
    assert(ids[j] == ids[k]);
    if j < k {
        assert(ids[j] < ids[k]);
    } else if k < j {
        assert(ids[k] < ids[j]);
    }
}

/// `remap` gives each of `n` ids another below `n` and keeps them apart.
pub open spec fn permutation(remap: Seq<u32>, n: int) -> bool {
    &&& remap.len() == n
    &&& forall|i: int| 0 <= i < n ==> #[trigger] remap[i] < n
    &&& forall|i: int, j: int|
        0 <= i < n && 0 <= j < n && #[trigger] remap[i] == #[trigger] remap[j] ==> i == j
}

impl FollowerList {
    /// A list of distinct words in any order, with their counts.
    pub(crate) fn from_entries(order: &Vec<(u32, u32)>, total: u64, Ghost(n): Ghost<int>) -> (out:
        FollowerList)
        requires
            forall|a: int, b: int|
                #![trigger order@[a], order@[b]]
                0 <= a < b < order@.len() ==> order@[a].0 != order@[b].0,
            forall|k: int| 0 <= k < order@.len() ==> (#[trigger] order@[k]).0 < n,
        ensures
            out.wf(n),
            out.total == total,
            forall|k: int|
                0 <= k < order@.len() ==> out.count_of((#[trigger] order@[k]).0) == Some(
                    order@[k].1,
                ),
            forall|w: u32|
                (forall|k: int| 0 <= k < order@.len() ==> (#[trigger] order@[k]).0 != w)
                    ==> #[trigger] out.count_of(w) is None,
    {
        let sorted = sort_by_id(order);
        proof {
            lemma_distinct_ids(order@, sorted@);
        }
        let mut out_ids: Vec<u32> = Vec::new();
        let mut out_counts: Vec<u32> = Vec::new();
        let mut j: usize = 0;
        while j < sorted.len()
            invariant
                j <= sorted@.len(),
                out_ids@.len() == j,
                out_counts@.len() == j,
                forall|k: int|
                    0 <= k < j ==> #[trigger] out_ids@[k] == sorted@[k].0 && out_counts@[k]
                        == sorted@[k].1,
            decreases sorted@.len() - j,
        {
            out_ids.push(sorted[j].0);
            out_counts.push(sorted[j].1);
            j = j + 1;
        }
        let out = FollowerList { ids: Followers { ids: out_ids }, counts: out_counts, total };
        proof {
            let now = out.ids.ids@;
            assert forall|a: int, b: int| 0 <= a < b < now.len() implies now[a] < now[b] by {
                assert(sorted@[a].0 <= sorted@[b].0);
                assert(sorted@[a].0 != sorted@[b].0);
            }
            assert forall|k: int| 0 <= k < now.len() implies #[trigger] now[k] < n by {
                assert(sorted@.contains(sorted@[k]));
                lemma_same_members(sorted@, order@, sorted@[k]);
                let q = choose|q: int| 0 <= q < order@.len() && order@[q] == sorted@[k];
                assert(order@[q].0 < n);
            }
            assert forall|q: int| 0 <= q < order@.len() implies out.count_of(
                (#[trigger] order@[q]).0,
            ) == Some(order@[q].1) by {
                assert(order@.contains(order@[q]));
                lemma_same_members(order@, sorted@, order@[q]);
                let k = choose|k: int| 0 <= k < sorted@.len() && sorted@[k] == order@[q];
                assert(now[k] == order@[q].0);
                lemma_ascending_index(now, k);
            }
            assert forall|w: u32|
                (forall|k: int| 0 <= k < order@.len() ==> (#[trigger] order@[k]).0 != w) implies
                #[trigger] out.count_of(w) is None by {
                if now.contains(w) {
                    let k = choose|k: int| 0 <= k < now.len() && now[k] == w;
                    assert(sorted@.contains(sorted@[k]));
                    lemma_same_members(sorted@, order@, sorted@[k]);
                    let q = choose|q: int| 0 <= q < order@.len() && order@[q] == sorted@[k];
                    assert(order@[q].0 == w);
                }
            }
        }
        out
    }

    /// The same counts under the new ids.
    pub fn renumbered(&self, remap: &Vec<u32>) -> (out: FollowerList)
        requires
            self.wf(remap@.len() as int),
            permutation(remap@, remap@.len() as int),
        ensures
            out.wf(remap@.len() as int),
            out.total == self.total,
            forall|w: u32|
                w < remap@.len() ==> #[trigger] out.count_of(remap@[w as int]) == self.count_of(w),
    {
        let ghost n = remap@.len() as int;
        let ghost ids = self.ids.ids@;
        let mut order: Vec<(u32, u32)> = Vec::new();
        let mut i: usize = 0;
        while i < self.ids.ids.len()
            invariant
                ids == self.ids.ids@,
                n == remap@.len(),
                self.wf(n),
                i <= ids.len(),
                order@.len() == i,
                forall|k: int|
                    0 <= k < i ==> #[trigger] order@[k] == (
                        remap@[ids[k] as int],
                        self.counts@[k],
                    ),
            decreases ids.len() - i,
        {
            assert(ids[i as int] < n);
            order.push((remap[self.ids.ids[i] as usize], self.counts[i]));
            i = i + 1;
        }
        proof {
            assert forall|a: int, b: int| 0 <= a < b < order@.len() implies order@[a].0
                != order@[b].0 by {
                assert(ids[a] < ids[b]);
                assert(ids[a] < n && ids[b] < n);
            }
            assert forall|k: int| 0 <= k < order@.len() implies (#[trigger] order@[k]).0 < n by {
                assert(ids[k] < n);
            }
        }
        let out = FollowerList::from_entries(&order, self.total, Ghost(n));
        proof {
            assert forall|w: u32| w < n implies #[trigger] out.count_of(remap@[w as int])
                == self.count_of(w) by {
                let x = remap@[w as int];
                if ids.contains(w) {
                    let q = ids.index_of(w);
                    assert(ids[q] == w);
                    assert(order@[q] == (x, self.counts@[q]));
                } else if exists|k: int| 0 <= k < order@.len() && (#[trigger] order@[k]).0 == x {
                    let k = choose|k: int| 0 <= k < order@.len() && (#[trigger] order@[k]).0 == x;
                    assert(ids[k] < n);
                    assert(remap@[ids[k] as int] == remap@[w as int]);
                    assert(ids.contains(w));
                }
            }
        }
        out
    }
}

/// Sorting keeps distinct ids distinct.
pub proof fn lemma_distinct_ids(a: Seq<(u32, u32)>, b: Seq<(u32, u32)>)
    requires
        a.to_multiset() == b.to_multiset(),
        forall|i: int, j: int| 0 <= i < j < a.len() ==> a[i].0 != a[j].0,
    ensures
        forall|i: int, j: int|
            #![trigger b[i], b[j]]
            0 <= i < j < b.len() ==> b[i].0 != b[j].0,
{
    assert(a.no_duplicates());
    a.lemma_multiset_has_no_duplicates();
    b.lemma_multiset_has_no_duplicates_conv();
    assert forall|i: int, j: int|
        #![trigger b[i], b[j]]
        0 <= i < j < b.len() implies b[i].0 != b[j].0 by {
        assert(b.contains(b[i]) && b.contains(b[j]));
        lemma_same_members(b, a, b[i]);
        lemma_same_members(b, a, b[j]);
        let p = choose|p: int| 0 <= p < a.len() && a[p] == b[i];
        let q = choose|q: int| 0 <= q < a.len() && a[q] == b[j];
        assert(b[i] != b[j]);
        if p < q {
            assert(a[p].0 != a[q].0);
        } else {
            assert(a[q].0 != a[p].0);
        }
    }
}

/// Follower lists by context word.
pub struct FollowerTable {
    /// Follower-list index per context id (`NONE` = no followers).
    pub ctx_slot: Vec<u32>,
    pub lists: Vec<FollowerList>,
}

impl FollowerTable {
    /// Every list belongs to one word, and every list is in order.
    pub open spec fn wf(&self) -> bool {
        let n = self.ctx_slot@.len() as int;
        &&& n < NONE
        &&& forall|i: int|
            0 <= i < n ==> #[trigger] self.ctx_slot@[i] == NONE || self.ctx_slot@[i]
                < self.lists@.len()
        &&& forall|i: int, j: int|
            0 <= i < n && 0 <= j < n && #[trigger] self.ctx_slot@[i]
                == #[trigger] self.ctx_slot@[j] && self.ctx_slot@[i] != NONE ==> i == j
        &&& self.lists@.len() <= n
        &&& forall|l: u32| l < self.lists@.len() ==> #[trigger] self.ctx_slot@.contains(l)
        &&& forall|l: int| 0 <= l < self.lists@.len() ==> (#[trigger] self.lists@[l]).wf(n)
    }

    /// The count of `w` after `v`.
    pub open spec fn follower(&self, v: u32, w: u32) -> Option<u32> {
        if self.ctx_slot@[v as int] == NONE {
            None
        } else {
            self.lists@[self.ctx_slot@[v as int] as int].count_of(w)
        }
    }

    /// The total of the counts after `v`.
    pub open spec fn total_of(&self, v: u32) -> Option<u64> {
        if self.ctx_slot@[v as int] == NONE {
            None
        } else {
            Some(self.lists@[self.ctx_slot@[v as int] as int].total)
        }
    }

    /// No followers of `n` words.
    pub fn new(n: usize) -> (t: FollowerTable)
        requires
            n < NONE,
        ensures
            t.wf(),
            t.ctx_slot@.len() == n,
            forall|v: u32, w: u32| v < n ==> #[trigger] t.follower(v, w) is None,
            forall|v: u32| v < n ==> #[trigger] t.total_of(v) is None,
    {
        FollowerTable { ctx_slot: vec![NONE; n], lists: Vec::new() }
    }

    /// One more word without followers.
    pub fn add_word(&mut self)
        requires
            old(self).wf(),
            old(self).ctx_slot@.len() + 1 < NONE,
        ensures
            final(self).wf(),
            final(self).ctx_slot@.len() == old(self).ctx_slot@.len() + 1,
            forall|v: u32, w: u32|
                v < old(self).ctx_slot@.len() ==> #[trigger] final(self).follower(v, w) == old(self).follower(v, w),
            forall|v: u32|
                v < old(self).ctx_slot@.len() ==> #[trigger] final(self).total_of(v) == old(self).total_of(v),
            final(self).total_of(old(self).ctx_slot@.len() as u32) is None,
            forall|w: u32| #[trigger]
                final(self).follower(old(self).ctx_slot@.len() as u32, w) is None,
    {
        let ghost before = *self;
        self.ctx_slot.push(NONE);
        proof {
            let n = before.ctx_slot@.len() as int;
            assert forall|i: int| 0 <= i < n implies self.ctx_slot@[i] == before.ctx_slot@[i] by {}
            assert forall|l: u32| l < self.lists@.len() implies #[trigger] self.ctx_slot@.contains(
                l,
            ) by {
                assert(before.ctx_slot@.contains(l));
                let i = choose|i: int| 0 <= i < n && before.ctx_slot@[i] == l;
                assert(self.ctx_slot@[i] == l);
            }
            assert forall|l: int| 0 <= l < self.lists@.len() implies (#[trigger] self.lists@[l]).wf(
                n + 1,
            ) by {
                let list = before.lists@[l];
                assert(list.wf(n));
                assert forall|k: int| 0 <= k < list.ids.ids@.len() implies
                    #[trigger] list.ids.ids@[k] < n + 1 by {
                    assert(list.ids.ids@[k] < n);
                }
            }
        }
    }

    /// Sets the count of `w` after `v` and the total after `v`.
    pub fn put(&mut self, v: u32, w: u32, bits: u32, total: u64)
        requires
            old(self).wf(),
            v < old(self).ctx_slot@.len(),
            w < old(self).ctx_slot@.len(),
        ensures
            final(self).wf(),
            final(self).ctx_slot@.len() == old(self).ctx_slot@.len(),
            final(self).follower(v, w) == Some(bits),
            forall|a: u32, b: u32|
                a < old(self).ctx_slot@.len() && (a != v || b != w) ==> #[trigger] final(self).follower(a, b) == old(self).follower(a, b),
            final(self).total_of(v) == Some(total),
            forall|a: u32|
                a < old(self).ctx_slot@.len() && a != v ==> #[trigger] final(self).total_of(a)
                    == old(self).total_of(a),
    {
        let n: usize = self.ctx_slot.len();
        let ghost start = *self;
        if self.ctx_slot[v as usize] == NONE {
            proof {
                self.lemma_room(v as int);
            }
            let slot: u32 = self.lists.len() as u32;
            let fresh = FollowerList { ids: Followers::new(), counts: Vec::new(), total: 0 };
            assert(fresh.wf(n as int));
            self.lists.push(fresh);
            self.ctx_slot.set(v as usize, slot);
            proof {
                assert forall|l: u32| l < self.lists@.len() implies
                    #[trigger] self.ctx_slot@.contains(l) by {
                    if l == slot {
                        assert(self.ctx_slot@[v as int] == l);
                    } else {
                        assert(start.ctx_slot@.contains(l));
                        let i = choose|i: int| 0 <= i < n && start.ctx_slot@[i] == l;
                        assert(self.ctx_slot@[i] == l);
                    }
                }
                assert forall|l: int| 0 <= l < self.lists@.len() implies (
                #[trigger] self.lists@[l]).wf(n as int) by {
                    if l < slot {
                        assert(self.lists@[l] == start.lists@[l]);
                    }
                }
                assert forall|x: u32| fresh.count_of(x) is None by {}
            }
        }
        let ghost mid = *self;
        let slot: usize = self.ctx_slot[v as usize] as usize;
        assert(mid.lists@[slot as int].wf(n as int));
        self.lists[slot].put(w, bits, Ghost(n as int));
        let ghost counted = self.lists@[slot as int];
        self.lists[slot].total = total;
        proof {
            assert forall|l: int| 0 <= l < self.lists@.len() implies (#[trigger] self.lists@[l]).wf(
                n as int,
            ) by {
                if l != slot {
                    assert(self.lists@[l] == mid.lists@[l]);
                }
            }
            assert forall|a: u32, b: u32| a < n && (a != v || b != w) implies
                #[trigger] self.follower(a, b) == start.follower(a, b) by {
                if a != v {
                    assert(self.ctx_slot@[a as int] == start.ctx_slot@[a as int]);
                    assert(self.ctx_slot@[a as int] == NONE || self.ctx_slot@[a as int] != slot) by {
                        if self.ctx_slot@[a as int] == slot {
                            assert(self.ctx_slot@[v as int] == slot);
                        }
                    }
                } else {
                    assert(counted.count_of(b) == mid.lists@[slot as int].count_of(b));
                }
            }
            assert forall|a: u32| a < n && a != v implies #[trigger] self.total_of(a)
                == start.total_of(a) by {
                assert(self.ctx_slot@[a as int] == start.ctx_slot@[a as int]);
                if self.ctx_slot@[a as int] == slot {
                    assert(self.ctx_slot@[v as int] == slot);
                }
            }
        }
    }

    /// Gives a word without followers the list.
    pub fn install(&mut self, v: u32, list: FollowerList)
        requires
            old(self).wf(),
            v < old(self).ctx_slot@.len(),
            old(self).total_of(v) is None,
            list.wf(old(self).ctx_slot@.len() as int),
        ensures
            final(self).wf(),
            final(self).ctx_slot@.len() == old(self).ctx_slot@.len(),
            forall|w: u32| #[trigger] final(self).follower(v, w) == list.count_of(w),
            final(self).total_of(v) == Some(list.total),
            forall|a: u32, b: u32|
                a < old(self).ctx_slot@.len() && a != v ==> #[trigger] final(self).follower(a, b)
                    == old(self).follower(a, b),
            forall|a: u32|
                a < old(self).ctx_slot@.len() && a != v ==> #[trigger] final(self).total_of(a)
                    == old(self).total_of(a),
    {
        let ghost n = self.ctx_slot@.len() as int;
        let ghost start = *self;
        proof {
            self.lemma_room(v as int);
        }
        let slot: u32 = self.lists.len() as u32;
        self.lists.push(list);
        self.ctx_slot.set(v as usize, slot);
        proof {
            assert forall|l: u32| l < self.lists@.len() implies #[trigger] self.ctx_slot@.contains(
                l,
            ) by {
                if l == slot {
                    assert(self.ctx_slot@[v as int] == l);
                } else {
                    assert(start.ctx_slot@.contains(l));
                    let i = choose|i: int| 0 <= i < n && start.ctx_slot@[i] == l;
                    assert(self.ctx_slot@[i] == l);
                }
            }
            assert forall|l: int| 0 <= l < self.lists@.len() implies (#[trigger] self.lists@[l]).wf(
                n,
            ) by {
                if l < slot {
                    assert(self.lists@[l] == start.lists@[l]);
                }
            }
            assert forall|a: u32, b: u32| a < n && a != v implies #[trigger] self.follower(a, b)
                == start.follower(a, b) by {
                assert(self.ctx_slot@[a as int] == start.ctx_slot@[a as int]);
            }
            assert forall|a: u32| a < n && a != v implies #[trigger] self.total_of(a)
                == start.total_of(a) by {
                assert(self.ctx_slot@[a as int] == start.ctx_slot@[a as int]);
            }
        }
    }

    /// Sets the total of the counts after `v`.
    pub fn set_total(&mut self, v: u32, total: u64)
        requires
            old(self).wf(),
            v < old(self).ctx_slot@.len(),
            old(self).total_of(v) is Some,
        ensures
            final(self).wf(),
            final(self).ctx_slot == old(self).ctx_slot,
            final(self).total_of(v) == Some(total),
            forall|a: u32|
                a < old(self).ctx_slot@.len() && a != v ==> #[trigger] final(self).total_of(a)
                    == old(self).total_of(a),
            forall|a: u32, b: u32|
                a < old(self).ctx_slot@.len() ==> #[trigger] final(self).follower(a, b) == old(
                    self).follower(a, b),
    {
        let ghost start = *self;
        let ghost n = self.ctx_slot@.len() as int;
        let slot: usize = self.ctx_slot[v as usize] as usize;
        assert(self.ctx_slot@[v as int] < self.lists@.len());
        self.lists[slot].total = total;
        proof {
            assert forall|l: int| 0 <= l < self.lists@.len() implies (#[trigger] self.lists@[l]).wf(
                n,
            ) by {
                assert(start.lists@[l].wf(n));
            }
            assert forall|a: u32| a < n && a != v implies #[trigger] self.total_of(a)
                == start.total_of(a) by {
                if self.ctx_slot@[a as int] == slot {
                    assert(self.ctx_slot@[v as int] == slot);
                }
            }
            assert forall|a: u32, b: u32| a < n implies #[trigger] self.follower(a, b)
                == start.follower(a, b) by {
                if self.ctx_slot@[a as int] == slot {
                    assert(self.lists@[slot as int].count_of(b) == start.lists@[slot as int].count_of(
                        b,
                    ));
                }
            }
        }
    }

    /// A word without followers leaves room for one more list.
    proof fn lemma_room(&self, v: int)
        requires
            self.wf(),
            0 <= v < self.ctx_slot@.len(),
            self.ctx_slot@[v] == NONE,
        ensures
            self.lists@.len() < self.ctx_slot@.len(),
    {
        let slots = self.ctx_slot@.to_set();
        let used = Set::new(|x: u32| 0 <= x < self.lists@.len());
        crate::ngram::probe::lemma_id_range(0, self.lists@.len() as int, used);
        vstd::seq_lib::seq_to_set_is_finite(self.ctx_slot@);
        self.ctx_slot@.lemma_cardinality_of_set();
        assert(slots.contains(NONE)) by {
            assert(self.ctx_slot@[v] == NONE);
        }
        assert(used.insert(NONE).subset_of(slots)) by {
            assert forall|x: u32| used.contains(x) implies slots.contains(x) by {
                assert(self.ctx_slot@.contains(x));
            }
        }
        vstd::set_lib::lemma_len_subset(used.insert(NONE), slots);
    }

    /// The count of `w` after `v`.
    pub fn get(&self, v: u32, w: u32) -> (bits: Option<u32>)
        requires
            self.wf(),
            v < self.ctx_slot@.len(),
        ensures
            bits == self.follower(v, w),
    {
        let slot: u32 = self.ctx_slot[v as usize];
        if slot == NONE {
            return None;
        }
        assert(self.ctx_slot@[v as int] < self.lists@.len());
        self.lists[slot as usize].get(w, Ghost(self.ctx_slot@.len() as int))
    }

    /// The followers of `v`.
    pub fn list(&self, v: u32) -> (list: Option<&FollowerList>)
        requires
            self.wf(),
            v < self.ctx_slot@.len(),
        ensures
            match list {
                Some(l) => {
                    &&& l.wf(self.ctx_slot@.len() as int)
                    &&& self.total_of(v) == Some(l.total)
                    &&& forall|w: u32| #[trigger] self.follower(v, w) == l.count_of(w)
                },
                None => self.total_of(v) is None && forall|w: u32| #[trigger]
                    self.follower(v, w) is None,
            },
    {
        let slot: u32 = self.ctx_slot[v as usize];
        if slot == NONE {
            return None;
        }
        assert(self.ctx_slot@[v as int] < self.lists@.len());
        Some(&self.lists[slot as usize])
    }

    /// Follows the words to their new ids.
    pub fn renumber(&mut self, remap: &Vec<u32>)
        requires
            old(self).wf(),
            permutation(remap@, old(self).ctx_slot@.len() as int),
        ensures
            final(self).wf(),
            final(self).ctx_slot@.len() == old(self).ctx_slot@.len(),
            forall|v: u32, w: u32|
                v < remap@.len() && w < remap@.len() ==> #[trigger] final(self).follower(
                    remap@[v as int],
                    remap@[w as int],
                ) == old(self).follower(v, w),
            forall|v: u32|
                v < remap@.len() ==> #[trigger] final(self).total_of(remap@[v as int]) == old(
                    self).total_of(v),
    {
        let ghost start = *self;
        let n: usize = self.ctx_slot.len();
        let mut slots: Vec<u32> = vec![NONE; n];
        let mut i: usize = 0;
        while i < n
            invariant
                *self == start,
                n == self.ctx_slot@.len(),
                permutation(remap@, n as int),
                i <= n,
                slots@.len() == n,
                forall|k: int|
                    0 <= k < i ==> slots@[remap@[k] as int] == #[trigger] self.ctx_slot@[k],
                forall|j: int|
                    0 <= j < n ==> #[trigger] slots@[j] == NONE || exists|k: int|
                        0 <= k < i && remap@[k] == j && slots@[j] == self.ctx_slot@[k],
            decreases n - i,
        {
            let ghost before = slots@;
            assert(remap@[i as int] < n);
            slots.set(remap[i] as usize, self.ctx_slot[i]);
            proof {
                assert forall|k: int| 0 <= k < i + 1 implies slots@[remap@[k] as int]
                    == #[trigger] self.ctx_slot@[k] by {
                    if k < i {
                        assert(remap@[k] != remap@[i as int]);
                        assert(remap@[k] < n);
                    }
                }
                assert forall|j: int| 0 <= j < n implies #[trigger] slots@[j] == NONE || exists|k: int|
                    0 <= k < i + 1 && remap@[k] == j && slots@[j] == self.ctx_slot@[k] by {
                    if j == remap@[i as int] {
                        assert(remap@[i as int] == j && slots@[j] == self.ctx_slot@[i as int]);
                    } else if before[j] != NONE {
                        let k = choose|k: int|
                            0 <= k < i && remap@[k] == j && before[j] == self.ctx_slot@[k];
                        assert(remap@[k] == j && slots@[j] == self.ctx_slot@[k]);
                    }
                }
            }
            i = i + 1;
        }
        let mut lists: Vec<FollowerList> = Vec::new();
        let mut l: usize = 0;
        while l < self.lists.len()
            invariant
                *self == start,
                start.wf(),
                n == self.ctx_slot@.len(),
                permutation(remap@, n as int),
                l <= self.lists@.len(),
                lists@.len() == l,
                forall|k: int| 0 <= k < l ==> (#[trigger] lists@[k]).wf(n as int),
                forall|k: int| 0 <= k < l ==> (#[trigger] lists@[k]).total == self.lists@[k].total,
                forall|k: int, w: u32|
                    0 <= k < l && w < n ==> #[trigger] lists@[k].count_of(remap@[w as int])
                        == self.lists@[k].count_of(w),
            decreases self.lists@.len() - l,
        {
            assert(self.lists@[l as int].wf(n as int));
            let list = self.lists[l].renumbered(remap);
            lists.push(list);
            l = l + 1;
        }
        self.ctx_slot = slots;
        self.lists = lists;
        proof {
            assert forall|a: int| 0 <= a < n implies #[trigger] self.ctx_slot@[a] == NONE
                || self.ctx_slot@[a] < self.lists@.len() by {
                if self.ctx_slot@[a] != NONE {
                    let k = choose|k: int|
                        0 <= k < n && remap@[k] == a && slots@[a] == start.ctx_slot@[k];
                    assert(start.ctx_slot@[k] < start.lists@.len());
                }
            }
            assert forall|a: int, b: int|
                0 <= a < n && 0 <= b < n && #[trigger] self.ctx_slot@[a]
                    == #[trigger] self.ctx_slot@[b] && self.ctx_slot@[a] != NONE implies a == b by {
                let k = choose|k: int|
                    0 <= k < n && remap@[k] == a && slots@[a] == start.ctx_slot@[k];
                let m = choose|m: int|
                    0 <= m < n && remap@[m] == b && slots@[b] == start.ctx_slot@[m];
                assert(start.ctx_slot@[k] == start.ctx_slot@[m]);
            }
            assert forall|x: u32| x < self.lists@.len() implies
                #[trigger] self.ctx_slot@.contains(x) by {
                assert(start.ctx_slot@.contains(x));
                let k = choose|k: int| 0 <= k < n && start.ctx_slot@[k] == x;
                assert(self.ctx_slot@[remap@[k] as int] == x);
                assert(remap@[k] < n);
            }
            assert forall|v: u32, w: u32| v < n && w < n implies #[trigger] self.follower(
                remap@[v as int],
                remap@[w as int],
            ) == start.follower(v, w) by {
                assert(self.ctx_slot@[remap@[v as int] as int] == start.ctx_slot@[v as int]);
                if start.ctx_slot@[v as int] != NONE {
                    let s = start.ctx_slot@[v as int] as int;
                    assert(self.lists@[s].count_of(remap@[w as int]) == start.lists@[s].count_of(w));
                }
            }
            assert forall|v: u32| v < n implies #[trigger] self.total_of(remap@[v as int])
                == start.total_of(v) by {
                assert(self.ctx_slot@[remap@[v as int] as int] == start.ctx_slot@[v as int]);
            }
        }
    }
}

} // verus!
