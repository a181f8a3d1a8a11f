//! Tables rebuilt from stored records.

use crate::ngram::follower_table::{FollowerList, FollowerTable};
use crate::ngram::lexicon::NONE;
use crate::ngram::pair_table::{
    key_of, lemma_halves, lemma_key, lower, pair_key, upper, PairTable,
};
use crate::ngram::snapshot_records::{
    contexts_ok, contexts_view, index_limit, pairs_ok, repeats_id, tails_view,
};
use crate::ngram::structures::{IdTable, EMPTY_KEY};
use crate::ngram::tail_table::{forms_view, TailTable};
use vstd::prelude::*;

verus! {

/// The last of the first `n` places that satisfy `p`.
pub open spec fn last_place(n: int, p: spec_fn(int) -> bool) -> Option<int>
    decreases n,
{
    if n <= 0 {
        None
    } else if p(n - 1) {
        Some(n - 1)
    } else {
        last_place(n - 1, p)
    }
}

pub proof fn lemma_last_place(n: int, p: spec_fn(int) -> bool)
    ensures
        match last_place(n, p) {
            Some(k) => 0 <= k < n && p(k) && forall|j: int| k < j < n ==> !#[trigger] p(j),
            None => forall|j: int| 0 <= j < n ==> !#[trigger] p(j),
        },
    decreases n,
{
    if n > 0 {
        lemma_last_place(n - 1, p);
    }
}

/// A place that alone satisfies `p` is the last one.
pub proof fn lemma_only_place(n: int, p: spec_fn(int) -> bool, k: int)
    requires
        0 <= k < n,
        p(k),
        forall|j: int| 0 <= j < n && #[trigger] p(j) ==> j == k,
    ensures
        last_place(n, p) == Some(k),
{
    lemma_last_place(n, p);
}

/// Places of `w` among entries.
pub open spec fn holds_id(list: Seq<(u32, u32)>, w: u32) -> spec_fn(int) -> bool {
    |k: int| list[k].0 == w
}

/// Places of context `v`.
pub open spec fn holds_context(list: Seq<(u32, Seq<(u32, u32)>)>, v: u32) -> spec_fn(int) -> bool {
    |k: int| list[k].0 == v
}

/// Places of the pair.
pub open spec fn holds_pair(list: Seq<(u32, u32, u32, u32)>, u: u32, v: u32) -> spec_fn(
    int,
) -> bool {
    |k: int| list[k].0 == u && list[k].1 == v
}

/// Places of `w` after pair `p`.
pub open spec fn holds_trigram(list: Seq<(u32, u32, u32)>, p: u32, w: u32) -> spec_fn(
    int,
) -> bool {
    |k: int| list[k].0 == p && list[k].1 == w
}

/// Places of word `id` among casings.
pub open spec fn holds_tail(list: Seq<(u32, Seq<(Seq<char>, u32)>)>, id: u32) -> spec_fn(
    int,
) -> bool {
    |k: int| list[k].0 == id
}

/// The count listed for `w`.
pub open spec fn entry_count(list: Seq<(u32, u32)>, w: u32) -> Option<u32> {
    match last_place(list.len() as int, holds_id(list, w)) {
        Some(k) => Some(list[k].1),
        None => None,
    }
}

/// Place of context `v`.
pub open spec fn context_place(list: Seq<(u32, Seq<(u32, u32)>)>, v: u32) -> Option<int> {
    last_place(list.len() as int, holds_context(list, v))
}

impl FollowerTable {
    /// Follower lists from stored contexts; the totals are not known yet.
    pub fn from_contexts(list: &Vec<(u32, Vec<(u32, u32)>)>, n: usize) -> (t: FollowerTable)
        requires
            n < NONE,
            contexts_ok(contexts_view(list@), n as int),
        ensures
            t.wf(),
            t.ctx_slot@.len() == n,
            forall|v: u32, w: u32|
                v < n ==> #[trigger] t.follower(v, w) == (match context_place(
                    contexts_view(list@),
                    v,
                ) {
                    Some(k) => entry_count(contexts_view(list@)[k].1, w),
                    None => None,
                }),
            forall|v: u32|
                v < n ==> #[trigger] t.total_of(v) == (match context_place(
                    contexts_view(list@),
                    v,
                ) {
                    Some(k) => Some(0u64),
                    None => None,
                }),
    {
        let ghost all = contexts_view(list@);
        let mut t = FollowerTable::new(n);
        let mut i: usize = 0;
        while i < list.len()
            invariant
                n < NONE,
                all == contexts_view(list@),
                contexts_ok(all, n as int),
                i <= list@.len(),
                t.wf(),
                t.ctx_slot@.len() == n,
                forall|v: u32, w: u32|
                    v < n ==> #[trigger] t.follower(v, w) == (match last_place(
                        i as int,
                        holds_context(all, v),) {
                        Some(k) => entry_count(all[k].1, w),
                        None => None,
                    }),
                forall|v: u32|
                    v < n ==> #[trigger] t.total_of(v) == (match last_place(
                        i as int,
                        holds_context(all, v),) {
                        Some(k) => Some(0u64),
                        None => None,
                    }),
            decreases list@.len() - i,
        {
            let ctx: u32 = list[i].0;
            let ghost entries = list@[i as int].1@;
            let ghost before = t;
            proof {
                assert(all[i as int] == (ctx, entries));
                assert forall|k: int| 0 <= k < entries.len() implies (#[trigger] entries[k]).0 < n by {
                    assert(all[i as int].1[k].0 < n);
                }
                assert(!repeats_id(entries));
                assert forall|a: int, b: int|
                    #![trigger entries[a], entries[b]]
                    0 <= a < b < entries.len() implies entries[a].0 != entries[b].0 by {
                    if entries[a].0 == entries[b].0 {
                        assert(repeats_id(entries));
                    }
                }
                let here = holds_context(all, ctx);
                lemma_last_place(i as int, here);
                if let Some(k) = last_place(i as int, here) {
                    assert(all[k].0 != all[i as int].0);
                }
                assert(t.total_of(ctx) is None);
            }
            let f = FollowerList::from_entries(&list[i].1, 0, Ghost(n as int));
            proof {
                assert forall|w: u32| #[trigger] f.count_of(w) == entry_count(entries, w) by {
                    let there = holds_id(entries, w);
                    lemma_last_place(entries.len() as int, there);
                    match last_place(entries.len() as int, there) {
                        Some(k) => {
                            assert(f.count_of(entries[k].0) == Some(entries[k].1));
                        },
                        None => {
                            assert forall|k: int| 0 <= k < entries.len() implies (
                            #[trigger] entries[k]).0 != w by {
                                assert(!there(k));
                            }
                        },
                    }
                }
            }
            t.install(ctx, f);
            proof {
                assert forall|v: u32, w: u32| v < n implies #[trigger] t.follower(v, w) == (
                match last_place(i + 1, holds_context(all, v)) {
                    Some(k) => entry_count(all[k].1, w),
                    None => None,
                }) by {
                    let p = holds_context(all, v);
                    if v == ctx {
                        assert(p(i as int));
                        assert(last_place(i + 1, p) == Some(i as int));
                        assert(f.count_of(w) == entry_count(entries, w));
                    } else {
                        assert(!p(i as int));
                        assert(last_place(i + 1, p) == last_place(i as int, p));
                        assert(before.follower(v, w) == t.follower(v, w));
                    }
                }
                assert forall|v: u32| v < n implies #[trigger] t.total_of(v) == (match last_place(
                    i + 1,
                    holds_context(all, v),) {
                    Some(k) => Some(0u64),
                    None => None,
                }) by {
                    let p = holds_context(all, v);
                    if v == ctx {
                        assert(p(i as int));
                        assert(last_place(i + 1, p) == Some(i as int));
                    } else {
                        assert(!p(i as int));
                        assert(last_place(i + 1, p) == last_place(i as int, p));
                        assert(before.total_of(v) == t.total_of(v));
                    }
                }
            }
            i = i + 1;
        }
        t
    }
}

/// Place of the pair.
pub open spec fn pair_place(list: Seq<(u32, u32, u32, u32)>, u: u32, v: u32) -> Option<int> {
    last_place(list.len() as int, holds_pair(list, u, v))
}

/// The count stored for `w` after pair `p`.
pub open spec fn trigram_count(list: Seq<(u32, u32, u32)>, p: u32, w: u32) -> Option<u32> {
    match last_place(list.len() as int, holds_trigram(list, p, w)) {
        Some(k) => Some(list[k].2),
        None => None,
    }
}

impl PairTable {
    /// Pairs and trigrams from stored records.
    pub fn from_records(
        pairs: &Vec<(u32, u32, u32, u32)>,
        trigrams: &Vec<(u32, u32, u32)>,
        n: usize,
    ) -> (t: PairTable)
        requires
            n < NONE,
            pairs_ok(pairs@, n as int),
            pairs@.len() < NONE,
            pairs@.len() <= index_limit(),
            trigrams@.len() <= index_limit(),
            forall|i: int|
                0 <= i < trigrams@.len() ==> (#[trigger] trigrams@[i]).0 < pairs@.len()
                    && trigrams@[i].1 < n,
        ensures
            t.wf(),
            t.ids_below(n as int),
            t.pair_total@.len() == pairs@.len(),
            forall|u: u32, v: u32|
                u < n && v < n ==> #[trigger] t.pair_of(u, v) == (match pair_place(pairs@, u, v) {
                    Some(k) => Some(k as u32),
                    None => None,
                }),
            forall|k: int|
                0 <= k < pairs@.len() ==> (#[trigger] pairs@[k]).2 == t.pair_total@[k]
                    && pairs@[k].3 == t.pair_types@[k],
            forall|p: u32, w: u32|
                p < pairs@.len() ==> #[trigger] trigram_count(trigrams@, p, w) == (
                if t.tri@.dom().contains(key_of(p, w)) {
                    Some(t.tri@[key_of(p, w)])
                } else {
                    None
                }),
            t.pairs@.dom().len() <= pairs@.len(),
            t.tri@.dom().len() <= trigrams@.len(),
    {
        let mut table: IdTable<u32> = IdTable::with_capacity(pairs.len());
        let mut totals: Vec<u32> = Vec::new();
        let mut types: Vec<u32> = Vec::new();
        proof {
            table.lemma_len();
        }
        let mut i: usize = 0;
        while i < pairs.len()
            invariant
                n < NONE,
                pairs_ok(pairs@, n as int),
                pairs@.len() < NONE,
                pairs@.len() <= index_limit(),
                i <= pairs@.len(),
                table.wf(),
                table@.dom().finite(),
                table@.dom().len() <= i,
                totals@.len() == i,
                types@.len() == i,
                forall|k: int| 0 <= k < i ==> #[trigger] totals@[k] == pairs@[k].2,
                forall|k: int| 0 <= k < i ==> #[trigger] types@[k] == pairs@[k].3,
                forall|u: u32, v: u32| #[trigger]
                    table@.dom().contains(key_of(u, v)) <==> last_place(
                        i as int,
                        holds_pair(pairs@, u, v),
                    ) is Some,
                forall|k: int|
                    0 <= k < i ==> table@.dom().contains(
                        key_of((#[trigger] pairs@[k]).0, pairs@[k].1),
                    ) && table@[key_of(pairs@[k].0, pairs@[k].1)] == k,
            decreases pairs@.len() - i,
        {
            let (u, v, total, kinds) = pairs[i];
            assert(pairs@[i as int] == (u, v, total, kinds));
            let ghost before = table@;
            let key = pair_key(u, v);
            let (slot, fresh) = table.entry(key);
            *slot = i as u32;
            totals.push(total);
            types.push(kinds);
            proof {
                assert(table@ == before.insert(key, i as u32));
                assert(table@.dom() =~= before.dom().insert(key));
                assert forall|a: u32, b: u32| #[trigger]
                    table@.dom().contains(key_of(a, b)) <==> last_place(
                        i + 1,
                        holds_pair(pairs@, a, b),
                    ) is Some by {
                    let p = holds_pair(pairs@, a, b);
                    lemma_key(a, b);
                    lemma_key(u, v);
                    assert(before.dom().contains(key_of(a, b)) <==> last_place(i as int, p) is Some);
                    if a == u && b == v {
                        assert(p(i as int));
                    } else {
                        assert(!p(i as int));
                    }
                }
                assert forall|k: int| 0 <= k < i + 1 implies table@.dom().contains(
                    key_of((#[trigger] pairs@[k]).0, pairs@[k].1),
                ) && table@[key_of(pairs@[k].0, pairs@[k].1)] == k by {
                    if k < i {
                        lemma_key(pairs@[k].0, pairs@[k].1);
                        lemma_key(u, v);
                        assert(pairs@[k].0 != pairs@[i as int].0 || pairs@[k].1
                            != pairs@[i as int].1);
                    }
                }
            }
            i = i + 1;
        }
        let mut tri: IdTable<u32> = IdTable::with_capacity(trigrams.len());
        proof {
            tri.lemma_len();
        }
        let mut j: usize = 0;
        while j < trigrams.len()
            invariant
                n < NONE,
                pairs@.len() < NONE,
                trigrams@.len() <= index_limit(),
                forall|a: int|
                    0 <= a < trigrams@.len() ==> (#[trigger] trigrams@[a]).0 < pairs@.len()
                        && trigrams@[a].1 < n,
                j <= trigrams@.len(),
                tri.wf(),
                tri@.dom().finite(),
                tri@.dom().len() <= j,
                forall|k: u64| #[trigger]
                    tri@.dom().contains(k) ==> upper(k) < pairs@.len() && lower(k) < n,
                forall|p: u32, w: u32| #[trigger]
                    key_of(p, w) != EMPTY_KEY ==> (match last_place(
                        j as int,
                        holds_trigram(trigrams@, p, w),
                    ) {
                        Some(k) => tri@.dom().contains(key_of(p, w)) && tri@[key_of(p, w)]
                            == trigrams@[k].2,
                        None => !tri@.dom().contains(key_of(p, w)),
                    }),
            decreases trigrams@.len() - j,
        {
            let (pair, w, bits) = trigrams[j];
            assert(trigrams@[j as int] == (pair, w, bits));
            let ghost before = tri@;
            let key = pair_key(pair, w);
            let (slot, fresh) = tri.entry(key);
            *slot = bits;
            proof {
                assert(tri@ == before.insert(key, bits));
                assert(tri@.dom() =~= before.dom().insert(key));
                lemma_key(pair, w);
                assert forall|a: u32, b: u32| #[trigger] key_of(a, b) != EMPTY_KEY implies (
                match last_place(j + 1, holds_trigram(trigrams@, a, b)) {
                    Some(k) => tri@.dom().contains(key_of(a, b)) && tri@[key_of(a, b)]
                        == trigrams@[k].2,
                    None => !tri@.dom().contains(key_of(a, b)),
                }) by {
                    let p = holds_trigram(trigrams@, a, b);
                    lemma_key(a, b);
                    if a == pair && b == w {
                        assert(p(j as int));
                        assert(last_place(j + 1, p) == Some(j as int));
                    } else {
                        assert(!p(j as int));
                        assert(last_place(j + 1, p) == last_place(j as int, p));
                        assert(key_of(a, b) != key);
                        lemma_last_place(j as int, p);
                    }
                }
            }
            j = j + 1;
        }
        let t = PairTable { pairs: table, pair_total: totals, pair_types: types, tri };
        proof {
            t.pairs.lemma_len();
            t.tri.lemma_len();
            assert forall|k: u64| #[trigger] t.pairs@.dom().contains(k) implies k != EMPTY_KEY
                && exists|a: int|
                0 <= a < pairs@.len() && (#[trigger] pairs@[a]).0 == upper(k) && pairs@[a].1
                    == lower(k) && t.pairs@[k] == a by {
                lemma_halves(k);
                let (u, v) = (upper(k), lower(k));
                let p = holds_pair(pairs@, u, v);
                lemma_last_place(pairs@.len() as int, p);
                assert(t.pairs@.dom().contains(key_of(u, v)));
                let a = last_place(pairs@.len() as int, p)->0;
                assert(pairs@[a].0 == u && pairs@[a].1 == v);
            }
            assert forall|k: u64| #[trigger] t.pairs@.dom().contains(k) implies t.pairs@[k]
                < pairs@.len() && upper(k) < n && lower(k) < n by {
                let a = choose|a: int|
                    0 <= a < pairs@.len() && (#[trigger] pairs@[a]).0 == upper(k) && pairs@[a].1
                        == lower(k) && t.pairs@[k] == a;
                assert(pairs@[a].0 < n);
            }
            assert forall|k: u64, l: u64|
                #![trigger t.pairs@[k], t.pairs@[l]]
                t.pairs@.dom().contains(k) && t.pairs@.dom().contains(l) && t.pairs@[k]
                    == t.pairs@[l] implies k == l by {
                lemma_halves(k);
                lemma_halves(l);
                let a = choose|a: int|
                    0 <= a < pairs@.len() && (#[trigger] pairs@[a]).0 == upper(k) && pairs@[a].1
                        == lower(k) && t.pairs@[k] == a;
                let b = choose|b: int|
                    0 <= b < pairs@.len() && (#[trigger] pairs@[b]).0 == upper(l) && pairs@[b].1
                        == lower(l) && t.pairs@[l] == b;
                assert(a == b);
            }
            assert forall|p: u32| p < pairs@.len() implies #[trigger] t.has_index(p) by {
                let k = key_of(pairs@[p as int].0, pairs@[p as int].1);
                assert(t.pairs@.dom().contains(k) && t.pairs@[k] == p);
            }
            assert forall|u: u32, v: u32| u < n && v < n implies #[trigger] t.pair_of(u, v) == (
            match pair_place(pairs@, u, v) {
                Some(k) => Some(k as u32),
                None => None,
            }) by {
                let p = holds_pair(pairs@, u, v);
                lemma_last_place(pairs@.len() as int, p);
                assert(t.pairs@.dom().contains(key_of(u, v)) <==> last_place(
                    pairs@.len() as int,
                    p,
                ) is Some);
                if let Some(k) = pair_place(pairs@, u, v) {
                    assert(t.pairs@[key_of(pairs@[k].0, pairs@[k].1)] == k);
                }
            }
            assert forall|p: u32, w: u32| p < pairs@.len() implies #[trigger] trigram_count(
                trigrams@,
                p,
                w,
            ) == (if t.tri@.dom().contains(key_of(p, w)) {
                Some(t.tri@[key_of(p, w)])
            } else {
                None
            }) by {
                lemma_key(p, w);
                assert(key_of(p, w) != EMPTY_KEY);
            }
        }
        t
    }
}

/// The forms stored for `id`.
pub open spec fn stored_forms(list: Seq<(u32, Seq<(Seq<char>, u32)>)>, id: u32) -> Seq<
    (Seq<char>, u32),
> {
    match last_place(list.len() as int, holds_tail(list, id)) {
        Some(k) => list[k].1,
        None => Seq::empty(),
    }
}

impl TailTable {
    /// Casings from stored records.
    pub(crate) fn from_records(list: Vec<(u32, Vec<(String, u32)>)>, Ghost(n): Ghost<int>) -> (t: TailTable)
        requires
            forall|i: int| 0 <= i < list@.len() ==> (#[trigger] list@[i]).0 < n,
        ensures
            t.wf(),
            t.ids_below(n),
            forall|id: u32| #[trigger] t.forms_of(id) == stored_forms(tails_view(list@), id),
    {
        let ghost all = tails_view(list@);
        let mut rest = list;
        let mut t = TailTable::new();
        let mut reversed: Vec<(u32, Vec<(String, u32)>)> = Vec::new();
        while rest.len() > 0
            invariant
                rest@.len() + reversed@.len() == list@.len(),
                forall|i: int| 0 <= i < rest@.len() ==> #[trigger] rest@[i] == list@[i],
                forall|i: int|
                    0 <= i < reversed@.len() ==> #[trigger] reversed@[i] == list@[list@.len() - 1
                        - i],
            decreases rest@.len(),
        {
            if let Some(item) = rest.pop() {
                reversed.push(item);
            }
        }
        while reversed.len() > 0
            invariant
                all == tails_view(list@),
                forall|i: int| 0 <= i < list@.len() ==> (#[trigger] list@[i]).0 < n,
                reversed@.len() <= list@.len(),
                forall|i: int|
                    0 <= i < reversed@.len() ==> #[trigger] reversed@[i] == list@[list@.len() - 1
                        - i],
                t.wf(),
                t.ids_below(n),
                forall|id: u32| #[trigger]
                    t.forms_of(id) == (match last_place(
                        list@.len() - reversed@.len(),
                        holds_tail(all, id),
                    ) {
                        Some(k) => all[k].1,
                        None => Seq::empty(),
                    }),
            decreases reversed@.len(),
        {
            let ghost i = list@.len() - reversed@.len();
            let ghost before = t;
            if let Some((id, forms)) = reversed.pop() {
                proof {
                    assert(list@[i] == (id, forms));
                    assert(all[i] == (id, forms_view(forms@)));
                }
                let ghost stored = forms_view(forms@);
                t.replace(id, forms);
                proof {
                    assert(before.ids_below(n));
                    assert forall|x: u32| #[trigger] t.forms_of(x) == (match last_place(
                        i + 1,
                        holds_tail(all, x),
                    ) {
                        Some(k) => all[k].1,
                        None => Seq::empty(),
                    }) by {
                        let p = holds_tail(all, x);
                        if x == id {
                            assert(p(i));
                            assert(last_place(i + 1, p) == Some(i));
                        } else {
                            assert(!p(i));
                            assert(last_place(i + 1, p) == last_place(i, p));
                            assert(t.forms_of(x) == before.forms_of(x));
                        }
                    }
                }
            }
        }
        t
    }
}

} // verus!
