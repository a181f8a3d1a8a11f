//! Trigram counts by context pair.
//!
//! Counts are floating-point bit patterns, kept and moved but never added up
//! here.

use crate::ngram::follower_table::permutation;
use crate::ngram::lexicon::NONE;
use crate::ngram::structures::{IdTable, EMPTY_KEY};
use vstd::prelude::*;

verus! {

/// Bit pattern of 1.
pub const ONE_BITS: u32 = 0x3f80_0000;

/// Bit pattern of infinity.
pub const INFINITE_BITS: u32 = 0x7f80_0000;

/// The pattern is that of a number at least 1.
pub open spec fn at_least_one(bits: u32) -> bool {
    ONE_BITS <= bits <= INFINITE_BITS
}

/// `a` in the upper half, `b` in the lower.
pub open spec fn key_of(a: u32, b: u32) -> u64 {
    (a * 0x1_0000_0000 + b) as u64
}

/// The upper half.
pub open spec fn upper(key: u64) -> u32 {
    (key / 0x1_0000_0000) as u32
}

/// The lower half.
pub open spec fn lower(key: u64) -> u32 {
    (key % 0x1_0000_0000) as u32
}

/// Two ids as one key.
pub fn pair_key(a: u32, b: u32) -> (key: u64)
    ensures
        key == key_of(a, b),
        upper(key) == a,
        lower(key) == b,
        a != NONE ==> key != EMPTY_KEY,
{
    proof {
        lemma_key(a, b);
    }
    a as u64 * 0x1_0000_0000 + b as u64
}

/// A key holds the two ids it was made of.
pub proof fn lemma_key(a: u32, b: u32)
    ensures
        upper(key_of(a, b)) == a,
        lower(key_of(a, b)) == b,
        key_of(a, b) == a * 0x1_0000_0000 + b,
        a != NONE ==> key_of(a, b) != EMPTY_KEY,
{
}

/// Every key is made of its halves.
pub proof fn lemma_halves(key: u64)
    ensures
        key_of(upper(key), lower(key)) == key,
{
}

/// Trigram counts: a pair of context words has an index, and a count is filed
/// under the pair's index and the word.
pub struct PairTable {
    /// Pair index by context pair.
    pub pairs: IdTable<u32>,
    /// Sum of the weighted counts after each pair.
    pub pair_total: Vec<u32>,
    /// Distinct words counted after each pair.
    pub pair_types: Vec<u32>,
    /// Counts by pair index and word.
    pub tri: IdTable<u32>,
}

impl PairTable {
    /// Pairs have indices of their own, and every count belongs to a pair.
    pub open spec fn wf(&self) -> bool {
        let m = self.pair_total@.len();
        &&& self.pairs.wf()
        &&& self.tri.wf()
        &&& self.pair_types@.len() == m
        &&& m < NONE
        &&& forall|k: u64| #[trigger]
            self.pairs@.dom().contains(k) ==> k != EMPTY_KEY && self.pairs@[k] < m
        &&& forall|k: u64, l: u64|
            #![trigger self.pairs@[k], self.pairs@[l]]
            self.pairs@.dom().contains(k) && self.pairs@.dom().contains(l) && self.pairs@[k]
                == self.pairs@[l] ==> k == l
        &&& forall|p: u32| p < m ==> #[trigger] self.has_index(p)
        &&& forall|k: u64| #[trigger]
            self.tri@.dom().contains(k) ==> k != EMPTY_KEY && upper(k) < m
    }

    /// Some pair has index `p`.
    pub open spec fn has_index(&self, p: u32) -> bool {
        exists|k: u64| #[trigger] self.pairs@.dom().contains(k) && self.pairs@[k] == p
    }

    /// Every id is below `n`.
    pub open spec fn ids_below(&self, n: int) -> bool {
        &&& forall|k: u64| #[trigger]
            self.pairs@.dom().contains(k) ==> upper(k) < n && lower(k) < n
        &&& forall|k: u64| #[trigger] self.tri@.dom().contains(k) ==> lower(k) < n
    }

    /// One more count fits.
    pub open spec fn has_room(&self) -> bool {
        &&& self.pair_total@.len() + 1 < NONE
        &&& 43 * (self.pairs@.dom().len() + 12) <= usize::MAX
        &&& 43 * (self.tri@.dom().len() + 12) <= usize::MAX
        &&& forall|p: int|
            0 <= p < self.pair_types@.len() ==> #[trigger] self.pair_types@[p] < u32::MAX
    }

    /// Index of the pair.
    pub open spec fn pair_of(&self, u: u32, v: u32) -> Option<u32> {
        if self.pairs@.dom().contains(key_of(u, v)) {
            Some(self.pairs@[key_of(u, v)])
        } else {
            None
        }
    }

    /// Total and number of distinct words after the pair.
    pub open spec fn stats(&self, u: u32, v: u32) -> Option<(u32, u32)> {
        match self.pair_of(u, v) {
            Some(p) => Some((self.pair_total@[p as int], self.pair_types@[p as int])),
            None => None,
        }
    }

    /// The count of `w` after the pair.
    pub open spec fn trigram(&self, u: u32, v: u32, w: u32) -> Option<u32> {
        match self.pair_of(u, v) {
            Some(p) => if self.tri@.dom().contains(key_of(p, w)) {
                Some(self.tri@[key_of(p, w)])
            } else {
                None
            },
            None => None,
        }
    }

    /// No pairs.
    pub fn new() -> (t: PairTable)
        ensures
            t.wf(),
            t.has_room(),
            forall|n: int| #[trigger] t.ids_below(n),
            forall|u: u32, v: u32| #[trigger] t.stats(u, v) is None,
            forall|u: u32, v: u32, w: u32| #[trigger] t.trigram(u, v, w) is None,
    {
        PairTable {
            pairs: IdTable::with_capacity(1024),
            pair_total: Vec::new(),
            pair_types: Vec::new(),
            tri: IdTable::with_capacity(1024),
        }
    }

    /// Index of the pair.
    pub fn pair(&self, u: u32, v: u32) -> (p: Option<u32>)
        requires
            self.wf(),
            u != NONE,
        ensures
            p == self.pair_of(u, v),
            p matches Some(i) ==> i < self.pair_total@.len(),
    {
        self.pairs.get(pair_key(u, v))
    }

    /// The count of `w` after the pair.
    pub fn get(&self, u: u32, v: u32, w: u32) -> (bits: Option<u32>)
        requires
            self.wf(),
            u != NONE,
        ensures
            bits == self.trigram(u, v, w),
    {
        match self.pair(u, v) {
            Some(p) => self.tri.get(pair_key(p, w)),
            None => None,
        }
    }

    /// Total and number of distinct words after the pair.
    pub fn context(&self, u: u32, v: u32) -> (stats: Option<(u32, u32)>)
        requires
            self.wf(),
            u != NONE,
        ensures
            stats == self.stats(u, v),
    {
        match self.pair(u, v) {
            Some(p) => Some((self.pair_total[p as usize], self.pair_types[p as usize])),
            None => None,
        }
    }

    /// Sets the count of `w` after the pair and the pair's total; a word new to
    /// the pair counts among its distinct words.
    pub fn put(&mut self, u: u32, v: u32, w: u32, bits: u32, total: u32)
        requires
            old(self).wf(),
            old(self).has_room(),
            u != NONE,
        ensures
            final(self).wf(),
            forall|n: int| #[trigger]
                old(self).ids_below(n) && u < n && v < n && w < n ==> final(self).ids_below(n),
            final(self).trigram(u, v, w) == Some(bits),
            forall|a: u32, b: u32, c: u32|
                (a != u || b != v || c != w) ==> #[trigger] final(self).trigram(a, b, c) == old(
                    self).trigram(a, b, c),
            final(self).stats(u, v) == Some(
                (
                    total,
                    (match old(self).stats(u, v) {
                        Some(s) => if old(self).trigram(u, v, w) is Some {
                            s.1
                        } else {
                            (s.1 + 1) as u32
                        },
                        None => 1u32,
                    }),
                ),
            ),
            forall|a: u32, b: u32|
                (a != u || b != v) ==> #[trigger] final(self).stats(a, b) == old(self).stats(a, b),
    {
        let ghost start = *self;
        let m: usize = self.pair_total.len();
        let key = pair_key(u, v);
        let (slot, fresh) = self.pairs.entry(key);
        if fresh {
            *slot = m as u32;
        }
        let pair: u32 = *slot;
        if fresh {
            self.pair_total.push(0);
            self.pair_types.push(0);
        }
        let ghost mid = *self;
        proof {
            assert(mid.pairs@ == start.pairs@.insert(key, pair));
            assert(pair <= m && pair < NONE);
            assert forall|k: u64, l: u64|
                #![trigger mid.pairs@[k], mid.pairs@[l]]
                mid.pairs@.dom().contains(k) && mid.pairs@.dom().contains(l) && mid.pairs@[k]
                    == mid.pairs@[l] implies k == l by {
                if k != key {
                    assert(start.pairs@.dom().contains(k));
                    assert(mid.pairs@[k] == start.pairs@[k]);
                }
                if l != key {
                    assert(start.pairs@.dom().contains(l));
                    assert(mid.pairs@[l] == start.pairs@[l]);
                }
            }
        }
        let tri_key = pair_key(pair, w);
        let (cell, new) = self.tri.entry(tri_key);
        *cell = bits;
        if new {
            let types: u32 = self.pair_types[pair as usize];
            self.pair_types.set(pair as usize, types + 1);
        }
        self.pair_total.set(pair as usize, total);
        proof {
            assert forall|p: u32| p < self.pair_total@.len() implies #[trigger] self.has_index(p) by {
                if p == pair {
                    assert(self.pairs@.dom().contains(key));
                } else {
                    assert(start.has_index(p));
                    let k = choose|k: u64| #[trigger]
                        start.pairs@.dom().contains(k) && start.pairs@[k] == p;
                    assert(self.pairs@.dom().contains(k));
                }
            }
            assert(self.tri@ == start.tri@.insert(tri_key, bits));
            assert forall|a: u32, b: u32, c: u32|
                (a != u || b != v || c != w) implies #[trigger] self.trigram(a, b, c)
                == start.trigram(a, b, c) by {
                lemma_key(a, b);
                lemma_key(u, v);
                if a == u && b == v {
                    lemma_key(pair, c);
                    if fresh {
                        assert(!start.tri@.dom().contains(key_of(pair, c)));
                    }
                } else {
                    let k = key_of(a, b);
                    assert(k != key);
                    if start.pairs@.dom().contains(k) {
                        let p = start.pairs@[k];
                        assert(mid.pairs@[k] == p);
                        assert(mid.pairs@[key] == pair);
                        assert(p != pair);
                        lemma_key(p, c);
                    }
                }
            }
            assert forall|a: u32, b: u32| (a != u || b != v) implies #[trigger] self.stats(a, b)
                == start.stats(a, b) by {
                lemma_key(a, b);
                lemma_key(u, v);
                let k = key_of(a, b);
                assert(k != key);
                if start.pairs@.dom().contains(k) {
                    let p = start.pairs@[k];
                    assert(mid.pairs@[k] == p);
                    assert(mid.pairs@[key] == pair);
                    assert(p != pair);
                }
            }
        }
    }
}

/// Distinct numbers below `m` are at most `m`.
proof fn lemma_distinct_below(s: Seq<int>, m: int)
    requires
        0 <= m,
        s.no_duplicates(),
        forall|q: int| 0 <= q < s.len() ==> 0 <= #[trigger] s[q] < m,
    ensures
        s.len() <= m,
{
    let range = vstd::set_lib::set_int_range(0, m);
    vstd::set_lib::lemma_int_range(0, m);
    s.unique_seq_to_set();
    assert(s.to_set().subset_of(range));
    vstd::set_lib::lemma_len_subset(s.to_set(), range);
}

/// The key under the new ids: the lower id, and the upper one when `both`.
pub open spec fn moved_key(key: u64, remap: Seq<u32>, both: bool) -> u64 {
    key_of(
        if both {
            remap[upper(key) as int]
        } else {
            upper(key)
        },
        remap[lower(key) as int],
    )
}

/// The table with its keys moved to the new ids.
fn rekeyed(table: &IdTable<u32>, remap: &Vec<u32>, both: bool) -> (out: IdTable<u32>)
    requires
        table.wf(),
        remap@.len() < NONE,
        permutation(remap@, remap@.len() as int),
        43 * (table@.dom().len() + 12) <= usize::MAX,
        forall|k: u64| #[trigger]
            table@.dom().contains(k) ==> lower(k) < remap@.len() && (if both {
                upper(k) < remap@.len()
            } else {
                upper(k) != NONE
            }),
    ensures
        out.wf(),
        out@.dom().len() == table@.dom().len(),
        forall|k: u64| #[trigger]
            table@.dom().contains(k) ==> out@.contains_pair(moved_key(k, remap@, both), table@[k]),
        forall|k: u64| #[trigger]
            out@.dom().contains(k) ==> exists|j: u64| #[trigger]
                table@.dom().contains(j) && moved_key(j, remap@, both) == k,
{
    let list = table.iter();
    let mut out: IdTable<u32> = IdTable::with_capacity(table.len());
    let mut i: usize = 0;
    while i < list.len()
        invariant
            remap@.len() < NONE,
            permutation(remap@, remap@.len() as int),
            43 * (list@.len() + 12) <= usize::MAX,
            forall|k: u64| #[trigger]
                table@.dom().contains(k) ==> lower(k) < remap@.len() && (if both {
                    upper(k) < remap@.len()
                } else {
                    upper(k) != NONE
                }),
            forall|a: int|
                0 <= a < list@.len() ==> table@.contains_pair((#[trigger] list@[a]).0, list@[a].1),
            forall|a: int, b: int| 0 <= a < b < list@.len() ==> list@[a].0 != list@[b].0,
            i <= list@.len(),
            out.wf(),
            out@.dom().finite(),
            out@.dom().len() == i,
            forall|a: int|
                0 <= a < i ==> out@.contains_pair(
                    moved_key((#[trigger] list@[a]).0, remap@, both),
                    list@[a].1,
                ),
            forall|k: u64| #[trigger]
                out@.dom().contains(k) ==> exists|a: int|
                    0 <= a < i && moved_key(#[trigger] list@[a].0, remap@, both) == k,
        decreases list@.len() - i,
    {
        let (key, value) = list[i];
        let ghost before = out@;
        assert(list@[i as int] == (key, value));
        assert(table@.contains_pair(list@[i as int].0, list@[i as int].1));
        assert(table@.dom().contains(key));
        let hi: u32 = (key / 0x1_0000_0000) as u32;
        let lo: u32 = (key % 0x1_0000_0000) as u32;
        let moved_hi: u32 = if both {
            remap[hi as usize]
        } else {
            hi
        };
        let moved = pair_key(moved_hi, remap[lo as usize]);
        proof {
            assert(moved == moved_key(key, remap@, both));
            if before.dom().contains(moved) {
                let a = choose|a: int|
                    0 <= a < i && moved_key(#[trigger] list@[a].0, remap@, both) == moved;
                let other = list@[a].0;
                assert(table@.contains_pair(list@[a].0, list@[a].1));
                assert(table@.dom().contains(other));
                lemma_key(
                    if both {
                        remap@[upper(other) as int]
                    } else {
                        upper(other)
                    },
                    remap@[lower(other) as int],
                );
                assert(remap@[lower(other) as int] == remap@[lo as int]);
                assert(lower(other) == lo);
                assert(upper(other) == hi);
                lemma_halves(other);
                lemma_halves(key);
                assert(list@[a].0 != list@[i as int].0);
            }
        }
        let (cell, fresh) = out.entry(moved);
        *cell = value;
        proof {
            assert(out@ == before.insert(moved, value));
            assert(out@.dom() =~= before.dom().insert(moved));
            assert forall|k: u64| #[trigger] out@.dom().contains(k) implies exists|a: int|
                0 <= a < i + 1 && moved_key(#[trigger] list@[a].0, remap@, both) == k by {
                if k == moved {
                    assert(moved_key(list@[i as int].0, remap@, both) == k);
                } else {
                    assert(before.dom().contains(k));
                    let a = choose|a: int|
                        0 <= a < i && moved_key(#[trigger] list@[a].0, remap@, both) == k;
                    assert(moved_key(list@[a].0, remap@, both) == k);
                }
            }
            assert forall|a: int| 0 <= a < i + 1 implies out@.contains_pair(
                moved_key((#[trigger] list@[a]).0, remap@, both),
                list@[a].1,
            ) by {
                if a < i {
                    assert(before.contains_pair(
                        moved_key(list@[a].0, remap@, both),
                        list@[a].1,
                    ));
                }
            }
        }
        i = i + 1;
    }
    proof {
        assert forall|k: u64| #[trigger] table@.dom().contains(k) implies out@.contains_pair(
            moved_key(k, remap@, both),
            table@[k],
        ) by {
            let a = choose|a: int| 0 <= a < list@.len() && list@[a].0 == k;
            assert(table@.contains_pair(list@[a].0, list@[a].1));
            assert(out@.contains_pair(moved_key(list@[a].0, remap@, both), list@[a].1));
        }
        assert forall|k: u64| #[trigger] out@.dom().contains(k) implies exists|j: u64| #[trigger]
            table@.dom().contains(j) && moved_key(j, remap@, both) == k by {
            let a = choose|a: int|
                0 <= a < list@.len() && moved_key(#[trigger] list@[a].0, remap@, both) == k;
            assert(table@.contains_pair(list@[a].0, list@[a].1));
            assert(table@.dom().contains(list@[a].0));
        }
    }
    out
}

impl PairTable {
    /// Follows the words to their new ids.
    pub fn renumber(&mut self, remap: &Vec<u32>)
        requires
            old(self).wf(),
            old(self).has_room(),
            old(self).ids_below(remap@.len() as int),
            remap@.len() < NONE,
            permutation(remap@, remap@.len() as int),
        ensures
            final(self).wf(),
            final(self).has_room(),
            final(self).ids_below(remap@.len() as int),
            forall|u: u32, v: u32|
                u < remap@.len() && v < remap@.len() ==> #[trigger] final(self).stats(
                    remap@[u as int],
                    remap@[v as int],
                ) == old(self).stats(u, v),
            forall|u: u32, v: u32, w: u32|
                u < remap@.len() && v < remap@.len() && w < remap@.len() ==> #[trigger] final(
                    self).trigram(remap@[u as int], remap@[v as int], remap@[w as int]) == old(
                    self).trigram(u, v, w),
    {
        let ghost start = *self;
        let ghost n = remap@.len() as int;
        let pairs = rekeyed(&self.pairs, remap, true);
        let tri = rekeyed(&self.tri, remap, false);
        self.pairs = pairs;
        self.tri = tri;
        proof {
            self.pairs.lemma_len();
            self.tri.lemma_len();
            assert forall|k: u64| #[trigger] self.pairs@.dom().contains(k) implies k != EMPTY_KEY
                && self.pairs@[k] < start.pair_total@.len() && upper(k) < n && lower(k) < n by {
                let j = choose|j: u64| #[trigger]
                    start.pairs@.dom().contains(j) && moved_key(j, remap@, true) == k;
                assert(self.pairs@.contains_pair(moved_key(j, remap@, true), start.pairs@[j]));
                lemma_key(remap@[upper(j) as int], remap@[lower(j) as int]);
                assert(remap@[upper(j) as int] < n && remap@[lower(j) as int] < n);
            }
            assert forall|k: u64, l: u64|
                #![trigger self.pairs@[k], self.pairs@[l]]
                self.pairs@.dom().contains(k) && self.pairs@.dom().contains(l) && self.pairs@[k]
                    == self.pairs@[l] implies k == l by {
                let j = choose|j: u64| #[trigger]
                    start.pairs@.dom().contains(j) && moved_key(j, remap@, true) == k;
                let i = choose|i: u64| #[trigger]
                    start.pairs@.dom().contains(i) && moved_key(i, remap@, true) == l;
                assert(self.pairs@.contains_pair(moved_key(j, remap@, true), start.pairs@[j]));
                assert(self.pairs@.contains_pair(moved_key(i, remap@, true), start.pairs@[i]));
                assert(start.pairs@[j] == start.pairs@[i]);
            }
            assert forall|p: u32| p < start.pair_total@.len() implies #[trigger] self.has_index(
                p,
            ) by {
                assert(start.has_index(p));
                let j = choose|j: u64| #[trigger]
                    start.pairs@.dom().contains(j) && start.pairs@[j] == p;
                assert(self.pairs@.contains_pair(moved_key(j, remap@, true), start.pairs@[j]));
            }
            assert forall|k: u64| #[trigger] self.tri@.dom().contains(k) implies k != EMPTY_KEY
                && upper(k) < start.pair_total@.len() && lower(k) < n by {
                let j = choose|j: u64| #[trigger]
                    start.tri@.dom().contains(j) && moved_key(j, remap@, false) == k;
                lemma_key(upper(j), remap@[lower(j) as int]);
                assert(remap@[lower(j) as int] < n);
            }
            assert forall|u: u32, v: u32| u < n && v < n implies #[trigger] self.pair_of(
                remap@[u as int],
                remap@[v as int],
            ) == start.pair_of(u, v) by {
                Self::lemma_moved_pair(start.pairs@, self.pairs@, remap@, true, u, v);
            }
            assert forall|u: u32, v: u32| u < n && v < n implies #[trigger] self.stats(
                remap@[u as int],
                remap@[v as int],
            ) == start.stats(u, v) by {
                assert(self.pair_of(remap@[u as int], remap@[v as int]) == start.pair_of(u, v));
            }
            assert forall|u: u32, v: u32, w: u32|
                u < n && v < n && w < n implies #[trigger] self.trigram(
                remap@[u as int],
                remap@[v as int],
                remap@[w as int],
            ) == start.trigram(u, v, w) by {
                assert(self.pair_of(remap@[u as int], remap@[v as int]) == start.pair_of(u, v));
                if let Some(p) = start.pair_of(u, v) {
                    Self::lemma_moved_pair(start.tri@, self.tri@, remap@, false, p, w);
                }
            }
        }
    }

    /// A moved key is in the moved table exactly when the key was in the table.
    proof fn lemma_moved_pair(
        before: Map<u64, u32>,
        after: Map<u64, u32>,
        remap: Seq<u32>,
        both: bool,
        a: u32,
        b: u32,
    )
        requires
            permutation(remap, remap.len() as int),
            b < remap.len(),
            both ==> a < remap.len(),
            forall|k: u64| #[trigger]
                before.dom().contains(k) ==> lower(k) < remap.len() && (both ==> upper(k)
                    < remap.len()),
            forall|k: u64| #[trigger]
                before.dom().contains(k) ==> after.contains_pair(
                    moved_key(k, remap, both),
                    before[k],
                ),
            forall|k: u64| #[trigger]
                after.dom().contains(k) ==> exists|j: u64| #[trigger]
                    before.dom().contains(j) && moved_key(j, remap, both) == k,
        ensures
            moved_key(key_of(a, b), remap, both) == key_of(
                (if both {
                    remap[a as int]
                } else {
                    a
                }),
                remap[b as int],
            ),
            after.dom().contains(moved_key(key_of(a, b), remap, both)) == before.dom().contains(
                key_of(a, b),
            ),
            before.dom().contains(key_of(a, b)) ==> after[moved_key(key_of(a, b), remap, both)]
                == before[key_of(a, b)],
    {
        lemma_key(a, b);
        let k = moved_key(key_of(a, b), remap, both);
        if after.dom().contains(k) {
            let j = choose|j: u64| #[trigger]
                before.dom().contains(j) && moved_key(j, remap, both) == k;
            lemma_key(
                if both {
                    remap[a as int]
                } else {
                    a
                },
                remap[b as int],
            );
            lemma_key(
                if both {
                    remap[upper(j) as int]
                } else {
                    upper(j)
                },
                remap[lower(j) as int],
            );
            assert(remap[lower(j) as int] == remap[b as int]);
            assert(lower(j) == b);
            assert(upper(j) == a);
            lemma_halves(j);
        }
    }

    /// Some trigram of the pair has a count of at least 1.
    pub open spec fn pair_kept(&self, u: u32, v: u32) -> bool {
        exists|w: u32|
            #![trigger self.trigram(u, v, w)]
            self.trigram(u, v, w) matches Some(bits) && at_least_one(bits)
    }

    /// Drops the trigrams with counts below 1 and the pairs left without any.
    pub fn prune(&mut self)
        requires
            old(self).wf(),
            old(self).has_room(),
        ensures
            final(self).wf(),
            final(self).has_room(),
            forall|n: int| #[trigger] old(self).ids_below(n) ==> final(self).ids_below(n),
            forall|u: u32, v: u32, w: u32|
                u != NONE ==> #[trigger] final(self).trigram(u, v, w) == (match old(self).trigram(
                    u, v, w) {
                    Some(bits) => if at_least_one(bits) {
                        Some(bits)
                    } else {
                        None
                    },
                    None => None,
                }),
            forall|u: u32, v: u32|
                u != NONE ==> #[trigger] final(self).stats(u, v) == (if old(self).pair_kept(u, v) {
                    old(self).stats(u, v)
                } else {
                    None
                }),
    {
        let ghost start = *self;
        let m: usize = self.pair_total.len();
        let list = self.tri.iter();
        let mut renumber: Vec<u32> = vec![NONE; m];
        let mut totals: Vec<u32> = Vec::new();
        let mut types: Vec<u32> = Vec::new();
        let ghost mut origin: Seq<int> = Seq::empty();
        let mut tri: IdTable<u32> = IdTable::with_capacity(self.tri.len());
        proof {
            tri.lemma_len();
        }
        let mut i: usize = 0;
        while i < list.len()
            invariant
                *self == start,
                start.wf(),
                start.has_room(),
                m == start.pair_total@.len(),
                list@.len() == start.tri@.dom().len(),
                forall|a: int|
                    0 <= a < list@.len() ==> start.tri@.contains_pair(
                        (#[trigger] list@[a]).0,
                        list@[a].1,
                    ),
                i <= list@.len(),
                renumber@.len() == m,
                totals@.len() == origin.len(),
                types@.len() == origin.len(),
                origin.no_duplicates(),
                forall|q: int|
                    0 <= q < origin.len() ==> 0 <= #[trigger] origin[q] < m && renumber@[origin[q]]
                        == q && totals@[q] == start.pair_total@[origin[q]] && types@[q]
                        == start.pair_types@[origin[q]],
                forall|p: int|
                    0 <= p < m && #[trigger] renumber@[p] != NONE ==> renumber@[p] < origin.len()
                        && origin[renumber@[p] as int] == p,
                forall|a: int|
                    0 <= a < i && at_least_one((#[trigger] list@[a]).1)
                        ==> renumber@[upper(list@[a].0) as int] != NONE && tri@.contains_pair(
                        key_of(renumber@[upper(list@[a].0) as int], lower(list@[a].0)),
                        list@[a].1,
                    ),
                forall|p: int|
                    0 <= p < m && #[trigger] renumber@[p] != NONE ==> exists|a: int|
                        0 <= a < i && at_least_one((#[trigger] list@[a]).1) && upper(list@[a].0)
                            == p,
                tri.wf(),
                tri@.dom().finite(),
                tri@.dom().len() <= i,
                forall|k: u64| #[trigger]
                    tri@.dom().contains(k) ==> exists|a: int|
                        0 <= a < i && at_least_one((#[trigger] list@[a]).1)
                            && renumber@[upper(list@[a].0) as int] != NONE && key_of(
                            renumber@[upper(list@[a].0) as int],
                            lower(list@[a].0),
                        ) == k,
            decreases list@.len() - i,
        {
            let (key, bits) = list[i];
            assert(list@[i as int] == (key, bits));
            assert(start.tri@.contains_pair(list@[i as int].0, list@[i as int].1));
            assert(start.tri@.dom().contains(key));
            if ONE_BITS <= bits && bits <= INFINITE_BITS {
                let ghost before_renumber = renumber@;
                let ghost before_tri = tri@;
                let pair: u32 = (key / 0x1_0000_0000) as u32;
                let word: u32 = (key % 0x1_0000_0000) as u32;
                proof {
                    lemma_distinct_below(origin, m as int);
                }
                if renumber[pair as usize] == NONE {
                    renumber.set(pair as usize, totals.len() as u32);
                    totals.push(self.pair_total[pair as usize]);
                    types.push(self.pair_types[pair as usize]);
                    proof {
                        assert(!origin.contains(pair as int)) by {
                            if origin.contains(pair as int) {
                                let q = choose|q: int| 0 <= q < origin.len() && origin[q] == pair;
                                assert(before_renumber[origin[q]] == q);
                            }
                        }
                        origin = origin.push(pair as int);
                    }
                }
                let moved = pair_key(renumber[pair as usize], word);
                let (cell, fresh) = tri.entry(moved);
                *cell = bits;
                proof {
                    assert(tri@ == before_tri.insert(moved, bits));
                    assert(tri@.dom() =~= before_tri.dom().insert(moved));
                    assert forall|a: int|
                        0 <= a < i + 1 && at_least_one((#[trigger] list@[a]).1) implies
                        renumber@[upper(list@[a].0) as int] != NONE && tri@.contains_pair(
                        key_of(renumber@[upper(list@[a].0) as int], lower(list@[a].0)),
                        list@[a].1,
                    ) by {
                        if a < i {
                            let other = list@[a].0;
                            assert(start.tri@.contains_pair(list@[a].0, list@[a].1));
                            assert(start.tri@.dom().contains(other));
                            let q = before_renumber[upper(other) as int];
                            assert(q != NONE);
                            assert(renumber@[upper(other) as int] == q);
                            lemma_key(q, lower(other));
                            lemma_key(renumber@[pair as int], word);
                            if key_of(q, lower(other)) == moved {
                                assert(origin[q as int] == upper(other));
                                assert(origin[q as int] == pair);
                                lemma_halves(other);
                                lemma_halves(key);
                                assert(other == key);
                            }
                        }
                    }
                    assert forall|p: int|
                        0 <= p < m && #[trigger] renumber@[p] != NONE implies exists|a: int|
                        0 <= a < i + 1 && at_least_one((#[trigger] list@[a]).1) && upper(
                            list@[a].0,
                        ) == p by {
                        if p == pair {
                            assert(at_least_one(list@[i as int].1));
                        } else {
                            assert(before_renumber[p] != NONE);
                            let a = choose|a: int|
                                0 <= a < i && at_least_one((#[trigger] list@[a]).1) && upper(
                                    list@[a].0,
                                ) == p;
                            assert(at_least_one(list@[a].1));
                        }
                    }
                    assert forall|k: u64| #[trigger] tri@.dom().contains(k) implies exists|a: int|
                        0 <= a < i + 1 && at_least_one((#[trigger] list@[a]).1)
                            && renumber@[upper(list@[a].0) as int] != NONE && key_of(
                            renumber@[upper(list@[a].0) as int],
                            lower(list@[a].0),
                        ) == k by {
                        if k == moved {
                            assert(at_least_one(list@[i as int].1));
                        } else {
                            assert(before_tri.dom().contains(k));
                            let a = choose|a: int|
                                0 <= a < i && at_least_one((#[trigger] list@[a]).1)
                                    && before_renumber[upper(list@[a].0) as int] != NONE && key_of(
                                    before_renumber[upper(list@[a].0) as int],
                                    lower(list@[a].0),
                                ) == k;
                            assert(at_least_one(list@[a].1));
                            assert(start.tri@.contains_pair(list@[a].0, list@[a].1));
                            assert(start.tri@.dom().contains(list@[a].0));
                            assert(renumber@[upper(list@[a].0) as int]
                                == before_renumber[upper(list@[a].0) as int]);
                        }
                    }
                }
            }
            i = i + 1;
        }
        proof {
            lemma_distinct_below(origin, m as int);
        }
        let kept = Self::kept_pairs(&self.pairs, &renumber, Ghost(m as int));
        self.tri = tri;
        self.pair_total = totals;
        self.pair_types = types;
        self.pairs = kept;
        proof {
            self.tri.lemma_len();
            self.pairs.lemma_len();
            assert forall|q: int| 0 <= q < self.pair_types@.len() implies
                #[trigger] self.pair_types@[q] < u32::MAX by {
                assert(0 <= origin[q] < m);
                assert(start.pair_types@[origin[q]] < u32::MAX);
            }
            assert forall|k: u64| #[trigger] self.tri@.dom().contains(k) implies upper(k)
                < origin.len() && exists|j: u64| #[trigger]
                start.tri@.dom().contains(j) && lower(j) == lower(k) by {
                let a = choose|a: int|
                    0 <= a < list@.len() && at_least_one((#[trigger] list@[a]).1)
                        && renumber@[upper(list@[a].0) as int] != NONE && key_of(
                        renumber@[upper(list@[a].0) as int],
                        lower(list@[a].0),
                    ) == k;
                assert(start.tri@.contains_pair(list@[a].0, list@[a].1));
                assert(start.tri@.dom().contains(list@[a].0));
                lemma_key(renumber@[upper(list@[a].0) as int], lower(list@[a].0));
            }
            assert forall|q: u32| q < origin.len() implies #[trigger] self.has_index(q) by {
                let p = origin[q as int] as u32;
                assert(0 <= origin[q as int] < m);
                assert(start.has_index(p));
                let k = choose|k: u64| #[trigger]
                    start.pairs@.dom().contains(k) && start.pairs@[k] == p;
                assert(self.pairs@.dom().contains(k));
            }
            assert forall|k: u64, l: u64|
                #![trigger self.pairs@[k], self.pairs@[l]]
                self.pairs@.dom().contains(k) && self.pairs@.dom().contains(l) && self.pairs@[k]
                    == self.pairs@[l] implies k == l by {
                let p = start.pairs@[k];
                let q = start.pairs@[l];
                assert(renumber@[p as int] == renumber@[q as int]);
                assert(origin[renumber@[p as int] as int] == p);
                assert(origin[renumber@[q as int] as int] == q);
            }
            assert forall|u: u32, v: u32, w: u32| u != NONE implies #[trigger] self.trigram(u, v, w)
                == (match start.trigram(u, v, w) {
                Some(bits) => if at_least_one(bits) {
                    Some(bits)
                } else {
                    None
                },
                None => None,
            }) by {
                let k = key_of(u, v);
                lemma_key(u, v);
                if start.pairs@.dom().contains(k) {
                    let p = start.pairs@[k];
                    let t = key_of(p, w);
                    lemma_key(p, w);
                    if start.tri@.dom().contains(t) {
                        let a = choose|a: int| 0 <= a < list@.len() && list@[a].0 == t;
                        assert(start.tri@.contains_pair(list@[a].0, list@[a].1));
                    }
                    if renumber@[p as int] != NONE {
                        let q = renumber@[p as int];
                        lemma_key(q, w);
                        if self.tri@.dom().contains(key_of(q, w)) {
                            let a = choose|a: int|
                                0 <= a < list@.len() && at_least_one((#[trigger] list@[a]).1)
                                    && renumber@[upper(list@[a].0) as int] != NONE && key_of(
                                    renumber@[upper(list@[a].0) as int],
                                    lower(list@[a].0),
                                ) == key_of(q, w);
                            let other = list@[a].0;
                            assert(start.tri@.contains_pair(list@[a].0, list@[a].1));
                            assert(start.tri@.dom().contains(other));
                            lemma_key(renumber@[upper(other) as int], lower(other));
                            assert(origin[q as int] == p);
                            assert(origin[q as int] == upper(other));
                            lemma_halves(other);
                            assert(other == t);
                        }
                    }
                }
            }
            assert forall|u: u32, v: u32| u != NONE implies #[trigger] self.stats(u, v) == (
            if start.pair_kept(u, v) {
                start.stats(u, v)
            } else {
                None
            }) by {
                let k = key_of(u, v);
                lemma_key(u, v);
                if start.pairs@.dom().contains(k) {
                    let p = start.pairs@[k];
                    if start.pair_kept(u, v) {
                        let w = choose|w: u32|
                            #![trigger start.trigram(u, v, w)]
                            start.trigram(u, v, w) matches Some(bits) && at_least_one(bits);
                        let t = key_of(p, w);
                        lemma_key(p, w);
                        let a = choose|a: int| 0 <= a < list@.len() && list@[a].0 == t;
                        assert(start.tri@.contains_pair(list@[a].0, list@[a].1));
                        assert(renumber@[p as int] != NONE);
                        assert(origin[renumber@[p as int] as int] == p);
                    } else if renumber@[p as int] != NONE {
                        let a = choose|a: int|
                            0 <= a < list@.len() && at_least_one((#[trigger] list@[a]).1) && upper(
                                list@[a].0,
                            ) == p;
                        let t = list@[a].0;
                        assert(start.tri@.contains_pair(list@[a].0, list@[a].1));
                        lemma_halves(t);
                        assert(start.trigram(u, v, lower(t)) == Some(list@[a].1));
                    }
                }
            }
        }
    }

    /// The pairs that have a new index, under that index.
    fn kept_pairs(pairs: &IdTable<u32>, renumber: &Vec<u32>, Ghost(m): Ghost<int>) -> (out: IdTable<
        u32,
    >)
        requires
            pairs.wf(),
            43 * (pairs@.dom().len() + 12) <= usize::MAX,
            renumber@.len() == m,
            forall|k: u64| #[trigger] pairs@.dom().contains(k) ==> k != EMPTY_KEY && pairs@[k] < m,
        ensures
            out.wf(),
            out@.dom().len() <= pairs@.dom().len(),
            forall|k: u64| #[trigger]
                out@.dom().contains(k) <==> pairs@.dom().contains(k) && renumber@[pairs@[k] as int]
                    != NONE,
            forall|k: u64|
                out@.dom().contains(k) ==> #[trigger] out@[k] == renumber@[pairs@[k] as int],
    {
        let list = pairs.iter();
        let mut out: IdTable<u32> = IdTable::with_capacity(pairs.len());
        proof {
            out.lemma_len();
        }
        let mut i: usize = 0;
        while i < list.len()
            invariant
                pairs.wf(),
                43 * (list@.len() + 12) <= usize::MAX,
                renumber@.len() == m,
                forall|k: u64| #[trigger]
                    pairs@.dom().contains(k) ==> k != EMPTY_KEY && pairs@[k] < m,
                forall|a: int|
                    0 <= a < list@.len() ==> pairs@.contains_pair(
                        (#[trigger] list@[a]).0,
                        list@[a].1,
                    ),
                i <= list@.len(),
                out.wf(),
                out@.dom().finite(),
                out@.dom().len() <= i,
                forall|a: int|
                    0 <= a < i && renumber@[(#[trigger] list@[a]).1 as int] != NONE
                        ==> out@.dom().contains(list@[a].0),
                forall|k: u64| #[trigger]
                    out@.dom().contains(k) ==> pairs@.dom().contains(k)
                        && renumber@[pairs@[k] as int] != NONE,
                forall|k: u64|
                    out@.dom().contains(k) ==> #[trigger] out@[k] == renumber@[pairs@[k] as int],
            decreases list@.len() - i,
        {
            let (key, pair) = list[i];
            assert(pairs@.contains_pair(list@[i as int].0, list@[i as int].1));
            assert(pairs@.dom().contains(key));
            if renumber[pair as usize] != NONE {
                let ghost before = out@;
                let (cell, fresh) = out.entry(key);
                *cell = renumber[pair as usize];
                proof {
                    assert(out@ == before.insert(key, renumber@[pair as int]));
                    assert(out@.dom() =~= before.dom().insert(key));
                }
            }
            i = i + 1;
        }
        proof {
            assert forall|k: u64|
                pairs@.dom().contains(k) && renumber@[pairs@[k] as int] != NONE implies
                #[trigger] out@.dom().contains(k) by {
                let a = choose|a: int| 0 <= a < list@.len() && list@[a].0 == k;
                assert(pairs@.contains_pair(list@[a].0, list@[a].1));
            }
        }
        out
    }
}

} // verus!
