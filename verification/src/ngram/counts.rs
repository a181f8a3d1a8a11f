//! Where the weighted counts of the n-gram engine live.
//!
//! A counted word touches one cell of each table that has a place for it. The
//! cells are floating-point bit patterns: [`Counts::read`] hands them out,
//! and [`Counts::store`] files them back once they are added up.

use crate::ngram::candidates::above_zero;
use crate::ngram::follower_table::{permutation, FollowerTable};
use crate::ngram::lexicon::NONE;
use crate::ngram::pair_table::PairTable;
use crate::ngram::tail_table::{form_count, form_place, with_form, TailTable};
use vstd::prelude::*;

verus! {

/// The pattern is that of zero or of a number above it.
pub open spec fn sound_count(bits: u32) -> bool {
    bits == 0 || above_zero(bits)
}

/// One counted word with its left context.
pub struct Event {
    /// The word before `v`; counted only together with `v`.
    pub u: Option<u32>,
    /// The word before.
    pub v: Option<u32>,
    pub w: u32,
    /// The word's casing, when it is not the plain one.
    pub tail: Option<String>,
}

/// An event with its text as characters.
#[verifier::ext_equal]
pub struct EventView {
    pub u: Option<u32>,
    pub v: Option<u32>,
    pub w: u32,
    pub tail: Option<Seq<char>>,
}

impl View for Event {
    type V = EventView;

    open spec fn view(&self) -> EventView {
        EventView {
            u: self.u,
            v: self.v,
            w: self.w,
            tail: match self.tail {
                Some(t) => Some(t@),
                None => None,
            },
        }
    }
}

impl EventView {
    /// Every id is below `n`.
    pub open spec fn ids_below(&self, n: int) -> bool {
        &&& self.w < n
        &&& self.u matches Some(u) ==> u < n
        &&& self.v matches Some(v) ==> v < n
    }
}

/// The cells an event counts in; zero where there is none yet.
#[derive(Clone, Copy, Debug, PartialEq, Eq, Structural)]
pub struct Cells {
    /// Sum over all words.
    pub total: u64,
    /// The word's own count.
    pub count: u32,
    /// The count of its casing.
    pub tail: u32,
    /// The count after `v`.
    pub follower: u32,
    /// Sum after `v`.
    pub follower_total: u64,
    /// The count after `u` and `v`.
    pub trigram: u32,
    /// Sum after `u` and `v`.
    pub pair_total: u32,
}

/// The value, or zero.
pub open spec fn or_zero(bits: Option<u32>) -> u32 {
    match bits {
        Some(b) => b,
        None => 0,
    }
}

/// The tables of counts.
pub struct Counts {
    /// Sum of weighted counts.
    pub total: u64,
    /// Weighted count per id.
    pub count: Vec<u32>,
    pub followers: FollowerTable,
    pub pairs: PairTable,
    /// Non-plain case tails (`aPI`, `pRs`).
    pub tails: TailTable,
}

impl Counts {
    /// Every table speaks of the same words.
    pub open spec fn wf(&self) -> bool {
        let n = self.count@.len() as int;
        &&& n < NONE
        &&& self.followers.wf()
        &&& self.followers.ctx_slot@.len() == n
        &&& self.pairs.wf()
        &&& self.pairs.ids_below(n)
        &&& self.tails.wf()
        &&& self.tails.ids_below(n)
    }

    /// Every word's count is zero or a number above it.
    pub open spec fn sound(&self) -> bool {
        forall|i: int| 0 <= i < self.count@.len() ==> sound_count(#[trigger] self.count@[i])
    }

    /// The cells of an event.
    pub open spec fn cells(&self, e: EventView) -> Cells {
        Cells {
            total: self.total,
            count: self.count@[e.w as int],
            tail: match e.tail {
                Some(t) => or_zero(form_count(self.tails.forms_of(e.w), t)),
                None => 0,
            },
            follower: match e.v {
                Some(v) => or_zero(self.followers.follower(v, e.w)),
                None => 0,
            },
            follower_total: match e.v {
                Some(v) => match self.followers.total_of(v) {
                    Some(t) => t,
                    None => 0,
                },
                None => 0,
            },
            trigram: match (e.u, e.v) {
                (Some(u), Some(v)) => or_zero(self.pairs.trigram(u, v, e.w)),
                _ => 0,
            },
            pair_total: match (e.u, e.v) {
                (Some(u), Some(v)) => match self.pairs.stats(u, v) {
                    Some(s) => s.0,
                    None => 0,
                },
                _ => 0,
            },
        }
    }

    /// Nothing counted of `n` words.
    pub fn new(n: usize) -> (c: Counts)
        requires
            n < NONE,
        ensures
            c.wf(),
            c.total == 0,
            c.count@ == Seq::new(n as nat, |i: int| 0u32),
            c.pairs.has_room(),
            forall|v: u32, w: u32| v < n ==> #[trigger] c.followers.follower(v, w) is None,
            forall|v: u32| v < n ==> #[trigger] c.followers.total_of(v) is None,
            forall|u: u32, v: u32, w: u32| #[trigger] c.pairs.trigram(u, v, w) is None,
            forall|u: u32, v: u32| #[trigger] c.pairs.stats(u, v) is None,
            forall|id: u32| #[trigger] c.tails.forms_of(id).len() == 0,
    {
        let count: Vec<u32> = vec![0u32; n];
        assert(count@ =~= Seq::new(n as nat, |i: int| 0u32));
        Counts {
            total: 0,
            count,
            followers: FollowerTable::new(n),
            pairs: PairTable::new(),
            tails: TailTable::new(),
        }
    }

    /// One more word, not counted yet.
    pub fn add_word(&mut self)
        requires
            old(self).wf(),
            old(self).count@.len() + 1 < NONE,
        ensures
            final(self).wf(),
            final(self).total == old(self).total,
            final(self).count@ == old(self).count@.push(0),
            final(self).pairs == old(self).pairs,
            final(self).tails == old(self).tails,
            forall|v: u32, w: u32|
                v < old(self).count@.len() ==> #[trigger] final(self).followers.follower(v, w)
                    == old(self).followers.follower(v, w),
            forall|v: u32|
                v < old(self).count@.len() ==> #[trigger] final(self).followers.total_of(v) == old(
                    self).followers.total_of(v),
            final(self).followers.total_of(old(self).count@.len() as u32) is None,
            forall|w: u32| #[trigger]
                final(self).followers.follower(old(self).count@.len() as u32, w) is None,
    {
        let ghost start = *self;
        self.count.push(0);
        self.followers.add_word();
        proof {
            let n = start.count@.len() as int;
            assert forall|k: u64| #[trigger] self.pairs.pairs@.dom().contains(k) implies
                crate::ngram::pair_table::upper(k) < n + 1 && crate::ngram::pair_table::lower(k) < n
                + 1 by {
                assert(start.pairs.ids_below(n));
            }
            assert(self.pairs.ids_below(n + 1));
            assert forall|k: int| 0 <= k < self.tails.ids.ids@.len() implies
                #[trigger] self.tails.ids.ids@[k] < n + 1 by {
                assert(start.tails.ids.ids@[k] < n);
            }
        }
    }

    /// The cells of an event.
    pub fn read(&self, e: &Event) -> (c: Cells)
        requires
            self.wf(),
            e@.ids_below(self.count@.len() as int),
        ensures
            c == self.cells(e@),
    {
        let tail: u32 = match &e.tail {
            Some(t) => match self.tails.get(e.w, t.as_str()) {
                Some(b) => b,
                None => 0,
            },
            None => 0,
        };
        let mut follower: u32 = 0;
        let mut follower_total: u64 = 0;
        let mut trigram: u32 = 0;
        let mut pair_total: u32 = 0;
        if let Some(v) = e.v {
            if let Some(b) = self.followers.get(v, e.w) {
                follower = b;
            }
            if let Some(list) = self.followers.list(v) {
                follower_total = list.total;
            }
            if let Some(u) = e.u {
                if let Some(b) = self.pairs.get(u, v, e.w) {
                    trigram = b;
                }
                if let Some(s) = self.pairs.context(u, v) {
                    pair_total = s.0;
                }
            }
        }
        Cells {
            total: self.total,
            count: self.count[e.w as usize],
            tail,
            follower,
            follower_total,
            trigram,
            pair_total,
        }
    }

    /// Files the cells of an event.
    pub fn store(&mut self, e: &Event, c: &Cells)
        requires
            old(self).wf(),
            old(self).pairs.has_room(),
            e@.ids_below(old(self).count@.len() as int),
        ensures
            final(self).wf(),
            stored(*old(self), *final(self), e@, *c),
            old(self).sound() && sound_count(c.count) ==> final(self).sound(),
    {
        let ghost start = *self;
        self.total = c.total;
        self.count.set(e.w as usize, c.count);
        if let Some(t) = &e.tail {
            self.tails.put(e.w, t.as_str(), c.tail);
            assert(self.tails.ids_below(self.count@.len() as int)) by {
                assert(start.tails.ids_below(self.count@.len() as int));
            }
        }
        if let Some(v) = e.v {
            self.followers.put(v, e.w, c.follower, c.follower_total);
            if let Some(u) = e.u {
                self.pairs.put(u, v, e.w, c.trigram, c.pair_total);
                assert(self.pairs.ids_below(self.count@.len() as int)) by {
                    assert(start.pairs.ids_below(self.count@.len() as int));
                }
            }
        }
    }

    /// Follows the words to their new ids.
    pub fn renumber(&mut self, remap: &Vec<u32>)
        requires
            old(self).wf(),
            old(self).pairs.has_room(),
            permutation(remap@, old(self).count@.len() as int),
        ensures
            final(self).wf(),
            final(self).pairs.has_room(),
            moved(*old(self), *final(self), remap@),
            old(self).sound() ==> final(self).sound(),
    {
        let n: usize = self.count.len();
        let ghost start = *self;
        let mut count: Vec<u32> = vec![0u32; n];
        let mut i: usize = 0;
        while i < n
            invariant
                *self == start,
                n == self.count@.len(),
                permutation(remap@, n as int),
                i <= n,
                count@.len() == n,
                forall|k: int| 0 <= k < i ==> count@[remap@[k] as int] == #[trigger] self.count@[k],
                self.sound() ==> forall|k: int| 0 <= k < n ==> sound_count(#[trigger] count@[k]),
            decreases n - i,
        {
            assert(remap@[i as int] < n);
            assert(self.sound() ==> sound_count(self.count@[i as int]));
            count.set(remap[i] as usize, self.count[i]);
            assert forall|k: int| 0 <= k < i + 1 implies count@[remap@[k] as int]
                == #[trigger] self.count@[k] by {
                if k < i {
                    assert(remap@[k] != remap@[i as int]);
                    assert(remap@[k] < n);
                }
            }
            i = i + 1;
        }
        self.count = count;
        self.followers.renumber(remap);
        self.pairs.renumber(remap);
        self.tails.renumber(remap);
        proof {
            assert forall|id: u32| id < n implies #[trigger] self.count@[remap@[id as int] as int]
                == start.count@[id as int] by {
                assert(count@[remap@[id as int] as int] == start.count@[id as int]);
            }
        }
    }
}

/// `after` is `before` with the cells of `e` set, and nothing else changed.
pub open spec fn stored(before: Counts, after: Counts, e: EventView, c: Cells) -> bool {
    &&& after.total == c.total
    &&& after.count@ == before.count@.update(e.w as int, c.count)
    &&& match e.tail {
        Some(t) => {
            &&& after.tails.forms_of(e.w) == with_form(before.tails.forms_of(e.w), t, c.tail)
            &&& forall|id: u32|
                id != e.w ==> #[trigger] after.tails.forms_of(id) == before.tails.forms_of(id)
        },
        None => after.tails == before.tails,
    }
    &&& match e.v {
        Some(v) => {
            &&& after.followers.follower(v, e.w) == Some(c.follower)
            &&& forall|a: u32, b: u32|
                a < before.count@.len() && (a != v || b != e.w)
                    ==> #[trigger] after.followers.follower(a, b) == before.followers.follower(
                    a,
                    b,
                )
            &&& after.followers.total_of(v) == Some(c.follower_total)
            &&& forall|a: u32|
                a < before.count@.len() && a != v ==> #[trigger] after.followers.total_of(a)
                    == before.followers.total_of(a)
        },
        None => after.followers == before.followers,
    }
    &&& match (e.u, e.v) {
        (Some(u), Some(v)) => {
            &&& after.pairs.trigram(u, v, e.w) == Some(c.trigram)
            &&& forall|a: u32, b: u32, w: u32|
                (a != u || b != v || w != e.w) ==> #[trigger] after.pairs.trigram(a, b, w)
                    == before.pairs.trigram(a, b, w)
            &&& after.pairs.stats(u, v) == Some(
                (
                    c.pair_total,
                    (match before.pairs.stats(u, v) {
                        Some(s) => if before.pairs.trigram(u, v, e.w) is Some {
                            s.1
                        } else {
                            (s.1 + 1) as u32
                        },
                        None => 1u32,
                    }),
                ),
            )
            &&& forall|a: u32, b: u32|
                (a != u || b != v) ==> #[trigger] after.pairs.stats(a, b) == before.pairs.stats(
                    a,
                    b,
                )
        },
        _ => after.pairs == before.pairs,
    }
}

/// `after` holds under each new id what `before` held under the old one.
pub open spec fn moved(before: Counts, after: Counts, remap: Seq<u32>) -> bool {
    let n = before.count@.len();
    &&& after.total == before.total
    &&& after.count@.len() == n
    &&& forall|id: u32|
        id < n ==> #[trigger] after.count@[remap[id as int] as int] == before.count@[id as int]
    &&& forall|v: u32, w: u32|
        v < n && w < n ==> #[trigger] after.followers.follower(remap[v as int], remap[w as int])
            == before.followers.follower(v, w)
    &&& forall|v: u32|
        v < n ==> #[trigger] after.followers.total_of(remap[v as int])
            == before.followers.total_of(v)
    &&& forall|u: u32, v: u32|
        u < n && v < n ==> #[trigger] after.pairs.stats(remap[u as int], remap[v as int])
            == before.pairs.stats(u, v)
    &&& forall|u: u32, v: u32, w: u32|
        u < n && v < n && w < n ==> #[trigger] after.pairs.trigram(
            remap[u as int],
            remap[v as int],
            remap[w as int],
        ) == before.pairs.trigram(u, v, w)
    &&& forall|id: u32|
        id < n ==> #[trigger] after.tails.forms_of(remap[id as int]) == before.tails.forms_of(id)
}

/// Storing an event's cells and reading them back gives the cells stored.
pub proof fn law_read_gives_back_what_was_stored(
    before: Counts,
    after: Counts,
    e: EventView,
    c: Cells,
)
    requires
        before.wf(),
        e.ids_below(before.count@.len() as int),
        stored(before, after, e, c),
    ensures
        after.cells(e).total == c.total,
        after.cells(e).count == c.count,
        e.tail is Some ==> after.cells(e).tail == c.tail,
        e.v is Some ==> after.cells(e).follower == c.follower && after.cells(e).follower_total
            == c.follower_total,
        e.u is Some && e.v is Some ==> after.cells(e).trigram == c.trigram
            && after.cells(e).pair_total == c.pair_total,
{
    if let Some(t) = e.tail {
        lemma_form_stored(before.tails.forms_of(e.w), t, c.tail);
    }
}

proof fn lemma_place(forms: Seq<(Seq<char>, u32)>, form: Seq<char>, at: int)
    requires
        0 <= at <= forms.len(),
    ensures
        at <= form_place(forms, form, at) <= forms.len(),
        form_place(forms, form, at) < forms.len()
            ==> forms[form_place(forms, form, at)].0 == form,
        forall|k: int|
            at <= k < form_place(forms, form, at) ==> (
            #[trigger] forms[k]).0 != form,
    decreases forms.len() - at,
{
    if at < forms.len() && forms[at].0 != form {
        lemma_place(forms, form, at + 1);
    }
}

proof fn lemma_form_stored(forms: Seq<(Seq<char>, u32)>, form: Seq<char>, bits: u32)
    ensures
        form_count(with_form(forms, form, bits), form) == Some(bits),
{
    let now = with_form(forms, form, bits);
    let at = form_place(forms, form, 0);
    lemma_place(forms, form, 0);
    lemma_place(now, form, 0);
    let to = form_place(now, form, 0);
    assert(now[at].0 == form);
    if to < at {
        assert(now[to] == forms[to]);
    }
}

} // verus!
