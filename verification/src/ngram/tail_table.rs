//! The casings words were seen in, with their counts.
//!
//! Counts are floating-point bit patterns, kept and moved but never added up
//! here.

use crate::ngram::follower_table::{lemma_ascending_index, permutation};
use crate::ngram::ranges::Followers;
use crate::unicode::same_text;
use vstd::prelude::*;

verus! {

/// Forms with their counts.
pub open spec fn forms_view(forms: Seq<(String, u32)>) -> Seq<(Seq<char>, u32)> {
    forms.map_values(|f: (String, u32)| (f.0@, f.1))
}

/// First place at or after `at` that holds `form`, or the end.
pub open spec fn form_place(forms: Seq<(Seq<char>, u32)>, form: Seq<char>, at: int) -> int
    decreases forms.len() - at,
{
    if at >= forms.len() || forms[at].0 == form {
        at
    } else {
        form_place(forms, form, at + 1)
    }
}

/// The count of `form`.
pub open spec fn form_count(forms: Seq<(Seq<char>, u32)>, form: Seq<char>) -> Option<u32> {
    let at = form_place(forms, form, 0);
    if 0 <= at < forms.len() {
        Some(forms[at].1)
    } else {
        None
    }
}

/// `form` counted `bits`, at the end when it is new.
pub open spec fn with_form(
    forms: Seq<(Seq<char>, u32)>,
    form: Seq<char>,
    bits: u32,
) -> Seq<(Seq<char>, u32)> {
    let at = form_place(forms, form, 0);
    if 0 <= at < forms.len() {
        forms.update(at, (form, bits))
    } else {
        forms.push((form, bits))
    }
}

/// Place of `form`, or the length.
fn find_form(forms: &Vec<(String, u32)>, form: &str) -> (at: usize)
    ensures
        at <= forms@.len(),
        at == form_place(forms_view(forms@), form@, 0),
        at < forms@.len() ==> forms@[at as int].0@ == form@,
{
    let ghost all = forms_view(forms@);
    let mut at: usize = 0;
    while at < forms.len()
        invariant
            all == forms_view(forms@),
            at <= forms@.len(),
            form_place(all, form@, 0) == form_place(all, form@, at as int),
        decreases forms@.len() - at,
    {
        assert(all[at as int].0 == forms@[at as int].0@);
        if same_text(forms[at].0.as_str(), form) {
            return at;
        }
        at = at + 1;
    }
    at
}

/// Casings by word.
pub struct TailTable {
    /// Words with casings of their own, ascending.
    pub ids: Followers,
    /// Their forms, parallel to the ids.
    pub forms: Vec<Vec<(String, u32)>>,
}

impl TailTable {
    /// One list of forms per word, words ascending.
    pub open spec fn wf(&self) -> bool {
        self.ids.wf() && self.forms@.len() == self.ids.ids@.len()
    }

    /// Every id is below `n`.
    pub open spec fn ids_below(&self, n: int) -> bool {
        forall|k: int| 0 <= k < self.ids.ids@.len() ==> #[trigger] self.ids.ids@[k] < n
    }

    /// The forms of `id` in the order they were first seen.
    pub open spec fn forms_of(&self, id: u32) -> Seq<(Seq<char>, u32)> {
        if self.ids.ids@.contains(id) {
            forms_view(self.forms@[self.ids.ids@.index_of(id)]@)
        } else {
            Seq::empty()
        }
    }

    /// No casings.
    pub fn new() -> (t: TailTable)
        ensures
            t.wf(),
            t.ids.ids@.len() == 0,
            forall|n: int| #[trigger] t.ids_below(n),
            forall|id: u32| #[trigger] t.forms_of(id) == Seq::<(Seq<char>, u32)>::empty(),
    {
        TailTable { ids: Followers::new(), forms: Vec::new() }
    }

    /// The forms of `id`.
    pub fn list(&self, id: u32) -> (forms: Option<&Vec<(String, u32)>>)
        requires
            self.wf(),
        ensures
            match forms {
                Some(f) => forms_view(f@) == self.forms_of(id),
                None => self.forms_of(id).len() == 0,
            },
    {
        match self.ids.position(id) {
            Some(at) => {
                proof {
                    lemma_ascending_index(self.ids.ids@, at as int);
                }
                Some(&self.forms[at])
            },
            None => None,
        }
    }

    /// The count of `form` of `id`.
    pub fn get(&self, id: u32, form: &str) -> (bits: Option<u32>)
        requires
            self.wf(),
        ensures
            bits == form_count(self.forms_of(id), form@),
    {
        match self.list(id) {
            Some(forms) => {
                let at = find_form(forms, form);
                if at < forms.len() {
                    Some(forms[at].1)
                } else {
                    None
                }
            },
            None => None,
        }
    }

    /// Sets the count of `form` of `id`.
    pub fn put(&mut self, id: u32, form: &str, bits: u32)
        requires
            old(self).wf(),
        ensures
            final(self).wf(),
            forall|n: int| #[trigger] old(self).ids_below(n) && id < n ==> final(self).ids_below(n),
            final(self).forms_of(id) == with_form(old(self).forms_of(id), form@, bits),
            forall|x: u32| x != id ==> #[trigger] final(self).forms_of(x) == old(self).forms_of(x),
    {
        let ghost start = *self;
        let (at, fresh) = self.ids.add(id);
        if fresh {
            self.forms.insert(at, Vec::new());
        }
        let ghost mid = *self;
        proof {
            Self::lemma_place_made(start, mid, at as int, id);
            lemma_ascending_index(mid.ids.ids@, at as int);
        }
        let ghost prior = forms_view(mid.forms@[at as int]@);
        let k = find_form(&self.forms[at], form);
        if k < self.forms[at].len() {
            self.forms[at][k].1 = bits;
            proof {
                assert(forms_view(self.forms@[at as int]@) =~= prior.update(k as int, (form@, bits)));
            }
        } else {
            let copy = form.to_owned();
            self.forms[at].push((copy, bits));
            proof {
                assert(forms_view(self.forms@[at as int]@) =~= prior.push((form@, bits)));
            }
        }
        proof {
            assert forall|x: u32| x != id implies #[trigger] self.forms_of(x) == start.forms_of(
                x,
            ) by {
                assert(mid.forms_of(x) == start.forms_of(x));
                if mid.ids.ids@.contains(x) {
                    let p = mid.ids.ids@.index_of(x);
                    assert(mid.ids.ids@[p] == x);
                    assert(p != at);
                }
            }
        }
    }

    /// Replaces the forms of `id`.
    pub fn replace(&mut self, id: u32, forms: Vec<(String, u32)>)
        requires
            old(self).wf(),
        ensures
            final(self).wf(),
            forall|n: int| #[trigger] old(self).ids_below(n) && id < n ==> final(self).ids_below(n),
            final(self).forms_of(id) == forms_view(forms@),
            forall|x: u32| x != id ==> #[trigger] final(self).forms_of(x) == old(self).forms_of(x),
    {
        let ghost start = *self;
        let (at, fresh) = self.ids.add(id);
        if fresh {
            self.forms.insert(at, Vec::new());
        }
        let ghost mid = *self;
        proof {
            Self::lemma_place_made(start, mid, at as int, id);
            lemma_ascending_index(mid.ids.ids@, at as int);
        }
        self.forms.set(at, forms);
        proof {
            assert forall|x: u32| x != id implies #[trigger] self.forms_of(x) == start.forms_of(
                x,
            ) by {
                assert(mid.forms_of(x) == start.forms_of(x));
                if mid.ids.ids@.contains(x) {
                    let p = mid.ids.ids@.index_of(x);
                    assert(mid.ids.ids@[p] == x);
                    assert(p != at);
                }
            }
        }
    }

    /// Making a place for a word leaves every word's forms as they were.
    proof fn lemma_place_made(start: TailTable, mid: TailTable, at: int, id: u32)
        requires
            start.wf(),
            mid.ids.wf(),
            0 <= at <= start.ids.ids@.len(),
            (mid.ids.ids@ == start.ids.ids@.insert(at, id) && mid.forms@.len()
                == start.forms@.len() + 1 && mid.forms@[at]@.len() == 0 && forall|k: int|
                0 <= k < start.forms@.len() ==> #[trigger] start.forms@[k] == mid.forms@[if k < at {
                    k
                } else {
                    k + 1
                }] && !start.ids.ids@.contains(id)) || (mid.ids.ids@ == start.ids.ids@ && mid.forms
                == start.forms && at < start.ids.ids@.len() && start.ids.ids@[at] == id),
        ensures
            mid.wf(),
            forall|n: int| #[trigger] start.ids_below(n) && id < n ==> mid.ids_below(n),
            forall|x: u32| #[trigger] mid.forms_of(x) == start.forms_of(x),
    {
        if mid.ids.ids@.len() != start.ids.ids@.len() {
            let a = start.ids.ids@;
            let b = mid.ids.ids@;
            assert(b[at] == id);
            assert forall|n: int| #[trigger] start.ids_below(n) && id < n implies mid.ids_below(
                n,
            ) by {
                assert forall|k: int| 0 <= k < b.len() implies #[trigger] b[k] < n by {
                    if k < at {
                        assert(b[k] == a[k]);
                    } else if k > at {
                        assert(b[k] == a[k - 1]);
                    }
                }
            }
            assert forall|x: u32| #[trigger] mid.forms_of(x) == start.forms_of(x) by {
                if a.contains(x) {
                    let k = a.index_of(x);
                    assert(a[k] == x);
                    let j = if k < at {
                        k
                    } else {
                        k + 1
                    };
                    assert(b[j] == x);
                    lemma_ascending_index(b, j);
                    assert(start.forms@[k] == mid.forms@[j]);
                } else if b.contains(x) {
                    let j = b.index_of(x);
                    assert(b[j] == x);
                    if j < at {
                        assert(a[j] == x);
                    } else if j > at {
                        assert(a[j - 1] == x);
                    }
                    assert(j == at);
                    assert(forms_view(mid.forms@[at]@) =~= Seq::empty());
                }
            }
        }
    }

    /// Follows the words to their new ids.
    pub fn renumber(&mut self, remap: &Vec<u32>)
        requires
            old(self).wf(),
            old(self).ids_below(remap@.len() as int),
            permutation(remap@, remap@.len() as int),
        ensures
            final(self).wf(),
            final(self).ids_below(remap@.len() as int),
            forall|id: u32|
                id < remap@.len() ==> #[trigger] final(self).forms_of(remap@[id as int]) == old(
                    self).forms_of(id),
    {
        let ghost start = *self;
        let ghost ids = start.ids.ids@;
        let ghost n = remap@.len() as int;
        let mut next = TailTable::new();
        while self.forms.len() > 0
            invariant
                start.wf(),
                ids == start.ids.ids@,
                n == remap@.len(),
                start.ids_below(n),
                permutation(remap@, n),
                self.ids == start.ids,
                self.forms@.len() <= ids.len(),
                self.forms@ == start.forms@.take(self.forms@.len() as int),
                next.wf(),
                next.ids_below(n),
                forall|k: int|
                    self.forms@.len() <= k < ids.len() ==> next.forms_of(
                        remap@[#[trigger] ids[k] as int],
                    ) == forms_view(start.forms@[k]@),
                forall|x: u32| #[trigger]
                    next.ids.ids@.contains(x) ==> exists|k: int|
                        self.forms@.len() <= k < ids.len() && remap@[#[trigger] ids[k] as int] == x,
            decreases self.forms@.len(),
        {
            let last: usize = self.forms.len() - 1;
            let ghost before = next;
            let id: u32 = self.ids.ids[last];
            assert(ids[last as int] < n);
            let moved: u32 = remap[id as usize];
            assert(!before.ids.ids@.contains(moved)) by {
                if before.ids.ids@.contains(moved) {
                    let k = choose|k: int|
                        last + 1 <= k < ids.len() && remap@[#[trigger] ids[k] as int] == moved;
                    assert(ids[last as int] < ids[k]);
                    assert(ids[k] < n);
                }
            }
            let forms = self.forms.pop();
            if let Some(list) = forms {
                assert(list == start.forms@[last as int]);
                let (at, fresh) = next.ids.add(moved);
                next.forms.insert(at, Vec::new());
                let ghost mid = next;
                proof {
                    Self::lemma_place_made(before, mid, at as int, moved);
                    lemma_ascending_index(mid.ids.ids@, at as int);
                }
                next.forms.set(at, list);
                proof {
                    assert forall|x: u32| x != moved implies #[trigger] next.forms_of(x)
                        == before.forms_of(x) by {
                        assert(mid.forms_of(x) == before.forms_of(x));
                        if mid.ids.ids@.contains(x) {
                            let p = mid.ids.ids@.index_of(x);
                            assert(mid.ids.ids@[p] == x);
                            assert(p != at);
                        }
                    }
                    assert(next.forms_of(moved) == forms_view(start.forms@[last as int]@));
                    assert forall|k: int| last <= k < ids.len() implies next.forms_of(
                        remap@[#[trigger] ids[k] as int],
                    ) == forms_view(start.forms@[k]@) by {
                        if k > last {
                            assert(ids[last as int] < ids[k]);
                            assert(ids[k] < n);
                            assert(remap@[ids[k] as int] != moved);
                        }
                    }
                    assert forall|x: u32| #[trigger] next.ids.ids@.contains(x) implies exists|k: int|
                        last <= k < ids.len() && remap@[#[trigger] ids[k] as int] == x by {
                        if x == moved {
                            assert(remap@[ids[last as int] as int] == x);
                        } else {
                            let j = choose|j: int|
                                0 <= j < next.ids.ids@.len() && next.ids.ids@[j] == x;
                            if j < at {
                                assert(before.ids.ids@[j] == x);
                            } else {
                                assert(before.ids.ids@[j - 1] == x);
                            }
                            assert(before.ids.ids@.contains(x));
                            let k = choose|k: int|
                                last + 1 <= k < ids.len() && remap@[#[trigger] ids[k] as int] == x;
                            assert(remap@[ids[k] as int] == x);
                        }
                    }
                }
            }
        }
        *self = next;
        proof {
            assert forall|id: u32| id < n implies #[trigger] self.forms_of(remap@[id as int])
                == start.forms_of(id) by {
                if ids.contains(id) {
                    let k = ids.index_of(id);
                    assert(ids[k] == id);
                } else if self.ids.ids@.contains(remap@[id as int]) {
                    let k = choose|k: int|
                        0 <= k < ids.len() && remap@[#[trigger] ids[k] as int]
                            == remap@[id as int];
                    assert(ids[k] < n);
                    assert(ids.contains(id));
                }
            }
        }
    }
}

} // verus!
