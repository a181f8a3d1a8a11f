//! Recent-prompt word counts (a topic cache).

use crate::ngram::order::{
    lemma_lt_irreflexive, lemma_lt_transitive, lemma_prefix_not_before, lemma_prefix_search, lemma_sorted_ascends,
    lemma_text_total, prefix_block, sorted_texts, starts_with, text_less, text_lt, text_starts,
};
use crate::ngram::vocab::Vocab;
use vstd::prelude::*;
use vstd::utf8::encode_utf8;

verus! {

/// How often `id` occurs in `ids`.
pub open spec fn occurrences(ids: Seq<u32>, id: u32) -> nat
    decreases ids.len(),
{
    if ids.len() == 0 {
        0
    } else {
        occurrences(ids.drop_last(), id) + if ids.last() == id {
            1nat
        } else {
            0nat
        }
    }
}

/// The ids of each prompt.
pub open spec fn prompt_ids(prompts: Seq<Vec<u32>>) -> Seq<Seq<u32>> {
    prompts.map_values(|p: Vec<u32>| p@)
}

/// How often `id` occurs in all the prompts.
pub open spec fn total_occurrences(prompts: Seq<Seq<u32>>, id: u32) -> nat
    decreases prompts.len(),
{
    if prompts.len() == 0 {
        0
    } else {
        total_occurrences(prompts.drop_last(), id) + occurrences(prompts.last(), id)
    }
}

/// How many ids the prompts hold together.
pub open spec fn total_len(prompts: Seq<Seq<u32>>) -> nat
    decreases prompts.len(),
{
    if prompts.len() == 0 {
        0
    } else {
        total_len(prompts.drop_last()) + prompts.last().len()
    }
}

/// The count listed for `id`, 0 when it is not listed.
pub open spec fn listed(sorted: Seq<(u32, u32)>, id: u32) -> nat
    decreases sorted.len(),
{
    if sorted.len() == 0 {
        0
    } else if sorted.last().0 == id {
        sorted.last().1 as nat
    } else {
        listed(sorted.drop_last(), id)
    }
}

/// The words of the listed ids.
pub open spec fn listed_texts(sorted: Seq<(u32, u32)>, words: Seq<Seq<char>>) -> Seq<Seq<char>> {
    sorted.map_values(|p: (u32, u32)| words[p.0 as int])
}

/// Listed ids are words with a count, in byte order.
pub open spec fn list_ok(sorted: Seq<(u32, u32)>, words: Seq<Seq<char>>) -> bool {
    &&& forall|k: int|
        0 <= k < sorted.len() ==> (#[trigger] sorted[k]).0 < words.len() && sorted[k].1 > 0
    &&& sorted_texts(listed_texts(sorted, words))
}

proof fn lemma_listed_at(sorted: Seq<(u32, u32)>, words: Seq<Seq<char>>, k: int)
    requires
        list_ok(sorted, words),
        0 <= k < sorted.len(),
    ensures
        listed(sorted, sorted[k].0) == sorted[k].1,
    decreases sorted.len(),
{
    let all = listed_texts(sorted, words);
    if k < sorted.len() - 1 {
        let last = sorted.len() - 1;
        assert(text_lt(all[k], all[last]));
        if sorted[k].0 == sorted[last].0 {
            lemma_lt_irreflexive(encode_utf8(all[k]), 0);
        }
        let head = sorted.drop_last();
        assert(listed_texts(head, words) =~= all.drop_last());
        assert forall|i: int| 0 <= i < head.len() implies (#[trigger] head[i]).0 < words.len()
            && head[i].1 > 0 by {
            assert(head[i] == sorted[i]);
        }
        assert(list_ok(head, words)) by {
            let low = listed_texts(head, words);
            assert forall|i: int, j: int|
                #![trigger low[i], low[j]]
                0 <= i < j < low.len() implies text_lt(low[i], low[j]) by {
                assert(low[i] == all[i] && low[j] == all[j]);
            }
        }
        lemma_listed_at(head, words, k);
        assert(head[k] == sorted[k]);
    }
}

proof fn lemma_not_listed(sorted: Seq<(u32, u32)>, id: u32)
    requires
        forall|k: int| 0 <= k < sorted.len() ==> (#[trigger] sorted[k]).0 != id,
    ensures
        listed(sorted, id) == 0,
    decreases sorted.len(),
{
    if sorted.len() > 0 {
        assert(sorted[sorted.len() - 1].0 != id);
        let head = sorted.drop_last();
        assert forall|k: int| 0 <= k < head.len() implies (#[trigger] head[k]).0 != id by {
            assert(head[k] == sorted[k]);
        }
        lemma_not_listed(head, id);
    }
}

/// A list whose counts are those of the prompts names every id of theirs.
proof fn lemma_listed_find(sorted: Seq<(u32, u32)>, id: u32) -> (k: int)
    requires
        listed(sorted, id) > 0,
    ensures
        0 <= k < sorted.len(),
        sorted[k].0 == id,
        sorted[k].1 == listed(sorted, id),
    decreases sorted.len(),
{
    if sorted.last().0 == id {
        sorted.len() - 1
    } else {
        let k = lemma_listed_find(sorted.drop_last(), id);
        assert(sorted.drop_last()[k] == sorted[k]);
        k
    }
}

/// Recent-prompt word counts (a topic cache).
pub struct Session {
    /// Word ids of each recent prompt, oldest first.
    pub prompts: Vec<Vec<u32>>,
    /// `(id, count)` sorted by word.
    pub sorted: Vec<(u32, u32)>,
}

impl Session {
    /// The counts are those of the prompts, sorted by word.
    pub open spec fn wf(&self, words: Seq<Seq<char>>) -> bool {
        &&& list_ok(self.sorted@, words)
        &&& forall|id: u32| #[trigger]
            listed(self.sorted@, id) == total_occurrences(prompt_ids(self.prompts@), id)
    }

    /// No prompts yet.
    pub fn new() -> (s: Session)
        ensures
            s.prompts@.len() == 0,
            forall|words: Seq<Seq<char>>| s.wf(words),
    {
        let s = Session { prompts: Vec::new(), sorted: Vec::new() };
        assert(prompt_ids(s.prompts@) =~= Seq::<Seq<u32>>::empty());
        s
    }

    /// First listed position whose word does not come before that of `id`.
    fn position(sorted: &Vec<(u32, u32)>, vocab: &Vocab, word: &str) -> (at: usize)
        requires
            list_ok(sorted@, vocab.words()),
        ensures
            at <= sorted@.len(),
            forall|k: int|
                0 <= k < at ==> text_lt(#[trigger] listed_texts(sorted@, vocab.words())[k], word@),
            forall|k: int|
                at <= k < sorted@.len() ==> !text_lt(
                    #[trigger] listed_texts(sorted@, vocab.words())[k],
                    word@,
                ),
    {
        let ghost all = listed_texts(sorted@, vocab.words());
        let mut lo: usize = 0;
        let mut hi: usize = sorted.len();
        while lo < hi
            invariant
                list_ok(sorted@, vocab.words()),
                all == listed_texts(sorted@, vocab.words()),
                lo <= hi <= sorted@.len(),
                forall|k: int| 0 <= k < lo ==> text_lt(#[trigger] all[k], word@),
                forall|k: int| hi <= k < all.len() ==> !text_lt(#[trigger] all[k], word@),
            decreases hi - lo,
        {
            let mid: usize = lo + (hi - lo) / 2;
            let id: u32 = sorted[mid].0;
            assert(sorted@[mid as int].0 < vocab.words().len());
            assert(all[mid as int] == vocab.words()[id as int]);
            if text_less(vocab.word(id), word) {
                assert forall|k: int| 0 <= k < mid + 1 implies text_lt(#[trigger] all[k], word@) by {
                    if k < mid {
                        lemma_lt_transitive(
                            encode_utf8(all[k]),
                            encode_utf8(all[mid as int]),
                            encode_utf8(word@),
                            0,
                        );
                    }
                }
                lo = mid + 1;
            } else {
                assert forall|k: int| mid <= k < all.len() implies !text_lt(
                    #[trigger] all[k],
                    word@,
                ) by {
                    if k > mid && text_lt(all[k], word@) {
                        lemma_lt_transitive(
                            encode_utf8(all[mid as int]),
                            encode_utf8(all[k]),
                            encode_utf8(word@),
                            0,
                        );
                    }
                }
                hi = mid;
            }
        }
        lo
    }

    /// Counts one more `id`.
    fn raise(sorted: &mut Vec<(u32, u32)>, vocab: &Vocab, id: u32)
        requires
            list_ok(old(sorted)@, vocab.words()),
            id < vocab.words().len(),
            listed(old(sorted)@, id) < u32::MAX,
            vocab.wf(),
        ensures
            list_ok(final(sorted)@, vocab.words()),
            forall|x: u32| #[trigger]
                listed(final(sorted)@, x) == listed(old(sorted)@, x) + (if x == id {
                    1nat
                } else {
                    0nat
                }),
    {
        let ghost before = sorted@;
        let ghost words = vocab.words();
        let ghost all = listed_texts(before, words);
        let ghost w = words[id as int];
        let at = Session::position(sorted, vocab, vocab.word(id));
        if at < sorted.len() && sorted[at].0 == id {
            let n: u32 = sorted[at].1;
            proof {
                lemma_listed_at(before, words, at as int);
            }
            sorted.set(at, (id, n + 1));
            let ghost after = sorted@;
            proof {
                assert(listed_texts(after, words) =~= all);
                assert forall|k: int| 0 <= k < after.len() implies (#[trigger] after[k]).0
                    < words.len() && after[k].1 > 0 by {
                    assert(before[k].0 < words.len());
                }
                assert forall|x: u32| #[trigger]
                    listed(after, x) == listed(before, x) + (if x == id {
                    1nat
                } else {
                    0nat
                }) by {
                    lemma_listed_same(before, after, words, at as int, x);
                }
            }
        } else {
            sorted.insert(at, (id, 1));
            let ghost after = sorted@;
            proof {
                vocab.law_vocab_order();
                assert(listed_texts(after, words) =~= all.insert(at as int, w));
                assert forall|k: int| 0 <= k < after.len() implies (#[trigger] after[k]).0
                    < words.len() && after[k].1 > 0 by {
                    if k < at {
                        assert(after[k] == before[k]);
                    } else if k > at {
                        assert(after[k] == before[k - 1]);
                    }
                }
                assert forall|k: int| 0 <= k < before.len() implies (#[trigger] before[k]).0
                    != id by {
                    if before[k].0 == id {
                        assert(all[k] == w);
                        lemma_lt_irreflexive(encode_utf8(w), 0);
                        assert(k >= at);
                        if k > at {
                            assert(text_lt(all[at as int], all[k]));
                        }
                    }
                }
                let now = listed_texts(after, words);
                assert forall|i: int, j: int|
                    #![trigger now[i], now[j]]
                    0 <= i < j < now.len() implies text_lt(now[i], now[j]) by {
                    if j == at {
                        assert(now[i] == all[i]);
                    } else if i == at {
                        assert(now[j] == all[j - 1]);
                        assert(before[j - 1].0 != id);
                        assert(before[j - 1].0 < words.len());
                        assert(words[before[j - 1].0 as int] != w) by {
                            let o = before[j - 1].0 as int;
                            if o < id {
                                assert(words[o] != words[id as int]);
                            } else {
                                assert(words[id as int] != words[o]);
                            }
                        }
                        lemma_text_total(w, all[j - 1]);
                    } else {
                        let a = if i < at {
                            i
                        } else {
                            i - 1
                        };
                        let b = if j < at {
                            j
                        } else {
                            j - 1
                        };
                        assert(now[i] == all[a] && now[j] == all[b]);
                    }
                }
                assert forall|x: u32| #[trigger]
                    listed(after, x) == listed(before, x) + (if x == id {
                    1nat
                } else {
                    0nat
                }) by {
                    lemma_listed_insert(before, after, words, at as int, id, x);
                }
            }
        }
    }

    /// Counts one `id` less.
    fn lower(sorted: &mut Vec<(u32, u32)>, vocab: &Vocab, id: u32)
        requires
            list_ok(old(sorted)@, vocab.words()),
            id < vocab.words().len(),
            listed(old(sorted)@, id) > 0,
        ensures
            list_ok(final(sorted)@, vocab.words()),
            forall|x: u32| #[trigger]
                listed(final(sorted)@, x) == listed(old(sorted)@, x) - (if x == id {
                    1int
                } else {
                    0int
                }),
    {
        let ghost before = sorted@;
        let ghost words = vocab.words();
        let ghost all = listed_texts(before, words);
        let at = Session::position(sorted, vocab, vocab.word(id));
        let ghost k0 = lemma_listed_find(before, id);
        proof {
            let w = words[id as int];
            assert(all[k0] == w);
            lemma_lt_irreflexive(encode_utf8(w), 0);
            assert(k0 >= at);
            if k0 > at {
                assert(text_lt(all[at as int], all[k0]));
            }
            lemma_listed_at(before, words, at as int);
        }
        let n: u32 = sorted[at].1;
        if n > 1 {
            sorted.set(at, (id, n - 1));
            let ghost after = sorted@;
            proof {
                assert(listed_texts(after, words) =~= all);
                assert forall|k: int| 0 <= k < after.len() implies (#[trigger] after[k]).0
                    < words.len() && after[k].1 > 0 by {
                    assert(before[k].0 < words.len());
                }
                assert forall|x: u32| #[trigger]
                    listed(after, x) == listed(before, x) - (if x == id {
                    1int
                } else {
                    0int
                }) by {
                    lemma_listed_same(before, after, words, at as int, x);
                }
            }
        } else {
            sorted.remove(at);
            let ghost after = sorted@;
            proof {
                assert(after.insert(at as int, (id, 1)) =~= before);
                assert(listed_texts(after, words) =~= all.remove(at as int));
                assert forall|k: int| 0 <= k < after.len() implies (#[trigger] after[k]).0
                    < words.len() && after[k].1 > 0 by {
                    if k < at {
                        assert(after[k] == before[k]);
                    } else {
                        assert(after[k] == before[k + 1]);
                    }
                }
                let now = listed_texts(after, words);
                assert forall|i: int, j: int|
                    #![trigger now[i], now[j]]
                    0 <= i < j < now.len() implies text_lt(now[i], now[j]) by {
                    let a = if i < at {
                        i
                    } else {
                        i + 1
                    };
                    let b = if j < at {
                        j
                    } else {
                        j + 1
                    };
                    assert(now[i] == all[a] && now[j] == all[b]);
                }
                assert forall|x: u32| #[trigger]
                    listed(after, x) == listed(before, x) - (if x == id {
                    1int
                } else {
                    0int
                }) by {
                    lemma_listed_insert(after, before, words, at as int, id, x);
                }
            }
        }
    }

    /// Adds the words of one prompt and forgets the oldest prompts beyond
    /// `capacity`.
    pub fn push(&mut self, words: Vec<u32>, capacity: usize, vocab: &Vocab)
        requires
            vocab.wf(),
            old(self).wf(vocab.words()),
            forall|k: int| 0 <= k < words@.len() ==> #[trigger] words@[k] < vocab.words().len(),
            total_len(prompt_ids(old(self).prompts@)) + words@.len() < u32::MAX,
        ensures
            final(self).wf(vocab.words()),
            prompt_ids(final(self).prompts@) == newest(
                prompt_ids(old(self).prompts@),
                words@,
                capacity as int,
            ),
    {
        let ghost old_prompts = prompt_ids(self.prompts@);
        if capacity == 0 {
            return;
        }
        let ghost start = self.sorted@;
        proof {
            assert forall|id: u32| total_occurrences(old_prompts, id) <= total_len(old_prompts) by {
                lemma_occurrences_bound(old_prompts, id);
            }
        }
        let mut i: usize = 0;
        assert(words@.take(0) =~= Seq::<u32>::empty());
        while i < words.len()
            invariant
                i <= words@.len(),
                vocab.wf(),
                forall|k: int| 0 <= k < words@.len() ==> #[trigger] words@[k] < vocab.words().len(),
                self.prompts@ == old(self).prompts@,
                old_prompts == prompt_ids(old(self).prompts@),
                list_ok(self.sorted@, vocab.words()),
                total_len(old_prompts) + words@.len() < u32::MAX,
                forall|id: u32| total_occurrences(old_prompts, id) <= total_len(old_prompts),
                forall|id: u32| #[trigger]
                    listed(self.sorted@, id) == total_occurrences(old_prompts, id) + occurrences(
                        words@.take(i as int),
                        id,
                    ),
            decreases words@.len() - i,
        {
            let ghost prior = self.sorted@;
            let id: u32 = words[i];
            proof {
                lemma_occurrences_len(words@.take(i as int), id);
                assert(total_occurrences(old_prompts, id) <= total_len(old_prompts));
            }
            Session::raise(&mut self.sorted, vocab, id);
            proof {
                assert(words@.take(i + 1).drop_last() =~= words@.take(i as int));
                assert(words@.take(i + 1).last() == id);
            }
            i = i + 1;
        }
        assert(words@.take(i as int) =~= words@);
        let ghost fresh = words@;
        self.prompts.push(words);
        let ghost grown = old_prompts.push(fresh);
        proof {
            assert(prompt_ids(self.prompts@) =~= grown);
            assert(grown.drop_last() =~= old_prompts);
        }
        while self.prompts.len() > capacity
            invariant
                vocab.wf(),
                capacity > 0,
                self.wf(vocab.words()),
                newest_of(prompt_ids(self.prompts@), capacity as int) == newest_of(
                    grown,
                    capacity as int,
                ),
            decreases self.prompts@.len(),
        {
            let ghost current = prompt_ids(self.prompts@);
            let gone = self.prompts.remove(0);
            let ghost rest = prompt_ids(self.prompts@);
            proof {
                assert(gone@ == current[0]);
                assert(rest =~= current.drop_first());
                assert forall|id: u32|
                    total_occurrences(current, id) == occurrences(gone@, id) + total_occurrences(
                    rest,
                    id,
                ) by {
                    lemma_occurrences_first(current, id);
                }
            }
            let mut j: usize = 0;
            assert(gone@.take(0) =~= Seq::<u32>::empty());
            while j < gone.len()
                invariant
                    j <= gone@.len(),
                    vocab.wf(),
                    list_ok(self.sorted@, vocab.words()),
                    prompt_ids(self.prompts@) == rest,
                    forall|id: u32|
                        total_occurrences(current, id) == occurrences(gone@, id)
                            + total_occurrences(rest, id),
                    forall|id: u32| #[trigger]
                        listed(self.sorted@, id) == total_occurrences(current, id) - occurrences(
                            gone@.take(j as int),
                            id,
                        ),
                decreases gone@.len() - j,
            {
                let id: u32 = gone[j];
                proof {
                    assert(gone@.take(j + 1).drop_last() =~= gone@.take(j as int));
                    assert(gone@.take(j + 1).last() == id);
                    lemma_occurrences_prefix(gone@, j + 1, id);
                    assert(listed(self.sorted@, id) > 0);
                    let k = lemma_listed_find(self.sorted@, id);
                    assert(self.sorted@[k].0 < vocab.words().len());
                }
                Session::lower(&mut self.sorted, vocab, id);
                j = j + 1;
            }
            proof {
                assert(gone@.take(j as int) =~= gone@);
                assert(newest_of(rest, capacity as int) =~= newest_of(current, capacity as int));
            }
        }
        proof {
            assert(newest_of(prompt_ids(self.prompts@), capacity as int) =~= prompt_ids(
                self.prompts@,
            ));
        }
    }

    /// `(id, count)` of the session words starting with `prefix`.
    pub fn range(&self, prefix: &str, vocab: &Vocab) -> (r: &[(u32, u32)])
        requires
            self.wf(vocab.words()),
        ensures
            exists|lo: int, hi: int|
                #[trigger] prefix_block(
                    listed_texts(self.sorted@, vocab.words()),
                    prefix@,
                    lo,
                    hi,
                ) && r@ == self.sorted@.subrange(lo, hi),
    {
        let ghost all = listed_texts(self.sorted@, vocab.words());
        let lo = Session::position(&self.sorted, vocab, prefix);
        let mut a: usize = lo;
        let mut b: usize = self.sorted.len();
        proof {
            assert forall|i: int| 0 <= i < lo implies !starts_with(#[trigger] all[i], prefix@) by {
                if starts_with(all[i], prefix@) {
                    lemma_prefix_not_before(encode_utf8(prefix@), encode_utf8(all[i]), 0);
                }
            }
        }
        while a < b
            invariant
                list_ok(self.sorted@, vocab.words()),
                all == listed_texts(self.sorted@, vocab.words()),
                lo <= a <= b <= self.sorted@.len(),
                forall|k: int| 0 <= k < lo ==> text_lt(#[trigger] all[k], prefix@),
                forall|k: int| lo <= k < all.len() ==> !text_lt(#[trigger] all[k], prefix@),
                forall|k: int| 0 <= k < lo ==> !starts_with(#[trigger] all[k], prefix@),
                forall|k: int| lo <= k < a ==> starts_with(#[trigger] all[k], prefix@),
                forall|k: int| b <= k < all.len() ==> !starts_with(#[trigger] all[k], prefix@),
            decreases b - a,
        {
            let mid: usize = a + (b - a) / 2;
            let id: u32 = self.sorted[mid].0;
            assert(self.sorted@[mid as int].0 < vocab.words().len());
            assert(all[mid as int] == vocab.words()[id as int]);
            proof {
                lemma_sorted_ascends(all);
                lemma_prefix_search(all, prefix@, lo as int, mid as int);
            }
            if text_starts(vocab.word(id), prefix) {
                a = mid + 1;
            } else {
                b = mid;
            }
        }
        assert(prefix_block(all, prefix@, lo as int, a as int));
        &self.sorted[lo..a]
    }
}

/// Each id renumbered.
pub open spec fn renumbered(ids: Seq<u32>, remap: Seq<u32>) -> Seq<u32> {
    ids.map_values(|id: u32| remap[id as int])
}

/// Each id of each prompt renumbered.
pub open spec fn renumbered_all(prompts: Seq<Seq<u32>>, remap: Seq<u32>) -> Seq<Seq<u32>> {
    prompts.map_values(|p: Seq<u32>| renumbered(p, remap))
}

/// `remap` gives each word of `old` another number and keeps the words apart.
pub open spec fn renumbers(remap: Seq<u32>, old: Seq<Seq<char>>, new: Seq<Seq<char>>) -> bool {
    &&& remap.len() == old.len()
    &&& old.len() == new.len()
    &&& forall|id: int|
        0 <= id < old.len() ==> (#[trigger] remap[id]) < new.len() && new[remap[id] as int]
            == old[id]
}

impl Session {
    /// Follows the words to their new numbers.
    pub(crate) fn remap(&mut self, remap: &Vec<u32>, Ghost(ws): Ghost<Seq<Seq<char>>>, after: &Vocab)
        requires
            ws.len() < u32::MAX,
            forall|i: int, j: int| 0 <= i < j < ws.len() ==> ws[i] != ws[j],
            old(self).wf(ws),
            renumbers(remap@, ws, after.words()),
            forall|p: int, k: int|
                0 <= p < old(self).prompts@.len() && 0 <= k < old(self).prompts@[p]@.len()
                    ==> #[trigger] old(self).prompts@[p]@[k] < ws.len(),
        ensures
            final(self).wf(after.words()),
            prompt_ids(final(self).prompts@) == renumbered_all(
                prompt_ids(old(self).prompts@),
                remap@,
            ),
    {
        let ghost start = prompt_ids(self.prompts@);
        let ghost list = self.sorted@;
        let ghost ns = after.words();
        let mut prompts: Vec<Vec<u32>> = Vec::new();
        let mut p: usize = 0;
        while p < self.prompts.len()
            invariant
                *self == *old(self),
                start == prompt_ids(self.prompts@),
                remap@.len() == ws.len(),
                forall|q: int, k: int|
                    0 <= q < self.prompts@.len() && 0 <= k < self.prompts@[q]@.len()
                        ==> #[trigger] self.prompts@[q]@[k] < ws.len(),
                p <= self.prompts@.len(),
                prompt_ids(prompts@) == renumbered_all(start.take(p as int), remap@),
            decreases self.prompts@.len() - p,
        {
            let mut ids: Vec<u32> = Vec::new();
            let mut k: usize = 0;
            while k < self.prompts[p].len()
                invariant
                    *self == *old(self),
                        remap@.len() == ws.len(),
                    p < self.prompts@.len(),
                    forall|q: int, k: int|
                        0 <= q < self.prompts@.len() && 0 <= k < self.prompts@[q]@.len()
                            ==> #[trigger] self.prompts@[q]@[k] < ws.len(),
                    k <= self.prompts@[p as int]@.len(),
                    ids@ == renumbered(self.prompts@[p as int]@.take(k as int), remap@),
                decreases self.prompts@[p as int]@.len() - k,
            {
                let id: u32 = self.prompts[p][k];
                assert(self.prompts@[p as int]@[k as int] < ws.len());
                ids.push(remap[id as usize]);
                assert(ids@ =~= renumbered(self.prompts@[p as int]@.take(k + 1), remap@));
                k = k + 1;
            }
            let ghost done = prompts@;
            assert(done.len() == p) by {
                assert(prompt_ids(done).len() == renumbered_all(start.take(p as int), remap@).len());
            }
            assert(self.prompts@[p as int]@.take(k as int) =~= start[p as int]);
            prompts.push(ids);
            assert(prompt_ids(prompts@) =~= renumbered_all(start.take(p + 1), remap@)) by {
                assert forall|q: int| 0 <= q < p + 1 implies prompt_ids(prompts@)[q]
                    == renumbered_all(start.take(p + 1), remap@)[q] by {
                    if q < p {
                        assert(prompt_ids(prompts@)[q] == prompt_ids(done)[q]);
                        assert(renumbered_all(start.take(p as int), remap@)[q] == renumbered(
                            start[q],
                            remap@,
                        ));
                    }
                }
            }
            p = p + 1;
        }
        assert(start.take(p as int) =~= start);
        let mut sorted: Vec<(u32, u32)> = Vec::new();
        let mut i: usize = 0;
        while i < self.sorted.len()
            invariant
                *self == *old(self),
                list == self.sorted@,
                remap@.len() == ws.len(),
                list_ok(list, ws),
                i <= list.len(),
                sorted@ == list.take(i as int).map_values(
                    |e: (u32, u32)| (remap@[e.0 as int], e.1),
                ),
            decreases list.len() - i,
        {
            let (id, n) = self.sorted[i];
            assert(list[i as int].0 < ws.len());
            sorted.push((remap[id as usize], n));
            assert(sorted@ =~= list.take(i + 1).map_values(
                |e: (u32, u32)| (remap@[e.0 as int], e.1),
            ));
            i = i + 1;
        }
        assert(list.take(i as int) =~= list);
        self.prompts = prompts;
        self.sorted = sorted;
        proof {
            let moved = list.map_values(|e: (u32, u32)| (remap@[e.0 as int], e.1));
            assert forall|k: int| 0 <= k < moved.len() implies (#[trigger] moved[k]).0 < ns.len()
                && moved[k].1 > 0 by {
                assert(list[k].0 < ws.len());
                assert(remap@[list[k].0 as int] < ns.len());
            }
            assert(listed_texts(moved, ns) =~= listed_texts(list, ws)) by {
                assert forall|k: int| 0 <= k < moved.len() implies listed_texts(moved, ns)[k]
                    == listed_texts(list, ws)[k] by {
                    assert(list[k].0 < ws.len());
                    assert(remap@[list[k].0 as int] < ns.len());
                }
            }
            assert forall|p: int, k: int|
                0 <= p < start.len() && 0 <= k < start[p].len() implies #[trigger] start[p][k]
                < ws.len() by {
                assert(old(self).prompts@[p]@[k] < ws.len());
            }
            let next = renumbered_all(start, remap@);
            assert forall|y: u32| #[trigger] listed(moved, y) == total_occurrences(next, y) by {
                if exists|x: u32| x < ws.len() && #[trigger] remap@[x as int] == y {
                    let x = choose|x: u32| x < ws.len() && #[trigger] remap@[x as int] == y;
                    lemma_listed_moved(list, remap@, ws, ns, x);
                    lemma_total_moved(start, remap@, ws, ns, x);
                    assert(listed(list, x) == total_occurrences(start, x));
                } else {
                    assert forall|k: int| 0 <= k < moved.len() implies (#[trigger] moved[k]).0
                        != y by {
                        assert(list[k].0 < ws.len());
                        assert(remap@[list[k].0 as int] != y);
                    }
                    lemma_not_listed(moved, y);
                    lemma_total_absent(start, remap@, ws.len() as int, y);
                }
            }
        }
    }
}

proof fn lemma_remap_injective(
    remap: Seq<u32>,
    ws: Seq<Seq<char>>,
    ns: Seq<Seq<char>>,
    x: u32,
    z: u32,
)
    requires
        renumbers(remap, ws, ns),
        forall|i: int, j: int| 0 <= i < j < ws.len() ==> ws[i] != ws[j],
        x < ws.len(),
        z < ws.len(),
        remap[x as int] == remap[z as int],
    ensures
        x == z,
{
    assert(remap[x as int] < ns.len() && remap[z as int] < ns.len());
    assert(ws[x as int] == ws[z as int]);
    if x < z {
        assert(ws[x as int] != ws[z as int]);
    } else if z < x {
        assert(ws[z as int] != ws[x as int]);
    }
}

proof fn lemma_listed_moved(
    list: Seq<(u32, u32)>,
    remap: Seq<u32>,
    ws: Seq<Seq<char>>,
    ns: Seq<Seq<char>>,
    x: u32,
)
    requires
        renumbers(remap, ws, ns),
        forall|i: int, j: int| 0 <= i < j < ws.len() ==> ws[i] != ws[j],
        forall|k: int| 0 <= k < list.len() ==> (#[trigger] list[k]).0 < ws.len(),
        x < ws.len(),
    ensures
        listed(list.map_values(|e: (u32, u32)| (remap[e.0 as int], e.1)), remap[x as int])
            == listed(list, x),
    decreases list.len(),
{
    let moved = list.map_values(|e: (u32, u32)| (remap[e.0 as int], e.1));
    if list.len() > 0 {
        let head = list.drop_last();
        assert forall|k: int| 0 <= k < head.len() implies (#[trigger] head[k]).0 < ws.len() by {
            assert(head[k] == list[k]);
        }
        lemma_listed_moved(head, remap, ws, ns, x);
        assert(moved.drop_last() =~= head.map_values(
            |e: (u32, u32)| (remap[e.0 as int], e.1),
        ));
        assert(list[list.len() - 1].0 < ws.len());
        if moved.last().0 == remap[x as int] {
            lemma_remap_injective(remap, ws, ns, x, list.last().0);
        }
    }
}

proof fn lemma_occurrences_moved(
    ids: Seq<u32>,
    remap: Seq<u32>,
    ws: Seq<Seq<char>>,
    ns: Seq<Seq<char>>,
    x: u32,
)
    requires
        renumbers(remap, ws, ns),
        forall|i: int, j: int| 0 <= i < j < ws.len() ==> ws[i] != ws[j],
        forall|k: int| 0 <= k < ids.len() ==> #[trigger] ids[k] < ws.len(),
        x < ws.len(),
    ensures
        occurrences(renumbered(ids, remap), remap[x as int]) == occurrences(ids, x),
    decreases ids.len(),
{
    if ids.len() > 0 {
        lemma_occurrences_moved(ids.drop_last(), remap, ws, ns, x);
        assert(renumbered(ids, remap).drop_last() =~= renumbered(ids.drop_last(), remap));
        assert(ids[ids.len() - 1] < ws.len());
        if remap[ids.last() as int] == remap[x as int] {
            lemma_remap_injective(remap, ws, ns, x, ids.last());
        }
    }
}

proof fn lemma_total_moved(
    prompts: Seq<Seq<u32>>,
    remap: Seq<u32>,
    ws: Seq<Seq<char>>,
    ns: Seq<Seq<char>>,
    x: u32,
)
    requires
        renumbers(remap, ws, ns),
        forall|i: int, j: int| 0 <= i < j < ws.len() ==> ws[i] != ws[j],
        forall|p: int, k: int|
            0 <= p < prompts.len() && 0 <= k < prompts[p].len() ==> #[trigger] prompts[p][k]
                < ws.len(),
        x < ws.len(),
    ensures
        total_occurrences(renumbered_all(prompts, remap), remap[x as int]) == total_occurrences(
            prompts,
            x,
        ),
    decreases prompts.len(),
{
    if prompts.len() > 0 {
        let head = prompts.drop_last();
        assert forall|p: int, k: int|
            0 <= p < head.len() && 0 <= k < head[p].len() implies #[trigger] head[p][k]
            < ws.len() by {
            assert(prompts[p][k] < ws.len());
        }
        lemma_total_moved(head, remap, ws, ns, x);
        assert(renumbered_all(prompts, remap).drop_last() =~= renumbered_all(head, remap));
        let last = prompts.len() - 1;
        assert forall|k: int| 0 <= k < prompts.last().len() implies #[trigger] prompts.last()[k]
            < ws.len() by {
            assert(prompts[last][k] < ws.len());
        }
        lemma_occurrences_moved(prompts.last(), remap, ws, ns, x);
    }
}

proof fn lemma_occurrences_absent(ids: Seq<u32>, remap: Seq<u32>, n: int, y: u32)
    requires
        forall|k: int| 0 <= k < ids.len() ==> #[trigger] ids[k] < n,
        forall|x: u32| x < n ==> #[trigger] remap[x as int] != y,
    ensures
        occurrences(renumbered(ids, remap), y) == 0,
    decreases ids.len(),
{
    if ids.len() > 0 {
        lemma_occurrences_absent(ids.drop_last(), remap, n, y);
        assert(renumbered(ids, remap).drop_last() =~= renumbered(ids.drop_last(), remap));
        assert(ids[ids.len() - 1] < n);
        assert(remap[ids.last() as int] != y);
    }
}

proof fn lemma_total_absent(prompts: Seq<Seq<u32>>, remap: Seq<u32>, n: int, y: u32)
    requires
        forall|p: int, k: int|
            0 <= p < prompts.len() && 0 <= k < prompts[p].len() ==> #[trigger] prompts[p][k] < n,
        forall|x: u32| x < n ==> #[trigger] remap[x as int] != y,
    ensures
        total_occurrences(renumbered_all(prompts, remap), y) == 0,
    decreases prompts.len(),
{
    if prompts.len() > 0 {
        let head = prompts.drop_last();
        assert forall|p: int, k: int|
            0 <= p < head.len() && 0 <= k < head[p].len() implies #[trigger] head[p][k] < n by {
            assert(prompts[p][k] < n);
        }
        lemma_total_absent(head, remap, n, y);
        assert(renumbered_all(prompts, remap).drop_last() =~= renumbered_all(head, remap));
        let last = prompts.len() - 1;
        assert forall|k: int| 0 <= k < prompts.last().len() implies #[trigger] prompts.last()[k]
            < n by {
            assert(prompts[last][k] < n);
        }
        lemma_occurrences_absent(prompts.last(), remap, n, y);
    }
}

/// A list stays in order when words are added behind the known ones.
pub proof fn lemma_list_widens(
    sorted: Seq<(u32, u32)>,
    words: Seq<Seq<char>>,
    more: Seq<Seq<char>>,
)
    requires
        list_ok(sorted, words),
        words.len() <= more.len(),
        forall|i: int| 0 <= i < words.len() ==> #[trigger] more[i] == words[i],
    ensures
        list_ok(sorted, more),
{
    assert forall|k: int| 0 <= k < sorted.len() implies (#[trigger] sorted[k]).0 < more.len()
        && sorted[k].1 > 0 by {
        assert(sorted[k].0 < words.len());
    }
    assert(listed_texts(sorted, more) =~= listed_texts(sorted, words)) by {
        assert forall|k: int| 0 <= k < sorted.len() implies more[(#[trigger] sorted[k]).0 as int]
            == words[sorted[k].0 as int] by {
            assert(sorted[k].0 < words.len());
        }
    }
}

/// The last `capacity` of `prompts`.
pub open spec fn newest_of(prompts: Seq<Seq<u32>>, capacity: int) -> Seq<Seq<u32>> {
    if prompts.len() > capacity {
        prompts.skip(prompts.len() - capacity)
    } else {
        prompts
    }
}

/// What a session holds after one more prompt.
pub open spec fn newest(prompts: Seq<Seq<u32>>, words: Seq<u32>, capacity: int) -> Seq<Seq<u32>> {
    if capacity == 0 {
        prompts
    } else {
        newest_of(prompts.push(words), capacity)
    }
}

proof fn lemma_occurrences_len(ids: Seq<u32>, id: u32)
    ensures
        occurrences(ids, id) <= ids.len(),
    decreases ids.len(),
{
    if ids.len() > 0 {
        lemma_occurrences_len(ids.drop_last(), id);
    }
}

proof fn lemma_occurrences_bound(prompts: Seq<Seq<u32>>, id: u32)
    ensures
        total_occurrences(prompts, id) <= total_len(prompts),
    decreases prompts.len(),
{
    if prompts.len() > 0 {
        lemma_occurrences_bound(prompts.drop_last(), id);
        lemma_occurrences_len(prompts.last(), id);
    }
}

proof fn lemma_occurrences_prefix(ids: Seq<u32>, k: int, id: u32)
    requires
        0 <= k <= ids.len(),
    ensures
        occurrences(ids.take(k), id) <= occurrences(ids, id),
    decreases ids.len(),
{
    if k < ids.len() {
        lemma_occurrences_prefix(ids.drop_last(), k, id);
        assert(ids.drop_last().take(k) =~= ids.take(k));
    } else {
        assert(ids.take(k) =~= ids);
    }
}

proof fn lemma_occurrences_first(prompts: Seq<Seq<u32>>, id: u32)
    requires
        prompts.len() > 0,
    ensures
        total_occurrences(prompts, id) == occurrences(prompts[0], id) + total_occurrences(
            prompts.drop_first(),
            id,
        ),
    decreases prompts.len(),
{
    let rest = prompts.drop_first();
    if prompts.len() == 1 {
        assert(prompts.drop_last() =~= Seq::<Seq<u32>>::empty());
        assert(rest =~= Seq::<Seq<u32>>::empty());
    } else {
        lemma_occurrences_first(prompts.drop_last(), id);
        assert(prompts.drop_last().drop_first() =~= rest.drop_last());
    }
}

proof fn lemma_listed_same(
    before: Seq<(u32, u32)>,
    after: Seq<(u32, u32)>,
    words: Seq<Seq<char>>,
    at: int,
    x: u32,
)
    requires
        list_ok(before, words),
        0 <= at < before.len(),
        after.len() == before.len(),
        after[at].0 == before[at].0,
        forall|k: int| 0 <= k < before.len() && k != at ==> #[trigger] after[k] == before[k],
    ensures
        x == before[at].0 ==> listed(after, x) == after[at].1 && listed(before, x) == before[at].1,
        x != before[at].0 ==> listed(after, x) == listed(before, x),
    decreases before.len(),
{
    let last = before.len() - 1;
    let bh = before.drop_last();
    let ah = after.drop_last();
    let all = listed_texts(before, words);
    if at == last {
        assert(ah =~= bh);
    } else {
        assert(after[last] == before[last]);
        assert(text_lt(all[at], all[last]));
        if before[at].0 == before[last].0 {
            lemma_lt_irreflexive(encode_utf8(all[at]), 0);
        }
        assert(list_ok(bh, words)) by {
            let low = listed_texts(bh, words);
            assert forall|i: int, j: int|
                #![trigger low[i], low[j]]
                0 <= i < j < low.len() implies text_lt(low[i], low[j]) by {
                assert(low[i] == all[i] && low[j] == all[j]);
            }
            assert forall|i: int| 0 <= i < bh.len() implies (#[trigger] bh[i]).0 < words.len()
                && bh[i].1 > 0 by {
                assert(bh[i] == before[i]);
            }
        }
        assert forall|k: int| 0 <= k < bh.len() && k != at implies #[trigger] ah[k] == bh[k] by {
            assert(after[k] == before[k]);
        }
        lemma_listed_same(bh, ah, words, at, x);
    }
}

proof fn lemma_listed_insert(
    before: Seq<(u32, u32)>,
    after: Seq<(u32, u32)>,
    words: Seq<Seq<char>>,
    at: int,
    id: u32,
    x: u32,
)
    requires
        0 <= at <= before.len(),
        after == before.insert(at, (id, 1)),
        list_ok(after, words),
    ensures
        listed(after, x) == listed(before, x) + (if x == id {
            1nat
        } else {
            0nat
        }),
    decreases before.len(),
{
    let all = listed_texts(after, words);
    let last = after.len() - 1;
    if at == before.len() {
        assert(after.drop_last() =~= before);
        if x == id {
            assert forall|k: int| 0 <= k < before.len() implies (#[trigger] before[k]).0 != id by {
                assert(after[k] == before[k]);
                assert(text_lt(all[k], all[last]));
                if before[k].0 == id {
                    lemma_lt_irreflexive(encode_utf8(all[k]), 0);
                }
            }
            lemma_not_listed(before, id);
        }
    } else {
        let bh = before.drop_last();
        let ah = after.drop_last();
        assert(ah =~= bh.insert(at, (id, 1)));
        assert(after.last() == before.last());
        assert(list_ok(ah, words)) by {
            let low = listed_texts(ah, words);
            assert forall|i: int, j: int|
                #![trigger low[i], low[j]]
                0 <= i < j < low.len() implies text_lt(low[i], low[j]) by {
                assert(low[i] == all[i] && low[j] == all[j]);
            }
            assert forall|i: int| 0 <= i < ah.len() implies (#[trigger] ah[i]).0 < words.len()
                && ah[i].1 > 0 by {
                assert(ah[i] == after[i]);
            }
        }
        lemma_listed_insert(bh, ah, words, at, id, x);
        assert(text_lt(all[at], all[last]));
        assert(after[at] == (id, 1u32));
        if after[last].0 == id {
            lemma_lt_irreflexive(encode_utf8(all[at]), 0);
        }
    }
}

} // verus!
