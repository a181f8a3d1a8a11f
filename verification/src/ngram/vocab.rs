//! Word ↔ id interning with lexicographic base ids.
//!
//! Ids below `base_len()` are byte-order ranks, so a prefix is one contiguous
//! id range. Words interned later get appended "overflow" ids, kept in a
//! sorted side list so prefix lookups stay binary searches;
//! [`Vocab::compacted`] folds them back into the sorted base.

use crate::ngram::order::{
    lemma_lt_irreflexive, lemma_lt_transitive, lemma_prefix_search, lemma_sorted_ascends, lemma_text_total, prefix_block,
    sorted_texts, starts_with, text_less, text_lt, text_starts,
};
use crate::ngram::probe::{
    lemma_id_range, lemma_shift_in_range, lemma_sized_base, lemma_sized_double, ring_distance,
    sized,
};
use crate::ngram::structures::{hash_str, text_hash};
use crate::unicode::same_text;
use vstd::prelude::*;
use vstd::set_lib::lemma_len_subset;
use vstd::utf8::encode_utf8;

verus! {

/// Marks a free slot; no word has this id.
pub const NO_ID: u32 = u32::MAX;

/// Most words a vocabulary can number.
pub open spec fn word_limit() -> int {
    if usize::MAX / 43 < 0x4000_0000 {
        usize::MAX as int / 43
    } else {
        0x4000_0000
    }
}

/// The texts of `words`.
pub open spec fn texts(words: Seq<String>) -> Seq<Seq<char>> {
    words.map_values(|w: String| w@)
}

spec fn home(word: Seq<char>, shift: u32) -> int {
    (text_hash(encode_utf8(word)) >> (shift as u64)) as int
}

spec fn distinct(words: Seq<Seq<char>>) -> bool {
    forall|i: int, j: int| 0 <= i < j < words.len() ==> words[i] != words[j]
}

/// The slots hold every id once, each where probing from its word's home slot
/// finds it, and leave room.
spec fn index_ok(words: Seq<Seq<char>>, index: Seq<u32>, shift: u32) -> bool {
    &&& sized(index.len(), shift)
    &&& 4 * words.len() <= 3 * index.len()
    &&& words.len() < NO_ID
    &&& forall|i: int|
        0 <= i < index.len() && #[trigger] index[i] != NO_ID ==> index[i] < words.len()
    &&& forall|i: int, j: int|
        0 <= i < index.len() && 0 <= j < index.len() && #[trigger] index[i] == #[trigger] index[j]
            && index[i] != NO_ID ==> i == j
    &&& forall|id: u32| id < words.len() ==> #[trigger] index.contains(id)
    &&& forall|i: int, j: int|
        0 <= i < index.len() && 0 <= j < index.len() && #[trigger] index[i] != NO_ID
            && ring_distance(home(words[index[i] as int], shift), j, index.len() as int)
            < ring_distance(
            home(words[index[i] as int], shift),
            i,
            index.len() as int,
        ) ==> #[trigger] index[j] != NO_ID
}

proof fn lemma_free_index(words: Seq<Seq<char>>, index: Seq<u32>, shift: u32) -> (e: int)
    requires
        index_ok(words, index, shift),
    ensures
        0 <= e < index.len(),
        index[e] == NO_ID,
{
    lemma_shift_in_range(0, index.len(), shift);
    if forall|i: int| 0 <= i < index.len() ==> #[trigger] index[i] != NO_ID {
        assert(index.no_duplicates());
        index.unique_seq_to_set();
        let ids = Set::new(|x: u32| 0 <= x < words.len());
        lemma_id_range(0, words.len() as int, ids);
        assert forall|x: u32| index.to_set().contains(x) implies ids.contains(x) by {
            let i = choose|i: int| 0 <= i < index.len() && index[i] == x;
            assert(index[i] != NO_ID);
        }
        lemma_len_subset(index.to_set(), ids);
        assert(false);
    }
    choose|i: int| 0 <= i < index.len() && #[trigger] index[i] == NO_ID
}

/// Slot holding the id of `word` among the first `count` words, or the free
/// slot where it would go.
fn find_slot(words: &Vec<String>, Ghost(count): Ghost<int>, index: &Vec<u32>, shift: u32, word: &str)
    -> (at: usize)
    requires
        0 <= count <= words@.len(),
        index_ok(texts(words@).take(count), index@, shift),
    ensures
        at < index@.len(),
        index@[at as int] != NO_ID ==> index@[at as int] < count && words@[index@[at as int] as int]@
            == word@,
        index@[at as int] == NO_ID ==> forall|k: int|
            0 <= k < count ==> #[trigger] words@[k]@ != word@,
        forall|j: int|
            0 <= j < index@.len() && ring_distance(
                home(word@, shift),
                j,
                index@.len() as int,
            ) < ring_distance(home(word@, shift), at as int, index@.len() as int)
                ==> #[trigger] index@[j] != NO_ID,
{
    let ghost part = texts(words@).take(count);
    let n: usize = index.len();
    let hash: u64 = hash_str(word);
    proof {
        lemma_shift_in_range(hash, index@.len(), shift);
    }
    let mut at: usize = (hash >> (shift as u64)) as usize;
    let ghost start = home(word@, shift);
    let ghost e = lemma_free_index(part, index@, shift);
    loop
        invariant
            0 <= count <= words@.len(),
            part == texts(words@).take(count),
            index_ok(part, index@, shift),
            n == index@.len(),
            at < n,
            0 <= start < n,
            start == home(word@, shift),
            0 <= e < n,
            index@[e] == NO_ID,
            ring_distance(start, at as int, n as int) <= ring_distance(start, e, n as int),
            forall|j: int|
                0 <= j < n && ring_distance(start, j, n as int) < ring_distance(
                    start,
                    at as int,
                    n as int,
                ) ==> #[trigger] index@[j] != NO_ID && words@[index@[j] as int]@ != word@,
        decreases ring_distance(start, e, n as int) - ring_distance(start, at as int, n as int),
    {
        let id: u32 = index[at];
        if id == NO_ID {
            assert forall|k: int| 0 <= k < count implies #[trigger] words@[k]@ != word@ by {
                if words@[k]@ == word@ {
                    assert(index@.contains(k as u32));
                    let i = choose|i: int| 0 <= i < index@.len() && index@[i] == k as u32;
                    assert(index@[i] != NO_ID);
                    assert(part[k] == word@);
                    assert(index@[at as int] == NO_ID);
                    assert(ring_distance(start, i, n as int) < ring_distance(
                        start,
                        at as int,
                        n as int,
                    ));
                }
            }
            return at;
        }
        if same_text(words[id as usize].as_str(), word) {
            return at;
        }
        assert(at != e);
        at = if at + 1 == n {
            0
        } else {
            at + 1
        };
    }
}

/// Enters word `id`, all smaller ids being in.
fn place(words: &Vec<String>, id: u32, index: &mut Vec<u32>, shift: u32)
    requires
        id < words@.len(),
        distinct(texts(words@)),
        index_ok(texts(words@).take(id as int), old(index)@, shift),
        4 * (id + 1) <= 3 * old(index)@.len(),
        id + 1 < NO_ID,
    ensures
        index_ok(texts(words@).take(id + 1), final(index)@, shift),
        final(index)@.len() == old(index)@.len(),
{
    let ghost part = texts(words@).take(id as int);
    let ghost more = texts(words@).take(id + 1);
    let ghost before = index@;
    let at = find_slot(words, Ghost(id as int), index, shift, words[id as usize].as_str());
    proof {
        if before[at as int] != NO_ID {
            let other = before[at as int] as int;
            assert(texts(words@)[other] == texts(words@)[id as int]);
        }
    }
    index.set(at, id);
    proof {
        let now = index@;
        assert(more[id as int] == words@[id as int]@);
        assert forall|k: int| 0 <= k < id implies more[k] == part[k] by {}
        assert forall|k: u32| k < more.len() implies #[trigger] now.contains(k) by {
            if k == id {
                assert(now[at as int] == k);
            } else {
                assert(before.contains(k));
                let i = choose|i: int| 0 <= i < before.len() && before[i] == k;
                assert(now[i] == k);
            }
        }
        assert forall|i: int, j: int|
            0 <= i < now.len() && 0 <= j < now.len() && #[trigger] now[i] != NO_ID && ring_distance(
                home(more[now[i] as int], shift),
                j,
                now.len() as int,
            ) < ring_distance(
                home(more[now[i] as int], shift),
                i,
                now.len() as int,
            ) implies #[trigger] now[j] != NO_ID by {
            if j != at {
                assert(now[j] == before[j]);
                if i != at {
                    assert(now[i] == before[i]);
                }
            }
        }
    }
}

/// The slots for all `words`.
fn build_index(words: &Vec<String>, slots: usize, shift: u32) -> (index: Vec<u32>)
    requires
        distinct(texts(words@)),
        sized(slots as nat, shift),
        4 * words@.len() <= 3 * slots,
        words@.len() < NO_ID,
    ensures
        index_ok(texts(words@), index@, shift),
        index@.len() == slots,
{
    let mut index: Vec<u32> = vec![NO_ID; slots];
    let n: usize = words.len();
    let mut id: usize = 0;
    assert(texts(words@).take(0) =~= Seq::<Seq<char>>::empty());
    while id < n
        invariant
            n == words@.len(),
            id <= n,
            distinct(texts(words@)),
            4 * words@.len() <= 3 * slots,
            words@.len() < NO_ID,
            index@.len() == slots,
            index_ok(texts(words@).take(id as int), index@, shift),
        decreases n - id,
    {
        place(words, id as u32, &mut index, shift);
        id = id + 1;
    }
    assert(texts(words@).take(id as int) =~= texts(words@));
    index
}

/// Interned words with an open-addressing string index.
pub struct Vocab {
    words: Vec<String>,
    base: usize,
    /// Overflow ids sorted by word.
    overflow: Vec<u32>,
    /// Hash slots holding ids (`NO_ID` = empty).
    index: Vec<u32>,
    shift: u32,
}

impl Vocab {
    /// Every word, by id.
    pub closed spec fn words(&self) -> Seq<Seq<char>> {
        texts(self.words@)
    }

    /// Number of sorted base words.
    pub closed spec fn base(&self) -> nat {
        self.base as nat
    }

    /// Overflow ids in the order of their words.
    pub closed spec fn overflow(&self) -> Seq<u32> {
        self.overflow@
    }

    /// The texts of the overflow ids, in their order.
    pub open spec fn overflow_texts(&self) -> Seq<Seq<char>> {
        self.overflow().map_values(|id: u32| self.words()[id as int])
    }

    spec fn slots_fit(&self) -> bool {
        16 * self.index@.len() <= usize::MAX + 1
    }

    /// No word occurs twice, the base is in byte order, the overflow list
    /// holds exactly the later ids in byte order of their words, and the slots
    /// find every word.
    pub closed spec fn wf(&self) -> bool {
        &&& distinct(self.words())
        &&& self.base <= self.words@.len()
        &&& sorted_texts(self.words().take(self.base as int))
        &&& self.overflow@.len() == self.words@.len() - self.base
        &&& forall|k: int|
            0 <= k < self.overflow@.len() ==> self.base <= #[trigger] self.overflow@[k]
                < self.words@.len()
        &&& sorted_texts(self.overflow_texts())
        &&& index_ok(self.words(), self.index@, self.shift)
        &&& self.slots_fit()
    }

    /// What every vocabulary keeps: no word occurs twice, the base is in byte
    /// order, and the overflow list holds each later id once, in byte order of
    /// the words.
    pub proof fn law_vocab_order(&self)
        requires
            self.wf(),
        ensures
            forall|i: int, j: int|
                0 <= i < j < self.words().len() ==> self.words()[i] != self.words()[j],
            self.base() <= self.words().len(),
            sorted_texts(self.words().take(self.base() as int)),
            sorted_texts(self.overflow_texts()),
            self.overflow().no_duplicates(),
            forall|id: u32|
                self.base() <= id < self.words().len() <==> #[trigger] self.overflow().contains(id),
    {
        let list = self.overflow@;
        let all = self.overflow_texts();
        assert forall|i: int, j: int| 0 <= i < j < list.len() implies list[i] != list[j] by {
            assert(text_lt(all[i], all[j]));
            if list[i] == list[j] {
                lemma_lt_irreflexive(encode_utf8(all[i]), 0);
            }
        }
        assert(list.no_duplicates());
        list.unique_seq_to_set();
        let base = self.base as int;
        let n = self.words@.len() as int;
        let ids = Set::new(|x: u32| base <= x < n);
        lemma_id_range(base, n, ids);
        assert(list.to_set().subset_of(ids)) by {
            assert forall|x: u32| list.to_set().contains(x) implies ids.contains(x) by {
                let k = choose|k: int| 0 <= k < list.len() && list[k] == x;
                assert(base <= list[k] < n);
            }
        }
        vstd::set_lib::lemma_subset_equality(list.to_set(), ids);
        assert forall|id: u32| base <= id < n <==> #[trigger] list.contains(id) by {
            assert(list.to_set().contains(id) == ids.contains(id));
        }
    }

    /// Vocabulary whose base is `sorted` (byte order, deduplicated).
    pub fn from_sorted(sorted: Vec<String>) -> (v: Vocab)
        requires
            sorted_texts(texts(sorted@)),
            sorted@.len() <= word_limit(),
        ensures
            v.wf(),
            v.words() == texts(sorted@),
            v.base() == sorted@.len(),
            v.overflow() == Seq::<u32>::empty(),
    {
        let n: usize = sorted.len();
        let mut slots: usize = 16;
        let mut shift: u32 = 60;
        proof {
            lemma_sized_base();
            assert forall|i: int, j: int| 0 <= i < j < texts(sorted@).len() implies texts(sorted@)[i]
                != texts(sorted@)[j] by {
                lemma_lt_irreflexive(encode_utf8(texts(sorted@)[i]), 0);
            }
        }
        while 4 * (n + 1) > 3 * slots
            invariant
                n <= word_limit(),
                sized(slots as nat, shift),
                3 * slots < 8 * (n + 1) + 48,
                16 * slots <= usize::MAX + 1,
            decreases
                    (if 4 * (n + 1) > 3 * slots {
                        4 * (n + 1) - 3 * slots
                    } else {
                        0
                    }),
        {
            proof {
                lemma_shift_room(slots as int, shift);
                lemma_sized_double(slots as nat, shift);
            }
            slots = slots * 2;
            shift = shift - 1;
        }
        let index = build_index(&sorted, slots, shift);
        let v = Vocab { words: sorted, base: n, overflow: Vec::new(), index, shift };
        assert(v.words().take(n as int) =~= v.words());
        v
    }

    /// Number of words.
    pub fn len(&self) -> (n: usize)
        ensures
            n == self.words().len(),
    {
        self.words.len()
    }

    /// Number of sorted base words.
    pub fn base_len(&self) -> (n: usize)
        ensures
            n == self.base(),
    {
        self.base
    }

    /// Number of overflow words.
    pub fn overflow_len(&self) -> (n: usize)
        ensures
            n == self.overflow().len(),
    {
        self.overflow.len()
    }

    /// Word of `id`.
    pub fn word(&self, id: u32) -> (w: &str)
        requires
            id < self.words().len(),
        ensures
            w@ == self.words()[id as int],
    {
        self.words[id as usize].as_str()
    }

    /// Id of `word`.
    pub fn find(&self, word: &str) -> (id: Option<u32>)
        requires
            self.wf(),
        ensures
            match id {
                Some(i) => i < self.words().len() && self.words()[i as int] == word@,
                None => !self.words().contains(word@),
            },
    {
        assert(texts(self.words@).take(self.words@.len() as int) =~= texts(self.words@));
        let at = find_slot(
            &self.words,
            Ghost(self.words@.len() as int),
            &self.index,
            self.shift,
            word,
        );
        let id: u32 = self.index[at];
        if id == NO_ID {
            assert forall|k: int| 0 <= k < self.words().len() implies self.words()[k] != word@ by {
                assert(self.words@[k]@ != word@);
            }
            None
        } else {
            Some(id)
        }
    }

    /// Id of `word`, appending it to the overflow region when new. The flag is
    /// true for a new word.
    pub fn intern(&mut self, word: &str) -> (r: (u32, bool))
        requires
            old(self).wf(),
            old(self).words().len() < word_limit(),
        ensures
            final(self).wf(),
            final(self).base() == old(self).base(),
            r.1 == !old(self).words().contains(word@),
            r.1 ==> final(self).words() == old(self).words().push(word@) && r.0
                == old(self).words().len(),
            !r.1 ==> *final(self) == *old(self),
            r.0 < final(self).words().len(),
            final(self).words()[r.0 as int] == word@,
    {
        if let Some(id) = self.find(word) {
            return (id, false);
        }
        let ghost before = *self;
        let ghost old_words = self.words();
        let ghost old_list = self.overflow@;
        let ghost old_texts = self.overflow_texts();
        let id: u32 = self.words.len() as u32;
        let at = self.overflow_point(word);
        self.words.push(word.to_owned());
        assert(self.words() =~= old_words.push(word@));
        assert(distinct(self.words())) by {
            assert forall|i: int, j: int| 0 <= i < j < self.words().len() implies self.words()[i]
                != self.words()[j] by {
                assert(old_words.contains(old_words[i]));
            }
        }
        let n: usize = self.words.len();
        let slots: usize = self.index.len();
        if 4 * (n + 1) > 3 * slots {
            proof {
                lemma_shift_room(slots as int, self.shift);
                lemma_sized_double(slots as nat, self.shift);
            }
            self.shift = self.shift - 1;
            self.index = build_index(&self.words, 2 * slots, self.shift);
        } else {
            assert(texts(self.words@).take(id as int) =~= old_words);
            place(&self.words, id, &mut self.index, self.shift);
            assert(texts(self.words@).take(id + 1) =~= texts(self.words@));
        }
        self.overflow.insert(at, id);
        proof {
            let list = self.overflow@;
            let all = self.overflow_texts();
            assert(self.words().take(self.base as int) =~= old_words.take(self.base as int));
            assert forall|k: int| 0 <= k < list.len() implies self.base <= #[trigger] list[k] < n by {
                if k < at {
                    assert(list[k] == old_list[k]);
                } else if k > at {
                    assert(list[k] == old_list[k - 1]);
                }
            }
            assert(all =~= old_texts.insert(at as int, word@)) by {
                assert forall|k: int| 0 <= k < all.len() implies all[k] == old_texts.insert(
                    at as int,
                    word@,
                )[k] by {
                    if k < at {
                        assert(list[k] == old_list[k]);
                        assert(old_list[k] < old_words.len());
                    } else if k > at {
                        assert(list[k] == old_list[k - 1]);
                        assert(old_list[k - 1] < old_words.len());
                    }
                }
            }
            assert(sorted_texts(all)) by {
                assert forall|i: int, j: int| 0 <= i < j < all.len() implies text_lt(
                    all[i],
                    all[j],
                ) by {
                    if j == at {
                        assert(all[i] == old_texts[i]);
                    } else if i == at {
                        assert(all[j] == old_texts[j - 1]);
                        let w = old_list[j - 1] as int;
                        assert(old_words.contains(old_words[w]));
                        lemma_text_total(word@, old_texts[j - 1]);
                    }
                }
            }
        }
        (id, true)
    }

    /// Where `word` belongs among the overflow ids.
    fn overflow_point(&self, word: &str) -> (at: usize)
        requires
            self.wf(),
        ensures
            at <= self.overflow@.len(),
            forall|k: int| 0 <= k < at ==> text_lt(#[trigger] self.overflow_texts()[k], word@),
            forall|k: int|
                at <= k < self.overflow@.len() ==> !text_lt(
                    #[trigger] self.overflow_texts()[k],
                    word@,
                ),
    {
        let ghost all = self.overflow_texts();
        let mut lo: usize = 0;
        let mut hi: usize = self.overflow.len();
        while lo < hi
            invariant
                self.wf(),
                all == self.overflow_texts(),
                lo <= hi <= self.overflow@.len(),
                forall|k: int| 0 <= k < lo ==> text_lt(#[trigger] all[k], word@),
                forall|k: int| hi <= k < all.len() ==> !text_lt(#[trigger] all[k], word@),
            decreases hi - lo,
        {
            let mid: usize = lo + (hi - lo) / 2;
            let id: u32 = self.overflow[mid];
            assert(all[mid as int] == self.words()[id as int]);
            if text_less(self.word(id), word) {
                assert forall|k: int| 0 <= k < mid + 1 implies text_lt(#[trigger] all[k], word@) by {
                    if k < mid {
                        lemma_lt_transitive(
                            encode_utf8(all[k]),
                            encode_utf8(all[mid as int]),
                            encode_utf8(word@),
                            0,
                        );
                    }
                }
                lo = mid + 1;
            } else {
                assert forall|k: int| mid <= k < all.len() implies !text_lt(
                    #[trigger] all[k],
                    word@,
                ) by {
                    if k > mid && text_lt(all[k], word@) {
                        lemma_lt_transitive(
                            encode_utf8(all[mid as int]),
                            encode_utf8(all[k]),
                            encode_utf8(word@),
                            0,
                        );
                    }
                }
                hi = mid;
            }
        }
        lo
    }

    /// Base id range `[lo, hi)` of the words starting with `prefix`.
    pub fn base_range(&self, prefix: &str) -> (r: (usize, usize))
        requires
            self.wf(),
        ensures
            prefix_block(
                self.words().take(self.base() as int),
                prefix@,
                r.0 as int,
                r.1 as int,
            ),
    {
        let ghost all = self.words().take(self.base as int);
        let mut lo: usize = 0;
        let mut hi: usize = self.base;
        while lo < hi
            invariant
                self.wf(),
                self.words@.len() < NO_ID,
                all == self.words().take(self.base as int),
                lo <= hi <= self.base,
                forall|k: int| 0 <= k < lo ==> text_lt(#[trigger] all[k], prefix@),
                forall|k: int| hi <= k < all.len() ==> !text_lt(#[trigger] all[k], prefix@),
            decreases hi - lo,
        {
            let mid: usize = lo + (hi - lo) / 2;
            assert(all[mid as int] == self.words()[mid as int]);
            if text_less(self.word(mid as u32), prefix) {
                assert forall|k: int| 0 <= k < mid + 1 implies text_lt(
                    #[trigger] all[k],
                    prefix@,
                ) by {
                    if k < mid {
                        lemma_lt_transitive(
                            encode_utf8(all[k]),
                            encode_utf8(all[mid as int]),
                            encode_utf8(prefix@),
                            0,
                        );
                    }
                }
                lo = mid + 1;
            } else {
                assert forall|k: int| mid <= k < all.len() implies !text_lt(
                    #[trigger] all[k],
                    prefix@,
                ) by {
                    if k > mid && text_lt(all[k], prefix@) {
                        lemma_lt_transitive(
                            encode_utf8(all[mid as int]),
                            encode_utf8(all[k]),
                            encode_utf8(prefix@),
                            0,
                        );
                    }
                }
                hi = mid;
            }
        }
        let mut a: usize = lo;
        let mut b: usize = self.base;
        proof {
            if lo < all.len() {
                lemma_sorted_ascends(all);
                lemma_prefix_search(all, prefix@, lo as int, lo as int);
            } else {
                assert forall|i: int| 0 <= i < lo implies !starts_with(
                    #[trigger] all[i],
                    prefix@,
                ) by {
                    if starts_with(all[i], prefix@) {
                        crate::ngram::order::lemma_prefix_not_before(
                            encode_utf8(prefix@),
                            encode_utf8(all[i]),
                            0,
                        );
                    }
                }
            }
        }
        while a < b
            invariant
                self.wf(),
                self.words@.len() < NO_ID,
                all == self.words().take(self.base as int),
                lo <= a <= b <= self.base,
                forall|k: int| 0 <= k < lo ==> text_lt(#[trigger] all[k], prefix@),
                forall|k: int| lo <= k < all.len() ==> !text_lt(#[trigger] all[k], prefix@),
                forall|k: int| 0 <= k < lo ==> !starts_with(#[trigger] all[k], prefix@),
                forall|k: int| lo <= k < a ==> starts_with(#[trigger] all[k], prefix@),
                forall|k: int| b <= k < all.len() ==> !starts_with(#[trigger] all[k], prefix@),
            decreases b - a,
        {
            let mid: usize = a + (b - a) / 2;
            assert(all[mid as int] == self.words()[mid as int]);
            proof {
                lemma_sorted_ascends(all);
                lemma_prefix_search(all, prefix@, lo as int, mid as int);
            }
            if text_starts(self.word(mid as u32), prefix) {
                a = mid + 1;
            } else {
                b = mid;
            }
        }
        (lo, a)
    }

    /// Overflow ids of the words starting with `prefix`, in the order of their
    /// words.
    pub fn overflow_range(&self, prefix: &str) -> (ids: &[u32])
        requires
            self.wf(),
        ensures
            exists|lo: int, hi: int|
                #[trigger] prefix_block(self.overflow_texts(), prefix@, lo, hi) && ids@
                    == self.overflow().subrange(lo, hi),
    {
        let ghost all = self.overflow_texts();
        let lo = self.overflow_point(prefix);
        let mut a: usize = lo;
        let mut b: usize = self.overflow.len();
        proof {
            if lo < all.len() {
                lemma_sorted_ascends(all);
                lemma_prefix_search(all, prefix@, lo as int, lo as int);
            } else {
                assert forall|i: int| 0 <= i < lo implies !starts_with(
                    #[trigger] all[i],
                    prefix@,
                ) by {
                    if starts_with(all[i], prefix@) {
                        crate::ngram::order::lemma_prefix_not_before(
                            encode_utf8(prefix@),
                            encode_utf8(all[i]),
                            0,
                        );
                    }
                }
            }
        }
        while a < b
            invariant
                self.wf(),
                all == self.overflow_texts(),
                lo <= a <= b <= self.overflow@.len(),
                forall|k: int| 0 <= k < lo ==> text_lt(#[trigger] all[k], prefix@),
                forall|k: int| lo <= k < all.len() ==> !text_lt(#[trigger] all[k], prefix@),
                forall|k: int| 0 <= k < lo ==> !starts_with(#[trigger] all[k], prefix@),
                forall|k: int| lo <= k < a ==> starts_with(#[trigger] all[k], prefix@),
                forall|k: int| b <= k < all.len() ==> !starts_with(#[trigger] all[k], prefix@),
            decreases b - a,
        {
            let mid: usize = a + (b - a) / 2;
            let id: u32 = self.overflow[mid];
            assert(all[mid as int] == self.words()[id as int]);
            proof {
                lemma_sorted_ascends(all);
                lemma_prefix_search(all, prefix@, lo as int, mid as int);
            }
            if text_starts(self.word(id), prefix) {
                a = mid + 1;
            } else {
                b = mid;
            }
        }
        assert(prefix_block(all, prefix@, lo as int, a as int));
        &self.overflow[lo..a]
    }
}

impl Vocab {
    /// This vocabulary with every word in the sorted base, plus the old-id →
    /// new-id map.
    pub fn compacted(&self) -> (r: (Vocab, Vec<u32>))
        requires
            self.wf(),
            self.words().len() <= word_limit(),
        ensures
            r.0.wf(),
            r.0.words().len() == self.words().len(),
            r.0.base() == self.words().len(),
            r.0.overflow() == Seq::<u32>::empty(),
            r.1@.len() == self.words().len(),
            forall|id: int|
                0 <= id < self.words().len() ==> (#[trigger] r.1@[id]) < r.0.words().len()
                    && r.0.words()[r.1@[id] as int] == self.words()[id],
    {
        let n: usize = self.words.len();
        let mut remap: Vec<u32> = vec![0u32; n];
        let mut next: Vec<String> = Vec::new();
        let mut a: usize = 0;
        let mut b: usize = 0;
        let ghost all = self.overflow_texts();
        let ghost ws = self.words();
        proof {
            self.law_vocab_order();
        }
        while a < self.base || b < self.overflow.len()
            invariant
                self.wf(),
                n == self.words@.len(),
                n <= word_limit(),
                a <= self.base,
                b <= self.overflow@.len(),
                ws == self.words(),
                all == self.overflow_texts(),
                self.overflow@.no_duplicates(),
                sorted_texts(ws.take(self.base as int)),
                next@.len() == a + b,
                remap@.len() == n,
                sorted_texts(texts(next@)),
                forall|k: int|
                    0 <= k < next@.len() && a < self.base ==> text_lt(
                        (#[trigger] texts(next@)[k]),
                        ws[a as int],
                    ),
                forall|k: int|
                    0 <= k < next@.len() && b < all.len() ==> text_lt(
                        (#[trigger] texts(next@)[k]),
                        all[b as int],
                    ),
                forall|i: int|
                    0 <= i < a ==> (#[trigger] remap@[i]) < next@.len() && texts(
                        next@,
                    )[remap@[i] as int] == ws[i],
                forall|j: int|
                    0 <= j < b ==> remap@[(#[trigger] self.overflow@[j]) as int] < next@.len()
                        && texts(next@)[remap@[self.overflow@[j] as int] as int] == all[j],
            decreases self.base - a + self.overflow@.len() - b,
        {
            let take_base: bool = b == self.overflow.len() || (a < self.base && text_less(
                self.word(a as u32),
                self.word(self.overflow[b]),
            ));
            let id: u32 = if take_base {
                a as u32
            } else {
                self.overflow[b]
            };
            let ghost w = ws[id as int];
            let ghost before = next@;
            let ghost old_remap = remap@;
            proof {
                if b < all.len() {
                    assert(all[b as int] == ws[self.overflow@[b as int] as int]);
                    if a < self.base && !take_base {
                        lemma_text_total(ws[a as int], all[b as int]);
                    }
                }
                if a + 1 < self.base {
                    assert(ws.take(self.base as int)[a as int] == ws[a as int]);
                    assert(ws.take(self.base as int)[a + 1] == ws[a + 1]);
                }
                if b + 1 < all.len() {
                    assert(text_lt(all[b as int], all[b + 1]));
                }
            }
            remap.set(id as usize, next.len() as u32);
            next.push(self.word(id).to_owned());
            proof {
                let now = texts(next@);
                let prior = texts(before);
                assert(now =~= prior.push(w));
                assert(now[before.len() as int] == w);
                assert forall|i: int, j: int|
                    #![trigger now[i], now[j]]
                    0 <= i < j < now.len() implies text_lt(now[i], now[j]) by {
                    assert(now[i] == prior[i]);
                    if j == before.len() {
                        assert(text_lt(prior[i], w));
                    } else {
                        assert(now[j] == prior[j]);
                    }
                }
                let na = if take_base {
                    a + 1
                } else {
                    a as int
                };
                let nb = if take_base {
                    b as int
                } else {
                    b + 1
                };
                assert forall|k: int| 0 <= k < now.len() && na < self.base implies text_lt(
                    (#[trigger] now[k]),
                    ws[na],
                ) by {
                    if k < before.len() {
                        assert(now[k] == prior[k]);
                        if take_base {
                            lemma_lt_transitive(
                                encode_utf8(prior[k]),
                                encode_utf8(w),
                                encode_utf8(ws[na]),
                                0,
                            );
                        }
                    }
                }
                assert forall|k: int| 0 <= k < now.len() && nb < all.len() implies text_lt(
                    (#[trigger] now[k]),
                    all[nb],
                ) by {
                    if k < before.len() {
                        assert(now[k] == prior[k]);
                        if !take_base {
                            lemma_lt_transitive(
                                encode_utf8(prior[k]),
                                encode_utf8(w),
                                encode_utf8(all[nb]),
                                0,
                            );
                        }
                    }
                }
                assert forall|i: int| 0 <= i < na implies (#[trigger] remap@[i]) < next@.len()
                    && now[remap@[i] as int] == ws[i] by {
                    if i < a {
                        assert(remap@[i] == old_remap[i]);
                        assert(now[old_remap[i] as int] == prior[old_remap[i] as int]);
                    }
                }
                assert forall|j: int| 0 <= j < nb implies remap@[(
                #[trigger] self.overflow@[j]) as int] < next@.len()
                    && now[remap@[self.overflow@[j] as int] as int] == all[j] by {
                    if j < b {
                        assert(self.overflow@[j] != id) by {
                            if !take_base {
                                assert(self.overflow@[b as int] == id);
                            }
                        }
                        let at = self.overflow@[j] as int;
                        assert(remap@[at] == old_remap[at]);
                        assert(now[old_remap[at] as int] == prior[old_remap[at] as int]);
                    }
                }
            }
            if take_base {
                a = a + 1;
            } else {
                b = b + 1;
            }
        }
        let vocab = Vocab::from_sorted(next);
        proof {
            assert forall|id: int| 0 <= id < ws.len() implies (#[trigger] remap@[id])
                < vocab.words().len() && vocab.words()[remap@[id] as int] == ws[id] by {
                if id >= self.base {
                    assert(self.overflow().contains(id as u32));
                    let j = choose|j: int|
                        0 <= j < self.overflow@.len() && self.overflow@[j] == id as u32;
                    assert(all[j] == ws[id]);
                    assert(remap@[self.overflow@[j] as int] < next@.len());
                }
            }
        }
        (vocab, remap)
    }
}

/// Few enough slots for a machine word leave some shift.
proof fn lemma_shift_room(slots: int, shift: u32)
    requires
        0 <= slots,
        sized(slots as nat, shift),
        16 * slots <= usize::MAX + 1,
    ensures
        shift > 2,
        slots >= 16,
{
    vstd::arithmetic::power2::lemma2_to64();
    vstd::arithmetic::power2::lemma2_to64_rest();
    lemma_shift_in_range(0, slots as nat, shift);
    if shift == 2 {
        assert(slots == vstd::arithmetic::power2::pow2(62));
    }
}

} // verus!
