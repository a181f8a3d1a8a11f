//! The words an engine knows and their hygiene: which spellings are real, which
//! are slips of real words, and which real word a misspelling counts toward.

use crate::ngram::hygiene::{for_each_neighbour, for_each_slip, neighbours, slips};
use crate::ngram::merge::{merge_distinct, sort_distinct};
use crate::ngram::order::{lemma_sorted_ascends, sorted_texts};
use crate::ngram::session::renumbers;
use crate::ngram::vocab::{texts, word_limit, Vocab};
use crate::ngram::web::{WebPrior, INFINITE_BITS};
use crate::unicode::chars_of;
use vstd::prelude::*;

verus! {

/// No id.
pub const NONE: u32 = u32::MAX;

/// Words shorter than this (in characters) are never folded or shadowed.
pub const HYGIENE_MIN_CHARS: usize = 5;

/// The sign bit of an `f32`.
pub const SIGN_BIT: u32 = 0x8000_0000;

/// Above every typed count.
pub const OVER_ANY_COUNT: u64 = 0x1_0000_0000;

/// Sentence/line start pseudo-word.
pub fn bos() -> (w: &'static str)
    ensures
        w@ == bos_text(),
{
    proof {
        reveal_strlit("<s>");
    }
    let w = "<s>";
    assert(w@ =~= bos_text());
    w
}

/// Sentence/line start pseudo-word.
pub open spec fn bos_text() -> Seq<char> {
    seq!['<', 's', '>']
}

/// The whole-number knobs of the n-gram engine.
#[derive(Clone, Copy, Debug)]
pub struct Params {
    /// Unigram candidates pulled from the range top-k tree.
    pub top_k: usize,
    /// Occurrences in typed prompts before a word outside the web vocabulary
    /// and the dictionary is suggested.
    pub min_count: u32,
    /// Fold rare misspellings into a real edit-distance-1 neighbour.
    pub canonicalize: bool,
    /// Below this many occurrences a misspelling may fold into a web word.
    pub canon_max_count: u32,
    /// A personal neighbour must be typed this many times as often to absorb a
    /// spelling.
    pub canon_ratio: u32,
    /// Bytes of the text before the cursor the prompt-local cache scans.
    pub cache_window: usize,
    /// Recent prompts in the session cache.
    pub session_prompts: usize,
}

impl Default for Params {
    fn default() -> (p: Params)
        ensures
            p == (Params {
                top_k: 6,
                min_count: 2,
                canonicalize: true,
                canon_max_count: 3,
                canon_ratio: 3,
                cache_window: 4000,
                session_prompts: 20,
            }),
    {
        Params {
            top_k: 6,
            min_count: 2,
            canonicalize: true,
            canon_max_count: 3,
            canon_ratio: 3,
            cache_window: 4000,
            session_prompts: 20,
        }
    }
}

/// Which show threshold applies to a prefix.
#[derive(Clone, Copy, Debug, PartialEq, Eq, Structural)]
pub enum Threshold {
    /// A single letter.
    SingleLetter,
    /// Two or more letters when the client also asks at one letter.
    AfterSingleLetter,
    /// Two or more letters when the client asks from the second letter on.
    Plain,
}

impl Params {
    /// Show threshold for a prefix of `k` characters when the client's first
    /// query for the word was at `first_asked` characters.
    pub fn threshold_at(&self, k: usize, first_asked: usize) -> (t: Threshold)
        ensures
            t == (if k == 1 {
                Threshold::SingleLetter
            } else if first_asked == 1 {
                Threshold::AfterSingleLetter
            } else {
                Threshold::Plain
            }),
    {
        if k == 1 {
            Threshold::SingleLetter
        } else if first_asked == 1 {
            Threshold::AfterSingleLetter
        } else {
            Threshold::Plain
        }
    }
}

/// What a lexicon knows of its words, by id.
#[verifier::ext_equal]
pub struct Known {
    pub words: Seq<Seq<char>>,
    /// Occurrences of the spelling in typed prompts.
    pub raw: Seq<u32>,
    /// Web id, or `NONE`.
    pub web: Seq<u32>,
    /// A real spelling (dictionary or frequent web word).
    pub trusted: Seq<bool>,
    /// A habitual slip of a real word the user types; never suggested.
    pub shadowed: Seq<bool>,
    /// Some misspelling in the vocabulary is one slip away from this word.
    pub watched: Seq<bool>,
}

/// The id of `w` among distinct words.
pub open spec fn id_of(words: Seq<Seq<char>>, w: Seq<char>) -> Option<int> {
    if words.contains(w) {
        Some(words.index_of(w))
    } else {
        None
    }
}

/// The ids of the first `k` of `list` that are words, each once.
pub open spec fn found_ids(words: Seq<Seq<char>>, list: Seq<Seq<char>>, k: int) -> Seq<u32>
    decreases k,
{
    if k <= 0 {
        Seq::empty()
    } else {
        let prior = found_ids(words, list, k - 1);
        match id_of(words, list[k - 1]) {
            Some(id) => {
                if prior.contains(id as u32) {
                    prior
                } else {
                    prior.push(id as u32)
                }
            },
            None => prior,
        }
    }
}

/// The words one slip away from word `id`.
pub open spec fn slip_ids(words: Seq<Seq<char>>, id: int) -> Seq<u32> {
    found_ids(words, slips(words[id]), slips(words[id]).len() as int)
}

/// Word `id` is long enough for hygiene.
pub open spec fn long_enough(words: Seq<Seq<char>>, id: int) -> bool {
    words[id].len() >= HYGIENE_MIN_CHARS
}

/// Some real word among `found` is typed at least 3 times and at least a third
/// as often as `id`.
pub open spec fn overshadowed(l: Known, id: int, found: Seq<u32>) -> bool {
    exists|j: int|
        0 <= j < found.len() && l.trusted[(#[trigger] found[j]) as int] && l.raw[found[j] as int]
            >= 3 && 3 * l.raw[found[j] as int] >= l.raw[id]
}

/// `watched` with the real words among `found` added.
pub open spec fn watched_more(l: Known, found: Seq<u32>) -> Seq<bool> {
    Seq::new(
        l.watched.len(),
        |k: int| l.watched[k] || (found.contains(k as u32) && l.trusted[k]),
    )
}

/// The misspelling `id` is shadowed when it is one slip away from a real word
/// the user types at least 3 times and at least a third as often.
pub open spec fn refreshed(l: Known, id: int) -> Known {
    let found = slip_ids(l.words, id);
    Known {
        shadowed: l.shadowed.update(id, overshadowed(l, id, found)),
        watched: watched_more(l, found),
        ..l
    }
}

/// A misspelling that was typed and is long enough.
pub open spec fn typed_misspelling(l: Known, id: int) -> bool {
    !l.trusted[id] && l.raw[id] > 0 && long_enough(l.words, id)
}

/// The typed misspellings among the first `k` of `found` refreshed.
pub open spec fn refreshed_slips(l: Known, found: Seq<u32>, k: int) -> Known
    decreases k,
{
    if k <= 0 {
        l
    } else {
        let prior = refreshed_slips(l, found, k - 1);
        let other = found[k - 1] as int;
        if typed_misspelling(prior, other) {
            refreshed(prior, other)
        } else {
            prior
        }
    }
}

/// Hygiene upkeep after `id`'s typed count changed.
pub open spec fn touched(l: Known, id: int, canonicalize: bool) -> Known {
    if !canonicalize {
        l
    } else if !l.trusted[id] {
        if long_enough(l.words, id) {
            refreshed(l, id)
        } else {
            l
        }
    } else if !l.watched[id] {
        l
    } else {
        let found = slip_ids(l.words, id);
        refreshed_slips(l, found, found.len() as int)
    }
}

/// What a new word `id` marks: a misspelling the real words one slip away, a
/// real word itself when a misspelling is one slip away.
pub open spec fn linked(l: Known, id: int) -> Known {
    let found = slip_ids(l.words, id);
    if l.words[id].len() + 1 < HYGIENE_MIN_CHARS {
        l
    } else if l.trusted[id] {
        let hit = exists|j: int|
            0 <= j < found.len() && !l.trusted[(#[trigger] found[j]) as int] && long_enough(
                l.words,
                found[j] as int,
            );
        Known { watched: l.watched.update(id, l.watched[id] || hit), ..l }
    } else if long_enough(l.words, id) {
        Known { watched: watched_more(l, found), ..l }
    } else {
        l
    }
}

/// One more word, linked.
pub open spec fn with_word(l: Known, word: Seq<char>, genuine: bool) -> Known {
    linked(
        Known {
            words: l.words.push(word),
            raw: l.raw.push(0),
            web: l.web.push(NONE),
            trusted: l.trusted.push(genuine),
            shadowed: l.shadowed.push(false),
            watched: l.watched.push(false),
        },
        l.words.len() as int,
    )
}

/// The lexicon once `word` is in it.
pub open spec fn interned(l: Known, word: Seq<char>, dict: Seq<Seq<char>>) -> Known {
    if l.words.contains(word) {
        l
    } else {
        with_word(l, word, dict.contains(word))
    }
}

/// Every hygiene flag but trust forgotten, then every typed misspelling among
/// the first `k` words refreshed.
pub open spec fn swept(l: Known, k: int, canonicalize: bool) -> Known
    decreases k,
{
    if k <= 0 {
        Known {
            shadowed: Seq::new(l.words.len(), |i: int| false),
            watched: Seq::new(l.words.len(), |i: int| false),
            ..l
        }
    } else {
        let prior = swept(l, k - 1, canonicalize);
        if canonicalize && typed_misspelling(prior, k - 1) {
            refreshed(prior, k - 1)
        } else {
            prior
        }
    }
}

/// May `id` be suggested? Real spellings always; habitual slips never; words
/// unknown to the web need `min_count` typed occurrences.
pub open spec fn suggestible(l: Known, id: int, min_count: u32) -> bool {
    l.trusted[id] || (!l.shadowed[id] && (l.web[id] != NONE || l.raw[id] >= min_count))
}

/// Where the `f32` whose bits are `bits` stands among the others, zero at 0.
/// Nothing when the bits are no number.
pub open spec fn weight_of(bits: u32) -> Option<i64> {
    if bits <= INFINITE_BITS {
        Some(bits as i64)
    } else if SIGN_BIT <= bits <= SIGN_BIT + INFINITE_BITS {
        Some((SIGN_BIT - bits) as i64)
    } else {
        None
    }
}

/// A word typed `raw` times with the web count `bits`, as a rank: by the typed
/// count, then by the web count. An infinite web count outweighs any typed
/// count, one of minus infinity can never win, nor can one that is no number.
pub open spec fn rank(raw: u32, bits: u32) -> Option<(u64, i64)> {
    match weight_of(bits) {
        None => None,
        Some(weight) => if weight == INFINITE_BITS {
            Some((OVER_ANY_COUNT, 0))
        } else if weight == -INFINITE_BITS {
            None
        } else {
            Some((raw as u64, weight))
        },
    }
}

/// How strongly `other` draws the misspelling `id`. Nothing when it may not
/// absorb it.
pub open spec fn pull(l: Known, web_count: Seq<u32>, p: Params, id: int, other: int) -> Option<
    (u64, i64),
> {
    let weight = if l.web[other] == NONE {
        0
    } else {
        web_count[l.web[other] as int]
    };
    if l.raw[other] > 0 {
        if l.raw[other] < p.canon_ratio * (l.raw[id] + 1) || (!l.trusted[other] && l.raw[other]
            < 10) {
            None
        } else {
            rank(l.raw[other], weight)
        }
    } else if l.raw[id] >= p.canon_max_count || l.web[other] == NONE || !l.trusted[other] {
        None
    } else {
        rank(0, weight)
    }
}

/// `a` is a stronger pull than `b`.
pub open spec fn stronger(a: (u64, i64), b: (u64, i64)) -> bool {
    a.0 > b.0 || (a.0 == b.0 && a.1 > b.1)
}

/// The strongest pull among the first `k` of `list`, the first of equals; `id`
/// itself when there is none.
pub open spec fn strongest(
    l: Known,
    web_count: Seq<u32>,
    p: Params,
    id: int,
    list: Seq<Seq<char>>,
    k: int,
) -> (int, (u64, i64))
    decreases k,
{
    if k <= 0 {
        (id, (0, 0))
    } else {
        let prior = strongest(l, web_count, p, id, list, k - 1);
        match id_of(l.words, list[k - 1]) {
            None => prior,
            Some(other) => match pull(l, web_count, p, id, other) {
                Some(key) if stronger(key, prior.1) => (other, key),
                _ => prior,
            },
        }
    }
}

/// The real spelling a rare misspelling should count toward: a personal word
/// typed `canon_ratio`× as often (and trusted or typed at least 10 times), or,
/// while the spelling is still rare, a trusted web word.
pub open spec fn canonical_of(l: Known, web_count: Seq<u32>, p: Params, id: int) -> int {
    let list = neighbours(l.words[id]);
    if !p.canonicalize || l.trusted[id] || !long_enough(l.words, id) {
        id
    } else {
        strongest(l, web_count, p, id, list, list.len() as int).0
    }
}

/// A word typed `raw` times with the web count `bits`, as a rank.
fn rank_of(raw: u32, bits: u32) -> (r: Option<(u64, i64)>)
    ensures
        r == rank(raw, bits),
{
    if bits < INFINITE_BITS {
        Some((raw as u64, bits as i64))
    } else if bits == INFINITE_BITS {
        Some((OVER_ANY_COUNT, 0))
    } else if SIGN_BIT <= bits && bits < SIGN_BIT + INFINITE_BITS {
        Some((raw as u64, SIGN_BIT as i64 - bits as i64))
    } else {
        None
    }
}

/// The words an engine knows, with their hygiene.
pub struct Lexicon {
    pub vocab: Vocab,
    /// Occurrences of the spelling in typed prompts.
    pub raw: Vec<u32>,
    /// Web id per id (`NONE` outside the web vocabulary).
    pub web_id: Vec<u32>,
    pub trusted: Vec<bool>,
    pub shadowed: Vec<bool>,
    pub watched: Vec<bool>,
}

impl View for Lexicon {
    type V = Known;

    open spec fn view(&self) -> Known {
        Known {
            words: self.vocab.words(),
            raw: self.raw@,
            web: self.web_id@,
            trusted: self.trusted@,
            shadowed: self.shadowed@,
            watched: self.watched@,
        }
    }
}

/// Every table has one entry per word.
pub open spec fn tables_fit(l: Known) -> bool {
    let n = l.words.len();
    l.raw.len() == n && l.web.len() == n && l.trusted.len() == n && l.shadowed.len() == n
        && l.watched.len() == n
}

fn has_id(ids: &Vec<u32>, id: u32) -> (r: bool)
    ensures
        r == ids@.contains(id),
{
    let mut i: usize = 0;
    while i < ids.len()
        invariant
            i <= ids@.len(),
            forall|k: int| 0 <= k < i ==> ids@[k] != id,
        decreases ids@.len() - i,
    {
        if ids[i] == id {
            return true;
        }
        i = i + 1;
    }
    false
}

/// Ids found are ids of words.
pub proof fn lemma_found_range(words: Seq<Seq<char>>, list: Seq<Seq<char>>, k: int)
    requires
        words.len() < NONE,
    ensures
        forall|j: int|
            0 <= j < found_ids(words, list, k).len() ==> #[trigger] found_ids(words, list, k)[j]
                < words.len(),
    decreases k,
{
    if k > 0 {
        lemma_found_range(words, list, k - 1);
        let prior = found_ids(words, list, k - 1);
        let now = found_ids(words, list, k);
        assert forall|j: int| 0 <= j < now.len() implies #[trigger] now[j] < words.len() by {
            if j < prior.len() {
                assert(now[j] == prior[j]);
            }
        }
    }
}

impl Lexicon {
    /// The vocabulary is in order and every table has one entry per word.
    pub open spec fn wf(&self) -> bool {
        &&& self.vocab.wf()
        &&& tables_fit(self@)
        &&& self.vocab.words().len() <= word_limit()
    }

    /// The id of `word`.
    pub fn find(&self, word: &str) -> (id: Option<u32>)
        requires
            self.wf(),
        ensures
            match id {
                Some(i) => id_of(self@.words, word@) == Some(i as int) && i < self@.words.len(),
                None => id_of(self@.words, word@) is None,
            },
    {
        let id = self.vocab.find(word);
        proof {
            if let Some(i) = id {
                self.vocab.law_vocab_order();
                let ws = self@.words;
                assert(ws[i as int] == word@);
                assert(ws.contains(word@));
                let j = ws.index_of(word@);
                assert(ws[j] == word@);
                if i < j {
                    assert(ws[i as int] != ws[j]);
                } else if j < i {
                    assert(ws[j] != ws[i as int]);
                }
            }
        }
        id
    }

    fn long(&self, id: u32) -> (r: bool)
        requires
            id < self@.words.len(),
        ensures
            r == long_enough(self@.words, id as int),
    {
        chars_of(self.vocab.word(id)).len() >= HYGIENE_MIN_CHARS
    }

    /// Ids of the vocabulary words one slip away from `id`.
    pub fn collect_slips(&self, id: u32) -> (out: Vec<u32>)
        requires
            self.wf(),
            id < self@.words.len(),
        ensures
            out@ == slip_ids(self@.words, id as int),
            forall|j: int| 0 <= j < out@.len() ==> #[trigger] out@[j] < self@.words.len(),
    {
        let list = for_each_slip(self.vocab.word(id));
        let ghost slip_list = slips(self@.words[id as int]);
        let mut out: Vec<u32> = Vec::new();
        let mut i: usize = 0;
        while i < list.len()
            invariant
                self.wf(),
                i <= list@.len(),
                texts(list@) == slip_list,
                out@ == found_ids(self@.words, slip_list, i as int),
            decreases list@.len() - i,
        {
            assert(texts(list@)[i as int] == list@[i as int]@);
            if let Some(other) = self.find(list[i].as_str()) {
                if !has_id(&out, other) {
                    out.push(other);
                }
            }
            i = i + 1;
        }
        proof {
            lemma_found_range(self@.words, slip_list, i as int);
        }
        out
    }

    fn watch(&mut self, found: &Vec<u32>)
        requires
            old(self).wf(),
            forall|j: int| 0 <= j < found@.len() ==> #[trigger] found@[j] < old(self)@.words.len(),
        ensures
            final(self).wf(),
            final(self)@ == (Known { watched: watched_more(old(self)@, found@), ..old(self)@ }),
            final(self).vocab == old(self).vocab,
    {
        let ghost start = self@;
        let mut j: usize = 0;
        assert(watched_more(start, found@.take(0)) =~= start.watched);
        while j < found.len()
            invariant
                j <= found@.len(),
                self.wf(),
                self.vocab == old(self).vocab,
                forall|k: int| 0 <= k < found@.len() ==> #[trigger] found@[k] < start.words.len(),
                self@ == (Known { watched: watched_more(start, found@.take(j as int)), ..start }),
                tables_fit(start),
            decreases found@.len() - j,
        {
            let other: usize = found[j] as usize;
            let ghost part = found@.take(j as int);
            let ghost more = found@.take(j + 1);
            proof {
                assert(found@[j as int] < start.words.len());
                assert forall|x: u32| more.contains(x) <==> part.contains(x) || x
                    == found@[j as int] by {
                    if more.contains(x) {
                        let k = choose|k: int| 0 <= k < more.len() && more[k] == x;
                        if k < j {
                            assert(part[k] == x);
                        }
                    }
                    if part.contains(x) {
                        let k = choose|k: int| 0 <= k < part.len() && part[k] == x;
                        assert(more[k] == x);
                    }
                    assert(more[j as int] == found@[j as int]);
                }
            }
            if self.trusted[other] {
                self.watched.set(other, true);
            }
            assert(self@.watched =~= watched_more(start, more));
            j = j + 1;
        }
        assert(found@.take(j as int) =~= found@);
    }

    /// Recomputes whether the misspelling `id` is shadowed.
    pub fn refresh_shadow(&mut self, id: u32)
        requires
            old(self).wf(),
            id < old(self)@.words.len(),
        ensures
            final(self).wf(),
            final(self)@ == refreshed(old(self)@, id as int),
            final(self).vocab == old(self).vocab,
    {
        let ghost start = self@;
        let found = self.collect_slips(id);
        let mut hit: bool = false;
        let mut j: usize = 0;
        while j < found.len() && !hit
            invariant
                j <= found@.len(),
                *self == *old(self),
                start == self@,
                self.wf(),
                id < start.words.len(),
                forall|k: int| 0 <= k < found@.len() ==> #[trigger] found@[k] < start.words.len(),
                !hit ==> forall|k: int|
                    0 <= k < j ==> !(start.trusted[(#[trigger] found@[k]) as int]
                        && start.raw[found@[k] as int] >= 3 && 3 * start.raw[found@[k] as int]
                        >= start.raw[id as int]),
                hit ==> overshadowed(start, id as int, found@),
            decreases found@.len() - j,
        {
            let other: usize = found[j] as usize;
            assert(found@[j as int] < start.words.len());
            let count: u32 = self.raw[other];
            if self.trusted[other] && count >= 3 && 3 * (count as u64) >= self.raw[id as usize] as u64 {
                hit = true;
            }
            j = j + 1;
        }
        self.watch(&found);
        self.shadowed.set(id as usize, hit);
        assert(self@ =~= refreshed(start, id as int));
    }

    /// Hygiene upkeep after `id`'s typed count changed.
    pub fn touch_hygiene(&mut self, id: u32, canonicalize: bool)
        requires
            old(self).wf(),
            id < old(self)@.words.len(),
        ensures
            final(self).wf(),
            final(self)@ == touched(old(self)@, id as int, canonicalize),
            final(self).vocab == old(self).vocab,
    {
        if !canonicalize {
            return;
        }
        if !self.trusted[id as usize] {
            if self.long(id) {
                self.refresh_shadow(id);
            }
            return;
        }
        if !self.watched[id as usize] {
            return;
        }
        let ghost start = self@;
        let found = self.collect_slips(id);
        let mut j: usize = 0;
        while j < found.len()
            invariant
                j <= found@.len(),
                self.wf(),
                self.vocab == old(self).vocab,
                forall|k: int|
                    0 <= k < found@.len() ==> #[trigger] found@[k] < self.vocab.words().len(),
                self@ == refreshed_slips(start, found@, j as int),
            decreases found@.len() - j,
        {
            let other: u32 = found[j];
            assert(found@[j as int] < self.vocab.words().len());
            if !self.trusted[other as usize] && self.raw[other as usize] > 0 && self.long(other) {
                self.refresh_shadow(other);
            }
            j = j + 1;
        }
    }

    /// Maintains the watch marks for a new word.
    fn link_slips(&mut self, id: u32)
        requires
            old(self).wf(),
            id < old(self)@.words.len(),
        ensures
            final(self).wf(),
            final(self)@ == linked(old(self)@, id as int),
            final(self).vocab == old(self).vocab,
    {
        let ghost start = self@;
        let length: usize = chars_of(self.vocab.word(id)).len();
        if length < HYGIENE_MIN_CHARS - 1 {
            return;
        }
        let genuine: bool = self.trusted[id as usize];
        if !genuine && length < HYGIENE_MIN_CHARS {
            return;
        }
        let found = self.collect_slips(id);
        if !genuine {
            self.watch(&found);
            return;
        }
        let mut hit: bool = false;
        let mut j: usize = 0;
        while j < found.len() && !hit
            invariant
                j <= found@.len(),
                *self == *old(self),
                start == self@,
                self.wf(),
                id < start.words.len(),
                forall|k: int| 0 <= k < found@.len() ==> #[trigger] found@[k] < start.words.len(),
                !hit ==> forall|k: int|
                    0 <= k < j ==> !(!start.trusted[(#[trigger] found@[k]) as int] && long_enough(
                        start.words,
                        found@[k] as int,
                    )),
                hit ==> exists|k: int|
                    0 <= k < found@.len() && !start.trusted[(#[trigger] found@[k]) as int]
                        && long_enough(start.words, found@[k] as int),
            decreases found@.len() - j,
        {
            let other: u32 = found[j];
            assert(found@[j as int] < start.words.len());
            if !self.trusted[other as usize] && self.long(other) {
                hit = true;
            }
            j = j + 1;
        }
        let ghost any = exists|k: int|
            0 <= k < found@.len() && !start.trusted[(#[trigger] found@[k]) as int] && long_enough(
                start.words,
                found@[k] as int,
            );
        assert(hit == any);
        if hit {
            self.watched.set(id as usize, true);
        }
        assert(self@ =~= linked(start, id as int));
    }

    /// Id of `word`, added when new. The flag is true for a new word.
    pub fn intern(&mut self, word: &str, web: &WebPrior) -> (r: (u32, bool))
        requires
            old(self).wf(),
            old(self)@.words.len() < word_limit(),
            web.wf(),
            sorted_texts(web.dict_only.words()),
        ensures
            final(self).wf(),
            final(self)@ == interned(old(self)@, word@, web.dict_only.words()),
            r.1 == !old(self)@.words.contains(word@),
            id_of(final(self)@.words, word@) == Some(r.0 as int),
            r.0 < final(self)@.words.len(),
            final(self).vocab.base() == old(self).vocab.base(),
    {
        let ghost start = self@;
        if let Some(id) = self.find(word) {
            assert(start.words.contains(word@));
            return (id, false);
        }
        assert(!start.words.contains(word@));
        let (id, fresh) = self.vocab.intern(word);
        proof {
            lemma_sorted_ascends(web.dict_only.words());
        }
        let genuine = web.trusted(word, None);
        self.raw.push(0);
        self.web_id.push(NONE);
        self.trusted.push(genuine);
        self.shadowed.push(false);
        self.watched.push(false);
        let ghost grown = self@;
        proof {
            assert(grown.words == start.words.push(word@));
            assert(grown =~= Known {
                words: start.words.push(word@),
                raw: start.raw.push(0),
                web: start.web.push(NONE),
                trusted: start.trusted.push(web.dict_only.words().contains(word@)),
                shadowed: start.shadowed.push(false),
                watched: start.watched.push(false),
            });
        }
        self.link_slips(id);
        proof {
            let ws = self@.words;
            assert(ws == start.words.push(word@));
            assert(ws[id as int] == word@);
            assert(ws.contains(word@));
            let j = ws.index_of(word@);
            assert(ws[j] == word@);
            if j != id {
                assert(start.words[j] == word@);
            }
        }
        (id, true)
    }

    /// Recomputes every hygiene flag but trust.
    pub fn sweep_hygiene(&mut self, canonicalize: bool)
        requires
            old(self).wf(),
        ensures
            final(self).wf(),
            final(self)@ == swept(old(self)@, old(self)@.words.len() as int, canonicalize),
            final(self).vocab == old(self).vocab,
    {
        let ghost start = self@;
        let n: usize = self.raw.len();
        self.shadowed = vec![false; n];
        self.watched = vec![false; n];
        assert(self@ =~= swept(start, 0, canonicalize));
        let mut id: usize = 0;
        while id < n
            invariant
                n == self.vocab.words().len(),
                id <= n,
                self.wf(),
                self.vocab == old(self).vocab,
                self@ == swept(start, id as int, canonicalize),
            decreases n - id,
        {
            if canonicalize && !self.trusted[id] && self.raw[id] > 0 && self.long(id as u32) {
                self.refresh_shadow(id as u32);
            }
            id = id + 1;
        }
    }

    /// A real spelling.
    pub fn trusted(&self, id: u32) -> (r: bool)
        requires
            self.wf(),
            id < self@.words.len(),
        ensures
            r == self@.trusted[id as int],
    {
        self.trusted[id as usize]
    }

    /// May `id` be suggested? Real spellings always; habitual slips never;
    /// words unknown to the web need `min_count` typed occurrences.
    pub fn eligible(&self, id: u32, min_count: u32) -> (r: bool)
        requires
            self.wf(),
            id < self@.words.len(),
        ensures
            r == suggestible(self@, id as int, min_count),
    {
        let i: usize = id as usize;
        self.trusted[i] || (!self.shadowed[i] && (self.web_id[i] != NONE || self.raw[i]
            >= min_count))
    }

    /// The real spelling a rare misspelling should count toward: a personal
    /// word typed `canon_ratio`× as often (and trusted or typed at least 10
    /// times), or, while the spelling is still rare, a trusted web word.
    pub fn canonical(&self, id: u32, p: &Params, web: &WebPrior) -> (best: u32)
        requires
            self.wf(),
            id < self@.words.len(),
            forall|i: int|
                0 <= i < self@.words.len() ==> #[trigger] self@.web[i] == NONE || self@.web[i]
                    < web.count@.len(),
        ensures
            best == canonical_of(self@, web.count@, *p, id as int),
            best < self@.words.len(),
    {
        if !p.canonicalize || self.trusted[id as usize] || !self.long(id) {
            return id;
        }
        let list = for_each_neighbour(self.vocab.word(id));
        let ghost all = neighbours(self@.words[id as int]);
        let raw: u64 = self.raw[id as usize] as u64 + 1;
        let allow_web: bool = self.raw[id as usize] < p.canon_max_count;
        let mut best: u32 = id;
        let mut key: (u64, i64) = (0, 0);
        let mut i: usize = 0;
        while i < list.len()
            invariant
                self.wf(),
                id < self@.words.len(),
                best < self@.words.len(),
                raw == self@.raw[id as int] + 1,
                allow_web == (self@.raw[id as int] < p.canon_max_count),
                forall|k: int|
                    0 <= k < self@.words.len() ==> #[trigger] self@.web[k] == NONE || self@.web[k]
                        < web.count@.len(),
                i <= list@.len(),
                texts(list@) == all,
                (best as int, key) == strongest(
                    self@,
                    web.count@,
                    *p,
                    id as int,
                    all,
                    i as int,
                ),
            decreases list@.len() - i,
        {
            assert(texts(list@)[i as int] == list@[i as int]@);
            if let Some(other) = self.find(list[i].as_str()) {
                let o: usize = other as usize;
                let wid: u32 = self.web_id[o];
                assert(self@.web[other as int] == wid);
                let weight: u32 = if wid == NONE {
                    0
                } else {
                    web.count[wid as usize]
                };
                let count: u32 = self.raw[o];
                let genuine: bool = self.trusted[o];
                let mut drawn: Option<(u64, i64)> = None;
                if count > 0 {
                    proof {
                        assert(p.canon_ratio as int * raw as int <= 0xffff_ffff * 0x1_0000_0000)
                            by (nonlinear_arith)
                            requires
                                p.canon_ratio <= 0xffff_ffff,
                                raw <= 0x1_0000_0000,
                        ;
                    }
                    if !((count as u64) < p.canon_ratio as u64 * raw || (!genuine && count < 10)) {
                        drawn = rank_of(count, weight);
                    }
                } else if allow_web && wid != NONE && genuine {
                    drawn = rank_of(0, weight);
                }
                assert(drawn == pull(self@, web.count@, *p, id as int, other as int));
                if let Some(k) = drawn {
                    if k.0 > key.0 || (k.0 == key.0 && k.1 > key.1) {
                        key = k;
                        best = other;
                    }
                }
            }
            i = i + 1;
        }
        best
    }
}

/// The web id of each word: its place in the web vocabulary, or `NONE`.
pub open spec fn web_places(words: Seq<Seq<char>>, web: Seq<Seq<char>>) -> Seq<u32> {
    Seq::new(
        words.len(),
        |id: int|
            if web.contains(words[id]) {
                web.index_of(words[id]) as u32
            } else {
                NONE
            },
    )
}

/// A web id as an optional index.
pub open spec fn web_ref(wid: u32) -> Option<usize> {
    if wid == NONE {
        None
    } else {
        Some(wid as usize)
    }
}

/// A fresh lexicon over `words`: nothing typed, real spellings trusted.
pub open spec fn fresh(words: Seq<Seq<char>>, web: WebPrior) -> Known {
    let places = web_places(words, web.words.words());
    Known {
        words,
        raw: Seq::new(words.len(), |i: int| 0),
        web: places,
        trusted: Seq::new(words.len(), |i: int| web.trusts(words[i], web_ref(places[i]))),
        shadowed: Seq::new(words.len(), |i: int| false),
        watched: Seq::new(words.len(), |i: int| false),
    }
}

impl Lexicon {
    /// Lexicon whose sorted base holds the web vocabulary, the sentence-start
    /// word, and `extra` (any order, repeats allowed), and the id of each web
    /// word.
    pub fn with_words(web: &WebPrior, extra: Vec<String>) -> (r: (Lexicon, Vec<u32>))
        requires
            web.wf(),
            sorted_texts(web.words.words()),
            sorted_texts(web.dict_only.words()),
            web.words.words().len() + extra@.len() < word_limit(),
        ensures
            r.0.wf(),
            sorted_texts(r.0@.words),
            r.0.vocab.base() == r.0@.words.len(),
            r.0@.words.len() <= web.words.words().len() + extra@.len() + 1,
            forall|w: Seq<char>| #[trigger]
                r.0@.words.contains(w) <==> web.words.words().contains(w) || texts(
                    extra@,
                ).contains(w) || w == bos_text(),
            r.0@ == fresh(r.0@.words, *web),
            r.1@.len() == web.words.words().len(),
            forall|k: int|
                0 <= k < r.1@.len() ==> id_of(r.0@.words, web.words.words()[k]) == Some(
                    (#[trigger] r.1@[k]) as int,
                ) && r.1@[k] < r.0@.words.len(),
    {
        let ghost old_extra = texts(extra@);
        let mut extra = extra;
        extra.push(bos().to_owned());
        assert(texts(extra@) =~= old_extra.push(bos_text()));
        let sorted = sort_distinct(&extra);
        let merged = merge_distinct(web.words.list(), &sorted);
        let ghost ww = web.words.words();
        let ghost ws = texts(merged@);
        proof {
            assert forall|w: Seq<char>| #[trigger] ws.contains(w) <==> ww.contains(w)
                || old_extra.contains(w) || w == bos_text() by {
                let all = old_extra.push(bos_text());
                if old_extra.contains(w) {
                    let k = choose|k: int| 0 <= k < old_extra.len() && old_extra[k] == w;
                    assert(all[k] == w);
                }
                if w == bos_text() {
                    assert(all[old_extra.len() as int] == w);
                }
                if all.contains(w) {
                    let k = choose|k: int| 0 <= k < all.len() && all[k] == w;
                    if k < old_extra.len() {
                        assert(old_extra[k] == w);
                    }
                }
                assert(texts(sorted@).contains(w) <==> texts(extra@).contains(w));
            }
        }
        let n: usize = merged.len();
        let vocab = Vocab::from_sorted(merged);
        proof {
            vocab.law_vocab_order();
        }
        let mut web_id: Vec<u32> = vec![NONE; n];
        let mut web_to_id: Vec<u32> = Vec::new();
        let total: usize = web.len();
        let mut k: usize = 0;
        while k < total
            invariant
                total == ww.len(),
                ww == web.words.words(),
                ws == vocab.words(),
                vocab.wf(),
                n == ws.len(),
                n <= word_limit(),
                sorted_texts(ww),
                total < NONE,
                forall|i: int, j: int| 0 <= i < j < ws.len() ==> ws[i] != ws[j],
                forall|w: Seq<char>| #[trigger]
                    ws.contains(w) <==> ww.contains(w) || old_extra.contains(w) || w == bos_text(),
                k <= total,
                web_id@.len() == n,
                web_to_id@.len() == k,
                forall|j: int|
                    0 <= j < k ==> id_of(ws, ww[j]) == Some((#[trigger] web_to_id@[j]) as int)
                        && web_to_id@[j] < n,
                forall|id: int|
                    0 <= id < n ==> #[trigger] web_id@[id] == (if ww.take(k as int).contains(ws[id]) {
                        ww.index_of(ws[id]) as u32
                    } else {
                        NONE
                    }),
            decreases total - k,
        {
            let word = web.words.get(k);
            let ghost w = ww[k as int];
            assert(ww.contains(w));
            assert(ws.contains(w));
            match vocab.find(word) {
                Some(id) => {
                    let ghost before = web_id@;
                    proof {
                        let j = ws.index_of(w);
                        assert(ws[j] == w && ws[id as int] == w);
                        if j < id {
                            assert(ws[j] != ws[id as int]);
                        } else if id < j {
                            assert(ws[id as int] != ws[j]);
                        }
                        lemma_sorted_place(ww, k as int);
                    }
                    web_id.set(id as usize, k as u32);
                    web_to_id.push(id);
                    assert forall|i: int| 0 <= i < n implies #[trigger] web_id@[i] == (if ww.take(
                        k + 1,
                    ).contains(ws[i]) {
                        ww.index_of(ws[i]) as u32
                    } else {
                        NONE
                    }) by {
                        let less = ww.take(k as int);
                        let more = ww.take(k + 1);
                        assert(more[k as int] == w);
                        if more.contains(ws[i]) {
                            let j = choose|j: int| 0 <= j < more.len() && more[j] == ws[i];
                            if j < k {
                                assert(less[j] == ws[i]);
                            }
                        }
                        if less.contains(ws[i]) {
                            let j = choose|j: int| 0 <= j < less.len() && less[j] == ws[i];
                            assert(more[j] == ws[i]);
                        }
                        if i != id {
                            assert(ws[i] != w) by {
                                if i < id {
                                    assert(ws[i] != ws[id as int]);
                                } else {
                                    assert(ws[id as int] != ws[i]);
                                }
                            }
                        }
                    }
                },
                None => {
                    assert(false);
                },
            }
            k = k + 1;
        }
        assert(ww.take(k as int) =~= ww);
        let ghost places = web_places(ws, ww);
        assert(web_id@ =~= places);
        let mut trusted: Vec<bool> = Vec::new();
        let mut id: usize = 0;
        while id < n
            invariant
                n == ws.len(),
                n <= word_limit(),
                ws == vocab.words(),
                ww == web.words.words(),
                web.wf(),
                sorted_texts(web.dict_only.words()),
                ww.len() < NONE,
                places == web_places(ws, ww),
                web_id@ == places,
                id <= n,
                trusted@.len() == id,
                forall|i: int|
                    0 <= i < id ==> #[trigger] trusted@[i] == web.trusts(
                        ws[i],
                        web_ref(places[i]),
                    ),
            decreases n - id,
        {
            let wid: u32 = web_id[id];
            proof {
                assert(places[id as int] == wid);
                if ww.contains(ws[id as int]) {
                    assert(ww[ww.index_of(ws[id as int])] == ws[id as int]);
                }
            }
            let place: Option<usize> = if wid == NONE {
                None
            } else {
                Some(wid as usize)
            };
            proof {
                if sorted_texts(web.dict_only.words()) {
                    lemma_sorted_ascends(web.dict_only.words());
                }
            }
            trusted.push(web.trusted(vocab.word(id as u32), place));
            id = id + 1;
        }
        let lexicon = Lexicon {
            vocab,
            raw: vec![0u32; n],
            web_id,
            trusted,
            shadowed: vec![false; n],
            watched: vec![false; n],
        };
        assert(lexicon@ =~= fresh(ws, *web));
        (lexicon, web_to_id)
    }

    /// The same words under new numbers: every table moved along, everything
    /// in the sorted base.
    pub fn renumber(&mut self) -> (remap: Vec<u32>)
        requires
            old(self).wf(),
        ensures
            final(self).wf(),
            renumbers(remap@, old(self)@.words, final(self)@.words),
            final(self).vocab.base() == final(self)@.words.len(),
            forall|id: int|
                0 <= id < old(self)@.words.len() ==> {
                    let to = (#[trigger] remap@[id]) as int;
                    &&& final(self)@.raw[to] == old(self)@.raw[id]
                    &&& final(self)@.web[to] == old(self)@.web[id]
                    &&& final(self)@.trusted[to] == old(self)@.trusted[id]
                    &&& final(self)@.shadowed[to] == old(self)@.shadowed[id]
                    &&& final(self)@.watched[to] == old(self)@.watched[id]
                },
    {
        let ghost start = self@;
        let (vocab, remap) = self.vocab.compacted();
        proof {
            self.vocab.law_vocab_order();
        }
        let n: usize = self.raw.len();
        let mut raw: Vec<u32> = vec![0u32; n];
        let mut web_id: Vec<u32> = vec![NONE; n];
        let mut trusted: Vec<bool> = vec![false; n];
        let mut shadowed: Vec<bool> = vec![false; n];
        let mut watched: Vec<bool> = vec![false; n];
        let mut id: usize = 0;
        while id < n
            invariant
                *self == *old(self),
                self.wf(),
                start == self@,
                n == start.words.len(),
                id <= n,
                renumbers(remap@, start.words, vocab.words()),
                forall|i: int, j: int| 0 <= i < j < n ==> start.words[i] != start.words[j],
                raw@.len() == n,
                web_id@.len() == n,
                trusted@.len() == n,
                shadowed@.len() == n,
                watched@.len() == n,
                forall|i: int|
                    0 <= i < id ==> {
                        let to = (#[trigger] remap@[i]) as int;
                        &&& raw@[to] == start.raw[i]
                        &&& web_id@[to] == start.web[i]
                        &&& trusted@[to] == start.trusted[i]
                        &&& shadowed@[to] == start.shadowed[i]
                        &&& watched@[to] == start.watched[i]
                    },
            decreases n - id,
        {
            let to: usize = remap[id] as usize;
            proof {
                assert(remap@[id as int] < n);
                assert forall|i: int| 0 <= i < id implies #[trigger] remap@[i] != remap@[id as int] by {
                    assert(remap@[i] < n);
                    assert(start.words[i] != start.words[id as int]);
                }
            }
            raw.set(to, self.raw[id]);
            web_id.set(to, self.web_id[id]);
            trusted.set(to, self.trusted[id]);
            shadowed.set(to, self.shadowed[id]);
            watched.set(to, self.watched[id]);
            id = id + 1;
        }
        self.vocab = vocab;
        self.raw = raw;
        self.web_id = web_id;
        self.trusted = trusted;
        self.shadowed = shadowed;
        self.watched = watched;
        remap
    }
}

proof fn lemma_sorted_place(words: Seq<Seq<char>>, k: int)
    requires
        sorted_texts(words),
        0 <= k < words.len(),
    ensures
        words.index_of(words[k]) == k,
{
    assert(words.contains(words[k]));
    let j = words.index_of(words[k]);
    assert(words[j] == words[k]);
    if j != k {
        crate::ngram::order::lemma_lt_irreflexive(vstd::utf8::encode_utf8(words[k]), 0);
    }
}

} // verus!
