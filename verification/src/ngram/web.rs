//! Static web prior: web unigram and bigram counts plus dictionary membership,
//! read from one compressed artifact.
//!
//! Layout of the content, numbers little endian: `PIWP`, version, numbers of
//! words, dictionary-only words, contexts and rows, the sentence-start total
//! (8 bytes), the count of each word, one dictionary bit per word, the context
//! ids, the row count of each context, the follower ids of all rows as
//! differences within their context, the counts of all rows, then the words
//! and the dictionary-only words, one per line. Counts are floating-point bit
//! patterns and stay uninterpreted here, except for their order.

use crate::bytes::{copy_bytes, u32_at, u32s_at, u64_at, Reader};
use crate::ngram::compress::{zstd_content, zstd_decode};
use crate::ngram::order::{
    ascending_texts, lemma_less_spreads, lemma_lt_transitive, lemma_prefix_not_before,
    lemma_prefix_search, prefix_block, sorted_texts, starts_with, text_less,
    text_lt, text_starts,
};
use crate::ngram::vocab::texts;
use crate::prose::{lemma_line_end, line_end};
use crate::unicode::{chars_of, same_text, string_of, text_from_utf8};
use vstd::prelude::*;
use vstd::utf8::{encode_utf8, valid_utf8, decode_utf8, encode_utf8_decode_utf8, encode_utf8_valid_utf8};

verus! {

/// Version of the artifact.
pub const VERSION: u32 = 1;

/// Bit pattern of 200 000: from this count on a word is trusted as a real
/// spelling even outside the dictionary.
pub const TRUSTED_WEB_COUNT: u32 = 0x4843_5000;

/// Bit pattern of infinity: no larger pattern is a non-negative number.
pub const INFINITE_BITS: u32 = 0x7f80_0000;

/// No bigram slot.
pub const NO_SLOT: u32 = u32::MAX;

/// Why an artifact cannot be read.
#[derive(Clone, Copy, Debug, PartialEq, Eq, Structural)]
pub enum WebError {
    /// Not a zstd frame.
    Compression,
    /// Fewer bytes than the numbers ask for.
    Truncated,
    /// Another kind of file.
    BadMagic,
    /// Another version.
    Version(u32),
    /// Fewer lines than words.
    WordListTruncated,
    /// A word list that is not text.
    NotUtf8,
    /// A word list of another length.
    WordCount,
    /// A context id beyond the words.
    ContextOutOfRange,
    /// Fewer rows than the contexts ask for.
    RowsTruncated,
    /// A follower id beyond the words.
    FollowerOutOfRange,
    /// More rows than the contexts ask for.
    RowCount,
}

/// The lines of `text` from `from` on, each ended by a newline; the last may
/// lack it.
pub open spec fn terminated_lines(text: Seq<char>, from: int) -> Seq<Seq<char>>
    decreases text.len() - from,
    when 0 <= from
{
    if from >= text.len() {
        Seq::empty()
    } else {
        proof {
            lemma_line_end(text, from);
        }
        let nl = line_end(text, from);
        if nl >= text.len() {
            seq![text.subrange(from, nl)]
        } else {
            seq![text.subrange(from, nl)] + terminated_lines(text, nl + 1)
        }
    }
}

/// Sorted word list.
pub struct SortedWords {
    words: Vec<String>,
}

impl SortedWords {
    /// The words in order.
    pub closed spec fn words(&self) -> Seq<Seq<char>> {
        texts(self.words@)
    }

    /// The words of `blob`, one per line, which must be `count`.
    pub fn parse(blob: Vec<u8>, count: usize) -> (r: Result<SortedWords, WebError>)
        ensures
            match r {
                Ok(list) => {
                    &&& valid_utf8(blob@)
                    &&& list.words() == terminated_lines(decode_utf8(blob@), 0)
                    &&& list.words().len() == count
                },
                Err(WebError::NotUtf8) => !valid_utf8(blob@),
                Err(WebError::WordCount) => valid_utf8(blob@) && terminated_lines(
                    decode_utf8(blob@),
                    0,
                ).len() != count,
                Err(_) => false,
            },
    {
        let ghost raw = blob@;
        let text = match text_from_utf8(blob) {
            None => {
                return Err(WebError::NotUtf8);
            },
            Some(text) => text,
        };
        proof {
            encode_utf8_valid_utf8(text@);
            encode_utf8_decode_utf8(text@);
        }
        let chars = chars_of(text.as_str());
        let mut words: Vec<String> = Vec::new();
        let mut from: usize = 0;
        assert(texts(words@) + terminated_lines(chars@, 0) =~= terminated_lines(chars@, 0));
        while from < chars.len()
            invariant
                from <= chars@.len(),
                texts(words@) + terminated_lines(chars@, from as int) == terminated_lines(
                    chars@,
                    0,
                ),
            decreases chars@.len() - from,
        {
            let mut nl: usize = from;
            while nl < chars.len() && chars[nl] != '\n'
                invariant
                    from <= nl <= chars@.len(),
                    line_end(chars@, from as int) == line_end(chars@, nl as int),
                decreases chars@.len() - nl,
            {
                nl = nl + 1;
            }
            let ghost before = words@;
            let word = string_of(&chars[from..nl]);
            words.push(word);
            assert(texts(words@) =~= texts(before).push(chars@.subrange(from as int, nl as int)));
            let next: usize = if nl < chars.len() {
                nl + 1
            } else {
                nl
            };
            assert(texts(words@) + terminated_lines(chars@, next as int) =~= texts(before)
                + terminated_lines(chars@, from as int));
            from = next;
        }
        assert(texts(words@) + terminated_lines(chars@, from as int) =~= texts(words@));
        if words.len() != count {
            return Err(WebError::WordCount);
        }
        Ok(SortedWords { words })
    }

    /// Number of words.
    pub fn len(&self) -> (n: usize)
        ensures
            n == self.words().len(),
    {
        self.words.len()
    }

    /// The words as a list.
    pub fn list(&self) -> (words: &Vec<String>)
        ensures
            texts(words@) == self.words(),
    {
        &self.words
    }

    /// Whether the words are in byte order, each once.
    pub fn in_order(&self) -> (r: bool)
        ensures
            r == sorted_texts(self.words()),
    {
        let ghost all = self.words();
        let mut i: usize = 1;
        while i < self.words.len()
            invariant
                all == self.words(),
                1 <= i,
                forall|a: int, b: int|
                    #![trigger all[a], all[b]]
                    0 <= a < b < i && b < all.len() ==> text_lt(all[a], all[b]),
            decreases all.len() - i,
        {
            if !text_less(self.get(i - 1), self.get(i)) {
                assert(!text_lt(all[i - 1], all[i as int]));
                return false;
            }
            assert forall|a: int, b: int|
                #![trigger all[a], all[b]]
                0 <= a < b < i + 1 && b < all.len() implies text_lt(all[a], all[b]) by {
                if b == i && a < i - 1 {
                    assert(text_lt(all[a], all[i - 1]));
                    lemma_lt_transitive(
                        encode_utf8(all[a]),
                        encode_utf8(all[i - 1]),
                        encode_utf8(all[b]),
                        0,
                    );
                }
            }
            i = i + 1;
        }
        true
    }

    /// Word `i`.
    pub fn get(&self, i: usize) -> (w: &str)
        requires
            i < self.words().len(),
        ensures
            w@ == self.words()[i as int],
    {
        self.words[i].as_str()
    }

    /// Index range of the words starting with `prefix`; it starts where they
    /// would stand.
    pub fn range(&self, prefix: &str) -> (r: (usize, usize))
        ensures
            r.0 <= r.1 <= self.words().len(),
            ascending_texts(self.words()) ==> prefix_block(
                self.words(),
                prefix@,
                r.0 as int,
                r.1 as int,
            ) && bounds_below(self.words(), prefix@, r.0 as int),
    {
        let ghost all = self.words();
        let lo = self.lower_bound(prefix);
        let mut a: usize = lo;
        let mut b: usize = self.words.len();
        proof {
            assert forall|i: int| 0 <= i < lo && ascending_texts(all) implies !starts_with(
                #[trigger] all[i],
                prefix@,
            ) by {
                if starts_with(all[i], prefix@) {
                    lemma_prefix_not_before(encode_utf8(prefix@), encode_utf8(all[i]), 0);
                }
            }
        }
        while a < b
            invariant
                all == self.words(),
                lo <= a <= b <= all.len(),
                ascending_texts(all) ==> {
                    &&& bounds_below(all, prefix@, lo as int)
                    &&& forall|k: int| 0 <= k < lo ==> !starts_with(#[trigger] all[k], prefix@)
                    &&& forall|k: int| lo <= k < a ==> starts_with(#[trigger] all[k], prefix@)
                    &&& forall|k: int|
                        b <= k < all.len() ==> !starts_with(#[trigger] all[k], prefix@)
                },
            decreases b - a,
        {
            let mid: usize = a + (b - a) / 2;
            proof {
                if ascending_texts(all) {
                    lemma_prefix_search(all, prefix@, lo as int, mid as int);
                }
            }
            if text_starts(self.get(mid), prefix) {
                a = mid + 1;
            } else {
                b = mid;
            }
        }
        (lo, a)
    }

    /// First index whose word is `>= key`.
    pub fn lower_bound(&self, key: &str) -> (at: usize)
        ensures
            at <= self.words().len(),
            ascending_texts(self.words()) ==> bounds_below(self.words(), key@, at as int),
    {
        let ghost all = self.words();
        let mut lo: usize = 0;
        let mut hi: usize = self.words.len();
        while lo < hi
            invariant
                all == self.words(),
                lo <= hi <= all.len(),
                ascending_texts(all) ==> {
                    &&& forall|k: int| 0 <= k < lo ==> text_lt(#[trigger] all[k], key@)
                    &&& forall|k: int| hi <= k < all.len() ==> !text_lt(#[trigger] all[k], key@)
                },
            decreases hi - lo,
        {
            let mid: usize = lo + (hi - lo) / 2;
            let less = text_less(self.get(mid), key);
            proof {
                if ascending_texts(all) {
                    assert forall|k: int| 0 <= k < mid && less implies text_lt(
                        #[trigger] all[k],
                        key@,
                    ) by {
                        lemma_less_spreads(all, key@, k, mid as int);
                    }
                    assert forall|k: int| mid < k < all.len() && !less implies !text_lt(
                        #[trigger] all[k],
                        key@,
                    ) by {
                        lemma_less_spreads(all, key@, mid as int, k);
                    }
                }
            }
            if less {
                lo = mid + 1;
            } else {
                hi = mid;
            }
        }
        lo
    }

    /// First index of `word`.
    pub fn find(&self, word: &str) -> (at: Option<usize>)
        ensures
            match at {
                Some(i) => {
                    &&& i < self.words().len()
                    &&& self.words()[i as int] == word@
                    &&& ascending_texts(self.words()) ==> forall|k: int|
                        0 <= k < i ==> #[trigger] self.words()[k] != word@
                },
                None => ascending_texts(self.words()) ==> !self.words().contains(word@),
            },
    {
        let at = self.lower_bound(word);
        proof {
            crate::ngram::order::lemma_lt_irreflexive(encode_utf8(word@), 0);
        }
        if at < self.words.len() && same_text(self.get(at), word) {
            Some(at)
        } else {
            proof {
                let all = self.words();
                if ascending_texts(all) && all.contains(word@) {
                    let i = choose|i: int| 0 <= i < all.len() && all[i] == word@;
                    assert(i >= at);
                    if i > at {
                        assert(!text_lt(all[i], all[at as int]));
                        crate::ngram::order::lemma_text_total(all[at as int], word@);
                    }
                }
            }
            None
        }
    }
}

/// The words before `at`, and no others, come before `key`.
pub open spec fn bounds_below(words: Seq<Seq<char>>, key: Seq<char>, at: int) -> bool {
    &&& 0 <= at <= words.len()
    &&& forall|k: int| 0 <= k < at ==> text_lt(#[trigger] words[k], key)
    &&& forall|k: int| at <= k < words.len() ==> !text_lt(#[trigger] words[k], key)
}

// ---------------------------------------------------------------------------
// Layout
// ---------------------------------------------------------------------------
/// Where the parts of an artifact's content start.
pub open spec fn word_count(raw: Seq<u8>) -> int {
    u32_at(raw, 8)
}

pub open spec fn dict_only_count(raw: Seq<u8>) -> int {
    u32_at(raw, 12)
}

pub open spec fn context_count(raw: Seq<u8>) -> int {
    u32_at(raw, 16)
}

pub open spec fn row_count(raw: Seq<u8>) -> int {
    u32_at(raw, 20)
}

pub open spec fn dict_at(raw: Seq<u8>) -> int {
    32 + 4 * word_count(raw)
}

pub open spec fn dict_bytes(raw: Seq<u8>) -> int {
    (word_count(raw) + 7) / 8
}

pub open spec fn contexts_at(raw: Seq<u8>) -> int {
    dict_at(raw) + dict_bytes(raw)
}

pub open spec fn lengths_at(raw: Seq<u8>) -> int {
    contexts_at(raw) + 4 * context_count(raw)
}

pub open spec fn deltas_at(raw: Seq<u8>) -> int {
    lengths_at(raw) + 4 * context_count(raw)
}

pub open spec fn rows_at(raw: Seq<u8>) -> int {
    deltas_at(raw) + 4 * row_count(raw)
}

pub open spec fn words_at(raw: Seq<u8>) -> int {
    rows_at(raw) + 4 * row_count(raw)
}

/// Behind the `count`-th newline from `at` on.
pub open spec fn lines_end(raw: Seq<u8>, at: int, count: int) -> Option<int>
    decreases raw.len() - at,
{
    if count <= 0 {
        Some(at)
    } else if !(0 <= at < raw.len()) {
        None
    } else {
        lines_end(
            raw,
            at + 1,
            if raw[at] == 10 {
                count - 1
            } else {
                count
            },
        )
    }
}

pub open spec fn dict_words_at(raw: Seq<u8>) -> Option<int> {
    lines_end(raw, words_at(raw), word_count(raw))
}

pub open spec fn content_end(raw: Seq<u8>) -> Option<int> {
    match dict_words_at(raw) {
        Some(at) => lines_end(raw, at, dict_only_count(raw)),
        None => None,
    }
}

/// Follower id of the `i`-th row of a context whose rows start at `row`.
pub open spec fn follower_at(deltas: Seq<u32>, row: int, i: int) -> int
    decreases i,
{
    if i <= 0 {
        deltas[row] as int
    } else {
        follower_at(deltas, row, i - 1) + deltas[row + i]
    }
}

/// What is wrong with the rows of a context from the `i`-th on.
pub open spec fn rows_error(deltas: Seq<u32>, words: int, row: int, len: int, i: int) -> Option<
    WebError,
>
    decreases len - i,
{
    if i >= len {
        None
    } else if row + i >= deltas.len() {
        Some(WebError::RowsTruncated)
    } else if follower_at(deltas, row, i) >= words {
        Some(WebError::FollowerOutOfRange)
    } else {
        rows_error(deltas, words, row, len, i + 1)
    }
}

/// First row of context `s`.
pub open spec fn first_row(lengths: Seq<u32>, s: int) -> int
    decreases s,
{
    if s <= 0 {
        0
    } else {
        first_row(lengths, s - 1) + lengths[s - 1]
    }
}

/// What is wrong with the contexts from `s` on.
pub open spec fn contexts_error(
    contexts: Seq<u32>,
    lengths: Seq<u32>,
    deltas: Seq<u32>,
    words: int,
    s: int,
) -> Option<WebError>
    decreases contexts.len() - s,
{
    if s >= contexts.len() {
        if first_row(lengths, s) != deltas.len() {
            Some(WebError::RowCount)
        } else {
            None
        }
    } else if contexts[s] > words {
        Some(WebError::ContextOutOfRange)
    } else {
        match rows_error(deltas, words, first_row(lengths, s), lengths[s] as int, 0) {
            Some(e) => Some(e),
            None => contexts_error(contexts, lengths, deltas, words, s + 1),
        }
    }
}

/// The last of the first `s` contexts that is context `id`.
pub open spec fn slot_of(contexts: Seq<u32>, s: int, id: int) -> u32
    decreases s,
{
    if s <= 0 {
        NO_SLOT
    } else if contexts[s - 1] == id {
        (s - 1) as u32
    } else {
        slot_of(contexts, s - 1, id)
    }
}

pub open spec fn contexts_of(raw: Seq<u8>) -> Seq<u32> {
    u32s_at(raw, contexts_at(raw), context_count(raw) as nat)
}

pub open spec fn lengths_of(raw: Seq<u8>) -> Seq<u32> {
    u32s_at(raw, lengths_at(raw), context_count(raw) as nat)
}

pub open spec fn deltas_of(raw: Seq<u8>) -> Seq<u32> {
    u32s_at(raw, deltas_at(raw), row_count(raw) as nat)
}

/// `raw` starts with the bytes `PIWP`.
pub open spec fn has_magic(raw: Seq<u8>) -> bool {
    raw[0] == 0x50 && raw[1] == 0x49 && raw[2] == 0x57 && raw[3] == 0x50
}

/// The first thing that is wrong with an artifact's content.
pub open spec fn content_error(raw: Seq<u8>) -> Option<WebError> {
    if raw.len() < 4 {
        Some(WebError::Truncated)
    } else if !has_magic(raw) {
        Some(WebError::BadMagic)
    } else if raw.len() < 8 {
        Some(WebError::Truncated)
    } else if u32_at(raw, 4) != VERSION {
        Some(WebError::Version(u32_at(raw, 4) as u32))
    } else if raw.len() < 24 || raw.len() < words_at(raw) {
        Some(WebError::Truncated)
    } else {
        match dict_words_at(raw) {
            None => Some(WebError::WordListTruncated),
            Some(mid) => {
                if !valid_utf8(raw.subrange(words_at(raw), mid)) {
                    Some(WebError::NotUtf8)
                } else if word_list(raw).len() != word_count(raw) {
                    Some(WebError::WordCount)
                } else {
                    match content_end(raw) {
                        None => Some(WebError::WordListTruncated),
                        Some(end) => {
                            if !valid_utf8(raw.subrange(mid, end)) {
                                Some(WebError::NotUtf8)
                            } else if dict_list(raw).len() != dict_only_count(raw) {
                                Some(WebError::WordCount)
                            } else {
                                contexts_error(
                                    contexts_of(raw),
                                    lengths_of(raw),
                                    deltas_of(raw),
                                    word_count(raw),
                                    0,
                                )
                            }
                        },
                    }
                }
            },
        }
    }
}

/// The vocabulary in an artifact's content.
pub open spec fn word_list(raw: Seq<u8>) -> Seq<Seq<char>> {
    terminated_lines(decode_utf8(raw.subrange(words_at(raw), dict_words_at(raw)->0)), 0)
}

/// The dictionary words outside the vocabulary.
pub open spec fn dict_list(raw: Seq<u8>) -> Seq<Seq<char>> {
    terminated_lines(decode_utf8(raw.subrange(dict_words_at(raw)->0, content_end(raw)->0)), 0)
}

/// Web unigram and bigram statistics indexed by web id (lexicographic rank).
pub struct WebPrior {
    /// Vocabulary in byte order.
    pub words: SortedWords,
    /// Count per word, as a bit pattern.
    pub count: Vec<u32>,
    /// Dictionary membership, one bit per word.
    pub dict_bits: Vec<u8>,
    /// Dictionary words outside the vocabulary.
    pub dict_only: SortedWords,
    /// Bigram slot per context word (index `len()` = sentence start).
    pub slot: Vec<u32>,
    /// Follower rows per slot: `start[slot]..start[slot + 1]`.
    pub start: Vec<u32>,
    /// Follower web ids, ascending within a slot.
    pub follower: Vec<u32>,
    /// Count per row, as a bit pattern.
    pub row_count: Vec<u32>,
    /// Total of the sentence-start rows, as a bit pattern.
    pub sentence_total: u64,
}

impl WebPrior {
    /// Every table has its length, every slot its rows, every row a word, and
    /// the rows of a slot ascend.
    pub open spec fn wf(&self) -> bool {
        let n = self.words.words().len();
        &&& self.count@.len() == n
        &&& self.dict_bits@.len() == (n + 7) / 8
        &&& self.slot@.len() == n + 1
        &&& self.start@.len() >= 1
        &&& forall|i: int|
            0 <= i <= n ==> #[trigger] self.slot@[i] == NO_SLOT || self.slot@[i] < self.start@.len()
                - 1
        &&& forall|a: int, b: int|
            #![trigger self.start@[a], self.start@[b]]
            0 <= a <= b < self.start@.len() ==> self.start@[a] <= self.start@[b]
        &&& self.start@[self.start@.len() - 1] == self.follower@.len()
        &&& self.row_count@.len() == self.follower@.len()
        &&& forall|r: int| 0 <= r < self.follower@.len() ==> #[trigger] self.follower@[r] < n
        &&& forall|s: int, a: int, b: int|
            #![trigger self.start@[s], self.follower@[a], self.follower@[b]]
            0 <= s < self.start@.len() - 1 && self.start@[s] <= a <= b < self.start@[s + 1]
                ==> self.follower@[a] <= self.follower@[b]
    }

    /// The tables are those of the artifact content `raw`.
    pub open spec fn reads(&self, raw: Seq<u8>) -> bool {
        let n = word_count(raw);
        &&& self.words.words() == word_list(raw)
        &&& self.words.words().len() == n
        &&& self.dict_only.words() == dict_list(raw)
        &&& self.count@ == u32s_at(raw, 32, n as nat)
        &&& self.dict_bits@ == raw.subrange(dict_at(raw), contexts_at(raw))
        &&& self.sentence_total == u64_at(raw, 24)
        &&& self.row_count@ == u32s_at(raw, rows_at(raw), row_count(raw) as nat)
        &&& self.slot@ == Seq::new(
            (n + 1) as nat,
            |id: int| slot_of(contexts_of(raw), context_count(raw), id),
        )
        &&& self.start@.len() == context_count(raw) + 1
        &&& forall|s: int|
            0 <= s <= context_count(raw) ==> #[trigger] self.start@[s] == first_row(
                lengths_of(raw),
                s,
            )
        &&& self.follower@.len() == row_count(raw)
        &&& forall|s: int, i: int|
            0 <= s < context_count(raw) && 0 <= i < lengths_of(raw)[s] ==> self.follower@[first_row(
                lengths_of(raw),
                s,
            ) + i] == #[trigger] follower_at(deltas_of(raw), first_row(lengths_of(raw), s), i)
    }
}

/// The bytes up to the `count`-th newline from the cursor on.
fn read_lines(r: &mut Reader, count: usize) -> (blob: Option<Vec<u8>>)
    requires
        old(r).wf(),
    ensures
        final(r).wf(),
        final(r).bytes == old(r).bytes,
        match blob {
            Some(b) => {
                &&& lines_end(old(r).bytes@, old(r).at as int, count as int) == Some(
                    final(r).at as int,
                )
                &&& old(r).at <= final(r).at
                &&& b@ == old(r).bytes@.subrange(old(r).at as int, final(r).at as int)
            },
            None => lines_end(old(r).bytes@, old(r).at as int, count as int) is None,
        },
{
    let bytes = r.bytes;
    let start: usize = r.at;
    let mut at: usize = start;
    let mut left: usize = count;
    while left > 0 && at < bytes.len()
        invariant
            start <= at <= bytes@.len(),
            lines_end(bytes@, start as int, count as int) == lines_end(
                bytes@,
                at as int,
                left as int,
            ),
        decreases bytes@.len() - at,
    {
        if bytes[at] == 10 {
            left = left - 1;
        }
        at = at + 1;
    }
    if left > 0 {
        return None;
    }
    r.at = at;
    Some(copy_bytes(&bytes[start..at]))
}

proof fn lemma_follower_grows(deltas: Seq<u32>, row: int, i: int, j: int)
    requires
        0 <= i <= j,
    ensures
        follower_at(deltas, row, i) <= follower_at(deltas, row, j),
    decreases j,
{
    if i < j {
        lemma_follower_grows(deltas, row, i, j - 1);
    }
}

proof fn lemma_first_row_grows(lengths: Seq<u32>, a: int, b: int)
    requires
        0 <= a <= b,
    ensures
        0 <= first_row(lengths, a) <= first_row(lengths, b),
    decreases b,
{
    if a < b {
        lemma_first_row_grows(lengths, a, b - 1);
    } else if a > 0 {
        lemma_first_row_grows(lengths, a - 1, b - 1);
    }
}

/// Bigram slots, row starts and follower ids.
struct Bigrams {
    slot: Vec<u32>,
    start: Vec<u32>,
    follower: Vec<u32>,
}

fn read_bigrams(contexts: &Vec<u32>, lengths: &Vec<u32>, deltas: &Vec<u32>, words: u32) -> (r: Result<
    Bigrams,
    WebError,
>)
    requires
        contexts@.len() == lengths@.len(),
        contexts@.len() <= u32::MAX,
        deltas@.len() <= u32::MAX,
        words < usize::MAX,
    ensures
        match r {
            Err(e) => contexts_error(contexts@, lengths@, deltas@, words as int, 0) == Some(e),
            Ok(b) => {
                &&& contexts_error(contexts@, lengths@, deltas@, words as int, 0) is None
                &&& b.slot@ == Seq::new(
                    (words + 1) as nat,
                    |id: int| slot_of(contexts@, contexts@.len() as int, id),
                )
                &&& b.start@.len() == contexts@.len() + 1
                &&& forall|s: int|
                    0 <= s <= contexts@.len() ==> #[trigger] b.start@[s] == first_row(lengths@, s)
                &&& first_row(lengths@, contexts@.len() as int) == deltas@.len()
                &&& b.follower@.len() == deltas@.len()
                &&& forall|s: int, i: int|
                    0 <= s < contexts@.len() && 0 <= i < lengths@[s]
                        ==> b.follower@[first_row(lengths@, s) + i] == #[trigger] follower_at(
                        deltas@,
                        first_row(lengths@, s),
                        i,
                    )
                &&& forall|k: int| 0 <= k < deltas@.len() ==> #[trigger] b.follower@[k] < words
            },
        },
{
    let size: usize = words as usize + 1;
    let mut slot: Vec<u32> = vec![NO_SLOT; size];
    let mut start: Vec<u32> = Vec::new();
    let mut follower: Vec<u32> = Vec::new();
    let mut row: usize = 0;
    let mut s: usize = 0;
    let count: usize = contexts.len();
    assert(slot@ =~= Seq::new((words + 1) as nat, |id: int| slot_of(contexts@, 0, id)));
    while s < count
        invariant
            count == contexts@.len(),
            contexts@.len() == lengths@.len(),
            contexts@.len() <= u32::MAX,
            deltas@.len() <= u32::MAX,
            words < usize::MAX,
            s <= count,
            contexts_error(contexts@, lengths@, deltas@, words as int, 0) == contexts_error(
                contexts@,
                lengths@,
                deltas@,
                words as int,
                s as int,
            ),
            row == first_row(lengths@, s as int),
            row <= deltas@.len(),
            slot@ == Seq::new((words + 1) as nat, |id: int| slot_of(contexts@, s as int, id)),
            start@.len() == s,
            forall|k: int| 0 <= k < s ==> #[trigger] start@[k] == first_row(lengths@, k),
            follower@.len() == row,
            forall|t: int, i: int|
                0 <= t < s && 0 <= i < lengths@[t] ==> follower@[first_row(lengths@, t) + i]
                    == #[trigger] follower_at(deltas@, first_row(lengths@, t), i),
            forall|k: int| 0 <= k < row ==> #[trigger] follower@[k] < words,
        decreases count - s,
    {
        let ctx: u32 = contexts[s];
        let len: usize = lengths[s] as usize;
        if ctx > words {
            return Err(WebError::ContextOutOfRange);
        }
        slot.set(ctx as usize, s as u32);
        assert(slot@ =~= Seq::new((words + 1) as nat, |id: int| slot_of(contexts@, s + 1, id)));
        start.push(row as u32);
        let ghost prior = follower@;
        let mut id: u32 = 0;
        let mut i: usize = 0;
        while i < len
            invariant
                s < count,
                count == contexts@.len(),
                contexts@.len() == lengths@.len(),
                contexts@[s as int] <= words,
                len == lengths@[s as int],
                i <= len,
                row == first_row(lengths@, s as int),
                row + i <= deltas@.len(),
                deltas@.len() <= u32::MAX,
                contexts_error(contexts@, lengths@, deltas@, words as int, 0) == contexts_error(
                    contexts@,
                    lengths@,
                    deltas@,
                    words as int,
                    s as int,
                ),
                rows_error(deltas@, words as int, row as int, len as int, 0) == rows_error(
                    deltas@,
                    words as int,
                    row as int,
                    len as int,
                    i as int,
                ),
                i > 0 ==> id == follower_at(deltas@, row as int, i - 1),
                prior.len() == row,
                follower@.len() == row + i,
                forall|k: int| 0 <= k < row ==> follower@[k] == prior[k],
                forall|k: int|
                    0 <= k < i ==> follower@[row + k] == #[trigger] follower_at(
                        deltas@,
                        row as int,
                        k,
                    ),
                forall|k: int| 0 <= k < row + i ==> #[trigger] follower@[k] < words,
            decreases len - i,
        {
            if i >= deltas.len() - row {
                return Err(WebError::RowsTruncated);
            }
            let delta: u32 = deltas[row + i];
            let next: u64 = if i == 0 {
                delta as u64
            } else {
                id as u64 + delta as u64
            };
            assert(next == follower_at(deltas@, row as int, i as int));
            if next >= words as u64 {
                return Err(WebError::FollowerOutOfRange);
            }
            id = next as u32;
            follower.push(id);
            i = i + 1;
        }
        proof {
            assert(first_row(lengths@, s + 1) == row + len);
            assert forall|t: int, k: int|
                0 <= t < s + 1 && 0 <= k < lengths@[t] implies follower@[first_row(lengths@, t) + k]
                == #[trigger] follower_at(deltas@, first_row(lengths@, t), k) by {
                if t < s {
                    lemma_first_row_grows(lengths@, t + 1, s as int);
                    lemma_first_row_grows(lengths@, 0, t);
                    assert(follower@[first_row(lengths@, t) + k] == prior[first_row(lengths@, t)
                        + k]);
                }
            }
        }
        row = row + len;
        s = s + 1;
    }
    if row != deltas.len() {
        return Err(WebError::RowCount);
    }
    start.push(row as u32);
    Ok(Bigrams { slot, start, follower })
}

proof fn lemma_slot_range(contexts: Seq<u32>, s: int, id: int)
    requires
        0 <= s <= contexts.len(),
        s <= u32::MAX,
    ensures
        slot_of(contexts, s, id) == NO_SLOT || slot_of(contexts, s, id) < s,
    decreases s,
{
    if s > 0 {
        lemma_slot_range(contexts, s - 1, id);
    }
}

impl WebPrior {
    /// Reads the content of an artifact.
    pub fn read(raw: &[u8]) -> (r: Result<WebPrior, WebError>)
        ensures
            match r {
                Ok(prior) => content_error(raw@) is None && prior.reads(raw@) && prior.wf(),
                Err(e) => content_error(raw@) == Some(e),
            },
    {
        let mut r = Reader::new(raw);
        match r.take(4) {
            None => {
                return Err(WebError::Truncated);
            },
            Some(m) => {
                assert(m@[0] == raw@[0] && m@[1] == raw@[1] && m@[2] == raw@[2] && m@[3]
                    == raw@[3]);
                if !(m[0] == 0x50 && m[1] == 0x49 && m[2] == 0x57 && m[3] == 0x50) {
                    return Err(WebError::BadMagic);
                }
            },
        }
        match r.u32() {
            None => {
                return Err(WebError::Truncated);
            },
            Some(version) => {
                if version != VERSION {
                    return Err(WebError::Version(version));
                }
            },
        }
        let (n, n_dict, n_ctx, n_rows) = match (r.u32(), r.u32(), r.u32(), r.u32()) {
            (Some(a), Some(b), Some(c), Some(d)) => (a, b, c, d),
            _ => {
                return Err(WebError::Truncated);
            },
        };
        let sentence_total: u64 = match r.u64() {
            None => {
                return Err(WebError::Truncated);
            },
            Some(x) => x,
        };
        let count = match r.u32s(n as usize) {
            None => {
                return Err(WebError::Truncated);
            },
            Some(x) => x,
        };
        assert(r.at == dict_at(raw@));
        let bits: usize = (n / 8) as usize + (if n % 8 == 0 {
            0
        } else {
            1
        });
        assert(bits == dict_bytes(raw@));
        let dict_bits = match r.take(bits) {
            None => {
                return Err(WebError::Truncated);
            },
            Some(x) => copy_bytes(x),
        };
        let contexts = match r.u32s(n_ctx as usize) {
            None => {
                return Err(WebError::Truncated);
            },
            Some(x) => x,
        };
        let lengths = match r.u32s(n_ctx as usize) {
            None => {
                return Err(WebError::Truncated);
            },
            Some(x) => x,
        };
        let deltas = match r.u32s(n_rows as usize) {
            None => {
                return Err(WebError::Truncated);
            },
            Some(x) => x,
        };
        let row_counts = match r.u32s(n_rows as usize) {
            None => {
                return Err(WebError::Truncated);
            },
            Some(x) => x,
        };
        assert(r.at == words_at(raw@));
        let words = match read_lines(&mut r, n as usize) {
            None => {
                return Err(WebError::WordListTruncated);
            },
            Some(blob) => SortedWords::parse(blob, n as usize)?,
        };
        let dict_only = match read_lines(&mut r, n_dict as usize) {
            None => {
                return Err(WebError::WordListTruncated);
            },
            Some(blob) => SortedWords::parse(blob, n_dict as usize)?,
        };
        assert(n < usize::MAX) by {
            assert(count@.len() == n);
        }
        let b = read_bigrams(&contexts, &lengths, &deltas, n)?;
        let prior = WebPrior {
            words,
            count,
            dict_bits,
            dict_only,
            slot: b.slot,
            start: b.start,
            follower: b.follower,
            row_count: row_counts,
            sentence_total,
        };
        proof {
            prior.lemma_reads_wf(raw@);
        }
        Ok(prior)
    }

    proof fn lemma_reads_wf(&self, raw: Seq<u8>)
        requires
            self.reads(raw),
            content_error(raw) is None,
            first_row(lengths_of(raw), context_count(raw)) == row_count(raw),
            forall|k: int|
                0 <= k < row_count(raw) ==> #[trigger] self.follower@[k] < word_count(raw),
        ensures
            self.wf(),
    {
        let lengths = lengths_of(raw);
        let deltas = deltas_of(raw);
        let contexts = contexts_of(raw);
        let n = word_count(raw);
        assert forall|i: int| 0 <= i <= n implies #[trigger] self.slot@[i] == NO_SLOT
            || self.slot@[i] < self.start@.len() - 1 by {
            lemma_slot_range(contexts, context_count(raw), i);
        }
        assert forall|a: int, b: int|
            #![trigger self.start@[a], self.start@[b]]
            0 <= a <= b < self.start@.len() implies self.start@[a] <= self.start@[b] by {
            lemma_first_row_grows(lengths, a, b);
        }
        assert forall|s: int, a: int, b: int|
            #![trigger self.start@[s], self.follower@[a], self.follower@[b]]
            0 <= s < self.start@.len() - 1 && self.start@[s] <= a <= b < self.start@[s
                + 1] implies self.follower@[a] <= self.follower@[b] by {
            let row = first_row(lengths, s);
            assert(self.start@[s + 1] == first_row(lengths, s + 1));
            assert(first_row(lengths, s + 1) == row + lengths[s]);
            lemma_follower_grows(deltas, row, a - row, b - row);
            assert(self.follower@[row + (a - row)] == follower_at(deltas, row, a - row));
            assert(self.follower@[row + (b - row)] == follower_at(deltas, row, b - row));
        }
    }

    /// Decodes a compressed artifact.
    pub fn decode(artifact: &[u8]) -> (r: Result<WebPrior, WebError>)
        ensures
            match zstd_content(artifact@) {
                None => r == Err::<WebPrior, WebError>(WebError::Compression),
                Some(raw) => match r {
                    Ok(prior) => content_error(raw) is None && prior.reads(raw) && prior.wf(),
                    Err(e) => content_error(raw) == Some(e),
                },
            },
    {
        match zstd_decode(artifact) {
            None => Err(WebError::Compression),
            Some(raw) => WebPrior::read(&raw),
        }
    }

    /// Number of vocabulary words.
    pub fn len(&self) -> (n: usize)
        ensures
            n == self.words.words().len(),
    {
        self.words.len()
    }

    /// The dictionary bit of web word `id`.
    pub open spec fn dict_bit(&self, id: int) -> bool {
        (self.dict_bits@[id / 8] >> ((id % 8) as u8)) & 1 == 1
    }

    /// Whether web word `id` is a dictionary word.
    pub fn in_dict(&self, id: usize) -> (r: bool)
        requires
            self.wf(),
            id < self.words.words().len(),
        ensures
            r == self.dict_bit(id as int),
    {
        (self.dict_bits[id / 8] >> ((id % 8) as u8)) & 1 == 1
    }

    /// A real spelling: in the dictionary, or frequent on the web.
    pub open spec fn trusts(&self, word: Seq<char>, web_id: Option<usize>) -> bool {
        match web_id {
            Some(id) => self.dict_bit(id as int) || TRUSTED_WEB_COUNT <= self.count@[id as int]
                <= INFINITE_BITS,
            None => self.dict_only.words().contains(word),
        }
    }

    /// Whether `word` (lowercase) is a real spelling: in the dictionary, or at
    /// least [`TRUSTED_WEB_COUNT`] on the web. `web_id` is its web id.
    pub fn trusted(&self, word: &str, web_id: Option<usize>) -> (r: bool)
        requires
            self.wf(),
            web_id is Some ==> web_id->0 < self.words.words().len(),
        ensures
            r ==> self.trusts(word@, web_id),
            web_id is Some || ascending_texts(self.dict_only.words()) ==> r == self.trusts(
                word@,
                web_id,
            ),
    {
        match web_id {
            Some(id) => self.in_dict(id) || (TRUSTED_WEB_COUNT <= self.count[id] && self.count[id]
                <= INFINITE_BITS),
            None => self.dict_only.find(word).is_some(),
        }
    }

    /// Bigram slot of context web id `id` (`len()` = sentence start).
    pub fn slot(&self, id: usize) -> (s: u32)
        requires
            self.wf(),
            id <= self.words.words().len(),
        ensures
            s == self.slot@[id as int],
            s == NO_SLOT || s < self.start@.len() - 1,
    {
        self.slot[id]
    }

    /// Row range of `slot`.
    pub fn rows(&self, slot: u32) -> (r: (usize, usize))
        requires
            self.wf(),
            slot < self.start@.len() - 1,
        ensures
            r.0 == self.start@[slot as int],
            r.1 == self.start@[slot + 1],
            r.0 <= r.1 <= self.follower@.len(),
    {
        let last: usize = self.start.len() - 1;
        assert(self.start@[slot as int] <= self.start@[slot + 1]);
        assert(self.start@[slot + 1] <= self.start@[last as int]);
        (self.start[slot as usize] as usize, self.start[slot as usize + 1] as usize)
    }

    /// First row of `slot` whose follower id is `>= id`.
    pub fn lower_row(&self, slot: u32, id: u32) -> (at: usize)
        requires
            self.wf(),
            slot < self.start@.len() - 1,
        ensures
            self.start@[slot as int] <= at <= self.start@[slot + 1],
            forall|r: int|
                self.start@[slot as int] <= r < at ==> #[trigger] self.follower@[r] < id,
            forall|r: int|
                at <= r < self.start@[slot + 1] ==> #[trigger] self.follower@[r] >= id,
    {
        let (first, stop) = self.rows(slot);
        let mut lo: usize = first;
        let mut hi: usize = stop;
        while lo < hi
            invariant
                self.wf(),
                slot < self.start@.len() - 1,
                first == self.start@[slot as int],
                stop == self.start@[slot + 1],
                stop <= self.follower@.len(),
                first <= lo <= hi <= stop,
                forall|r: int| first <= r < lo ==> #[trigger] self.follower@[r] < id,
                forall|r: int| hi <= r < stop ==> #[trigger] self.follower@[r] >= id,
            decreases hi - lo,
        {
            let mid: usize = lo + (hi - lo) / 2;
            let ghost pivot = self.follower@[mid as int];
            if self.follower[mid] < id {
                assert forall|r: int| first <= r < mid + 1 implies #[trigger] self.follower@[r]
                    < id by {
                    assert(self.start@[slot as int] <= r);
                }
                lo = mid + 1;
            } else {
                assert forall|r: int| mid <= r < stop implies #[trigger] self.follower@[r] >= id by {
                    assert(self.start@[slot as int] <= mid);
                }
                hi = mid;
            }
        }
        lo
    }

    /// The row of `slot` that follows with `id`, when there is one.
    pub fn row_of(&self, slot: u32, id: u32) -> (row: Option<usize>)
        requires
            self.wf(),
            slot < self.start@.len() - 1,
        ensures
            match row {
                Some(r) => self.start@[slot as int] <= r < self.start@[slot + 1]
                    && self.follower@[r as int] == id && forall|q: int|
                    self.start@[slot as int] <= q < r ==> #[trigger] self.follower@[q] != id,
                None => forall|q: int|
                    self.start@[slot as int] <= q < self.start@[slot + 1]
                        ==> #[trigger] self.follower@[q] != id,
            },
    {
        let at = self.lower_row(slot, id);
        let stop = self.rows(slot).1;
        if at < stop && self.follower[at] == id {
            Some(at)
        } else {
            proof {
                assert forall|q: int|
                    self.start@[slot as int] <= q < self.start@[slot + 1] implies
                    #[trigger] self.follower@[q] != id by {
                    if q >= at {
                        assert(self.follower@[at as int] <= self.follower@[q]) by {
                            assert(self.start@[slot as int] <= at);
                        }
                    }
                }
            }
            None
        }
    }
}

} // verus!
