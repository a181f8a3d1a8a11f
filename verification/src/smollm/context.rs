//! The text before a word that the model reads: a window whose start stays put
//! while typing goes on, and the token cut at the word.

use vstd::prelude::*;
use vstd::utf8::*;

use super::bpe::{covered, covers, in_order, lemma_rooted, rooted, Symbol};
use super::tokenizer::{ids_of, Tokenizer};
use super::tokenizer_law::{known_bytes, lemma_known_prefix, lemma_spoken_before, spoken};
use crate::prose::{is_js_space, js_space};
use crate::unicode::{
    at_boundary, byte_len, byte_offsets, chars_before, chars_of, char_utf16_len,
    lemma_byte_len_prefix, lemma_chars_before, lemma_encode_concat, lemma_utf16_push,
    lemma_utf16_within_bytes, string_of, utf16_len, utf16_size, utf16_units,
};

verus! {

/// Context taken from before the word, in UTF-16 units.
pub const CONTEXT_UNITS: usize = 400;

/// How much further back the window may start to reach an anchor.
pub const CONTEXT_SLACK: usize = 256;

/// One word in this many anchors windows.
pub const ANCHOR_EVERY: u32 = 16;

/// The units of a text split in two add up.
pub proof fn lemma_utf16_split(s: Seq<char>, k: int)
    requires
        0 <= k <= s.len(),
    ensures
        utf16_len(s.take(k)) + utf16_len(s.skip(k)) == utf16_len(s),
    decreases s.len() - k,
{
    if k == s.len() {
        assert(s.take(k) =~= s);
        assert(s.skip(k) =~= Seq::<char>::empty());
    } else {
        let head = s.drop_last();
        lemma_utf16_split(head, k);
        assert(head.take(k) =~= s.take(k));
        assert(s.skip(k).drop_last() =~= head.skip(k));
        assert(s.skip(k).last() == s.last());
    }
}

/// The longest end of the text that takes at most `units` UTF-16 units starts
/// here, looked for from `k` down.
pub open spec fn tail_start(before: Seq<char>, units: int, k: int) -> int
    decreases k,
{
    if k <= 0 || utf16_len(before.skip(k - 1)) > units {
        k
    } else {
        tail_start(before, units, k - 1)
    }
}

/// The first white space at or after `i`.
pub open spec fn space_at(text: Seq<char>, i: int) -> Option<int>
    decreases text.len() - i,
{
    if i < 0 || i >= text.len() {
        None
    } else if js_space(text[i]) {
        Some(i)
    } else {
        space_at(text, i + 1)
    }
}

/// Where [`context_tail`] starts.
pub open spec fn tail_from(before: Seq<char>, units: int) -> int {
    let start = tail_start(before, units, before.len() as int);
    if start == 0 {
        0
    } else {
        match space_at(before, start) {
            Some(at) => at + 1,
            None => start,
        }
    }
}

/// What is known of the first white space.
pub proof fn lemma_space_at(text: Seq<char>, i: int)
    requires
        0 <= i <= text.len(),
    ensures
        match space_at(text, i) {
            Some(at) => {
                &&& i <= at < text.len()
                &&& js_space(text[at])
                &&& forall|k: int| i <= k < at ==> !js_space(#[trigger] text[k])
            },
            None => forall|k: int| i <= k < text.len() ==> !js_space(#[trigger] text[k]),
        },
    decreases text.len() - i,
{
    if i < text.len() && !js_space(text[i]) {
        lemma_space_at(text, i + 1);
    }
}

proof fn lemma_tail_start(before: Seq<char>, units: int, k: int)
    requires
        0 <= k <= before.len(),
        0 <= units,
        utf16_len(before.skip(k)) <= units,
    ensures
        0 <= tail_start(before, units, k) <= k,
        utf16_len(before.skip(tail_start(before, units, k))) <= units,
        tail_start(before, units, k) == 0 || utf16_len(
            before.skip(tail_start(before, units, k) - 1),
        ) > units,
    decreases k,
{
    if k > 0 && utf16_len(before.skip(k - 1)) <= units {
        lemma_tail_start(before, units, k - 1);
    }
}

fn find_space(chars: &[char], from: usize) -> (at: Option<usize>)
    requires
        from <= chars@.len(),
    ensures
        match at {
            Some(at) => space_at(chars@, from as int) == Some(at as int) && at < chars@.len(),
            None => space_at(chars@, from as int) is None,
        },
{
    let mut i: usize = from;
    while i < chars.len()
        invariant
            from <= i <= chars@.len(),
            space_at(chars@, from as int) == space_at(chars@, i as int),
        decreases chars@.len() - i,
    {
        if is_js_space(chars[i]) {
            return Some(i);
        }
        i = i + 1;
    }
    None
}

fn tail_position(chars: &[char], units: usize) -> (at: usize)
    ensures
        at == tail_from(chars@, units as int),
        at <= chars@.len(),
{
    let ghost text = chars@;
    let mut start: usize = chars.len();
    let mut left: usize = units;
    proof {
        assert(text.skip(start as int) =~= Seq::<char>::empty());
        assert(utf16_len(text.skip(start as int)) == 0);
    }
    while start > 0 && char_utf16_len(chars[start - 1]) <= left
        invariant
            text == chars@,
            start <= text.len(),
            left <= units,
            left == units - utf16_len(text.skip(start as int)),
            tail_start(text, units as int, text.len() as int) == tail_start(
                text,
                units as int,
                start as int,
            ),
        decreases start,
    {
        proof {
            lemma_skip_back(text, start as int);
        }
        start = start - 1;
        left = left - char_utf16_len(chars[start]);
    }
    proof {
        if start > 0 {
            lemma_skip_back(text, start as int);
        }
        lemma_space_at(text, start as int);
    }
    if start == 0 {
        return 0;
    }
    match find_space(chars, start) {
        Some(at) => at + 1,
        None => start,
    }
}

proof fn lemma_skip_back(s: Seq<char>, k: int)
    requires
        0 < k <= s.len(),
    ensures
        utf16_len(s.skip(k - 1)) == utf16_units(s[k - 1]) + utf16_len(s.skip(k)),
{
    lemma_utf16_split(s, k - 1);
    lemma_utf16_split(s, k);
    lemma_utf16_push(s.take(k - 1), s[k - 1]);
    assert(s.take(k - 1).push(s[k - 1]) =~= s.take(k));
}

/// The last `units` UTF-16 units of `before`, starting after a white space so
/// that no word is cut in half; the raw end where it holds none.
pub fn context_tail(before: &str, units: usize) -> (tail: &str)
    ensures
        tail@ == before@.skip(tail_from(before@, units as int)),
{
    let chars = chars_of(before);
    let at = tail_position(chars.as_slice(), units);
    let tail = before.substring_char(at, chars.len());
    assert(tail@ =~= before@.skip(at as int));
    tail
}

/// The FNV-1a hash of some bytes.
pub open spec fn fnv(bytes: Seq<u8>) -> u32
    decreases bytes.len(),
{
    if bytes.len() == 0 {
        0x811c_9dc5u32
    } else {
        (((fnv(bytes.drop_last()) ^ (bytes.last() as u32)) * 0x0100_0193) % 0x1_0000_0000) as u32
    }
}

/// The word that a text starts with: all up to the first white space.
pub open spec fn leading_word(text: Seq<char>) -> Seq<char> {
    match space_at(text, 0) {
        Some(at) => text.take(at),
        None => text,
    }
}

/// The word that the text starts with anchors windows.
pub open spec fn anchors(text: Seq<char>) -> bool {
    fnv(encode_utf8(leading_word(text))) % ANCHOR_EVERY == 0
}

fn fnv_of(bytes: &[u8]) -> (h: u32)
    ensures
        h == fnv(bytes@),
{
    let mut h: u32 = 0x811c_9dc5;
    let mut i: usize = 0;
    assert(bytes@.take(0) =~= Seq::<u8>::empty());
    while i < bytes.len()
        invariant
            i <= bytes@.len(),
            h == fnv(bytes@.take(i as int)),
        decreases bytes@.len() - i,
    {
        let mixed: u32 = h ^ (bytes[i] as u32);
        proof {
            assert(bytes@.take(i + 1).drop_last() =~= bytes@.take(i as int));
            assert(bytes@.take(i + 1).last() == bytes@[i as int]);
        }
        h = mixed.wrapping_mul(0x0100_0193);
        i = i + 1;
    }
    assert(bytes@.take(i as int) =~= bytes@);
    h
}

/// Whether the word starting `text` anchors windows: one in [`ANCHOR_EVERY`]
/// words, by a stable hash of the word itself.
pub fn is_anchor(text: &str) -> (r: bool)
    ensures
        r == anchors(text@),
{
    let chars = chars_of(text);
    let r = anchor_at(chars.as_slice(), 0);
    assert(chars@.skip(0) =~= text@);
    r
}

fn anchor_at(chars: &[char], from: usize) -> (r: bool)
    requires
        from <= chars@.len(),
    ensures
        r == anchors(chars@.skip(from as int)),
{
    let ghost text = chars@.skip(from as int);
    let end: usize = match find_space(chars, from) {
        Some(at) => at,
        None => chars.len(),
    };
    proof {
        lemma_space_at(chars@, from as int);
        lemma_space_at(text, 0);
        let goal = end - from;
        match space_at(text, 0) {
            Some(at) => {
                if at < goal {
                    assert(chars@[from + at] == text[at]);
                } else if goal < at {
                    assert(text[goal] == chars@[end as int]);
                }
            },
            None => {
                if end < chars@.len() {
                    assert(text[goal] == chars@[end as int]);
                }
            },
        }
    }
    let word = string_of(&chars[from..end]);
    assert(word@ =~= leading_word(text));
    fnv_of(word.as_str().as_bytes()) % ANCHOR_EVERY == 0
}

/// A word starts at `i` whose start lies between `lo` and `hi` units and which
/// anchors windows.
pub open spec fn anchor_place(before: Seq<char>, lo: int, hi: int, i: int) -> bool {
    &&& 0 < i < before.len()
    &&& lo <= utf16_len(before.take(i)) <= hi
    &&& js_space(before[i - 1])
    &&& !js_space(before[i])
    &&& anchors(before.skip(i))
}

/// The last anchor place before `k`.
pub open spec fn last_anchor(before: Seq<char>, lo: int, hi: int, k: int) -> Option<int>
    decreases k,
{
    if k <= 0 {
        None
    } else if anchor_place(before, lo, hi, k - 1) {
        Some(k - 1)
    } else {
        last_anchor(before, lo, hi, k - 1)
    }
}

/// The least number of units before the window.
pub open spec fn window_low(total: int) -> int {
    if total < CONTEXT_UNITS + CONTEXT_SLACK {
        0
    } else {
        total - (CONTEXT_UNITS + CONTEXT_SLACK)
    }
}

/// Where [`context_window`] starts.
pub open spec fn window_from(before: Seq<char>) -> int {
    let total = utf16_len(before) as int;
    if total <= CONTEXT_UNITS {
        0
    } else {
        match last_anchor(
            before,
            window_low(total),
            total - CONTEXT_UNITS,
            before.len() as int,
        ) {
            Some(at) => at,
            None => tail_from(before, CONTEXT_UNITS as int),
        }
    }
}

proof fn lemma_no_anchor_past(before: Seq<char>, lo: int, hi: int, i: int, k: int)
    requires
        0 <= i <= k <= before.len(),
        i < k ==> utf16_len(before.take(i)) > hi,
    ensures
        last_anchor(before, lo, hi, k) == last_anchor(before, lo, hi, i),
    decreases k,
{
    if i < k {
        lemma_take_grows(before, i, k - 1);
        lemma_no_anchor_past(before, lo, hi, i, k - 1);
    }
}

proof fn lemma_take_grows(s: Seq<char>, i: int, j: int)
    requires
        0 <= i <= j <= s.len(),
    ensures
        utf16_len(s.take(i)) <= utf16_len(s.take(j)),
{
    lemma_utf16_split(s.take(j), i);
    assert(s.take(j).take(i) =~= s.take(i));
}

fn window_position(chars: &[char]) -> (at: usize)
    requires
        byte_len(chars@) <= usize::MAX,
    ensures
        at == window_from(chars@),
        at <= chars@.len(),
{
    let total: usize = utf16_size(chars);
    if total <= CONTEXT_UNITS {
        return 0;
    }
    let lo: usize = if total < CONTEXT_UNITS + CONTEXT_SLACK {
        0
    } else {
        total - (CONTEXT_UNITS + CONTEXT_SLACK)
    };
    let hi: usize = total - CONTEXT_UNITS;
    let mut units: usize = 0;
    let mut after_space = false;
    let mut anchor: Option<usize> = None;
    let mut i: usize = 0;
    let ghost text = chars@;
    assert(text.take(0) =~= Seq::<char>::empty());
    while i < chars.len() && units <= hi
        invariant
            text == chars@,
            byte_len(text) <= usize::MAX,
            i <= text.len(),
            hi < usize::MAX,
            units == utf16_len(text.take(i as int)),
            after_space == (i > 0 && js_space(text[i - 1])),
            match anchor {
                Some(a) => last_anchor(text, lo as int, hi as int, i as int) == Some(a as int) && a
                    < i,
                None => last_anchor(text, lo as int, hi as int, i as int) is None,
            },
        decreases text.len() - i,
    {
        let space = is_js_space(chars[i]);
        if units >= lo && after_space && !space && anchor_at(chars, i) {
            anchor = Some(i);
        }
        after_space = space;
        proof {
            lemma_utf16_push(text.take(i as int), text[i as int]);
            assert(text.take(i as int).push(text[i as int]) =~= text.take(i + 1));
            lemma_byte_len_prefix(text, i + 1);
            lemma_utf16_within_bytes(text.take(i + 1));
        }
        units = units + char_utf16_len(chars[i]);
        i = i + 1;
    }
    proof {
        lemma_no_anchor_past(text, lo as int, hi as int, i as int, text.len() as int);
    }
    match anchor {
        Some(a) => a,
        None => tail_position(chars, CONTEXT_UNITS),
    }
}

/// The context before a word: the last [`CONTEXT_UNITS`] UTF-16 units, extended
/// back by at most [`CONTEXT_SLACK`] to the nearest word start whose word is an
/// anchor; [`context_tail`] where no anchor is in range.
pub fn context_window(before: &str) -> (window: &str)
    ensures
        window@ == before@.skip(window_from(before@)),
{
    let chars = chars_of(before);
    let at = window_position(chars.as_slice());
    let window = before.substring_char(at, chars.len());
    assert(window@ =~= before@.skip(at as int));
    window
}

/// The window is an end of the text of at most 656 units; it is the whole text,
/// or starts right behind a white space, or holds no white space.
#[verifier::rlimit(40)]
pub proof fn law_window_starts_at_a_word(before: Seq<char>)
    ensures
        0 <= window_from(before) <= before.len(),
        utf16_len(before.skip(window_from(before))) <= CONTEXT_UNITS + CONTEXT_SLACK,
        ({
            let at = window_from(before);
            ||| at == 0
            ||| js_space(before[at - 1])
            ||| forall|k: int| at <= k < before.len() ==> !js_space(#[trigger] before[k])
        }),
{
    let total = utf16_len(before) as int;
    assert(before.skip(0) =~= before);
    if total > CONTEXT_UNITS {
        let lo = window_low(total);
        let hi = total - CONTEXT_UNITS;
        let n = before.len() as int;
        match last_anchor(before, lo, hi, n) {
            Some(at) => {
                lemma_last_anchor(before, lo, hi, n);
                lemma_utf16_split(before, at);
            },
            None => {
                assert(before.skip(n) =~= Seq::<char>::empty());
                lemma_tail_start(before, CONTEXT_UNITS as int, n);
                let start = tail_start(before, CONTEXT_UNITS as int, n);
                lemma_space_at(before, start);
                let at = tail_from(before, CONTEXT_UNITS as int);
                lemma_utf16_split(before.skip(start), at - start);
                assert(before.skip(start).skip(at - start) =~= before.skip(at));
            },
        }
    }
}

proof fn lemma_last_anchor(before: Seq<char>, lo: int, hi: int, k: int)
    ensures
        match last_anchor(before, lo, hi, k) {
            Some(at) => 0 <= at < k && anchor_place(before, lo, hi, at),
            None => true,
        },
    decreases k,
{
    if k > 0 {
        lemma_last_anchor(before, lo, hi, k - 1);
    }
}

/// The first token that ends past the byte `start`, or the number of tokens.
pub open spec fn token_past(tokens: Seq<Symbol>, start: int, i: int) -> int
    decreases tokens.len() - i,
{
    if i < 0 || i >= tokens.len() {
        tokens.len() as int
    } else if tokens[i].2 > start {
        i
    } else {
        token_past(tokens, start, i + 1)
    }
}

/// Where the token that holds the byte `start` begins; `start` itself where no
/// token does.
pub open spec fn cut_at(tokens: Seq<Symbol>, start: int) -> int {
    let k = token_past(tokens, start, 0);
    if k < tokens.len() {
        tokens[k].1 as int
    } else {
        start
    }
}

/// The first byte from `i` on that has a token of its own, or the number of
/// bytes.
pub open spec fn first_known(ids: Seq<Option<u32>>, bytes: Seq<u8>, i: int) -> int
    decreases bytes.len() - i,
{
    if i < 0 || i >= bytes.len() {
        bytes.len() as int
    } else if ids[bytes[i] as int] is Some {
        i
    } else {
        first_known(ids, bytes, i + 1)
    }
}

impl Tokenizer {
    /// The first byte of the word that has a token of its own, where there is
    /// one, is the word's first byte or stands inside a character.
    pub open spec fn knows_start(&self, prefix: Seq<char>) -> bool {
        let bytes = encode_utf8(prefix);
        let k = first_known(self.byte_ids@, bytes, 0);
        k == 0 || k == bytes.len() || !at_boundary(prefix, k)
    }

    /// The context's tokens and the lead for a word start.
    pub open spec fn healed(&self, context: Seq<char>, prefix: Seq<char>) -> (Seq<u32>, Seq<char>) {
        let text = context + prefix;
        let tokens = self.tokens(text);
        let start = byte_len(context) as int;
        let cut = cut_at(tokens, start);
        if !at_boundary(text, cut) {
            (ids_of(self.tokens(context)), Seq::empty())
        } else {
            (
                ids_of(tokens).take(token_past(tokens, start, 0)),
                context.skip(chars_before(text, cut)),
            )
        }
    }
}

proof fn lemma_token_past(tokens: Seq<Symbol>, start: int, i: int, k: int)
    requires
        0 <= i <= k <= tokens.len(),
        forall|j: int| i <= j < k ==> (#[trigger] tokens[j]).2 <= start,
        k < tokens.len() ==> tokens[k].2 > start,
    ensures
        token_past(tokens, start, i) == k,
    decreases k - i,
{
    if i < k {
        assert(tokens[i].2 <= start);
        lemma_token_past(tokens, start, i + 1, k);
    }
}

/// Healing keeps the tokens of the whole text that end within the context, and
/// leaves the text of the next one before the word to be spelled again; where
/// that token starts inside a character, the context stands with its own tokens.
pub proof fn law_healing_keeps_the_tokens_of_the_context(
    tokenizer: &Tokenizer,
    context: Seq<char>,
    prefix: Seq<char>,
    k: int,
    j: int,
)
    requires
        0 <= k < tokenizer.tokens(context + prefix).len(),
        forall|i: int|
            0 <= i < k ==> (#[trigger] tokenizer.tokens(context + prefix)[i]).2 <= byte_len(context),
        tokenizer.tokens(context + prefix)[k].2 > byte_len(context),
    ensures
        0 <= j <= context.len() && byte_len(context.take(j)) == tokenizer.tokens(context + prefix)[k].1
            ==> tokenizer.healed(context, prefix) == (
            ids_of(tokenizer.tokens(context + prefix)).take(k),
            context.skip(j),
        ),
        !at_boundary(context + prefix, tokenizer.tokens(context + prefix)[k].1 as int)
            ==> tokenizer.healed(context, prefix) == (
            ids_of(tokenizer.tokens(context)),
            Seq::<char>::empty(),
        ),
{
    let text = context + prefix;
    let tokens = tokenizer.tokens(text);
    let cut = tokens[k].1 as int;
    lemma_token_past(tokens, byte_len(context) as int, 0, k);
    if 0 <= j <= context.len() && byte_len(context.take(j)) == cut {
        assert(text.take(j) =~= context.take(j));
        assert(at_boundary(text, cut));
        lemma_chars_before(text, cut, j);
    }
}

/// Token healing: the context's tokens up to the one that holds the word start,
/// and the text of that token before the word, which the search has to spell
/// again. Where that token also holds part of a character before the word, the
/// context's own tokens and nothing to spell. The lead is the end of the context,
/// and with faithful tables the tokens say what stands before it: together they
/// are the context.
pub fn heal(tokenizer: &Tokenizer, context: &str, prefix: &str) -> (r: (Vec<u32>, String))
    requires
        tokenizer.wf(),
        tokenizer.knows_start(prefix@),
    ensures
        r.0@ == tokenizer.healed(context@, prefix@).0,
        r.1@ == tokenizer.healed(context@, prefix@).1,
        byte_len(r.1@) <= byte_len(context@),
        encode_utf8(r.1@) == encode_utf8(context@).skip(byte_len(context@) - byte_len(r.1@)),
        tokenizer.is_faithful() ==> spoken(tokenizer.token_bytes@, r.0@) == known_bytes(
            tokenizer.byte_ids@,
            encode_utf8(context@),
            0,
            byte_len(context@) - byte_len(r.1@),
        ),
{
    let mut text = context.to_owned();
    text.append(prefix);
    let encoding = tokenizer.encode(text.as_str());
    let ghost tokens = tokenizer.tokens(text@);
    let start: usize = context.as_bytes().len();
    let mut cut_token: usize = 0;
    while cut_token < encoding.offsets.len() && encoding.offsets[cut_token].1 <= start
        invariant
            encoding.holds(tokens),
            cut_token <= encoding.offsets@.len(),
            token_past(tokens, start as int, 0) == token_past(
                tokens,
                start as int,
                cut_token as int,
            ),
        decreases encoding.offsets@.len() - cut_token,
    {
        cut_token = cut_token + 1;
    }
    let cut: usize = if cut_token < encoding.offsets.len() {
        encoding.offsets[cut_token].0
    } else {
        start
    };
    let ghost whole = context@ + prefix@;
    assert(text@ =~= whole);
    proof {
        assert(cut == cut_at(tokens, start as int));
        lemma_cut_before_word(tokenizer, context@, prefix@);
    }
    let chars = chars_of(context);
    let offsets = byte_offsets(chars.as_slice());
    let place = position_of(&offsets, cut, Ghost(context@));
    match place {
        None => {
            proof {
                if cut <= start {
                    lemma_boundary_in_context(context@, prefix@, cut as int);
                }
            }
            let own = tokenizer.encode(context);
            let lead = String::new();
            assert(encode_utf8(lead@).len() == 0);
            (own.ids, lead)
        },
        Some(k) => {
            proof {
                lemma_byte_len_prefix(context@, k as int);
                lemma_boundary_in_context(context@, prefix@, cut as int);
                assert(whole.take(k as int) =~= context@.take(k as int));
                lemma_chars_before(whole, cut as int, k as int);
            }
            let mut ids = encoding.ids;
            ids.truncate(cut_token);
            assert(ids@ =~= ids_of(tokens).take(cut_token as int));
            let lead = string_of(&chars[k..chars.len()]);
            assert(lead@ =~= context@.skip(k as int));
            proof {
                lemma_encode_concat(context@.take(k as int), lead@);
                assert(context@.take(k as int) + lead@ =~= context@);
                assert(encode_utf8(context@).skip(cut as int) =~= encode_utf8(lead@));
                if tokenizer.is_faithful() {
                    let bytes = encode_utf8(whole);
                    lemma_spoken_before(
                        tokenizer.byte_ids@,
                        tokenizer.token_bytes@,
                        bytes,
                        tokens,
                        cut_token as int,
                        bytes.len() as int,
                    );
                    lemma_encode_concat(context@, prefix@);
                    lemma_known_prefix(
                        tokenizer.byte_ids@,
                        encode_utf8(context@),
                        encode_utf8(prefix@),
                        cut as int,
                    );
                }
            }
            (ids, lead)
        },
    }
}

/// The character position of a byte offset, where one starts there.
fn position_of(offsets: &Vec<usize>, offset: usize, Ghost(text): Ghost<Seq<char>>) -> (k: Option<
    usize,
>)
    requires
        offsets@.len() == text.len() + 1,
        forall|k: int| 0 <= k <= text.len() ==> #[trigger] offsets@[k] == byte_len(text.take(k)),
    ensures
        match k {
            Some(k) => k <= text.len() && byte_len(text.take(k as int)) == offset,
            None => !at_boundary(text, offset as int),
        },
{
    let mut k: usize = 0;
    while k < offsets.len()
        invariant
            offsets@.len() == text.len() + 1,
            forall|k: int| 0 <= k <= text.len() ==> #[trigger] offsets@[k] == byte_len(text.take(k)),
            k <= offsets@.len(),
            forall|j: int| 0 <= j < k ==> #[trigger] offsets@[j] != offset,
        decreases offsets@.len() - k,
    {
        if offsets[k] == offset {
            return Some(k);
        }
        k = k + 1;
    }
    proof {
        if at_boundary(text, offset as int) {
            let j = chars_before(text, offset as int);
            assert(offsets@[j] == byte_len(text.take(j)));
        }
    }
    None
}

/// The first token past the word start begins at or before it, or inside a
/// character; where there is none, the word has no token at all.
proof fn lemma_cut_before_word(tokenizer: &Tokenizer, context: Seq<char>, prefix: Seq<char>)
    requires
        tokenizer.wf(),
        tokenizer.knows_start(prefix),
        in_order(tokenizer.tokens(context + prefix), 0, byte_len(context + prefix) as int),
        covers(
            tokenizer.tokens(context + prefix),
            tokenizer.byte_ids@,
            encode_utf8(context + prefix),
            0,
            byte_len(context + prefix) as int,
        ),
        rooted(
            tokenizer.tokens(context + prefix),
            tokenizer.byte_ids@,
            encode_utf8(context + prefix),
        ),
    ensures
        ({
            let tokens = tokenizer.tokens(context + prefix);
            let start = byte_len(context) as int;
            let cut = cut_at(tokens, start);
            &&& 0 <= cut
            &&& cut <= start || !at_boundary(context + prefix, cut)
            &&& token_past(tokens, start, 0) >= tokens.len() ==> known_bytes(
                tokenizer.byte_ids@,
                encode_utf8(context + prefix),
                0,
                byte_len(context + prefix) as int,
            ) == known_bytes(tokenizer.byte_ids@, encode_utf8(context + prefix), 0, start)
        }),
{
    let ids = tokenizer.byte_ids@;
    let tokens = tokenizer.tokens(context + prefix);
    let start = byte_len(context) as int;
    let bytes = encode_utf8(context + prefix);
    let word = encode_utf8(prefix);
    lemma_encode_concat(context, prefix);
    assert(bytes.len() == start + word.len());
    let p = token_past(tokens, start, 0);
    lemma_past(tokens, start, 0);
    if p < tokens.len() {
        let cut = tokens[p].1 as int;
        if cut > start {
            assert forall|j: int| 0 <= j < cut - start implies ids[(#[trigger] word[j]) as int] is None by {
                lemma_past_covers(tokens, ids, bytes, start, start + j);
                assert(bytes[start + j] == word[j]);
            }
            lemma_rooted(tokens, ids, bytes, p);
            assert(bytes[cut] == word[cut - start]);
            lemma_first_known(ids, word, 0, cut - start);
            lemma_boundary_in_word(context, prefix, cut - start);
        }
    } else {
        assert forall|j: int| start <= j < bytes.len() implies ids[(#[trigger] bytes[j]) as int] is None by {
            lemma_past_covers(tokens, ids, bytes, start, j);
        }
        lemma_unknown_tail(ids, bytes, start, bytes.len() as int);
    }
}

/// What the first token past a byte tells of the others.
proof fn lemma_past(tokens: Seq<Symbol>, start: int, i: int)
    requires
        0 <= i <= tokens.len(),
    ensures
        i <= token_past(tokens, start, i) <= tokens.len(),
        forall|k: int| i <= k < token_past(tokens, start, i) ==> (#[trigger] tokens[k]).2 <= start,
        token_past(tokens, start, i) < tokens.len() ==> tokens[token_past(tokens, start, i)].2
            > start,
    decreases tokens.len() - i,
{
    if i < tokens.len() && tokens[i].2 <= start {
        lemma_past(tokens, start, i + 1);
    }
}

/// A byte at `q`, at or past `start` and before the first token past `start`,
/// has no token.
proof fn lemma_past_covers(
    tokens: Seq<Symbol>,
    ids: Seq<Option<u32>>,
    bytes: Seq<u8>,
    start: int,
    q: int,
)
    requires
        0 <= start <= q < bytes.len(),
        in_order(tokens, 0, bytes.len() as int),
        covers(tokens, ids, bytes, 0, bytes.len() as int),
        token_past(tokens, start, 0) < tokens.len() ==> q < tokens[token_past(
            tokens,
            start,
            0,
        )].1,
    ensures
        ids[bytes[q] as int] is None,
{
    let p = token_past(tokens, start, 0);
    lemma_past(tokens, start, 0);
    if ids[bytes[q] as int] is Some {
        assert(covered(tokens, q));
        let i = choose|i: int| 0 <= i < tokens.len() && (#[trigger] tokens[i]).1 <= q < tokens[i].2;
        if i > p {
            assert(tokens[p].2 <= tokens[i].1);
        }
    }
}

proof fn lemma_first_known(ids: Seq<Option<u32>>, bytes: Seq<u8>, i: int, q: int)
    requires
        0 <= i <= q < bytes.len(),
        forall|j: int| i <= j < q ==> ids[(#[trigger] bytes[j]) as int] is None,
        ids[bytes[q] as int] is Some,
    ensures
        first_known(ids, bytes, i) == q,
    decreases q - i,
{
    if i < q {
        lemma_first_known(ids, bytes, i + 1, q);
    }
}

/// Bytes without a token add nothing.
proof fn lemma_unknown_tail(ids: Seq<Option<u32>>, bytes: Seq<u8>, start: int, end: int)
    requires
        0 <= start <= end <= bytes.len(),
        forall|j: int| start <= j < end ==> ids[(#[trigger] bytes[j]) as int] is None,
    ensures
        known_bytes(ids, bytes, 0, end) == known_bytes(ids, bytes, 0, start),
    decreases end - start,
{
    if start < end {
        assert(ids[bytes[end - 1] as int] is None);
        lemma_unknown_tail(ids, bytes, start, end - 1);
    }
}

/// A boundary of the whole text past the context is one of the word.
proof fn lemma_boundary_in_word(context: Seq<char>, prefix: Seq<char>, q: int)
    requires
        0 < q,
        !at_boundary(prefix, q),
    ensures
        !at_boundary(context + prefix, byte_len(context) + q),
{
    let whole = context + prefix;
    let cut = byte_len(context) + q;
    if at_boundary(whole, cut) {
        let k = chars_before(whole, cut);
        let n = context.len() as int;
        if k <= n {
            assert(whole.take(k) =~= context.take(k));
            lemma_byte_len_prefix(context, k);
        } else {
            assert(whole.take(k) =~= context + prefix.take(k - n));
            lemma_encode_concat(context, prefix.take(k - n));
            assert(byte_len(prefix.take(k - n)) == q);
        }
    }
}

/// A byte offset within the context is a boundary of the whole text exactly
/// when it is one of the context.
proof fn lemma_boundary_in_context(context: Seq<char>, prefix: Seq<char>, cut: int)
    requires
        0 <= cut <= byte_len(context),
    ensures
        at_boundary(context + prefix, cut) == at_boundary(context, cut),
{
    let whole = context + prefix;
    if at_boundary(context, cut) {
        let k = chars_before(context, cut);
        assert(whole.take(k) =~= context.take(k));
        lemma_chars_before(whole, cut, k);
    }
    if at_boundary(whole, cut) {
        let k = chars_before(whole, cut);
        if k > context.len() {
            crate::unicode::lemma_byte_len_monotone(whole, context.len() as int, k);
            assert(whole.take(context.len() as int) =~= context);
        }
        assert(whole.take(k) =~= context.take(k));
        lemma_chars_before(context, cut, k);
    }
}

} // verus!
