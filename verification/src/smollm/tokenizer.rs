//! A byte-level byte-pair tokenizer.
//!
//! One pipeline is supported: no normalizer, a sequence of individual digits
//! and the byte-level pattern, a merging model without dropout or affixes, and
//! a byte-level decoder. Anything else is refused, so a changed description
//! cannot tokenize wrongly without notice. Added tokens are never matched
//! inside a text. Bytes without a token of their own are dropped.

use std::collections::HashMap;

use regex::Regex;
use vstd::prelude::*;
use vstd::utf8::*;

use super::bpe::{
    bpe, covers, in_order, lemma_tokens_cover, lemma_tokens_rooted, rooted, tokens_of, Symbol,
};
use super::byte_level::Alphabet;
use super::pre_tokens::{pre_spans, pre_tokenize_with, tiles};
use super::token_tables::{
    byte_table, byte_token, byte_tokens, bytes_of_token, ids_fit, merge_map, merge_table,
    rules_fault, special_flags, table_size, token_bytes, token_count, token_is_special,
    vocab_index, vocab_map, BadRule, ModelSpec, PreTokenizerSpec, RuleFault, TokenizerSpec,
};
use super::tokenizer_law::{
    each_says, faithful, known_bytes, lemma_pre_token_says, lemma_spoken_before, spoken,
};
use crate::patterns::{compile, compiles, source, SPLIT};
use crate::prose::span_view;
use crate::unicode::{byte_len, same_text, str_from_utf8};

verus! {

/// Why a tokenizer description is refused.
pub enum TokenizerError {
    /// A normalizer is set.
    Normalizer,
    /// There is no pre-tokenizer.
    NoPreTokenizer,
    /// The pre-tokenizer is not individual digits and byte level.
    PreTokenizer,
    /// The decoder is not byte level.
    Decoder,
    /// The model is not a merging one; its kind.
    Model(String),
    /// Dropout or subword affixes are set.
    Options,
    /// Fewer than 128 bytes have a token.
    NotByteLevel,
    /// A merge without a space between its texts.
    MalformedMerge,
    /// A merge of texts that the vocabulary lacks.
    UnknownMerge(String, String),
    /// The splitting pattern does not compile.
    Pattern,
}

/// [`TokenizerError`] over mathematical texts.
pub enum Fault {
    Normalizer,
    NoPreTokenizer,
    PreTokenizer,
    Decoder,
    Model(Seq<char>),
    Options,
    NotByteLevel,
    MalformedMerge,
    UnknownMerge(Seq<char>, Seq<char>),
    Pattern,
}

impl View for TokenizerError {
    type V = Fault;

    open spec fn view(&self) -> Fault {
        match *self {
            TokenizerError::Normalizer => Fault::Normalizer,
            TokenizerError::NoPreTokenizer => Fault::NoPreTokenizer,
            TokenizerError::PreTokenizer => Fault::PreTokenizer,
            TokenizerError::Decoder => Fault::Decoder,
            TokenizerError::Model(kind) => Fault::Model(kind@),
            TokenizerError::Options => Fault::Options,
            TokenizerError::NotByteLevel => Fault::NotByteLevel,
            TokenizerError::MalformedMerge => Fault::MalformedMerge,
            TokenizerError::UnknownMerge(left, right) => Fault::UnknownMerge(left@, right@),
            TokenizerError::Pattern => Fault::Pattern,
        }
    }
}

/// Individual digits, then byte level with its pattern and no added space.
pub open spec fn pre_tokenizer_ok(pre: PreTokenizerSpec) -> bool {
    &&& pre.kind@ == "Sequence"@
    &&& pre.pretokenizers@.len() == 2
    &&& pre.pretokenizers@[0].kind@ == "Digits"@
    &&& pre.pretokenizers@[0].individual_digits
    &&& pre.pretokenizers@[1].kind@ == "ByteLevel"@
    &&& !pre.pretokenizers@[1].add_prefix_space
    &&& pre.pretokenizers@[1].use_regex
}

/// The affix is not set, or set to nothing.
pub open spec fn no_affix(affix: Option<String>) -> bool {
    match affix {
        None => true,
        Some(text) => text@.len() == 0,
    }
}

/// No dropout and no subword affixes.
pub open spec fn options_ok(model: ModelSpec) -> bool {
    &&& !model.dropout
    &&& no_affix(model.continuing_subword_prefix)
    &&& no_affix(model.end_of_word_suffix)
}

/// The first thing that is wrong with a description.
pub open spec fn fault(json: TokenizerSpec) -> Option<Fault> {
    let map = vocab_map(json.model.vocab@);
    if json.normalizer {
        Some(Fault::Normalizer)
    } else if json.pre_tokenizer is None {
        Some(Fault::NoPreTokenizer)
    } else if !pre_tokenizer_ok(json.pre_tokenizer->0) {
        Some(Fault::PreTokenizer)
    } else if json.decoder is None || (json.decoder->0)@ != "ByteLevel"@ {
        Some(Fault::Decoder)
    } else if json.model.kind@ != "BPE"@ {
        Some(Fault::Model(json.model.kind@))
    } else if !options_ok(json.model) {
        Some(Fault::Options)
    } else if byte_tokens(map, 256) < 128 {
        Some(Fault::NotByteLevel)
    } else {
        match rules_fault(map, json.model.merges@, 0) {
            Some(RuleFault::Malformed) => Some(Fault::MalformedMerge),
            Some(RuleFault::Unknown(left, right)) => Some(Fault::UnknownMerge(left, right)),
            None => if compiles(SPLIT@) {
                None
            } else {
                Some(Fault::Pattern)
            },
        }
    }
}

/// Tokens and the byte span of each in the encoded text.
pub struct Encoding {
    pub ids: Vec<u32>,
    pub offsets: Vec<(usize, usize)>,
}

/// The tokens alone.
pub open spec fn ids_of(tokens: Seq<Symbol>) -> Seq<u32> {
    tokens.map_values(|s: Symbol| s.0)
}

/// The byte spans alone.
pub open spec fn offsets_of(tokens: Seq<Symbol>) -> Seq<(usize, usize)> {
    tokens.map_values(|s: Symbol| (s.1, s.2))
}

impl Encoding {
    /// The encoding holds just these tokens and spans.
    pub open spec fn holds(&self, tokens: Seq<Symbol>) -> bool {
        &&& self.ids@ == ids_of(tokens)
        &&& self.offsets@ == offsets_of(tokens)
    }
}

/// A byte-level byte-pair tokenizer.
pub struct Tokenizer {
    /// The token of every byte value, where the vocabulary has one.
    pub byte_ids: Vec<Option<u32>>,
    /// A pair of tokens to its rank and the token it merges into.
    pub merges: HashMap<u64, (u32, u32)>,
    /// The bytes that every token decodes to.
    pub token_bytes: Vec<Vec<u8>>,
    /// Which tokens are special.
    pub special: Vec<bool>,
    pub split: Regex,
}

/// The text of bytes for prefix matching: none for bytes that are no text on
/// their own, and for a text that is empty or holds a replacement character.
pub open spec fn matchable(bytes: Seq<u8>) -> Option<Seq<char>> {
    if !valid_utf8(bytes) {
        None
    } else {
        let text = decode_utf8(bytes);
        if text.len() == 0 || text.contains('\u{FFFD}') {
            None
        } else {
            Some(text)
        }
    }
}

impl Tokenizer {
    /// The tables are complete and the pattern is the right one.
    pub open spec fn wf(&self) -> bool {
        &&& self.byte_ids@.len() == 256
        &&& self.special@.len() == self.token_bytes@.len()
        &&& source(self.split) == SPLIT@
    }

    /// The tokenizer holds what the description says.
    pub open spec fn reads(&self, json: TokenizerSpec) -> bool {
        let map = vocab_map(json.model.vocab@);
        &&& self.wf()
        &&& forall|b: int| 0 <= b < 256 ==> #[trigger] self.byte_ids@[b] == byte_token(map, b)
        &&& self.merges@ == merge_map(map, json.model.merges@, json.model.merges@.len() as int)
        &&& self.token_bytes@.len() == table_size(json)
        &&& forall|id: int|
            0 <= id < table_size(json) ==> (#[trigger] self.token_bytes@[id])@ == bytes_of_token(
                json,
                id,
            )
        &&& forall|id: int|
            0 <= id < table_size(json) ==> #[trigger] self.special@[id] == token_is_special(
                json,
                id,
            )
    }

    /// Every token that a text is cut into says the bytes it was made of.
    pub open spec fn is_faithful(&self) -> bool {
        exists|good: Set<u32>|
            #[trigger] faithful(self.byte_ids@, self.merges@, self.token_bytes@, good)
    }

    /// The tokens of a text.
    pub open spec fn tokens(&self, text: Seq<char>) -> Seq<Symbol> {
        tokens_of(self.byte_ids@, self.merges@, encode_utf8(text), pre_spans(text, 0, 0))
    }

    /// The text of a token for prefix matching.
    pub open spec fn text_of(&self, id: u32) -> Option<Seq<char>> {
        if id < self.special@.len() && !self.special@[id as int] {
            matchable(self.token_bytes@[id as int]@)
        } else {
            None
        }
    }

    /// Reads a description.
    pub fn from_json(json: &TokenizerSpec) -> (r: Result<Tokenizer, TokenizerError>)
        requires
            ids_fit(*json),
        ensures
            match r {
                Ok(t) => fault(*json) is None && t.reads(*json),
                Err(e) => fault(*json) == Some(e@),
            },
    {
        if json.normalizer {
            return Err(TokenizerError::Normalizer);
        }
        match &json.pre_tokenizer {
            None => {
                return Err(TokenizerError::NoPreTokenizer);
            },
            Some(pre) => {
                if !supported(pre) {
                    return Err(TokenizerError::PreTokenizer);
                }
            },
        }
        let decoder = match &json.decoder {
            None => false,
            Some(kind) => same_text(kind.as_str(), "ByteLevel"),
        };
        if !decoder {
            return Err(TokenizerError::Decoder);
        }
        if !same_text(json.model.kind.as_str(), "BPE") {
            return Err(TokenizerError::Model(json.model.kind.as_str().to_owned()));
        }
        if !plain_options(&json.model) {
            return Err(TokenizerError::Options);
        }
        let alphabet = Alphabet::new();
        let map = vocab_index(&json.model.vocab);
        let (byte_ids, known) = byte_table(&map, &alphabet);
        if known < 128 {
            return Err(TokenizerError::NotByteLevel);
        }
        let merges = match merge_table(&map, &json.model.merges) {
            Ok(merges) => merges,
            Err(BadRule::Malformed) => {
                return Err(TokenizerError::MalformedMerge);
            },
            Err(BadRule::Unknown(left, right)) => {
                return Err(TokenizerError::UnknownMerge(left, right));
            },
        };
        let split = match compile(SPLIT) {
            Some(split) => split,
            None => {
                return Err(TokenizerError::Pattern);
            },
        };
        let n: usize = token_count(json, &map);
        let table = token_bytes(json, &map, &alphabet, n);
        let special = special_flags(json, n);
        Ok(Tokenizer { byte_ids, merges, token_bytes: table, special, split })
    }

    /// The text of the token `id` for prefix matching: none for a special
    /// token, an unknown one, and one that is no text on its own.
    pub fn token_text(&self, id: u32) -> (text: Option<&str>)
        requires
            self.wf(),
        ensures
            match text {
                Some(s) => self.text_of(id) == Some(s@),
                None => self.text_of(id) is None,
            },
    {
        if id as u64 >= self.special.len() as u64 {
            return None;
        }
        let index: usize = id as usize;
        if self.special[index] {
            return None;
        }
        let bytes = &self.token_bytes[index];
        match str_from_utf8(bytes.as_slice()) {
            None => None,
            Some(text) => {
                proof {
                    encode_utf8_decode_utf8(text@);
                    encode_utf8_valid_utf8(text@);
                }
                if text.as_bytes().len() == 0 {
                    proof {
                        assert(encode_utf8(text@).len() == 0);
                        crate::unicode::lemma_byte_len_prefix(text@, text@.len() as int);
                    }
                    return None;
                }
                if has_replacement(text) {
                    return None;
                }
                proof {
                    if text@.len() == 0 {
                        assert(encode_utf8(text@).len() == 0);
                    }
                }
                Some(text)
            },
        }
    }

    /// The byte spans of the pre-tokens of a text.
    pub fn pre_tokenize(&self, text: &str) -> (spans: Vec<(usize, usize)>)
        requires
            self.wf(),
        ensures
            span_view(spans@) == pre_spans(text@, 0, 0),
            tiles(span_view(spans@), 0, byte_len(text@) as int),
    {
        pre_tokenize_with(&self.split, text)
    }

    /// Tokenizes a text. The spans are in order, do not overlap, cover every byte
    /// that has a token of its own, and begin and end with such bytes. With
    /// faithful tables each token says the bytes of its span, and all of them, one
    /// after the other, the bytes of the text.
    pub fn encode(&self, text: &str) -> (out: Encoding)
        requires
            self.wf(),
        ensures
            out.holds(self.tokens(text@)),
            in_order(self.tokens(text@), 0, byte_len(text@) as int),
            covers(
                self.tokens(text@),
                self.byte_ids@,
                encode_utf8(text@),
                0,
                byte_len(text@) as int,
            ),
            rooted(self.tokens(text@), self.byte_ids@, encode_utf8(text@)),
            self.is_faithful() ==> each_says(
                self.token_bytes@,
                self.byte_ids@,
                encode_utf8(text@),
                self.tokens(text@),
            ),
            self.is_faithful() ==> spoken(self.token_bytes@, out.ids@) == known_bytes(
                self.byte_ids@,
                encode_utf8(text@),
                0,
                byte_len(text@) as int,
            ),
    {
        let spans = self.pre_tokenize(text);
        let bytes = text.as_bytes();
        let total: usize = bytes.len();
        let ghost all = span_view(spans@);
        let ghost ids = self.byte_ids@;
        let ghost table = self.token_bytes@;
        let ghost good = choose|good: Set<u32>|
            #[trigger] faithful(self.byte_ids@, self.merges@, self.token_bytes@, good);
        let mut symbols: Vec<Symbol> = Vec::new();
        let mut i: usize = 0;
        let ghost mut at: int = 0;
        assert(all.take(0) =~= Seq::<(int, int)>::empty());
        assert(all.skip(0) =~= all);
        assert(rooted(symbols@, ids, bytes@)) by {
            reveal(rooted);
        }
        while i < spans.len()
            invariant
                self.wf(),
                ids == self.byte_ids@,
                all == span_view(spans@),
                all.len() == spans@.len(),
                bytes@ == encode_utf8(text@),
                total == bytes@.len(),
                i <= spans@.len(),
                tiles(all.skip(i as int), at, bytes@.len() as int),
                0 <= at <= bytes@.len(),
                symbols@ == tokens_of(ids, self.merges@, bytes@, all.take(i as int)),
                in_order(symbols@, 0, at),
                covers(symbols@, ids, bytes@, 0, at),
                rooted(symbols@, ids, bytes@),
                table == self.token_bytes@,
                self.is_faithful() ==> faithful(ids, self.merges@, table, good),
                self.is_faithful() ==> each_says(table, ids, bytes@, symbols@),
            decreases spans@.len() - i,
        {
            let (start, end) = spans[i];
            proof {
                assert(all.skip(i as int)[0] == all[i as int]);
                assert(all[i as int] == (start as int, end as int));
                assert(all.skip(i as int).drop_first() =~= all.skip(i + 1));
                lemma_tiles_end(all.skip(i + 1), end as int, bytes@.len() as int);
                assert(all.take(i + 1).drop_last() =~= all.take(i as int));
                assert(all.take(i + 1).last() == all[i as int]);
                lemma_tokens_cover(ids, self.merges@, bytes@, symbols@, start as int, end as int);
                lemma_tokens_rooted(ids, self.merges@, bytes@, symbols@, start as int, end as int);
            }
            bpe(&self.byte_ids, &self.merges, bytes, start, end, &mut symbols);
            proof {
                if self.is_faithful() {
                    lemma_pre_token_says(
                        ids,
                        self.merges@,
                        table,
                        good,
                        bytes@,
                        start as int,
                        end as int,
                    );
                }
                at = end as int;
            }
            i = i + 1;
        }
        proof {
            assert(all.take(i as int) =~= all);
            assert(all.skip(i as int) =~= Seq::<(int, int)>::empty());
            if self.is_faithful() {
                let n = symbols@.len() as int;
                lemma_spoken_before(ids, table, bytes@, symbols@, n, total as int);
                assert(ids_of(symbols@).take(n) =~= ids_of(symbols@));
            }
        }
        let mut out_ids: Vec<u32> = Vec::new();
        let mut offsets: Vec<(usize, usize)> = Vec::new();
        let mut k: usize = 0;
        while k < symbols.len()
            invariant
                k <= symbols@.len(),
                out_ids@ == ids_of(symbols@).take(k as int),
                offsets@ == offsets_of(symbols@).take(k as int),
            decreases symbols@.len() - k,
        {
            let (id, from, to) = symbols[k];
            out_ids.push(id);
            offsets.push((from, to));
            proof {
                assert(ids_of(symbols@).take(k as int).push(id) =~= ids_of(symbols@).take(k + 1));
                assert(offsets_of(symbols@).take(k as int).push((from, to)) =~= offsets_of(
                    symbols@,
                ).take(k + 1));
            }
            k = k + 1;
        }
        proof {
            assert(ids_of(symbols@).take(k as int) =~= ids_of(symbols@));
            assert(offsets_of(symbols@).take(k as int) =~= offsets_of(symbols@));
        }
        Encoding { ids: out_ids, offsets }
    }
}

proof fn lemma_tiles_end(spans: Seq<(int, int)>, from: int, to: int)
    requires
        tiles(spans, from, to),
    ensures
        from <= to,
    decreases spans.len(),
{
    if spans.len() > 0 {
        lemma_tiles_end(spans.drop_first(), spans[0].1, to);
    }
}

/// Whether the text holds a replacement character.
fn has_replacement(text: &str) -> (r: bool)
    ensures
        r == text@.contains('\u{FFFD}'),
{
    let chars = crate::unicode::chars_of(text);
    let mut i: usize = 0;
    while i < chars.len()
        invariant
            chars@ == text@,
            i <= chars@.len(),
            forall|k: int| 0 <= k < i ==> chars@[k] != '\u{FFFD}',
        decreases chars@.len() - i,
    {
        if chars[i] == '\u{FFFD}' {
            assert(text@[i as int] == '\u{FFFD}');
            return true;
        }
        i = i + 1;
    }
    false
}

fn supported(pre: &PreTokenizerSpec) -> (r: bool)
    ensures
        r == pre_tokenizer_ok(*pre),
{
    if !same_text(pre.kind.as_str(), "Sequence") || pre.pretokenizers.len() != 2 {
        return false;
    }
    let digits = &pre.pretokenizers[0];
    let bytes = &pre.pretokenizers[1];
    same_text(digits.kind.as_str(), "Digits") && digits.individual_digits && same_text(
        bytes.kind.as_str(),
        "ByteLevel",
    ) && !bytes.add_prefix_space && bytes.use_regex
}

fn unset(affix: &Option<String>) -> (r: bool)
    ensures
        r == no_affix(*affix),
{
    match affix {
        None => true,
        Some(text) => {
            let chars = crate::unicode::chars_of(text.as_str());
            chars.len() == 0
        },
    }
}

fn plain_options(model: &ModelSpec) -> (r: bool)
    ensures
        r == options_ok(*model),
{
    !model.dropout && unset(&model.continuing_subword_prefix) && unset(&model.end_of_word_suffix)
}

} // verus!
