//! What a tokenizer description holds, and the tables read out of it.

use std::collections::HashMap;

use vstd::hash_map::StringHashMap;
use vstd::prelude::*;
use vstd::utf8::*;

use super::byte_level::{byte_char, bytes_spelled, Alphabet};
use crate::ngram::pair_table::{key_of, pair_key};
use crate::unicode::{chars_of, string_of};

verus! {

broadcast use vstd::std_specs::hash::group_hash_axioms;

/// One step of the pre-tokenizer.
pub struct PreTokenizerStep {
    pub kind: String,
    pub individual_digits: bool,
    pub add_prefix_space: bool,
    pub use_regex: bool,
}

/// The pre-tokenizer: its kind and, for a sequence, its steps.
pub struct PreTokenizerSpec {
    pub kind: String,
    pub pretokenizers: Vec<PreTokenizerStep>,
}

/// One merge: the two texts joined by a space, or apart.
pub enum MergeRule {
    Joined(String),
    Pair(String, String),
}

/// The merging model. An entry of `vocab` replaces an earlier one of the same
/// text.
pub struct ModelSpec {
    pub kind: String,
    /// Whether a dropout is set.
    pub dropout: bool,
    pub continuing_subword_prefix: Option<String>,
    pub end_of_word_suffix: Option<String>,
    pub vocab: Vec<(String, u32)>,
    pub merges: Vec<MergeRule>,
}

/// A token added beside the vocabulary.
pub struct AddedToken {
    pub id: u32,
    pub content: String,
    pub special: bool,
}

/// A whole tokenizer description.
pub struct TokenizerSpec {
    /// Whether a normalizer is set.
    pub normalizer: bool,
    pub pre_tokenizer: Option<PreTokenizerSpec>,
    /// The decoder's kind.
    pub decoder: Option<String>,
    pub model: ModelSpec,
    pub added_tokens: Vec<AddedToken>,
}

/// The token of every text.
pub open spec fn vocab_map(entries: Seq<(String, u32)>) -> Map<Seq<char>, u32>
    decreases entries.len(),
{
    if entries.len() == 0 {
        Map::empty()
    } else {
        vocab_map(entries.drop_last()).insert(entries.last().0@, entries.last().1)
    }
}

/// Reads the vocabulary into a map.
pub(crate) fn vocab_index(entries: &Vec<(String, u32)>) -> (map: StringHashMap<u32>)
    ensures
        map@ == vocab_map(entries@),
{
    let mut map: StringHashMap<u32> = StringHashMap::new();
    let mut i: usize = 0;
    assert(entries@.take(0) =~= Seq::<(String, u32)>::empty());
    while i < entries.len()
        invariant
            i <= entries@.len(),
            map@ == vocab_map(entries@.take(i as int)),
        decreases entries@.len() - i,
    {
        let text: String = entries[i].0.as_str().to_owned();
        map.insert(text, entries[i].1);
        proof {
            assert(entries@.take(i + 1).drop_last() =~= entries@.take(i as int));
            assert(entries@.take(i + 1).last() == entries@[i as int]);
        }
        i = i + 1;
    }
    assert(entries@.take(i as int) =~= entries@);
    map
}

/// The entry has not been replaced by a later one.
pub open spec fn live(map: Map<Seq<char>, u32>, entry: (String, u32)) -> bool {
    map.contains_key(entry.0@) && map[entry.0@] == entry.1
}

fn is_live(map: &StringHashMap<u32>, entry: &(String, u32)) -> (r: bool)
    ensures
        r == live(map@, *entry),
{
    match map.get(entry.0.as_str()) {
        Some(id) => *id == entry.1,
        None => false,
    }
}

/// The larger of two numbers.
pub open spec fn most(a: int, b: int) -> int {
    if a < b {
        b
    } else {
        a
    }
}

/// One more than the largest token among the first `k` entries.
pub open spec fn vocab_size(map: Map<Seq<char>, u32>, entries: Seq<(String, u32)>, k: int) -> int
    decreases k,
{
    if k <= 0 {
        0
    } else if live(map, entries[k - 1]) {
        most(vocab_size(map, entries, k - 1), entries[k - 1].1 + 1)
    } else {
        vocab_size(map, entries, k - 1)
    }
}

/// One more than the largest token among the first `k` added ones.
pub open spec fn added_size(added: Seq<AddedToken>, k: int) -> int
    decreases k,
{
    if k <= 0 {
        0
    } else {
        most(added_size(added, k - 1), added[k - 1].id + 1)
    }
}

/// The number of tokens of a description.
pub open spec fn table_size(json: TokenizerSpec) -> int {
    most(
        vocab_size(
            vocab_map(json.model.vocab@),
            json.model.vocab@,
            json.model.vocab@.len() as int,
        ),
        added_size(json.added_tokens@, json.added_tokens@.len() as int),
    )
}

/// Every token can number a place of a table on this machine.
pub open spec fn ids_fit(json: TokenizerSpec) -> bool {
    &&& forall|i: int|
        0 <= i < json.model.vocab@.len() ==> (#[trigger] json.model.vocab@[i]).1 < usize::MAX
    &&& forall|i: int|
        0 <= i < json.added_tokens@.len() ==> (#[trigger] json.added_tokens@[i]).id < usize::MAX
}

pub(crate) proof fn lemma_vocab_size(map: Map<Seq<char>, u32>, entries: Seq<(String, u32)>, j: int, k: int)
    requires
        0 <= j < k,
        live(map, entries[j]),
    ensures
        entries[j].1 < vocab_size(map, entries, k),
    decreases k,
{
    if j < k - 1 {
        lemma_vocab_size(map, entries, j, k - 1);
    }
}

proof fn lemma_added_size(added: Seq<AddedToken>, j: int, k: int)
    requires
        0 <= j < k,
    ensures
        added[j].id < added_size(added, k),
    decreases k,
{
    if j < k - 1 {
        lemma_added_size(added, j, k - 1);
    }
}

/// The number of tokens of a description.
pub(crate) fn token_count(json: &TokenizerSpec, map: &StringHashMap<u32>) -> (n: usize)
    requires
        ids_fit(*json),
        map@ == vocab_map(json.model.vocab@),
    ensures
        n == table_size(*json),
{
    let entries = &json.model.vocab;
    let mut n: usize = 0;
    let mut i: usize = 0;
    while i < entries.len()
        invariant
            ids_fit(*json),
            entries@ == json.model.vocab@,
            i <= entries@.len(),
            n == vocab_size(map@, entries@, i as int),
        decreases entries@.len() - i,
    {
        if is_live(map, &entries[i]) {
            assert(json.model.vocab@[i as int].1 < usize::MAX);
            let top: usize = entries[i].1 as usize + 1;
            if n < top {
                n = top;
            }
        }
        i = i + 1;
    }
    let added = &json.added_tokens;
    let mut m: usize = 0;
    let mut j: usize = 0;
    while j < added.len()
        invariant
            ids_fit(*json),
            added@ == json.added_tokens@,
            j <= added@.len(),
            m == added_size(added@, j as int),
        decreases added@.len() - j,
    {
        assert(json.added_tokens@[j as int].id < usize::MAX);
        let top: usize = added[j].id as usize + 1;
        if m < top {
            m = top;
        }
        j = j + 1;
    }
    if n < m {
        m
    } else {
        n
    }
}

/// The bytes that a vocabulary text stands for: one byte for each character of
/// the byte-level alphabet, or its own encoding where a character is not of
/// that alphabet.
pub open spec fn entry_bytes(text: Seq<char>) -> Seq<u8> {
    match bytes_spelled(text) {
        Some(bytes) => bytes,
        None => encode_utf8(text),
    }
}

/// The bytes of the token `id` after the first `k` entries of the vocabulary.
pub open spec fn vocab_bytes(
    map: Map<Seq<char>, u32>,
    entries: Seq<(String, u32)>,
    k: int,
    id: int,
) -> Seq<u8>
    decreases k,
{
    if k <= 0 {
        Seq::empty()
    } else if live(map, entries[k - 1]) && entries[k - 1].1 == id {
        entry_bytes(entries[k - 1].0@)
    } else {
        vocab_bytes(map, entries, k - 1, id)
    }
}

/// The bytes of the token `id` after the first `k` added tokens, over `base`.
pub open spec fn added_bytes(added: Seq<AddedToken>, k: int, base: Seq<u8>, id: int) -> Seq<u8>
    decreases k,
{
    if k <= 0 {
        base
    } else if added[k - 1].id == id {
        encode_utf8(added[k - 1].content@)
    } else {
        added_bytes(added, k - 1, base, id)
    }
}

/// Whether the token `id` is special after the first `k` added tokens.
pub open spec fn added_special(added: Seq<AddedToken>, k: int, id: int) -> bool
    decreases k,
{
    if k <= 0 {
        false
    } else if added[k - 1].id == id {
        added[k - 1].special
    } else {
        added_special(added, k - 1, id)
    }
}

/// The bytes that the token `id` of a description decodes to.
pub open spec fn bytes_of_token(json: TokenizerSpec, id: int) -> Seq<u8> {
    added_bytes(
        json.added_tokens@,
        json.added_tokens@.len() as int,
        vocab_bytes(
            vocab_map(json.model.vocab@),
            json.model.vocab@,
            json.model.vocab@.len() as int,
            id,
        ),
        id,
    )
}

/// Whether the token `id` of a description is special.
pub open spec fn token_is_special(json: TokenizerSpec, id: int) -> bool {
    added_special(json.added_tokens@, json.added_tokens@.len() as int, id)
}

fn copied(bytes: &[u8]) -> (out: Vec<u8>)
    ensures
        out@ == bytes@,
{
    let mut out: Vec<u8> = Vec::new();
    let mut i: usize = 0;
    while i < bytes.len()
        invariant
            i <= bytes@.len(),
            out@ == bytes@.take(i as int),
        decreases bytes@.len() - i,
    {
        out.push(bytes[i]);
        assert(bytes@.take(i as int).push(bytes@[i as int]) =~= bytes@.take(i + 1));
        i = i + 1;
    }
    assert(bytes@.take(i as int) =~= bytes@);
    out
}

/// The bytes that a vocabulary text stands for.
fn bytes_of_entry(alphabet: &Alphabet, text: &str) -> (out: Vec<u8>)
    requires
        alphabet.wf(),
    ensures
        out@ == entry_bytes(text@),
{
    let chars = chars_of(text);
    match alphabet.spelled(chars.as_slice()) {
        Some(bytes) => bytes,
        None => copied(text.as_bytes()),
    }
}

/// The bytes of every token.
pub(crate) fn token_bytes(json: &TokenizerSpec, map: &StringHashMap<u32>, alphabet: &Alphabet, n:
    usize) -> (table: Vec<Vec<u8>>)
    requires
        alphabet.wf(),
        map@ == vocab_map(json.model.vocab@),
        n == table_size(*json),
    ensures
        table@.len() == n,
        forall|id: int| 0 <= id < n ==> (#[trigger] table@[id])@ == bytes_of_token(*json, id),
{
    let mut table: Vec<Vec<u8>> = Vec::new();
    let entries = &json.model.vocab;
    let added = &json.added_tokens;
    let mut f: usize = 0;
    while f < n
        invariant
            f <= n,
            table@.len() == f,
            forall|id: int| 0 <= id < f ==> (#[trigger] table@[id])@ == Seq::<u8>::empty(),
        decreases n - f,
    {
        table.push(Vec::new());
        f = f + 1;
    }
    let mut i: usize = 0;
    while i < entries.len()
        invariant
            alphabet.wf(),
            map@ == vocab_map(json.model.vocab@),
            n == table_size(*json),
            entries@ == json.model.vocab@,
            i <= entries@.len(),
            table@.len() == n,
            forall|id: int|
                0 <= id < n ==> (#[trigger] table@[id])@ == vocab_bytes(map@, entries@, i as int, id),
        decreases entries@.len() - i,
    {
        if is_live(map, &entries[i]) {
            proof {
                lemma_vocab_size(map@, entries@, i as int, entries@.len() as int);
            }
            let bytes = bytes_of_entry(alphabet, entries[i].0.as_str());
            table.set(entries[i].1 as usize, bytes);
        }
        i = i + 1;
    }
    let ghost base = table@;
    let mut j: usize = 0;
    while j < added.len()
        invariant
            n == table_size(*json),
            added@ == json.added_tokens@,
            j <= added@.len(),
            table@.len() == n,
            base.len() == n,
            forall|id: int|
                0 <= id < n ==> (#[trigger] table@[id])@ == added_bytes(
                    added@,
                    j as int,
                    base[id]@,
                    id,
                ),
        decreases added@.len() - j,
    {
        proof {
            lemma_added_size(added@, j as int, added@.len() as int);
        }
        let bytes = copied(added[j].content.as_str().as_bytes());
        table.set(added[j].id as usize, bytes);
        j = j + 1;
    }
    table
}

/// Which tokens are special.
pub(crate) fn special_flags(json: &TokenizerSpec, n: usize) -> (flags: Vec<bool>)
    requires
        n == table_size(*json),
    ensures
        flags@.len() == n,
        forall|id: int| 0 <= id < n ==> #[trigger] flags@[id] == token_is_special(*json, id),
{
    let added = &json.added_tokens;
    let mut flags: Vec<bool> = vec![false; n];
    let mut j: usize = 0;
    while j < added.len()
        invariant
            n == table_size(*json),
            added@ == json.added_tokens@,
            j <= added@.len(),
            flags@.len() == n,
            forall|id: int|
                0 <= id < n ==> #[trigger] flags@[id] == added_special(added@, j as int, id),
        decreases added@.len() - j,
    {
        proof {
            lemma_added_size(added@, j as int, added@.len() as int);
        }
        flags.set(added[j].id as usize, added[j].special);
        j = j + 1;
    }
    flags
}

/// The token of a single byte.
pub open spec fn byte_token(map: Map<Seq<char>, u32>, b: int) -> Option<u32> {
    let text = seq![byte_char(b as u8)];
    if map.contains_key(text) {
        Some(map[text])
    } else {
        None
    }
}

/// How many of the first `k` bytes have a token.
pub open spec fn byte_tokens(map: Map<Seq<char>, u32>, k: int) -> int
    decreases k,
{
    if k <= 0 {
        0
    } else if byte_token(map, k - 1) is Some {
        byte_tokens(map, k - 1) + 1
    } else {
        byte_tokens(map, k - 1)
    }
}

/// The token of every byte, and how many bytes have one.
pub(crate) fn byte_table(map: &StringHashMap<u32>, alphabet: &Alphabet) -> (r: (
    Vec<Option<u32>>,
    usize,
))
    requires
        alphabet.wf(),
    ensures
        r.0@.len() == 256,
        forall|b: int| 0 <= b < 256 ==> #[trigger] r.0@[b] == byte_token(map@, b),
        r.1 == byte_tokens(map@, 256),
{
    let mut ids: Vec<Option<u32>> = Vec::new();
    let mut count: usize = 0;
    let mut b: usize = 0;
    while b < 256
        invariant
            alphabet.wf(),
            b <= 256,
            ids@.len() == b,
            count <= b,
            count == byte_tokens(map@, b as int),
            forall|k: int| 0 <= k < b ==> #[trigger] ids@[k] == byte_token(map@, k),
        decreases 256 - b,
    {
        let mut text = String::new();
        text.push(alphabet.chars[b]);
        assert(text@ =~= seq![byte_char((b as int) as u8)]);
        let id: Option<u32> = match map.get(text.as_str()) {
            Some(id) => Some(*id),
            None => None,
        };
        if id.is_some() {
            count = count + 1;
        }
        ids.push(id);
        b = b + 1;
    }
    (ids, count)
}

/// Where the first space of `text` at or after `i` stands.
pub open spec fn space_from(text: Seq<char>, i: int) -> Option<int>
    decreases text.len() - i,
{
    if i < 0 || i >= text.len() {
        None
    } else if text[i] == ' ' {
        Some(i)
    } else {
        space_from(text, i + 1)
    }
}

/// The two texts that a rule merges.
pub open spec fn rule_parts(rule: MergeRule) -> Option<(Seq<char>, Seq<char>)> {
    match rule {
        MergeRule::Joined(text) => match space_from(text@, 0) {
            Some(at) => Some((text@.take(at), text@.skip(at + 1))),
            None => None,
        },
        MergeRule::Pair(left, right) => Some((left@, right@)),
    }
}

/// What is wrong with a rule.
pub enum RuleFault {
    /// No space between the two texts.
    Malformed,
    /// A text, or the two joined, is not in the vocabulary.
    Unknown(Seq<char>, Seq<char>),
}

/// What is wrong with a rule under a vocabulary.
pub open spec fn rule_fault(map: Map<Seq<char>, u32>, rule: MergeRule) -> Option<RuleFault> {
    match rule_parts(rule) {
        None => Some(RuleFault::Malformed),
        Some((left, right)) => if map.contains_key(left) && map.contains_key(right)
            && map.contains_key(left + right) {
            None
        } else {
            Some(RuleFault::Unknown(left, right))
        },
    }
}

/// What is wrong with the first faulty rule at or after `k`.
pub open spec fn rules_fault(map: Map<Seq<char>, u32>, rules: Seq<MergeRule>, k: int) -> Option<
    RuleFault,
>
    decreases rules.len() - k,
{
    if k < 0 || k >= rules.len() {
        None
    } else if rule_fault(map, rules[k]) is Some {
        rule_fault(map, rules[k])
    } else {
        rules_fault(map, rules, k + 1)
    }
}

/// The merges of the first `k` rules: the first rule of a pair of tokens
/// counts, and its place is the rank.
pub open spec fn merge_map(map: Map<Seq<char>, u32>, rules: Seq<MergeRule>, k: int) -> Map<
    u64,
    (u32, u32),
>
    decreases k,
{
    if k <= 0 {
        Map::empty()
    } else {
        let before = merge_map(map, rules, k - 1);
        let parts = rule_parts(rules[k - 1])->0;
        let key = key_of(map[parts.0], map[parts.1]);
        if before.contains_key(key) {
            before
        } else {
            before.insert(key, ((k - 1) as u32, map[parts.0 + parts.1]))
        }
    }
}

/// A rule that cannot be used.
pub enum BadRule {
    Malformed,
    Unknown(String, String),
}

impl BadRule {
    pub open spec fn says(&self, fault: RuleFault) -> bool {
        match (*self, fault) {
            (BadRule::Malformed, RuleFault::Malformed) => true,
            (BadRule::Unknown(l, r), RuleFault::Unknown(left, right)) => l@ == left && r@ == right,
            _ => false,
        }
    }
}

/// The two texts that a rule merges.
fn parts_of(rule: &MergeRule) -> (parts: Option<(String, String)>)
    ensures
        match parts {
            Some((l, r)) => rule_parts(*rule) == Some((l@, r@)),
            None => rule_parts(*rule) is None,
        },
{
    match rule {
        MergeRule::Pair(left, right) => Some((
            left.as_str().to_owned(),
            right.as_str().to_owned(),
        )),
        MergeRule::Joined(text) => {
            let chars = chars_of(text.as_str());
            let mut i: usize = 0;
            while i < chars.len()
                invariant
                    *rule == MergeRule::Joined(*text),
                    chars@ == text@,
                    i <= chars@.len(),
                    space_from(text@, 0) == space_from(text@, i as int),
                decreases chars@.len() - i,
            {
                if chars[i] == ' ' {
                    let left = string_of(&chars[0..i]);
                    let right = string_of(&chars[i + 1..chars.len()]);
                    assert(left@ =~= text@.take(i as int));
                    assert(right@ =~= text@.skip(i + 1));
                    return Some((left, right));
                }
                i = i + 1;
            }
            None
        },
    }
}

fn token_named(map: &StringHashMap<u32>, text: &str) -> (id: Option<u32>)
    ensures
        match id {
            Some(id) => map@.contains_key(text@) && map@[text@] == id,
            None => !map@.contains_key(text@),
        },
{
    match map.get(text) {
        Some(id) => Some(*id),
        None => None,
    }
}

/// The merges by pair of tokens.
pub(crate) fn merge_table(map: &StringHashMap<u32>, rules: &Vec<MergeRule>) -> (r: Result<
    HashMap<u64, (u32, u32)>,
    BadRule,
>)
    ensures
        match r {
            Ok(table) => {
                &&& rules_fault(map@, rules@, 0) is None
                &&& table@ == merge_map(map@, rules@, rules@.len() as int)
            },
            Err(e) => rules_fault(map@, rules@, 0) is Some && e.says(
                rules_fault(map@, rules@, 0)->0,
            ),
        },
{
    let mut table: HashMap<u64, (u32, u32)> = HashMap::new();
    let mut rank: usize = 0;
    while rank < rules.len()
        invariant
            rank <= rules@.len(),
            rules_fault(map@, rules@, 0) == rules_fault(map@, rules@, rank as int),
            table@ == merge_map(map@, rules@, rank as int),
        decreases rules@.len() - rank,
    {
        match parts_of(&rules[rank]) {
            None => {
                return Err(BadRule::Malformed);
            },
            Some((left, right)) => {
                let mut whole = left.as_str().to_owned();
                whole.append(right.as_str());
                let l = token_named(map, left.as_str());
                let r = token_named(map, right.as_str());
                let m = token_named(map, whole.as_str());
                match (l, r, m) {
                    (Some(l), Some(r), Some(id)) => {
                        let key: u64 = pair_key(l, r);
                        if !table.contains_key(&key) {
                            table.insert(key, (rank as u32, id));
                        }
                    },
                    _ => {
                        return Err(BadRule::Unknown(left, right));
                    },
                }
            },
        }
        rank = rank + 1;
    }
    Ok(table)
}

} // verus!
