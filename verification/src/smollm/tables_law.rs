//! What the tables of a tokenizer and the limits of a decoder hold.

use vstd::prelude::*;
use vstd::utf8::encode_utf8;

use super::decoder::{
    config_error, element_width, elements, foreign_token, CacheError, CacheLen, LlamaConfig,
};
use super::token_index::{continues, kept, run_stop, tokens_by_kind};
use super::token_tables::{
    added_bytes, added_size, added_special, live, merge_map, rule_fault, rule_parts, rules_fault,
    space_from, vocab_map, vocab_size, AddedToken, MergeRule,
};
use crate::ngram::pair_table::key_of;
use crate::prose::word_char;

verus! {

proof fn lemma_space_from(text: Seq<char>, i: int, p: int)
    requires
        0 <= i <= p < text.len(),
        forall|k: int| i <= k < p ==> #[trigger] text[k] != ' ',
        text[p] == ' ',
    ensures
        space_from(text, i) == Some(p),
    decreases p - i,
{
    if i < p {
        assert(text[i] != ' ');
        lemma_space_from(text, i + 1, p);
    }
}

/// A rule written as one text names what stands before and behind its first
/// space.
pub proof fn law_joined_rules_are_cut_at_the_space(
    left: Seq<char>,
    right: Seq<char>,
    text: String,
)
    requires
        !left.contains(' '),
        text@ == left.push(' ') + right,
    ensures
        rule_parts(MergeRule::Joined(text)) == Some((left, right)),
{
    let n = left.len() as int;
    assert forall|k: int| 0 <= k < n implies #[trigger] text@[k] != ' ' by {
        assert(left.contains(left[k]));
    }
    lemma_space_from(text@, 0, n);
    assert(text@.take(n) =~= left);
    assert(text@.skip(n + 1) =~= right);
}

/// The rules are good exactly when each of them names two texts that the
/// vocabulary has, alone and joined; the fault told is that of the first that
/// is not.
pub proof fn law_the_first_bad_rule_is_told(
    map: Map<Seq<char>, u32>,
    rules: Seq<MergeRule>,
    k: int,
    p: int,
)
    requires
        0 <= k <= p <= rules.len(),
        forall|i: int| k <= i < p ==> rule_fault(map, #[trigger] rules[i]) is None,
    ensures
        p == rules.len() ==> rules_fault(map, rules, k) is None,
        p < rules.len() && rule_fault(map, rules[p]) is Some ==> rules_fault(map, rules, k)
            == rule_fault(map, rules[p]),
    decreases p - k,
{
    if k < p {
        assert(rule_fault(map, rules[k]) is None);
        law_the_first_bad_rule_is_told(map, rules, k + 1, p);
    }
}

/// The pair that a rule merges.
pub open spec fn pair_of(map: Map<Seq<char>, u32>, rule: MergeRule) -> u64 {
    key_of(map[(rule_parts(rule)->0).0], map[(rule_parts(rule)->0).1])
}

/// Each rule's pair is merged into the token of the two texts joined, at the
/// rank of the first rule for that pair.
pub proof fn law_the_first_rule_ranks_its_pair(
    map: Map<Seq<char>, u32>,
    rules: Seq<MergeRule>,
    k: int,
    i: int,
)
    requires
        0 <= i < k <= rules.len() <= u32::MAX,
    ensures
        merge_map(map, rules, k).contains_key(pair_of(map, rules[i])),
        merge_map(map, rules, k)[pair_of(map, rules[i])].0 <= i,
        (forall|j: int| 0 <= j < i ==> pair_of(map, #[trigger] rules[j]) != pair_of(map, rules[i]))
            ==> merge_map(map, rules, k)[pair_of(map, rules[i])] == (
            i as u32,
            map[(rule_parts(rules[i])->0).0 + (rule_parts(rules[i])->0).1],
        ),
    decreases k,
{
    let before = merge_map(map, rules, k - 1);
    if i < k - 1 {
        law_the_first_rule_ranks_its_pair(map, rules, k - 1, i);
    } else {
        if before.contains_key(pair_of(map, rules[i])) {
            lemma_merged_pairs(map, rules, k - 1, pair_of(map, rules[i]));
        }
    }
}

proof fn lemma_merged_pairs(map: Map<Seq<char>, u32>, rules: Seq<MergeRule>, k: int, key: u64)
    requires
        0 <= k <= rules.len() <= u32::MAX,
        merge_map(map, rules, k).contains_key(key),
    ensures
        merge_map(map, rules, k)[key].0 < k,
        exists|j: int| 0 <= j < k && pair_of(map, #[trigger] rules[j]) == key,
    decreases k,
{
    if k > 0 {
        let before = merge_map(map, rules, k - 1);
        if before.contains_key(key) {
            lemma_merged_pairs(map, rules, k - 1, key);
            let j = choose|j: int| 0 <= j < k - 1 && pair_of(map, #[trigger] rules[j]) == key;
            assert(pair_of(map, rules[j]) == key);
        } else {
            assert(pair_of(map, rules[k - 1]) == key);
        }
    }
}

/// No pair is merged without a rule for it.
pub proof fn law_only_rules_merge(
    map: Map<Seq<char>, u32>,
    rules: Seq<MergeRule>,
    k: int,
    key: u64,
)
    requires
        0 <= k <= rules.len() <= u32::MAX,
        forall|j: int| 0 <= j < k ==> pair_of(map, #[trigger] rules[j]) != key,
    ensures
        !merge_map(map, rules, k).contains_key(key),
{
    if merge_map(map, rules, k).contains_key(key) {
        lemma_merged_pairs(map, rules, k, key);
    }
}

/// A later entry of a text takes the place of an earlier one.
pub proof fn law_later_entries_replace_earlier(
    entries: Seq<(String, u32)>,
    text: Seq<char>,
    p: int,
)
    requires
        0 <= p < entries.len(),
        entries[p].0@ == text,
        forall|k: int| p < k < entries.len() ==> (#[trigger] entries[k]).0@ != text,
    ensures
        vocab_map(entries).contains_key(text),
        vocab_map(entries)[text] == entries[p].1,
    decreases entries.len(),
{
    if p < entries.len() - 1 {
        assert(entries[entries.len() - 1].0@ != text);
        law_later_entries_replace_earlier(entries.drop_last(), text, p);
    }
}

/// An added token's bytes are those of its own text, whatever the vocabulary
/// says, and it is special as it says; the last of an id counts, and an id that
/// none has keeps its bytes and is not special.
pub proof fn law_added_tokens_speak_for_themselves(
    added: Seq<AddedToken>,
    k: int,
    base: Seq<u8>,
    id: int,
    p: int,
)
    requires
        0 <= p <= k <= added.len(),
        forall|i: int| p <= i < k ==> (#[trigger] added[i]).id != id,
    ensures
        p == 0 ==> added_bytes(added, k, base, id) == base && !added_special(added, k, id),
        p > 0 && added[p - 1].id == id ==> added_bytes(added, k, base, id) == encode_utf8(
            added[p - 1].content@,
        ) && added_special(added, k, id) == added[p - 1].special,
    decreases k - p,
{
    if p < k {
        assert(added[k - 1].id != id);
        law_added_tokens_speak_for_themselves(added, k - 1, base, id, p);
    }
}

/// The table has room for every token.
pub proof fn law_tables_hold_every_token(
    map: Map<Seq<char>, u32>,
    entries: Seq<(String, u32)>,
    added: Seq<AddedToken>,
    n: int,
    m: int,
    i: int,
    j: int,
)
    requires
        0 <= i < n <= entries.len(),
        0 <= j < m <= added.len(),
    ensures
        live(map, entries[i]) ==> entries[i].1 < vocab_size(map, entries, n),
        added[j].id < added_size(added, m),
    decreases n + m,
{
    if i < n - 1 {
        law_tables_hold_every_token(map, entries, added, n - 1, m, i, j);
    } else if j < m - 1 {
        law_tables_hold_every_token(map, entries, added, n, m - 1, i, j);
    }
}

/// Each token is of one of the two kinds, in the order of the ids.
pub proof fn law_tokens_are_of_their_kind(
    texts: Seq<Option<Seq<char>>>,
    k: int,
    cont: bool,
    id: u32,
)
    requires
        0 <= k <= texts.len() <= 0x1_0000_0000,
    ensures
        tokens_by_kind(texts, k, cont).contains(id) <==> id < k && continues(texts[id as int]) == cont,
    decreases k,
{
    if k > 0 {
        law_tokens_are_of_their_kind(texts, k - 1, cont, id);
        let before = tokens_by_kind(texts, k - 1, cont);
        let all = tokens_by_kind(texts, k, cont);
        if before.contains(id) {
            let i = choose|i: int| 0 <= i < before.len() && before[i] == id;
            assert(all[i] == id);
        }
        if continues(texts[k - 1]) == cont {
            assert(all[before.len() as int] == (k - 1) as u32);
            if all.contains(id) {
                let i = choose|i: int| 0 <= i < all.len() && all[i] == id;
                if i < before.len() {
                    assert(before[i] == id);
                }
            }
        }
    }
}

/// A token continues a word exactly when its text begins with a letter or an
/// apostrophe.
pub proof fn law_continuing_tokens_begin_with_a_letter(c: char, rest: Seq<char>)
    ensures
        continues(Some(seq![c] + rest)) == word_char(c),
        !continues(Some(Seq::<char>::empty())),
        !continues(None),
{
    assert((seq![c] + rest)[0] == c);
}

/// Filtering keeps exactly what fits.
pub proof fn law_filtering_keeps_what_fits(ids: Seq<u32>, p: spec_fn(u32) -> bool, k: int, id: u32)
    requires
        0 <= k <= ids.len(),
    ensures
        kept(ids, p, k).contains(id) <==> p(id) && ids.take(k).contains(id),
    decreases k,
{
    if k > 0 {
        law_filtering_keeps_what_fits(ids, p, k - 1, id);
        let before = kept(ids, p, k - 1);
        let all = kept(ids, p, k);
        let head = ids.take(k - 1);
        let now = ids.take(k);
        if before.contains(id) {
            let i = choose|i: int| 0 <= i < before.len() && before[i] == id;
            assert(all[i] == id);
        }
        if head.contains(id) {
            let i = choose|i: int| 0 <= i < head.len() && head[i] == id;
            assert(now[i] == id);
        }
        assert(now[k - 1] == ids[k - 1]);
        if now.contains(id) {
            let i = choose|i: int| 0 <= i < now.len() && now[i] == id;
            if i < k - 1 {
                assert(head[i] == id);
            }
        }
        if p(ids[k - 1]) {
            assert(all[before.len() as int] == ids[k - 1]);
            if all.contains(id) {
                let i = choose|i: int| 0 <= i < all.len() && all[i] == id;
                if i < before.len() {
                    assert(before[i] == id);
                }
            }
        }
    } else {
        assert(ids.take(0) =~= Seq::<u32>::empty());
    }
}

/// The word part of a token's text ends at the first character that no word
/// has.
pub proof fn law_words_end_at_the_first_mark(text: Seq<char>, i: int, p: int)
    requires
        0 <= i <= p <= text.len(),
        forall|k: int| i <= k < p ==> word_char(#[trigger] text[k]),
        p < text.len() ==> !word_char(text[p]),
    ensures
        run_stop(text, i) == p,
    decreases p - i,
{
    if i < p {
        assert(word_char(text[i]));
        law_words_end_at_the_first_mark(text, i + 1, p);
    }
}

/// A configuration is taken exactly when it asks for no scaled or interleaved
/// rotation, no biases and no head of its own, its heads divide evenly into
/// halves, and its rows come in blocks of thirty-two.
pub proof fn law_plain_configurations_are_taken(c: LlamaConfig)
    ensures
        config_error(c) is None <==> {
            &&& !c.rope_scaling && !c.rope_interleaved
            &&& !c.attention_bias && !c.mlp_bias
            &&& c.tie_word_embeddings
            &&& c.num_attention_heads > 0 && c.num_key_value_heads > 0
            &&& c.hidden_size % c.num_attention_heads == 0
            &&& c.num_attention_heads % c.num_key_value_heads == 0
            &&& (c.hidden_size / c.num_attention_heads) % 2 == 0
            &&& c.hidden_size % 32 == 0
            &&& c.intermediate_size % 32 == 0
        },
{
}

proof fn lemma_foreign(tokens: Seq<u32>, vocab: int, i: int)
    requires
        0 <= i <= tokens.len(),
    ensures
        match foreign_token(tokens, vocab, i) {
            Some(t) => t >= vocab && tokens.contains(t),
            None => forall|k: int| i <= k < tokens.len() ==> #[trigger] tokens[k] < vocab,
        },
    decreases tokens.len() - i,
{
    if i < tokens.len() && tokens[i] < vocab {
        lemma_foreign(tokens, vocab, i + 1);
    }
}

/// A sequence is scored exactly when something of it is asked for, it fits the
/// cache, and every token is one of the vocabulary.
pub proof fn law_what_fits_is_scored(cache: CacheLen, tokens: Seq<u32>, keep_from: int)
    ensures
        cache.score_error(tokens, keep_from) is None <==> {
            &&& keep_from < tokens.len()
            &&& cache.len + tokens.len() <= cache.limit
            &&& forall|k: int| 0 <= k < tokens.len() ==> #[trigger] tokens[k] < cache.vocab
        },
        cache.score_error(tokens, keep_from) matches Some(CacheError::Token(t)) ==> tokens.contains(
            t,
        ) && t >= cache.vocab,
{
    lemma_foreign(tokens, cache.vocab as int, 0);
    match foreign_token(tokens, cache.vocab as int, 0) {
        Some(t) => {
            let k = choose|k: int| 0 <= k < tokens.len() && tokens[k] == t;
            assert(tokens[k] >= cache.vocab);
        },
        None => {},
    }
}

/// A tensor has as many elements as its sides multiply to, of two or four
/// bytes.
pub proof fn law_elements_are_the_product_of_the_sides(shape: Seq<usize>, side: usize)
    ensures
        elements(Seq::empty(), 0) == 1,
        elements(shape.push(side), shape.len() as int + 1) == elements(shape, shape.len() as int)
            * side,
        element_width("BF16"@) == Some(2int),
        element_width("F32"@) == Some(4int),
{
    lemma_elements_prefix(shape, side, shape.len() as int);
    reveal_strlit("BF16");
    reveal_strlit("F32");
    assert("BF16"@.len() != "F32"@.len());
}

proof fn lemma_elements_prefix(shape: Seq<usize>, side: usize, k: int)
    requires
        0 <= k <= shape.len(),
    ensures
        elements(shape.push(side), k) == elements(shape, k),
    decreases k,
{
    if k > 0 {
        lemma_elements_prefix(shape, side, k - 1);
    }
}

} // verus!
