//! The tokens of a text say the text: their bytes, one after the other, are the
//! bytes of the text.

use vstd::prelude::*;
use vstd::utf8::*;

use super::bpe::{
    best_merge, covered, covers, first_symbols, in_order, joined,
    law_best_merge_is_lowest_and_leftmost, lemma_first_symbols, lemma_joined, merged, merges_at,
    token_at, tokens_of, Symbol,
};
use super::byte_level::{byte_char, bytes_spelled, law_bytes_read_back};
use super::pre_tokens::pre_spans;
use super::token_tables::{
    added_bytes, byte_token, bytes_of_token, entry_bytes, lemma_vocab_size, live, merge_map,
    rule_fault, rule_parts, rules_fault, table_size, vocab_bytes, vocab_map, AddedToken, MergeRule,
    TokenizerSpec,
};
use super::tokenizer::{fault, ids_of, Tokenizer};
use crate::ngram::pair_table::{key_of, lemma_key};

verus! {

/// The bytes of tokens, one after the other.
pub open spec fn spoken(table: Seq<Vec<u8>>, ids: Seq<u32>) -> Seq<u8>
    decreases ids.len(),
{
    if ids.len() == 0 {
        Seq::empty()
    } else {
        spoken(table, ids.drop_last()) + table[ids.last() as int]@
    }
}

/// The bytes of `start..end` that have a token of their own.
pub open spec fn known_bytes(ids: Seq<Option<u32>>, bytes: Seq<u8>, start: int, end: int) -> Seq<u8>
    decreases end - start,
{
    if end <= start {
        Seq::empty()
    } else if ids[bytes[end - 1] as int] is Some {
        known_bytes(ids, bytes, start, end - 1).push(bytes[end - 1])
    } else {
        known_bytes(ids, bytes, start, end - 1)
    }
}

/// The tokens of `good` say what they are made of: a byte's token says the byte,
/// and a merged token what its two parts say.
pub open spec fn faithful(
    ids: Seq<Option<u32>>,
    merges: Map<u64, (u32, u32)>,
    table: Seq<Vec<u8>>,
    good: Set<u32>,
) -> bool {
    &&& forall|b: int|
        0 <= b < 256 && #[trigger] ids[b] is Some ==> good.contains(ids[b]->0)
            && table[ids[b]->0 as int]@ == seq![b as u8]
    &&& forall|l: u32, r: u32|
        good.contains(l) && good.contains(r) && #[trigger] merges.contains_key(key_of(l, r)) ==> {
            let m = merges[key_of(l, r)].1;
            good.contains(m) && table[m as int]@ == table[l as int]@ + table[r as int]@
        }
}

/// Every token of the symbols is good.
pub open spec fn all_good(symbols: Seq<Symbol>, good: Set<u32>) -> bool {
    forall|i: int| 0 <= i < symbols.len() ==> good.contains((#[trigger] symbols[i]).0)
}

proof fn lemma_known_concat(
    ids: Seq<Option<u32>>,
    bytes: Seq<u8>,
    start: int,
    mid: int,
    end: int,
)
    requires
        start <= mid <= end,
    ensures
        known_bytes(ids, bytes, start, end) == known_bytes(ids, bytes, start, mid) + known_bytes(
            ids,
            bytes,
            mid,
            end,
        ),
    decreases end - mid,
{
    if mid < end {
        lemma_known_concat(ids, bytes, start, mid, end - 1);
    }
}

/// Where every byte has a token, nothing is left out.
pub proof fn law_nothing_is_left_out(ids: Seq<Option<u32>>, bytes: Seq<u8>, end: int)
    requires
        0 <= end <= bytes.len(),
        forall|p: int| 0 <= p < end ==> ids[(#[trigger] bytes[p]) as int] is Some,
    ensures
        known_bytes(ids, bytes, 0, end) == bytes.take(end),
    decreases end,
{
    if end > 0 {
        law_nothing_is_left_out(ids, bytes, end - 1);
        assert(bytes[end - 1] == bytes[end - 1]);
        assert(bytes.take(end - 1).push(bytes[end - 1]) =~= bytes.take(end));
    }
}

/// Every token says the bytes of its span that have a token of their own.
pub open spec fn each_says(
    table: Seq<Vec<u8>>,
    ids: Seq<Option<u32>>,
    bytes: Seq<u8>,
    symbols: Seq<Symbol>,
) -> bool {
    forall|i: int|
        0 <= i < symbols.len() ==> table[(#[trigger] symbols[i]).0 as int]@ == known_bytes(
            ids,
            bytes,
            symbols[i].1 as int,
            symbols[i].2 as int,
        )
}

proof fn lemma_first_says(
    ids: Seq<Option<u32>>,
    merges: Map<u64, (u32, u32)>,
    table: Seq<Vec<u8>>,
    good: Set<u32>,
    bytes: Seq<u8>,
    start: int,
    end: int,
)
    requires
        faithful(ids, merges, table, good),
        0 <= start,
        end <= usize::MAX,
    ensures
        all_good(first_symbols(ids, bytes, start, end), good),
        each_says(table, ids, bytes, first_symbols(ids, bytes, start, end)),
    decreases end - start,
{
    if start < end {
        lemma_first_says(ids, merges, table, good, bytes, start, end - 1);
        let b = bytes[end - 1];
        if let Some(id) = ids[b as int] {
            assert(table[id as int]@ == seq![b]);
            assert(known_bytes(ids, bytes, end - 1, end - 1) =~= Seq::<u8>::empty());
            assert(known_bytes(ids, bytes, end - 1, end) =~= seq![b]);
        }
    }
}

/// Bytes that no symbol covers have no token.
proof fn lemma_gap(ids: Seq<Option<u32>>, bytes: Seq<u8>, from: int, to: int)
    requires
        forall|p: int| from <= p < to ==> ids[(#[trigger] bytes[p]) as int] is None,
    ensures
        known_bytes(ids, bytes, from, to) == Seq::<u8>::empty(),
    decreases to - from,
{
    if from < to {
        lemma_gap(ids, bytes, from, to - 1);
        assert(bytes[to - 1] == bytes[to - 1]);
    }
}

/// Between two neighbouring symbols no byte has a token.
proof fn lemma_gap_between(
    ids: Seq<Option<u32>>,
    bytes: Seq<u8>,
    symbols: Seq<Symbol>,
    i: int,
    start: int,
    end: int,
)
    requires
        in_order(symbols, start, end),
        covers(symbols, ids, bytes, start, end),
        -1 <= i < symbols.len(),
    ensures
        ({
            let from = if i < 0 {
                start
            } else {
                symbols[i].2 as int
            };
            let to = if i + 1 < symbols.len() {
                symbols[i + 1].1 as int
            } else {
                end
            };
            from <= to && known_bytes(ids, bytes, from, to) == Seq::<u8>::empty()
        }),
{
    let from = if i < 0 {
        start
    } else {
        symbols[i].2 as int
    };
    let to = if i + 1 < symbols.len() {
        symbols[i + 1].1 as int
    } else {
        end
    };
    if i >= 0 {
        assert(symbols[i].2 <= end);
        if i + 1 < symbols.len() {
            assert(symbols[i].2 <= symbols[i + 1].1);
        }
    } else if symbols.len() > 0 {
        assert(start <= symbols[0].1);
    }
    assert forall|p: int| from <= p < to implies ids[(#[trigger] bytes[p]) as int] is None by {
        if ids[bytes[p] as int] is Some {
            if i + 1 < symbols.len() {
                assert(symbols[i + 1].1 < symbols[i + 1].2 <= end);
            }
            if i >= 0 {
                assert(start <= symbols[i].1 < symbols[i].2);
            }
            assert(covered(symbols, p));
            let k = choose|k: int|
                0 <= k < symbols.len() && (#[trigger] symbols[k]).1 <= p < symbols[k].2;
            if k <= i {
                if k < i {
                    assert(symbols[k].2 <= symbols[i].1);
                    assert(symbols[i].1 < symbols[i].2);
                }
            } else if k > i + 1 {
                assert(symbols[i + 1].2 <= symbols[k].1);
            }
        }
    }
    lemma_gap(ids, bytes, from, to);
}

proof fn lemma_joined_says(
    ids: Seq<Option<u32>>,
    merges: Map<u64, (u32, u32)>,
    table: Seq<Vec<u8>>,
    good: Set<u32>,
    bytes: Seq<u8>,
    symbols: Seq<Symbol>,
    i: int,
    start: int,
    end: int,
)
    requires
        faithful(ids, merges, table, good),
        all_good(symbols, good),
        each_says(table, ids, bytes, symbols),
        in_order(symbols, start, end),
        covers(symbols, ids, bytes, start, end),
        0 <= i < symbols.len() - 1,
        merges_at(merges, symbols, i),
    ensures
        all_good(joined(symbols, i, token_at(merges, symbols, i)), good),
        each_says(table, ids, bytes, joined(symbols, i, token_at(merges, symbols, i))),
{
    let (l, r) = (symbols[i], symbols[i + 1]);
    let m = token_at(merges, symbols, i);
    let after = joined(symbols, i, m);
    assert(merges.contains_key(key_of(l.0, r.0)));
    lemma_gap_between(ids, bytes, symbols, i, start, end);
    lemma_known_concat(ids, bytes, l.1 as int, l.2 as int, r.2 as int);
    lemma_known_concat(ids, bytes, l.2 as int, r.1 as int, r.2 as int);
    assert(table[m as int]@ =~= known_bytes(ids, bytes, l.1 as int, r.2 as int));
    assert forall|k: int| 0 <= k < after.len() implies good.contains((#[trigger] after[k]).0)
        && table[after[k].0 as int]@ == known_bytes(
        ids,
        bytes,
        after[k].1 as int,
        after[k].2 as int,
    ) by {
        if k < i {
            assert(after[k] == symbols[k]);
        } else if k > i {
            assert(after[k] == symbols[k + 1]);
        }
    }
}

proof fn lemma_merged_says(
    ids: Seq<Option<u32>>,
    merges: Map<u64, (u32, u32)>,
    table: Seq<Vec<u8>>,
    good: Set<u32>,
    bytes: Seq<u8>,
    symbols: Seq<Symbol>,
    start: int,
    end: int,
)
    requires
        faithful(ids, merges, table, good),
        all_good(symbols, good),
        each_says(table, ids, bytes, symbols),
        in_order(symbols, start, end),
        covers(symbols, ids, bytes, start, end),
    ensures
        each_says(table, ids, bytes, merged(merges, symbols)),
    decreases symbols.len(),
{
    law_best_merge_is_lowest_and_leftmost(merges, symbols, symbols.len() - 1);
    match best_merge(merges, symbols, symbols.len() - 1) {
        Some(i) if 0 <= i < symbols.len() - 1 => {
            let id = token_at(merges, symbols, i);
            lemma_joined_says(ids, merges, table, good, bytes, symbols, i, start, end);
            lemma_joined(symbols, i, id, start, end);
            lemma_merged_says(
                ids,
                merges,
                table,
                good,
                bytes,
                joined(symbols, i, id),
                start,
                end,
            );
        },
        _ => {},
    }
}

/// Each token of a pre-token says the bytes of its span.
pub(crate) proof fn lemma_pre_token_says(
    ids: Seq<Option<u32>>,
    merges: Map<u64, (u32, u32)>,
    table: Seq<Vec<u8>>,
    good: Set<u32>,
    bytes: Seq<u8>,
    start: int,
    end: int,
)
    requires
        faithful(ids, merges, table, good),
        0 <= start <= end <= usize::MAX,
    ensures
        each_says(table, ids, bytes, merged(merges, first_symbols(ids, bytes, start, end))),
{
    lemma_first_says(ids, merges, table, good, bytes, start, end);
    lemma_first_symbols(ids, bytes, start, end);
    lemma_merged_says(
        ids,
        merges,
        table,
        good,
        bytes,
        first_symbols(ids, bytes, start, end),
        start,
        end,
    );
}

/// The first `k` tokens say all bytes up to the next one that have a token of
/// their own.
pub(crate) proof fn lemma_spoken_before(
    ids: Seq<Option<u32>>,
    table: Seq<Vec<u8>>,
    bytes: Seq<u8>,
    tokens: Seq<Symbol>,
    k: int,
    total: int,
)
    requires
        0 <= k <= tokens.len(),
        each_says(table, ids, bytes, tokens),
        in_order(tokens, 0, total),
        covers(tokens, ids, bytes, 0, total),
    ensures
        spoken(table, ids_of(tokens).take(k)) == known_bytes(
            ids,
            bytes,
            0,
            if k < tokens.len() {
                tokens[k].1 as int
            } else {
                total
            },
        ),
    decreases k,
{
    let to = if k < tokens.len() {
        tokens[k].1 as int
    } else {
        total
    };
    lemma_gap_between(ids, bytes, tokens, k - 1, 0, total);
    if k > 0 {
        lemma_spoken_before(ids, table, bytes, tokens, k - 1, total);
        let (id, from, end) = tokens[k - 1];
        assert(0 <= from < end <= total);
        assert(ids_of(tokens).take(k).drop_last() =~= ids_of(tokens).take(k - 1));
        assert(ids_of(tokens).take(k).last() == id);
        lemma_known_concat(ids, bytes, 0, from as int, end as int);
        lemma_known_concat(ids, bytes, 0, end as int, to);
        assert(known_bytes(ids, bytes, 0, to) =~= known_bytes(ids, bytes, 0, end as int));
    } else {
        assert(ids_of(tokens).take(0) =~= Seq::<u32>::empty());
    }
}

/// What a text says up to a place does not depend on what comes behind it.
pub(crate) proof fn lemma_known_prefix(
    ids: Seq<Option<u32>>,
    a: Seq<u8>,
    b: Seq<u8>,
    end: int,
)
    requires
        end <= a.len(),
    ensures
        known_bytes(ids, a + b, 0, end) == known_bytes(ids, a, 0, end),
    decreases end,
{
    if end > 0 {
        lemma_known_prefix(ids, a, b, end - 1);
    }
}

/// The token is that of a byte, or a merge gives it.
pub open spec fn made(ids: Seq<Option<u32>>, merges: Map<u64, (u32, u32)>, id: u32) -> bool {
    ||| exists|b: u8| #[trigger] ids[b as int] == Some(id)
    ||| exists|key: u64| #[trigger] merges.contains_key(key) && merges[key].1 == id
}

/// Every token of the symbols is that of a byte, or a merge gives it.
pub open spec fn all_made(ids: Seq<Option<u32>>, merges: Map<u64, (u32, u32)>, symbols: Seq<Symbol>) -> bool {
    forall|i: int| 0 <= i < symbols.len() ==> made(ids, merges, (#[trigger] symbols[i]).0)
}

proof fn lemma_first_made(
    ids: Seq<Option<u32>>,
    merges: Map<u64, (u32, u32)>,
    bytes: Seq<u8>,
    start: int,
    end: int,
)
    ensures
        all_made(ids, merges, first_symbols(ids, bytes, start, end)),
    decreases end - start,
{
    if start < end {
        lemma_first_made(ids, merges, bytes, start, end - 1);
        let b = bytes[end - 1];
        if let Some(id) = ids[b as int] {
            assert(ids[b as int] == Some(id));
        }
    }
}

proof fn lemma_merged_made(ids: Seq<Option<u32>>, merges: Map<u64, (u32, u32)>, symbols: Seq<Symbol>)
    requires
        all_made(ids, merges, symbols),
    ensures
        all_made(ids, merges, merged(merges, symbols)),
    decreases symbols.len(),
{
    law_best_merge_is_lowest_and_leftmost(merges, symbols, symbols.len() - 1);
    match best_merge(merges, symbols, symbols.len() - 1) {
        Some(i) if 0 <= i < symbols.len() - 1 => {
            let id = token_at(merges, symbols, i);
            let after = joined(symbols, i, id);
            assert(merges.contains_key(key_of(symbols[i].0, symbols[i + 1].0)));
            assert forall|k: int| 0 <= k < after.len() implies made(
                ids,
                merges,
                (#[trigger] after[k]).0,
            ) by {
                if k < i {
                    assert(after[k] == symbols[k]);
                } else if k > i {
                    assert(after[k] == symbols[k + 1]);
                }
            }
            lemma_merged_made(ids, merges, after);
        },
        _ => {},
    }
}

proof fn lemma_tokens_made(
    ids: Seq<Option<u32>>,
    merges: Map<u64, (u32, u32)>,
    bytes: Seq<u8>,
    spans: Seq<(int, int)>,
)
    ensures
        all_made(ids, merges, tokens_of(ids, merges, bytes, spans)),
    decreases spans.len(),
{
    if spans.len() > 0 {
        lemma_tokens_made(ids, merges, bytes, spans.drop_last());
        lemma_first_made(ids, merges, bytes, spans.last().0, spans.last().1);
        lemma_merged_made(ids, merges, first_symbols(ids, bytes, spans.last().0, spans.last().1));
    }
}

/// An added token is never matched inside a text: a token that is no byte's and
/// that no merge gives, such as a special one, does not come out of any text,
/// whatever the text holds.
pub proof fn law_added_tokens_are_never_matched(t: Tokenizer, text: Seq<char>, id: u32)
    requires
        !made(t.byte_ids@, t.merges@, id),
    ensures
        !ids_of(t.tokens(text)).contains(id),
{
    lemma_tokens_made(t.byte_ids@, t.merges@, encode_utf8(text), pre_spans(text, 0, 0));
    let tokens = t.tokens(text);
    if ids_of(tokens).contains(id) {
        let i = choose|i: int| 0 <= i < ids_of(tokens).len() && ids_of(tokens)[i] == id;
        assert(made(t.byte_ids@, t.merges@, tokens[i].0));
    }
}

/// Every token has one text: no two texts of the vocabulary share a token, and
/// an added token takes none that stands for other bytes.
pub open spec fn one_text_each(json: TokenizerSpec) -> bool {
    let map = vocab_map(json.model.vocab@);
    &&& forall|a: Seq<char>, b: Seq<char>|
        #![trigger map[a], map[b]]
        map.contains_key(a) && map.contains_key(b) && map[a] == map[b] ==> a == b
    &&& forall|x: Seq<char>, i: int|
        #![trigger map[x], json.added_tokens@[i]]
        map.contains_key(x) && 0 <= i < json.added_tokens@.len() && map[x]
            == json.added_tokens@[i].id ==> encode_utf8(json.added_tokens@[i].content@)
            == entry_bytes(x)
}

/// The tokens of texts that the byte-level alphabet spells.
pub open spec fn spelled_tokens(map: Map<Seq<char>, u32>) -> Set<u32> {
    Set::new(
        |id: u32|
            exists|x: Seq<char>|
                map.contains_key(x) && #[trigger] map[x] == id && bytes_spelled(x) is Some,
    )
}

proof fn lemma_entry_of(entries: Seq<(String, u32)>, x: Seq<char>)
    requires
        vocab_map(entries).contains_key(x),
    ensures
        exists|i: int|
            0 <= i < entries.len() && (#[trigger] entries[i]).0@ == x && entries[i].1 == vocab_map(
                entries,
            )[x],
    decreases entries.len(),
{
    if entries.len() > 0 {
        if entries.last().0@ != x {
            lemma_entry_of(entries.drop_last(), x);
            let head = entries.drop_last();
            let i = choose|i: int|
                0 <= i < head.len() && (#[trigger] head[i]).0@ == x && head[i].1 == vocab_map(
                    head,
                )[x];
            assert(entries[i] == head[i]);
        } else {
            assert(entries[entries.len() - 1] == entries.last());
        }
    }
}

proof fn lemma_vocab_bytes(json: TokenizerSpec, x: Seq<char>, i: int, k: int)
    requires
        one_text_each(json),
        0 <= i < k <= json.model.vocab@.len(),
        vocab_map(json.model.vocab@).contains_key(x),
        json.model.vocab@[i].0@ == x,
        json.model.vocab@[i].1 == vocab_map(json.model.vocab@)[x],
    ensures
        vocab_bytes(
            vocab_map(json.model.vocab@),
            json.model.vocab@,
            k,
            vocab_map(json.model.vocab@)[x] as int,
        ) == entry_bytes(x),
    decreases k,
{
    let map = vocab_map(json.model.vocab@);
    let last = json.model.vocab@[k - 1];
    if live(map, last) && last.1 == map[x] {
        assert(map[last.0@] == map[x]);
    } else {
        lemma_vocab_bytes(json, x, i, k - 1);
    }
}

proof fn lemma_added_bytes(added: Seq<AddedToken>, k: int, base: Seq<u8>, id: int)
    requires
        k <= added.len(),
        forall|i: int|
            0 <= i < k && (#[trigger] added[i]).id == id ==> encode_utf8(added[i].content@) == base,
    ensures
        added_bytes(added, k, base, id) == base,
    decreases k,
{
    if k > 0 {
        lemma_added_bytes(added, k - 1, base, id);
    }
}

proof fn lemma_token_says(json: TokenizerSpec, x: Seq<char>)
    requires
        one_text_each(json),
        vocab_map(json.model.vocab@).contains_key(x),
    ensures
        vocab_map(json.model.vocab@)[x] < table_size(json),
        bytes_of_token(json, vocab_map(json.model.vocab@)[x] as int) == entry_bytes(x),
{
    let entries = json.model.vocab@;
    let map = vocab_map(entries);
    lemma_entry_of(entries, x);
    let i = choose|i: int|
        0 <= i < entries.len() && (#[trigger] entries[i]).0@ == x && entries[i].1 == map[x];
    lemma_vocab_size(map, entries, i, entries.len() as int);
    lemma_vocab_bytes(json, x, i, entries.len() as int);
    let added = json.added_tokens@;
    assert forall|j: int| 0 <= j < added.len() && (#[trigger] added[j]).id == map[x] implies encode_utf8(
        added[j].content@,
    ) == entry_bytes(x) by {
        assert(map[x] == json.added_tokens@[j].id);
    }
    lemma_added_bytes(added, added.len() as int, entry_bytes(x), map[x] as int);
}

proof fn lemma_spelled_concat(a: Seq<char>, b: Seq<char>)
    requires
        bytes_spelled(a) is Some,
        bytes_spelled(b) is Some,
    ensures
        bytes_spelled(a + b) == Some(bytes_spelled(a)->0 + bytes_spelled(b)->0),
    decreases b.len(),
{
    if b.len() == 0 {
        assert(a + b =~= a);
        assert(bytes_spelled(a)->0 + bytes_spelled(b)->0 =~= bytes_spelled(a)->0);
    } else {
        assert((a + b).drop_last() =~= a + b.drop_last());
        lemma_spelled_concat(a, b.drop_last());
        let head = bytes_spelled(b.drop_last())->0;
        assert(bytes_spelled(a)->0 + bytes_spelled(b)->0 =~= (bytes_spelled(a)->0 + head).push(
            bytes_spelled(b)->0.last(),
        ));
    }
}

proof fn lemma_rule_sound(map: Map<Seq<char>, u32>, rules: Seq<MergeRule>, k: int, j: int)
    requires
        0 <= k <= j < rules.len(),
        rules_fault(map, rules, k) is None,
    ensures
        rule_fault(map, rules[j]) is None,
    decreases j - k,
{
    if k < j {
        lemma_rule_sound(map, rules, k + 1, j);
    }
}

/// A merge comes from a rule.
proof fn lemma_rule_of(map: Map<Seq<char>, u32>, rules: Seq<MergeRule>, k: int, key: u64)
    requires
        k <= rules.len(),
        rules_fault(map, rules, 0) is None,
        merge_map(map, rules, k).contains_key(key),
    ensures
        exists|j: int|
            0 <= j < k && {
                &&& #[trigger] rule_parts(rules[j]) matches Some((l, r))
                &&& map.contains_key(l) && map.contains_key(r) && map.contains_key(l + r)
                &&& key == key_of(map[l], map[r])
                &&& merge_map(map, rules, k)[key].1 == map[l + r]
            },
    decreases k,
{
    let before = merge_map(map, rules, k - 1);
    let parts = rule_parts(rules[k - 1])->0;
    lemma_rule_sound(map, rules, 0, k - 1);
    if before.contains_key(key) {
        lemma_rule_of(map, rules, k - 1, key);
        let j = choose|j: int|
            0 <= j < k - 1 && {
                &&& #[trigger] rule_parts(rules[j]) matches Some((l, r))
                &&& map.contains_key(l) && map.contains_key(r) && map.contains_key(l + r)
                &&& key == key_of(map[l], map[r])
                &&& before[key].1 == map[l + r]
            };
        assert(rule_parts(rules[j]) is Some);
    } else {
        assert(rule_parts(rules[k - 1]) == Some(parts));
    }
}

/// A description in which every token has one text gives a tokenizer whose
/// tokens say the text that they were made of.
pub proof fn law_described_tokens_are_faithful(t: Tokenizer, json: TokenizerSpec)
    requires
        t.reads(json),
        fault(json) is None,
        one_text_each(json),
    ensures
        faithful(
            t.byte_ids@,
            t.merges@,
            t.token_bytes@,
            spelled_tokens(vocab_map(json.model.vocab@)),
        ),
        t.is_faithful(),
{
    let map = vocab_map(json.model.vocab@);
    let rules = json.model.merges@;
    let good = spelled_tokens(map);
    let (ids, merges, table) = (t.byte_ids@, t.merges@, t.token_bytes@);
    assert forall|b: int| 0 <= b < 256 && #[trigger] ids[b] is Some implies good.contains(ids[b]->0)
        && table[ids[b]->0 as int]@ == seq![b as u8] by {
        let x = seq![byte_char(b as u8)];
        assert(ids[b] == byte_token(map, b));
        let one = seq![b as u8];
        assert(x =~= one.map_values(|b: u8| byte_char(b)));
        law_bytes_read_back(one, x);
        lemma_token_says(json, x);
        assert(map[x] == ids[b]->0);
    }
    assert forall|l: u32, r: u32|
        good.contains(l) && good.contains(r) && #[trigger] merges.contains_key(key_of(l, r)) implies ({
        let m = merges[key_of(l, r)].1;
        good.contains(m) && table[m as int]@ == table[l as int]@ + table[r as int]@
    }) by {
        let key = key_of(l, r);
        lemma_rule_of(map, rules, rules.len() as int, key);
        let j = choose|j: int|
            0 <= j < rules.len() && {
                &&& #[trigger] rule_parts(rules[j]) matches Some((a, b))
                &&& map.contains_key(a) && map.contains_key(b) && map.contains_key(a + b)
                &&& key == key_of(map[a], map[b])
                &&& merge_map(map, rules, rules.len() as int)[key].1 == map[a + b]
            };
        let (a, b) = rule_parts(rules[j])->0;
        lemma_key(l, r);
        lemma_key(map[a], map[b]);
        let x = choose|x: Seq<char>|
            map.contains_key(x) && #[trigger] map[x] == l && bytes_spelled(x) is Some;
        let y = choose|y: Seq<char>|
            map.contains_key(y) && #[trigger] map[y] == r && bytes_spelled(y) is Some;
        assert(map[a] == map[x]);
        assert(map[b] == map[y]);
        lemma_spelled_concat(a, b);
        lemma_token_says(json, a);
        lemma_token_says(json, b);
        lemma_token_says(json, a + b);
        assert(map[a + b] == merges[key].1);
    }
    assert(faithful(ids, merges, table, good));
}

} // verus!
