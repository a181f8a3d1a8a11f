//! A snapshot gives back the learned state it was made of.

use crate::bytes::u32_at;
use crate::ngram::compress::zstd_content;
use crate::ngram::counts::sound_count;
use crate::ngram::follower_table::{lemma_ascending_index, FollowerList};
use crate::ngram::lexicon::{bos_text, fresh, Known, Params, NONE};
use crate::ngram::model::{web_ok, Model};
use crate::ngram::pair_table::{key_of, lemma_halves, lemma_key, lower, upper};
use crate::ngram::restore::{
    context_place, entry_count, holds_context, holds_id, holds_pair, holds_tail, holds_trigram,
    last_place, lemma_last_place, lemma_only_place, pair_place,
};
use crate::ngram::order::{lemma_lt_irreflexive, text_lt};
use crate::ngram::session::{prompt_ids, total_len};
use crate::ngram::snapshot::{
    header_error, holds_word, lays_out, lemma_swept_keeps, magic, new_words, read_back, reads_as,
    restores, same_texts, stored_raws, stores, too_many_words, wraps, VERSION,
};
use crate::ngram::snapshot_bytes::{
    counts_fit, keeps_apart, law_tables_read_back, law_words_read_back, mapped_entries, mapped_ids,
    mapped_tables, well_numbered,
};
use crate::ngram::snapshot_format::{section, Parsed, SnapshotError};
use crate::ngram::snapshot_image::{
    ends_trigram, fits_fields, follows, kept, lemma_contexts_shape, lemma_picture_counts,
    numbered_contexts, numbered_entries, paired, pictures, recent, trigram_pictured,
};
use crate::ngram::snapshot_records::{
    index_limit, payload_bytes, read_tables, read_words, repeats_id, word_bytes, TablesView, WordView,
};
use crate::ngram::vocab::word_limit;
use crate::ngram::web::WebPrior;
use crate::unicode::byte_len;
use vstd::prelude::*;

verus! {

/// The model knows the word.
pub open spec fn knows(m: Model, x: Seq<char>) -> bool {
    m.lexicon@.words.contains(x)
}

/// The id of a known word.
pub open spec fn id_in(m: Model, x: Seq<char>) -> u32 {
    m.lexicon@.words.index_of(x) as u32
}

/// Bits of the count of a word.
pub open spec fn text_count(m: Model, x: Seq<char>) -> u32 {
    if knows(m, x) {
        m.counts.count@[id_in(m, x) as int]
    } else {
        0
    }
}

/// How often a word was typed.
pub open spec fn text_raw(m: Model, x: Seq<char>) -> u32 {
    if knows(m, x) {
        m.lexicon@.raw[id_in(m, x) as int]
    } else {
        0
    }
}

/// Bits of the count of `y` after `x`.
pub open spec fn text_follower(m: Model, x: Seq<char>, y: Seq<char>) -> Option<u32> {
    if knows(m, x) && knows(m, y) {
        m.counts.followers.follower(id_in(m, x), id_in(m, y))
    } else {
        None
    }
}

/// Total and distinct words after `x` and `y`.
pub open spec fn text_stats(m: Model, x: Seq<char>, y: Seq<char>) -> Option<(u32, u32)> {
    if knows(m, x) && knows(m, y) {
        m.counts.pairs.stats(id_in(m, x), id_in(m, y))
    } else {
        None
    }
}

/// Bits of the count of `z` after `x` and `y`.
pub open spec fn text_trigram(m: Model, x: Seq<char>, y: Seq<char>, z: Seq<char>) -> Option<u32> {
    if knows(m, x) && knows(m, y) && knows(m, z) {
        m.counts.pairs.trigram(id_in(m, x), id_in(m, y), id_in(m, z))
    } else {
        None
    }
}

/// The casings of a word.
pub open spec fn text_forms(m: Model, x: Seq<char>) -> Seq<(Seq<char>, u32)> {
    if knows(m, x) {
        m.counts.tails.forms_of(id_in(m, x))
    } else {
        Seq::empty()
    }
}

/// The words of the recent prompts.
pub open spec fn text_prompts(m: Model) -> Seq<Seq<Seq<char>>> {
    prompt_ids(m.session.prompts@).map_values(
        |p: Seq<u32>| p.map_values(|id: u32| m.lexicon@.words[id as int]),
    )
}

/// The last `capacity` of the prompts.
pub open spec fn last_prompts(prompts: Seq<Seq<Seq<char>>>, capacity: int) -> Seq<Seq<Seq<char>>> {
    if capacity == 0 {
        Seq::empty()
    } else if prompts.len() > capacity {
        prompts.skip(prompts.len() - capacity)
    } else {
        prompts
    }
}

/// Both models have learned the same.
pub open spec fn same_learning(m: Model, m2: Model) -> bool {
    &&& m2.counts.total == m.counts.total
    &&& forall|x: Seq<char>| #[trigger] text_count(m2, x) == text_count(m, x)
    &&& forall|x: Seq<char>| #[trigger] text_raw(m2, x) == text_raw(m, x)
    &&& forall|x: Seq<char>, y: Seq<char>| #[trigger]
        text_follower(m2, x, y) == text_follower(m, x, y)
    &&& forall|x: Seq<char>, y: Seq<char>| #[trigger] text_stats(m2, x, y) == text_stats(m, x, y)
    &&& forall|x: Seq<char>, y: Seq<char>, z: Seq<char>| #[trigger]
        text_trigram(m2, x, y, z) == text_trigram(m, x, y, z)
    &&& forall|x: Seq<char>| #[trigger] text_forms(m2, x) == text_forms(m, x)
    &&& text_prompts(m2) == last_prompts(text_prompts(m), m2.params.session_prompts as int)
}

/// What the law needs of a model and its picture, and of what was read back.
pub open spec fn set_up(
    m: Model,
    m2: Model,
    web: WebPrior,
    order: Seq<u32>,
    index: Seq<u32>,
    words: Seq<WordView>,
    t: TablesView,
    map: Seq<u32>,
) -> bool {
    &&& m.wf(web)
    &&& m2.wf(web)
    &&& pictures(m, order, index, words, t)
    &&& restores(m2, m2.params, web, m.counts.total, words, map, mapped_tables(t, map))
}

proof fn lemma_id_in(m: Model, web: WebPrior, id: int)
    requires
        m.wf(web),
        0 <= id < m.lexicon@.words.len(),
    ensures
        knows(m, m.lexicon@.words[id]),
        id_in(m, m.lexicon@.words[id]) == id,
{
    m.lexicon.vocab.law_vocab_order();
    let ws = m.lexicon@.words;
    assert(ws.contains(ws[id]));
    let j = ws.index_of(ws[id]);
    assert(ws[j] == ws[id]);
    if j < id {
        assert(ws[j] != ws[id]);
    } else if id < j {
        assert(ws[id] != ws[j]);
    }
}

proof fn lemma_known(m: Model, web: WebPrior, x: Seq<char>)
    requires
        m.wf(web),
        knows(m, x),
    ensures
        id_in(m, x) < m.lexicon@.words.len(),
        m.lexicon@.words[id_in(m, x) as int] == x,
{
    let ws = m.lexicon@.words;
    assert(ws[ws.index_of(x)] == x);
}

/// A stored word is known to both models, and its number leads from one id to
/// the other.
proof fn lemma_stored_word(
    m: Model,
    m2: Model,
    web: WebPrior,
    order: Seq<u32>,
    index: Seq<u32>,
    words: Seq<WordView>,
    t: TablesView,
    map: Seq<u32>,
    id: u32,
)
    requires
        set_up(m, m2, web, order, index, words, t, map),
        id < m.lexicon@.words.len(),
        kept(m, id),
    ensures
        index[id as int] < words.len(),
        words[index[id as int] as int] == (WordView {
            text: m.lexicon@.words[id as int],
            count: m.counts.count@[id as int],
            raw: m.lexicon@.raw[id as int],
        }),
        knows(m2, m.lexicon@.words[id as int]),
        map[index[id as int] as int] == id_in(m2, m.lexicon@.words[id as int]),
        forall|j: int|
            0 <= j < words.len() && #[trigger] map[j] == id_in(m2, m.lexicon@.words[id as int])
                ==> j == index[id as int],
{
    let flags = Seq::new(m.lexicon@.words.len(), |i: int| kept(m, i as u32));
    assert(flags[id as int]);
    let j = index[id as int] as int;
    assert(order[j] == id);
    let x = m.lexicon@.words[id as int];
    assert(words[j].text == x);
    assert(map[j] < m2.lexicon@.words.len() && m2.lexicon@.words[map[j] as int] == x);
    lemma_id_in(m2, web, map[j] as int);
    assert forall|i: int| 0 <= i < words.len() && #[trigger] map[i] == id_in(m2, x) implies i
        == j by {
        assert(m2.lexicon@.words[map[i] as int] == words[i].text);
        assert(words[i].text == m.lexicon@.words[order[i] as int]);
        lemma_id_in(m, web, order[i] as int);
        lemma_id_in(m, web, id as int);
        assert(order[i] == id);
        assert(index[order[i] as int] == i);
    }
}

/// A word that was read back is the word of a stored id.
proof fn lemma_read_word(
    m: Model,
    m2: Model,
    web: WebPrior,
    order: Seq<u32>,
    index: Seq<u32>,
    words: Seq<WordView>,
    t: TablesView,
    map: Seq<u32>,
    j: int,
)
    requires
        set_up(m, m2, web, order, index, words, t, map),
        0 <= j < words.len(),
    ensures
        order[j] < m.lexicon@.words.len(),
        kept(m, order[j]),
        index[order[j] as int] == j,
        map[j] < m2.lexicon@.words.len(),
        m2.lexicon@.words[map[j] as int] == m.lexicon@.words[order[j] as int],
        id_in(m, m2.lexicon@.words[map[j] as int]) == order[j],
{
    let flags = Seq::new(m.lexicon@.words.len(), |i: int| kept(m, i as u32));
    assert(order[j] < flags.len() && flags[order[j] as int]);
    assert(words[j].text == m.lexicon@.words[order[j] as int]);
    lemma_id_in(m, web, order[j] as int);
}

/// What the restored model knows, the stored one knew.
proof fn lemma_knew(
    m: Model,
    m2: Model,
    web: WebPrior,
    order: Seq<u32>,
    index: Seq<u32>,
    words: Seq<WordView>,
    t: TablesView,
    map: Seq<u32>,
    x: Seq<char>,
)
    requires
        set_up(m, m2, web, order, index, words, t, map),
        knows(m2, x),
    ensures
        knows(m, x),
{
    let ww = web.words.words();
    if ww.contains(x) {
        let k = ww.index_of(x);
        assert(ww[k] == x);
        assert(m.web_to_id@[k] < m.lexicon@.words.len());
        lemma_id_in(m, web, m.web_to_id@[k] as int);
    } else if x == bos_text() {
        lemma_id_in(m, web, m.bos as int);
    } else {
        let i = choose|i: int| 0 <= i < words.len() && (#[trigger] words[i]).text == x;
        lemma_read_word(m, m2, web, order, index, words, t, map, i);
        lemma_id_in(m, web, order[i] as int);
    }
}

/// Every count other than zero is that of a stored word.
pub open spec fn counts_kept(m: Model) -> bool {
    forall|i: int|
        0 <= i < m.counts.count@.len() ==> #[trigger] m.counts.count@[i] == 0 || kept(m, i as u32)
}

/// Sound counts are all stored. They are zero in a fresh model; learning,
/// settling and pruning keep them sound, and so does storing a sound count.
pub proof fn law_sound_counts_are_stored(m: Model)
    requires
        m.counts.wf(),
        m.counts.sound(),
    ensures
        counts_kept(m),
{
    assert forall|i: int| 0 <= i < m.counts.count@.len() implies #[trigger] m.counts.count@[i] == 0
        || kept(m, i as u32) by {
        assert(sound_count(m.counts.count@[i]));
    }
}

/// A model that counts every word as a model with sound counts does has sound
/// counts.
proof fn lemma_sound_back(m: Model, m2: Model, web: WebPrior)
    requires
        m.wf(web),
        m2.wf(web),
        m.counts.sound(),
        forall|x: Seq<char>| #[trigger] text_count(m2, x) == text_count(m, x),
    ensures
        m2.counts.sound(),
{
    assert forall|i: int| 0 <= i < m2.counts.count@.len() implies sound_count(
        #[trigger] m2.counts.count@[i],
    ) by {
        let x = m2.lexicon@.words[i];
        lemma_id_in(m2, web, i);
        assert(text_count(m2, x) == text_count(m, x));
        if knows(m, x) {
            lemma_known(m, web, x);
        }
    }
}

proof fn lemma_counts_back(
    m: Model,
    m2: Model,
    web: WebPrior,
    order: Seq<u32>,
    index: Seq<u32>,
    words: Seq<WordView>,
    t: TablesView,
    map: Seq<u32>,
    x: Seq<char>,
)
    requires
        set_up(m, m2, web, order, index, words, t, map),
        counts_kept(m),
    ensures
        text_count(m2, x) == text_count(m, x),
        text_raw(m2, x) == text_raw(m, x),
{
    let n2 = m2.lexicon@.words.len();
    let vocab2 = m2.lexicon@.words;
    let raws = stored_raws(words, map, words.len() as int, n2);
    let before = Known { raw: raws, ..fresh(vocab2, web) };
    lemma_swept_keeps(before, n2 as int, m2.params.canonicalize);
    assert(m2.lexicon@.raw == raws);
    if knows(m2, x) {
        lemma_knew(m, m2, web, order, index, words, t, map, x);
        lemma_known(m, web, x);
        lemma_known(m2, web, x);
        let a = id_in(m, x);
        let b = id_in(m2, x);
        let p = holds_word(map, b as int);
        if kept(m, a) {
            lemma_stored_word(m, m2, web, order, index, words, t, map, a);
            let j = index[a as int] as int;
            assert(p(j));
            assert forall|i: int| 0 <= i < words.len() && #[trigger] p(i) implies i == j by {
                assert(map[i] == b);
            }
            lemma_only_place(words.len() as int, p, j);
        } else {
            lemma_last_place(words.len() as int, p);
            if let Some(j) = last_place(words.len() as int, p) {
                lemma_read_word(m, m2, web, order, index, words, t, map, j);
                assert(map[j] == b);
                assert(order[j] == a);
            }
            assert(m.counts.count@[a as int] == 0);
        }
    } else if knows(m, x) {
        lemma_known(m, web, x);
        let a = id_in(m, x);
        if kept(m, a) {
            lemma_stored_word(m, m2, web, order, index, words, t, map, a);
        }
        assert(m.counts.count@[a as int] == 0 || kept(m, a));
    }
}

/// A context word has its place among the contexts.
proof fn lemma_context_listed(m: Model, index: Seq<u32>, v: int, k: int)
    requires
        0 <= v < k <= m.counts.followers.ctx_slot@.len(),
        m.counts.followers.ctx_slot@[v] != NONE,
    ensures
        numbered_contexts(m, index, k).contains(
            (
                index[v],
                numbered_entries(
                    m.counts.followers.lists@[m.counts.followers.ctx_slot@[v] as int],
                    index,
                ),
            ),
        ),
    decreases k,
{
    let item = (
        index[v],
        numbered_entries(
            m.counts.followers.lists@[m.counts.followers.ctx_slot@[v] as int],
            index,
        ),
    );
    let now = numbered_contexts(m, index, k);
    let prior = numbered_contexts(m, index, k - 1);
    if v == k - 1 {
        assert(now[prior.len() as int] == item);
    } else {
        lemma_context_listed(m, index, v, k - 1);
        let i = choose|i: int| 0 <= i < prior.len() && prior[i] == item;
        assert(now[i] == item);
    }
}

proof fn lemma_followers_back(
    m: Model,
    m2: Model,
    web: WebPrior,
    order: Seq<u32>,
    index: Seq<u32>,
    words: Seq<WordView>,
    t: TablesView,
    map: Seq<u32>,
    x: Seq<char>,
    y: Seq<char>,
)
    requires
        set_up(m, m2, web, order, index, words, t, map),
    ensures
        text_follower(m2, x, y) == text_follower(m, x, y),
{
    let n = m.lexicon@.words.len() as int;
    let slots = m.counts.followers.ctx_slot@;
    let lists = m.counts.followers.lists@;
    let mt = mapped_tables(t, map);
    lemma_contexts_shape(m, web, index, n);
    if knows(m2, x) && knows(m2, y) {
        lemma_knew(m, m2, web, order, index, words, t, map, x);
        lemma_knew(m, m2, web, order, index, words, t, map, y);
        lemma_known(m, web, x);
        lemma_known(m, web, y);
        lemma_known(m2, web, x);
        lemma_known(m2, web, y);
        let v = id_in(m, x);
        let w = id_in(m, y);
        let bv = id_in(m2, x);
        let bw = id_in(m2, y);
        let p = holds_context(mt.contexts, bv);
        lemma_last_place(mt.contexts.len() as int, p);
        assert forall|i: int| 0 <= i < t.contexts.len() && #[trigger] p(i) implies slots[v as int]
            != NONE && t.contexts[i] == (
            index[v as int],
            numbered_entries(lists[slots[v as int] as int], index),
        ) by {
            let id = choose|id: int|
                0 <= id < n && slots[id] != NONE && t.contexts[i] == (
                    index[id],
                    numbered_entries(lists[#[trigger] slots[id] as int], index),
                );
            assert(kept(m, id as u32));
            lemma_stored_word(m, m2, web, order, index, words, t, map, id as u32);
            assert(mt.contexts[i].0 == map[index[id] as int]);
            lemma_known(m2, web, m.lexicon@.words[id]);
            lemma_id_in(m, web, id);
            assert(id == v);
        }
        if slots[v as int] == NONE {
            assert(context_place(mt.contexts, bv) is None);
        } else {
            let f = lists[slots[v as int] as int];
            assert(slots[v as int] < lists.len());
            assert(f.wf(n));
            assert(kept(m, v));
            lemma_stored_word(m, m2, web, order, index, words, t, map, v);
            lemma_context_listed(m, index, v as int, n);
            let item = (index[v as int], numbered_entries(f, index));
            let i = choose|i: int| 0 <= i < t.contexts.len() && t.contexts[i] == item;
            assert(mt.contexts[i].0 == bv);
            assert(p(i));
            let c = context_place(mt.contexts, bv)->0;
            assert(p(c));
            assert(t.contexts[c] == item);
            let entries = mt.contexts[c].1;
            assert(entries == mapped_entries(item.1, map));
            lemma_entry_back(m, m2, web, order, index, words, t, map, f, slots[v as int] as int, y);
        }
    } else if knows(m, x) && knows(m, y) {
        lemma_known(m, web, x);
        lemma_known(m, web, y);
        let v = id_in(m, x);
        let w = id_in(m, y);
        if slots[v as int] != NONE {
            assert(kept(m, v));
            lemma_stored_word(m, m2, web, order, index, words, t, map, v);
            let f = lists[slots[v as int] as int];
            assert(slots[v as int] < lists.len());
            if f.ids.ids@.contains(w) {
                assert(follows(m, w));
                lemma_stored_word(m, m2, web, order, index, words, t, map, w);
            }
        }
    }
}

/// A follower list gives back its counts.
proof fn lemma_entry_back(
    m: Model,
    m2: Model,
    web: WebPrior,
    order: Seq<u32>,
    index: Seq<u32>,
    words: Seq<WordView>,
    t: TablesView,
    map: Seq<u32>,
    f: FollowerList,
    slot: int,
    y: Seq<char>,
)
    requires
        set_up(m, m2, web, order, index, words, t, map),
        0 <= slot < m.counts.followers.lists@.len(),
        f == m.counts.followers.lists@[slot],
        knows(m, y),
        knows(m2, y),
    ensures
        entry_count(mapped_entries(numbered_entries(f, index), map), id_in(m2, y)) == f.count_of(
            id_in(m, y),
        ),
{
    let n = m.lexicon@.words.len() as int;
    let w = id_in(m, y);
    let bw = id_in(m2, y);
    lemma_known(m, web, y);
    lemma_known(m2, web, y);
    assert(f.wf(n));
    let ids = f.ids.ids@;
    let entries = mapped_entries(numbered_entries(f, index), map);
    let p = holds_id(entries, bw);
    lemma_last_place(entries.len() as int, p);
    assert forall|k: int| 0 <= k < entries.len() && #[trigger] p(k) implies ids[k] == w by {
        assert(ids.contains(ids[k]));
        assert(follows(m, ids[k]));
        assert(ids[k] < n);
        lemma_stored_word(m, m2, web, order, index, words, t, map, ids[k]);
        assert(entries[k].0 == map[index[ids[k] as int] as int]);
        lemma_known(m2, web, m.lexicon@.words[ids[k] as int]);
        lemma_id_in(m, web, ids[k] as int);
    }
    if ids.contains(w) {
        let k = ids.index_of(w);
        assert(ids[k] == w);
        assert(follows(m, w));
        lemma_stored_word(m, m2, web, order, index, words, t, map, w);
        assert(entries[k].0 == bw);
        assert(p(k));
        let c = last_place(entries.len() as int, p)->0;
        assert(p(c));
        assert(ids[c] == w);
        lemma_ascending_index(ids, c);
    } else {
        if let Some(c) = last_place(entries.len() as int, p) {
            assert(p(c));
            assert(ids[c] == w);
            assert(ids.contains(w));
        }
    }
}

proof fn lemma_pair_back(
    m: Model,
    m2: Model,
    web: WebPrior,
    order: Seq<u32>,
    index: Seq<u32>,
    words: Seq<WordView>,
    t: TablesView,
    map: Seq<u32>,
    x: Seq<char>,
    y: Seq<char>,
)
    requires
        set_up(m, m2, web, order, index, words, t, map),
        knows(m2, x),
        knows(m2, y),
    ensures
        knows(m, x),
        knows(m, y),
        pair_place(mapped_tables(t, map).pairs, id_in(m2, x), id_in(m2, y)) == (
        match m.counts.pairs.pair_of(id_in(m, x), id_in(m, y)) {
            Some(p) => Some(p as int),
            None => None,
        }),
{
    let n = m.lexicon@.words.len() as int;
    let mt = mapped_tables(t, map);
    let table = m.counts.pairs;
    lemma_knew(m, m2, web, order, index, words, t, map, x);
    lemma_knew(m, m2, web, order, index, words, t, map, y);
    lemma_known(m, web, x);
    lemma_known(m, web, y);
    lemma_known(m2, web, x);
    lemma_known(m2, web, y);
    let u = id_in(m, x);
    let v = id_in(m, y);
    let bu = id_in(m2, x);
    let bv = id_in(m2, y);
    let h = holds_pair(mt.pairs, bu, bv);
    let key = key_of(u, v);
    lemma_key(u, v);
    lemma_last_place(mt.pairs.len() as int, h);
    assert forall|i: int| 0 <= i < mt.pairs.len() && #[trigger] h(i) implies
        table.pairs@.dom().contains(key) && table.pairs@[key] == i by {
        assert(table.has_index(i as u32));
        let k = choose|k: u64| #[trigger]
            table.pairs@.dom().contains(k) && table.pairs@[k] == i as u32;
        let (a, b) = (upper(k), lower(k));
        assert(a < n && b < n);
        assert(paired(m, a) && paired(m, b));
        lemma_stored_word(m, m2, web, order, index, words, t, map, a);
        lemma_stored_word(m, m2, web, order, index, words, t, map, b);
        assert(t.pairs[i].0 == index[a as int] && t.pairs[i].1 == index[b as int]);
        assert(mt.pairs[i].0 == map[index[a as int] as int]);
        assert(mt.pairs[i].1 == map[index[b as int] as int]);
        lemma_known(m2, web, m.lexicon@.words[a as int]);
        lemma_known(m2, web, m.lexicon@.words[b as int]);
        lemma_id_in(m, web, a as int);
        lemma_id_in(m, web, b as int);
        assert(a == u && b == v);
        lemma_halves(k);
    }
    if table.pairs@.dom().contains(key) {
        let p = table.pairs@[key];
        assert(paired(m, u) && paired(m, v));
        lemma_stored_word(m, m2, web, order, index, words, t, map, u);
        lemma_stored_word(m, m2, web, order, index, words, t, map, v);
        assert(mt.pairs[p as int].0 == bu && mt.pairs[p as int].1 == bv);
        assert(h(p as int));
        let c = last_place(mt.pairs.len() as int, h)->0;
        assert(h(c));
    } else {
        if let Some(c) = last_place(mt.pairs.len() as int, h) {
            assert(h(c));
        }
    }
}

proof fn lemma_pairs_back(
    m: Model,
    m2: Model,
    web: WebPrior,
    order: Seq<u32>,
    index: Seq<u32>,
    words: Seq<WordView>,
    t: TablesView,
    map: Seq<u32>,
    x: Seq<char>,
    y: Seq<char>,
)
    requires
        set_up(m, m2, web, order, index, words, t, map),
    ensures
        text_stats(m2, x, y) == text_stats(m, x, y),
{
    let mt = mapped_tables(t, map);
    if knows(m2, x) && knows(m2, y) {
        lemma_pair_back(m, m2, web, order, index, words, t, map, x, y);
        lemma_known(m, web, x);
        lemma_known(m, web, y);
        lemma_known(m2, web, x);
        lemma_known(m2, web, y);
        if let Some(p) = m.counts.pairs.pair_of(id_in(m, x), id_in(m, y)) {
            let key = key_of(id_in(m, x), id_in(m, y));
            assert(m.counts.pairs.pairs@.dom().contains(key));
            assert(mt.pairs[p as int].2 == t.pairs[p as int].2 && mt.pairs[p as int].3
                == t.pairs[p as int].3);
        }
    } else if knows(m, x) && knows(m, y) {
        lemma_known(m, web, x);
        lemma_known(m, web, y);
        let u = id_in(m, x);
        let v = id_in(m, y);
        lemma_key(u, v);
        if m.counts.pairs.pairs@.dom().contains(key_of(u, v)) {
            assert(paired(m, u) && paired(m, v));
            lemma_stored_word(m, m2, web, order, index, words, t, map, u);
            lemma_stored_word(m, m2, web, order, index, words, t, map, v);
        }
    }
}

proof fn lemma_trigrams_back(
    m: Model,
    m2: Model,
    web: WebPrior,
    order: Seq<u32>,
    index: Seq<u32>,
    words: Seq<WordView>,
    t: TablesView,
    map: Seq<u32>,
    x: Seq<char>,
    y: Seq<char>,
    z: Seq<char>,
)
    requires
        set_up(m, m2, web, order, index, words, t, map),
    ensures
        text_trigram(m2, x, y, z) == text_trigram(m, x, y, z),
{
    let n = m.lexicon@.words.len() as int;
    let mt = mapped_tables(t, map);
    let table = m.counts.pairs;
    if knows(m2, x) && knows(m2, y) && knows(m2, z) {
        lemma_pair_back(m, m2, web, order, index, words, t, map, x, y);
        lemma_knew(m, m2, web, order, index, words, t, map, z);
        lemma_known(m, web, x);
        lemma_known(m, web, y);
        lemma_known(m, web, z);
        lemma_known(m2, web, x);
        lemma_known(m2, web, y);
        lemma_known(m2, web, z);
        let w = id_in(m, z);
        let bw = id_in(m2, z);
        if let Some(p) = table.pair_of(id_in(m, x), id_in(m, y)) {
            let h = holds_trigram(mt.trigrams, p, bw);
            let key = key_of(p, w);
            lemma_key(p, w);
            lemma_last_place(mt.trigrams.len() as int, h);
            assert forall|i: int| 0 <= i < mt.trigrams.len() && #[trigger] h(i) implies
                table.tri@.dom().contains(key) && mt.trigrams[i].2 == table.tri@[key] by {
                assert(trigram_pictured(m, index, t.trigrams[i]));
                let k = choose|k: u64| #[trigger]
                    m.counts.pairs.tri@.dom().contains(k) && t.trigrams[i] == (
                        upper(k),
                        index[lower(k) as int],
                        m.counts.pairs.tri@[k],
                    );
                let c = lower(k);
                assert(c < n);
                assert(ends_trigram(m, c));
                lemma_stored_word(m, m2, web, order, index, words, t, map, c);
                assert(mt.trigrams[i].1 == map[index[c as int] as int]);
                lemma_known(m2, web, m.lexicon@.words[c as int]);
                lemma_id_in(m, web, c as int);
                assert(c == w);
                lemma_halves(k);
                assert(k == key);
            }
            if table.tri@.dom().contains(key) {
                assert(ends_trigram(m, w));
                lemma_stored_word(m, m2, web, order, index, words, t, map, w);
                let e = (p, index[w as int], table.tri@[key]);
                assert(t.trigrams.contains(e));
                let i = choose|i: int| 0 <= i < t.trigrams.len() && t.trigrams[i] == e;
                assert(mt.trigrams[i].0 == p && mt.trigrams[i].1 == bw);
                assert(h(i));
                let c = last_place(mt.trigrams.len() as int, h)->0;
                assert(h(c));
            } else {
                if let Some(c) = last_place(mt.trigrams.len() as int, h) {
                    assert(h(c));
                }
            }
        }
    } else if knows(m, x) && knows(m, y) && knows(m, z) {
        lemma_known(m, web, x);
        lemma_known(m, web, y);
        lemma_known(m, web, z);
        let u = id_in(m, x);
        let v = id_in(m, y);
        let w = id_in(m, z);
        lemma_key(u, v);
        if table.pairs@.dom().contains(key_of(u, v)) {
            assert(paired(m, u) && paired(m, v));
            lemma_stored_word(m, m2, web, order, index, words, t, map, u);
            lemma_stored_word(m, m2, web, order, index, words, t, map, v);
            let p = table.pairs@[key_of(u, v)];
            lemma_key(p, w);
            if table.tri@.dom().contains(key_of(p, w)) {
                assert(ends_trigram(m, w));
                lemma_stored_word(m, m2, web, order, index, words, t, map, w);
            }
        }
    }
}

proof fn lemma_forms_back(
    m: Model,
    m2: Model,
    web: WebPrior,
    order: Seq<u32>,
    index: Seq<u32>,
    words: Seq<WordView>,
    t: TablesView,
    map: Seq<u32>,
    x: Seq<char>,
)
    requires
        set_up(m, m2, web, order, index, words, t, map),
    ensures
        text_forms(m2, x) == text_forms(m, x),
{
    let n = m.lexicon@.words.len() as int;
    let mt = mapped_tables(t, map);
    let ids = m.counts.tails.ids.ids@;
    if knows(m2, x) {
        lemma_knew(m, m2, web, order, index, words, t, map, x);
        lemma_known(m, web, x);
        lemma_known(m2, web, x);
        let a = id_in(m, x);
        let b = id_in(m2, x);
        let h = holds_tail(mt.tails, b);
        lemma_last_place(mt.tails.len() as int, h);
        assert forall|k: int| 0 <= k < mt.tails.len() && #[trigger] h(k) implies ids[k] == a by {
            assert(ids.contains(ids[k]));
            assert(ids[k] < n);
            lemma_stored_word(m, m2, web, order, index, words, t, map, ids[k]);
            assert(mt.tails[k].0 == map[index[ids[k] as int] as int]);
            lemma_known(m2, web, m.lexicon@.words[ids[k] as int]);
            lemma_id_in(m, web, ids[k] as int);
        }
        if ids.contains(a) {
            let k = ids.index_of(a);
            assert(ids[k] == a);
            lemma_stored_word(m, m2, web, order, index, words, t, map, a);
            assert(mt.tails[k].0 == b);
            assert(h(k));
            let c = last_place(mt.tails.len() as int, h)->0;
            assert(h(c));
            assert(ids[c] == a);
            lemma_ascending_index(ids, c);
            lemma_ascending_index(ids, k);
        } else {
            if let Some(c) = last_place(mt.tails.len() as int, h) {
                assert(h(c));
                assert(ids[c] == a);
            }
        }
    } else if knows(m, x) {
        lemma_known(m, web, x);
        let a = id_in(m, x);
        if ids.contains(a) {
            lemma_stored_word(m, m2, web, order, index, words, t, map, a);
        }
    }
}

proof fn lemma_prompts_back(
    m: Model,
    m2: Model,
    web: WebPrior,
    order: Seq<u32>,
    index: Seq<u32>,
    words: Seq<WordView>,
    t: TablesView,
    map: Seq<u32>,
)
    requires
        set_up(m, m2, web, order, index, words, t, map),
    ensures
        text_prompts(m2) == last_prompts(text_prompts(m), m2.params.session_prompts as int),
{
    let n = m.lexicon@.words.len() as int;
    let mt = mapped_tables(t, map);
    let prompts = m.session.prompts@;
    let cap = m2.params.session_prompts as int;
    let texts2 = mt.prompts.map_values(
        |p: Seq<u32>| p.map_values(|id: u32| m2.lexicon@.words[id as int]),
    );
    assert(texts2 =~= text_prompts(m)) by {
        assert forall|q: int| 0 <= q < prompts.len() implies texts2[q] == #[trigger] text_prompts(
            m,
        )[q] by {
            let ids = prompts[q]@;
            assert(prompt_ids(prompts)[q] == ids);
            assert(t.prompts[q] == mapped_ids(ids, index));
            assert(mt.prompts[q] == mapped_ids(t.prompts[q], map));
            assert(texts2[q] =~= text_prompts(m)[q]) by {
                assert forall|k: int| 0 <= k < ids.len() implies texts2[q][k] == #[trigger] text_prompts(
                    m,
                )[q][k] by {
                    let id = ids[k];
                    assert(prompts[q]@[k] < n);
                    assert(ids.contains(id));
                    assert(recent(m, id));
                    lemma_stored_word(m, m2, web, order, index, words, t, map, id);
                    lemma_known(m2, web, m.lexicon@.words[id as int]);
                    assert(mt.prompts[q][k] == map[index[id as int] as int]);
                }
            }
        }
    }
    if cap == 0 {
        assert(text_prompts(m2) =~= Seq::empty());
    } else {
        assert(text_prompts(m2) =~= last_prompts(texts2, cap));
    }
}

/// The numbers of a picture are in range and nothing occurs twice.
proof fn lemma_picture_numbered(
    m: Model,
    web: WebPrior,
    order: Seq<u32>,
    index: Seq<u32>,
    words: Seq<WordView>,
    t: TablesView,
)
    requires
        m.wf(web),
        pictures(m, order, index, words, t),
        forall|k: int, i: int|
            0 <= k < m.counts.tails.forms@.len() && 0 <= i < m.counts.tails.forms@[k]@.len()
                ==> byte_len((#[trigger] m.counts.tails.forms@[k]@[i]).0@) <= u16::MAX,
    ensures
        well_numbered(t, words.len() as int),
{
    let n = m.lexicon@.words.len() as int;
    let flags = Seq::new(n as nat, |i: int| kept(m, i as u32));
    let slots = m.counts.followers.ctx_slot@;
    let lists = m.counts.followers.lists@;
    lemma_contexts_shape(m, web, index, n);
    assert forall|id: u32| id < n && #[trigger] kept(m, id) implies index[id as int] < words.len()
        && order[index[id as int] as int] == id by {
        assert(flags[id as int]);
    }
    assert forall|i: int| 0 <= i < t.contexts.len() implies (#[trigger] t.contexts[i]).0
        < words.len() && !repeats_id(t.contexts[i].1) && forall|k: int|
        0 <= k < t.contexts[i].1.len() ==> (#[trigger] t.contexts[i].1[k]).0 < words.len() by {
        let id = choose|id: int|
            0 <= id < n && slots[id] != NONE && t.contexts[i] == (
                index[id],
                numbered_entries(lists[#[trigger] slots[id] as int], index),
            );
        assert(kept(m, id as u32));
        let f = lists[slots[id] as int];
        assert(slots[id] < lists.len());
        assert(f.wf(n));
        let ids = f.ids.ids@;
        let entries = numbered_entries(f, index);
        assert forall|k: int| 0 <= k < entries.len() implies (#[trigger] entries[k]).0
            < words.len() by {
            assert(ids.contains(ids[k]));
            assert(ids[k] < n);
            assert(follows(m, ids[k]));
            assert(kept(m, ids[k]));
        }
        if repeats_id(entries) {
            let (a, b) = choose|a: int, b: int|
                #![trigger entries[a], entries[b]]
                0 <= a < b < entries.len() && entries[a].0 == entries[b].0;
            assert(ids.contains(ids[a]) && ids.contains(ids[b]));
            assert(ids[a] < n && ids[b] < n);
            assert(follows(m, ids[a]) && follows(m, ids[b]));
            assert(kept(m, ids[a]) && kept(m, ids[b]));
            assert(ids[a] < ids[b]);
        }
    }
    lemma_contexts_distinct(m, web, order, index, words, t, n);
    assert forall|i: int| 0 <= i < t.pairs.len() implies (#[trigger] t.pairs[i]).0 < words.len()
        && t.pairs[i].1 < words.len() by {
        assert(m.counts.pairs.has_index(i as u32));
        let k = choose|k: u64| #[trigger]
            m.counts.pairs.pairs@.dom().contains(k) && m.counts.pairs.pairs@[k] == i as u32;
        assert(paired(m, upper(k)) && paired(m, lower(k)));
        assert(kept(m, upper(k)) && kept(m, lower(k)));
    }
    assert forall|i: int, j: int|
        #![trigger t.pairs[i], t.pairs[j]]
        0 <= i < j < t.pairs.len() implies t.pairs[i].0 != t.pairs[j].0 || t.pairs[i].1
        != t.pairs[j].1 by {
        assert(m.counts.pairs.has_index(i as u32));
        assert(m.counts.pairs.has_index(j as u32));
        let k = choose|k: u64| #[trigger]
            m.counts.pairs.pairs@.dom().contains(k) && m.counts.pairs.pairs@[k] == i as u32;
        let l = choose|l: u64| #[trigger]
            m.counts.pairs.pairs@.dom().contains(l) && m.counts.pairs.pairs@[l] == j as u32;
        assert(paired(m, upper(k)) && paired(m, lower(k)));
        assert(paired(m, upper(l)) && paired(m, lower(l)));
        assert(kept(m, upper(k)) && kept(m, lower(k)));
        assert(kept(m, upper(l)) && kept(m, lower(l)));
        lemma_halves(k);
        lemma_halves(l);
        if upper(k) == upper(l) && lower(k) == lower(l) {
            assert(k == l);
        }
    }
    assert forall|i: int| 0 <= i < t.trigrams.len() implies (#[trigger] t.trigrams[i]).0
        < t.pairs.len() && t.trigrams[i].1 < words.len() by {
        assert(trigram_pictured(m, index, t.trigrams[i]));
        let k = choose|k: u64| #[trigger]
            m.counts.pairs.tri@.dom().contains(k) && t.trigrams[i] == (
                upper(k),
                index[lower(k) as int],
                m.counts.pairs.tri@[k],
            );
        assert(ends_trigram(m, lower(k)));
        assert(kept(m, lower(k)));
    }
    let ids = m.counts.tails.ids.ids@;
    assert forall|i: int| 0 <= i < t.tails.len() implies (#[trigger] t.tails[i]).0 < words.len() by {
        assert(ids.contains(ids[i]));
        assert(ids[i] < n);
        assert(kept(m, ids[i]));
    }
    assert forall|i: int, k: int| 0 <= i < t.tails.len() && 0 <= k < t.tails[i].1.len() implies
        byte_len((#[trigger] t.tails[i].1[k]).0) <= u16::MAX by {
        assert(byte_len(m.counts.tails.forms@[i]@[k].0@) <= u16::MAX);
    }
    assert forall|i: int, k: int| 0 <= i < t.prompts.len() && 0 <= k < t.prompts[i].len() implies
        #[trigger] t.prompts[i][k] < words.len() by {
        let p = m.session.prompts@[i]@;
        assert(m.session.prompts@[i]@[k] < n);
        assert(p.contains(p[k]));
        assert(recent(m, p[k]));
        assert(kept(m, p[k]));
    }
}

/// No context occurs twice in a picture.
proof fn lemma_contexts_distinct(
    m: Model,
    web: WebPrior,
    order: Seq<u32>,
    index: Seq<u32>,
    words: Seq<WordView>,
    t: TablesView,
    k: int,
)
    requires
        m.wf(web),
        pictures(m, order, index, words, t),
        0 <= k <= m.lexicon@.words.len(),
    ensures
        forall|i: int, j: int|
            #![trigger numbered_contexts(m, index, k)[i], numbered_contexts(m, index, k)[j]]
            0 <= i < j < numbered_contexts(m, index, k).len() ==> numbered_contexts(
                m,
                index,
                k,
            )[i].0 != numbered_contexts(m, index, k)[j].0,
    decreases k,
{
    if k > 0 {
        lemma_contexts_distinct(m, web, order, index, words, t, k - 1);
        lemma_contexts_shape(m, web, index, k - 1);
        let n = m.lexicon@.words.len();
        let flags = Seq::new(n, |i: int| kept(m, i as u32));
        let slots = m.counts.followers.ctx_slot@;
        let lists = m.counts.followers.lists@;
        let prior = numbered_contexts(m, index, k - 1);
        let now = numbered_contexts(m, index, k);
        assert forall|i: int, j: int|
            #![trigger now[i], now[j]]
            0 <= i < j < now.len() implies now[i].0 != now[j].0 by {
            assert(now[i] == prior[i]);
            if j < prior.len() {
                assert(now[j] == prior[j]);
            } else {
                let id = choose|id: int|
                    0 <= id < k - 1 && slots[id] != NONE && prior[i] == (
                        index[id],
                        numbered_entries(lists[#[trigger] slots[id] as int], index),
                    );
                assert(flags[id] && flags[k - 1]) by {
                    assert(kept(m, id as u32));
                    assert(kept(m, (k - 1) as u32));
                }
                assert(order[index[id] as int] == id);
                assert(order[index[k - 1] as int] == k - 1);
            }
        }
    }
}

/// The stored texts and lists fit their fields, and the stored words a fresh
/// vocabulary.
pub open spec fn fits_snapshot(m: Model) -> bool {
    &&& fits_fields(m)
    &&& m.lexicon@.words.len() < word_limit()
    &&& total_len(prompt_ids(m.session.prompts@)) < u32::MAX
    &&& forall|i: int|
        0 <= i < m.lexicon@.words.len() && kept(m, i as u32) ==> byte_len(
            #[trigger] m.lexicon@.words[i],
        ) <= u16::MAX
    &&& forall|k: int, i: int|
        0 <= k < m.counts.tails.forms@.len() && 0 <= i < m.counts.tails.forms@[k]@.len()
            ==> byte_len((#[trigger] m.counts.tails.forms@[k]@[i]).0@) <= u16::MAX
}

/// The model fits a snapshot, and what is not stored counts for nothing.
pub open spec fn storable(m: Model) -> bool {
    fits_snapshot(m) && counts_kept(m)
}

/// What is stored of a model adds no word to those that the model knows.
proof fn lemma_words_fit(
    m: Model,
    web: WebPrior,
    order: Seq<u32>,
    index: Seq<u32>,
    words: Seq<WordView>,
    t: TablesView,
)
    requires
        m.wf(web),
        web_ok(web),
        pictures(m, order, index, words, t),
    ensures
        web.words.words().len() + new_words(words, web).len() <= m.lexicon@.words.len(),
{
    let known = m.lexicon@.words;
    let shared = web.words.words();
    let unseen = new_words(words, web);
    m.lexicon.vocab.law_vocab_order();
    assert(known.no_duplicates());
    assert(shared.no_duplicates()) by {
        assert forall|i: int, j: int| 0 <= i < j < shared.len() implies shared[i] != shared[j] by {
            assert(text_lt(shared[i], shared[j]));
            lemma_lt_irreflexive(vstd::utf8::encode_utf8(shared[i]), 0);
        }
    }
    known.unique_seq_to_set();
    shared.unique_seq_to_set();
    assert forall|x: Seq<char>| shared.to_set().contains(x) implies #[trigger] known.to_set().contains(
        x,
    ) by {
        let k = choose|k: int| 0 <= k < shared.len() && shared[k] == x;
        assert(known[m.web_to_id@[k] as int] == x);
    }
    assert forall|x: Seq<char>| unseen.contains(x) implies #[trigger] known.to_set().contains(
        x,
    ) by {
        let i = choose|i: int| 0 <= i < words.len() && (#[trigger] words[i]).text == x;
        assert(known[order[i] as int] == x);
    }
    vstd::set_lib::lemma_len_subset(unseen, known.to_set());
    assert(unseen.disjoint(shared.to_set()));
    vstd::set_lib::lemma_set_disjoint_lens(shared.to_set(), unseen);
    assert((shared.to_set() + unseen).subset_of(known.to_set()));
    vstd::set_lib::lemma_len_subset(shared.to_set() + unseen, known.to_set());
}

/// How many ids prompts hold depends on their lengths alone.
proof fn lemma_total_len_of(a: Seq<Seq<u32>>, b: Seq<Seq<u32>>)
    requires
        a.len() == b.len(),
        forall|i: int| 0 <= i < a.len() ==> (#[trigger] a[i]).len() == b[i].len(),
    ensures
        total_len(a) == total_len(b),
    decreases a.len(),
{
    if a.len() > 0 {
        lemma_total_len_of(a.drop_last(), b.drop_last());
        assert(a[a.len() - 1].len() == b[a.len() - 1].len());
    }
}

/// The words of a model that fits a snapshot read back.
proof fn lemma_words_back(
    m: Model,
    web: WebPrior,
    order: Seq<u32>,
    index: Seq<u32>,
    words: Seq<WordView>,
    t: TablesView,
)
    requires
        m.wf(web),
        web_ok(web),
        fits_snapshot(m),
        pictures(m, order, index, words, t),
    ensures
        counts_fit(words, t),
        well_numbered(t, words.len() as int),
        read_words(payload_bytes(m.counts.total, words, t)) == Parsed::<(u64, Seq<WordView>)>::Ok(
            ((m.counts.total, words), 8int + section(words, |w: WordView| word_bytes(w)).len()),
        ),
        !too_many_words(words, web),
{
    lemma_picture_counts(m, web, order, index, words, t);
    lemma_picture_numbered(m, web, order, index, words, t);
    assert forall|i: int| 0 <= i < words.len() implies byte_len((#[trigger] words[i]).text)
        <= u16::MAX by {
        assert(words[i].text == m.lexicon@.words[order[i] as int]);
        assert(kept(m, order[i]));
    }
    law_words_read_back(m.counts.total, words, t);
    lemma_words_fit(m, web, order, index, words, t);
}

proof fn lemma_payload_back(
    m: Model,
    web: WebPrior,
    payload: Seq<u8>,
    params: Params,
    r: Result<Model, SnapshotError>,
)
    requires
        m.wf(web),
        web_ok(web),
        storable(m),
        lays_out(m, payload),
        payload.len() <= index_limit(),
        reads_as(payload, params, web, r),
    ensures
        r is Ok,
        same_learning(m, r->Ok_0),
        params.session_prompts >= m.params.session_prompts ==> text_prompts(r->Ok_0)
            == text_prompts(m),
        r->Ok_0.params == params,
{
    let (order, index, words, t) = choose|
        order: Seq<u32>,
        index: Seq<u32>,
        words: Seq<WordView>,
        t: TablesView,
    |
        #![trigger pictures(m, order, index, words, t)]
        pictures(m, order, index, words, t) && payload == payload_bytes(m.counts.total, words, t);
    lemma_words_back(m, web, order, index, words, t);
    let at = 8int + section(words, |w: WordView| word_bytes(w)).len();
    let map = choose|map: Seq<u32>|
        #![trigger read_tables(payload, at, map)]
        same_texts(map, words) && read_back(
            read_tables(payload, at, map),
            params,
            web,
            m.counts.total,
            words,
            map,
            r,
        );
    lemma_round_trip(m, web, params, r, order, index, words, t, map, at);
}

/// Restoring the payload of a model gives a model that has learned the same,
/// whatever becomes of the payload's compression. Where the restored model may
/// hold as many prompts, it holds the same prompts, word for word. Counts that
/// are sound stay so.
pub proof fn law_payload_reads_back(
    m: Model,
    web: WebPrior,
    payload: Seq<u8>,
    params: Params,
    r: Result<Model, SnapshotError>,
)
    requires
        m.wf(web),
        web_ok(web),
        storable(m),
        lays_out(m, payload),
        payload.len() <= index_limit(),
        reads_as(payload, params, web, r),
    ensures
        r is Ok,
        same_learning(m, r->Ok_0),
        params.session_prompts >= m.params.session_prompts ==> text_prompts(r->Ok_0)
            == text_prompts(m),
        m.counts.sound() ==> r->Ok_0.counts.sound(),
        r->Ok_0.params == params,
{
    lemma_payload_back(m, web, payload, params, r);
    lemma_reads_wf(payload, params, web, r);
    if m.counts.sound() {
        lemma_sound_back(m, r->Ok_0, web);
    }
}

/// Decoding an encoded model gives a model that has learned the same. Where the
/// decoded model may hold as many prompts, it holds the same prompts, word for
/// word. Counts that are sound stay so.
pub proof fn law_snapshot_round_trips(
    m: Model,
    web: WebPrior,
    bytes: Seq<u8>,
    params: Params,
    r: Result<Model, SnapshotError>,
)
    requires
        m.wf(web),
        web_ok(web),
        storable(m),
        stores(m, bytes),
        zstd_content(bytes.skip(12))->0.len() <= index_limit(),
        reads_as(zstd_content(bytes.skip(12))->0, params, web, r),
    ensures
        header_error(bytes) is None,
        zstd_content(bytes.skip(12)) is Some,
        r is Ok,
        same_learning(m, r->Ok_0),
        params.session_prompts >= m.params.session_prompts ==> text_prompts(r->Ok_0)
            == text_prompts(m),
        m.counts.sound() ==> r->Ok_0.counts.sound(),
        r->Ok_0.params == params,
{
    let (order, index, words, t) = choose|
        order: Seq<u32>,
        index: Seq<u32>,
        words: Seq<WordView>,
        t: TablesView,
    |
        #![trigger pictures(m, order, index, words, t)]
        pictures(m, order, index, words, t) && wraps(
            bytes,
            payload_bytes(m.counts.total, words, t),
        );
    let payload = payload_bytes(m.counts.total, words, t);
    assert(lays_out(m, payload));
    law_payload_reads_back(m, web, payload, params, r);
}

/// A learned model that fits a snapshot comes back from it: every word counts as
/// before, the prompts are the same, word for word, and what comes back can be
/// stored again.
pub proof fn law_learned_models_come_back(
    m: Model,
    web: WebPrior,
    bytes: Seq<u8>,
    r: Result<Model, SnapshotError>,
)
    requires
        m.wf(web),
        web_ok(web),
        m.counts.sound(),
        fits_snapshot(m),
        stores(m, bytes),
        zstd_content(bytes.skip(12))->0.len() <= index_limit(),
        reads_as(zstd_content(bytes.skip(12))->0, m.params, web, r),
    ensures
        r is Ok,
        same_learning(m, r->Ok_0),
        text_prompts(r->Ok_0) == text_prompts(m),
        r->Ok_0.counts.sound(),
        counts_kept(r->Ok_0),
        r->Ok_0.params == m.params,
{
    law_sound_counts_are_stored(m);
    law_snapshot_round_trips(m, web, bytes, m.params, r);
    lemma_reads_wf(zstd_content(bytes.skip(12))->0, m.params, web, r);
    law_sound_counts_are_stored(r->Ok_0);
}

/// What reads back is well formed.
proof fn lemma_reads_wf(
    payload: Seq<u8>,
    params: Params,
    web: WebPrior,
    r: Result<Model, SnapshotError>,
)
    requires
        reads_as(payload, params, web, r),
        r is Ok,
    ensures
        r->Ok_0.wf(web),
{
    let ((total, words), at) = read_words(payload)->Ok_0;
    let map = choose|map: Seq<u32>|
        #![trigger read_tables(payload, at, map)]
        same_texts(map, words) && read_back(
            read_tables(payload, at, map),
            params,
            web,
            total,
            words,
            map,
            r,
        );
    assert(same_texts(map, words));
}

/// A snapshot whose header was changed or cut is refused.
pub proof fn law_changed_header_is_refused(m: Model, bytes: Seq<u8>, changed: Seq<u8>)
    requires
        stores(m, bytes),
        changed.len() < 12 || changed.take(12) != bytes.take(12),
    ensures
        header_error(changed) is Some,
{
    if changed.len() >= 12 && changed.take(8) == magic() && u32_at(changed, 8) == VERSION {
        assert forall|i: int| 0 <= i < 12 implies changed[i] == bytes[i] by {
            if i < 8 {
                assert(changed.take(8)[i] == magic()[i]);
                assert(bytes.take(8)[i] == magic()[i]);
            }
        }
        assert(changed.take(12) =~= bytes.take(12));
    }
}

proof fn lemma_round_trip(
    m: Model,
    web: WebPrior,
    params: Params,
    r: Result<Model, SnapshotError>,
    order: Seq<u32>,
    index: Seq<u32>,
    words: Seq<WordView>,
    t: TablesView,
    map: Seq<u32>,
    at: int,
)
    requires
        m.wf(web),
        storable(m),
        pictures(m, order, index, words, t),
        counts_fit(words, t),
        well_numbered(t, words.len() as int),
        at == 8int + section(words, |w: WordView| word_bytes(w)).len(),
        same_texts(map, words),
        read_back(
            read_tables(payload_bytes(m.counts.total, words, t), at, map),
            params,
            web,
            m.counts.total,
            words,
            map,
            r,
        ),
    ensures
        r is Ok,
        same_learning(m, r->Ok_0),
        r->Ok_0.params == params,
{
    assert(keeps_apart(map)) by {
        assert forall|i: int, j: int|
            0 <= i < map.len() && 0 <= j < map.len() && #[trigger] map[i]
                == #[trigger] map[j] implies i == j by {
            assert(words[i].text == words[j].text);
            lemma_id_in(m, web, order[i] as int);
            lemma_id_in(m, web, order[j] as int);
            assert(order[i] == order[j]);
            assert(index[order[i] as int] == i);
            assert(index[order[j] as int] == j);
        }
    }
    law_tables_read_back(m.counts.total, words, t, map);
    lemma_total_len_of(mapped_tables(t, map).prompts, prompt_ids(m.session.prompts@));
    let m2 = r->Ok_0;
    assert(set_up(m, m2, web, order, index, words, t, map));
    assert forall|x: Seq<char>| #[trigger] text_count(m2, x) == text_count(m, x) by {
        lemma_counts_back(m, m2, web, order, index, words, t, map, x);
    }
    assert forall|x: Seq<char>| #[trigger] text_raw(m2, x) == text_raw(m, x) by {
        lemma_counts_back(m, m2, web, order, index, words, t, map, x);
    }
    assert forall|x: Seq<char>, y: Seq<char>| #[trigger]
        text_follower(m2, x, y) == text_follower(m, x, y) by {
        lemma_followers_back(m, m2, web, order, index, words, t, map, x, y);
    }
    assert forall|x: Seq<char>, y: Seq<char>| #[trigger] text_stats(m2, x, y) == text_stats(
        m,
        x,
        y,
    ) by {
        lemma_pairs_back(m, m2, web, order, index, words, t, map, x, y);
    }
    assert forall|x: Seq<char>, y: Seq<char>, z: Seq<char>| #[trigger]
        text_trigram(m2, x, y, z) == text_trigram(m, x, y, z) by {
        lemma_trigrams_back(m, m2, web, order, index, words, t, map, x, y, z);
    }
    assert forall|x: Seq<char>| #[trigger] text_forms(m2, x) == text_forms(m, x) by {
        lemma_forms_back(m, m2, web, order, index, words, t, map, x);
    }
    lemma_prompts_back(m, m2, web, order, index, words, t, map);
}

} // verus!
