//! Versioned binary snapshot of the learned model.
//!
//! Layout: `b"PINGRAM\0"`, a little-endian version, then one zstd frame (with
//! content checksum) holding the payload. Words are stored as strings, so a
//! snapshot survives changes to the embedded web prior; the prefix trees and
//! hygiene flags are rebuilt on load.

use crate::bytes::{get_u32, le32, put_u32, u32_at, Reader};
use crate::ngram::compress::{checksummed, zstd_content, zstd_decode, zstd_encode, SNAPSHOT_LEVEL};
use crate::ngram::counts::Counts;
use crate::ngram::follower_table::FollowerTable;
use crate::ngram::lexicon::{bos, bos_text, fresh, swept, Known, Params, NONE};
use crate::ngram::merge::sort_distinct;
use crate::ngram::model::{web_ok, Model};
use crate::ngram::order::{
    ascending_texts, lemma_lt_irreflexive, lemma_sorted_ascends, sorted_texts, text_lt,
};
use crate::ngram::pair_table::PairTable;
use crate::ngram::restore::{
    context_place, entry_count, last_place, lemma_last_place, pair_place, stored_forms,
    trigram_count,
};
use crate::ngram::session::{newest_of, prompt_ids, total_len};
use crate::ngram::snapshot_bytes::put_payload;
use crate::ngram::snapshot_format::SnapshotError;
use crate::ngram::snapshot_image::{fits_fields, image, lemma_picture_counts, pictures};
use crate::ngram::snapshot_records::{
    get_tables, get_words, ids_fit, index_limit, payload_bytes, prompts_view, read_tables,
    read_words, words_view, Tables, TablesView, WordRecord, WordView,
};
use crate::ngram::tail_table::TailTable;
use crate::ngram::vocab::{texts, word_limit};
use crate::ngram::web::WebPrior;
use crate::unicode::same_text;
use vstd::prelude::*;

verus! {

/// Current snapshot format.
pub const VERSION: u32 = 1;

/// What every snapshot starts with.
pub open spec fn magic() -> Seq<u8> {
    seq![80, 73, 78, 71, 82, 65, 77, 0]
}

fn has_magic(bytes: &[u8]) -> (r: bool)
    requires
        bytes@.len() >= 8,
    ensures
        r == (bytes@.take(8) == magic()),
{
    let r = bytes[0] == 80 && bytes[1] == 73 && bytes[2] == 78 && bytes[3] == 71 && bytes[4] == 82
        && bytes[5] == 65 && bytes[6] == 77 && bytes[7] == 0;
    proof {
        let head = bytes@.take(8);
        if r {
            assert(head =~= magic());
        } else if head == magic() {
            assert(head[0] == bytes@[0] && head[1] == bytes@[1] && head[2] == bytes@[2] && head[3]
                == bytes@[3]);
            assert(head[4] == bytes@[4] && head[5] == bytes@[5] && head[6] == bytes@[6] && head[7]
                == bytes@[7]);
        }
    }
    r
}

/// `bytes` are a snapshot whose payload is `payload`.
pub open spec fn wraps(bytes: Seq<u8>, payload: Seq<u8>) -> bool {
    &&& bytes.len() >= 12
    &&& bytes.take(8) == magic()
    &&& u32_at(bytes, 8) == VERSION
    &&& zstd_content(bytes.skip(12)) == Some(payload)
}

/// `bytes` store the learned state of `m`.
pub open spec fn stores(m: Model, bytes: Seq<u8>) -> bool {
    exists|order: Seq<u32>, index: Seq<u32>, words: Seq<WordView>, t: TablesView|
        #![trigger pictures(m, order, index, words, t)]
        pictures(m, order, index, words, t) && wraps(
            bytes,
            payload_bytes(m.counts.total, words, t),
        )
}

/// A compressed payload with the header before it; nothing when compression
/// failed.
pub fn seal(frame: Option<Vec<u8>>) -> (out: Option<Vec<u8>>)
    ensures
        match frame {
            Some(f) => out matches Some(bytes) && bytes@ == magic() + le32(VERSION) + f@,
            None => out is None,
        },
{
    match frame {
        Some(f) => {
            let mut out: Vec<u8> = Vec::new();
            out.push(80);
            out.push(73);
            out.push(78);
            out.push(71);
            out.push(82);
            out.push(65);
            out.push(77);
            out.push(0);
            put_u32(&mut out, VERSION);
            let mut rest = f;
            assert(out@ =~= magic() + le32(VERSION));
            out.append(&mut rest);
            Some(out)
        },
        None => None,
    }
}

/// Serialize `m`'s learned state: [`payload_of`], compressed into a frame with a
/// content checksum, and [`seal`]ed; nothing when compression fails.
pub fn encode(m: &Model, web: &WebPrior) -> (out: Option<Vec<u8>>)
    requires
        m.wf(*web),
        fits_fields(*m),
    ensures
        out matches Some(bytes) ==> stores(*m, bytes@) && checksummed(bytes@.skip(12)),
{
    let payload = payload_of(m, web);
    let frame = zstd_encode(&payload, SNAPSHOT_LEVEL, true);
    let ghost made = frame;
    let out = seal(frame);
    proof {
        if out is Some {
            let bytes = out->0@;
            let v = le32(VERSION);
            crate::bytes::lemma_le32(VERSION);
            assert(bytes.take(8) =~= magic());
            assert(bytes.skip(12) =~= made->0@);
            assert(bytes[8] == v[0] && bytes[9] == v[1] && bytes[10] == v[2] && bytes[11] == v[3]);
            assert(wraps(bytes, payload@));
        }
    }
    out
}

/// `payload` lays out the learned state of `m`.
pub open spec fn lays_out(m: Model, payload: Seq<u8>) -> bool {
    exists|order: Seq<u32>, index: Seq<u32>, words: Seq<WordView>, t: TablesView|
        #![trigger pictures(m, order, index, words, t)]
        pictures(m, order, index, words, t) && payload == payload_bytes(m.counts.total, words, t)
}

/// The bytes that are compressed into a snapshot of `m`'s learned state.
pub fn payload_of(m: &Model, web: &WebPrior) -> (payload: Vec<u8>)
    requires
        m.wf(*web),
        fits_fields(*m),
    ensures
        lays_out(*m, payload@),
{
    let img = image(m, web);
    proof {
        lemma_picture_counts(
            *m,
            *web,
            img.order@,
            img.index@,
            words_view(img.words@),
            img.tables@,
        );
    }
    put_payload(m.counts.total, &img.words, &img.tables)
}

/// The stored words that neither the web vocabulary nor the sentence start
/// brings.
pub open spec fn new_words(words: Seq<WordView>, web: WebPrior) -> Set<Seq<char>> {
    Set::new(
        |w: Seq<char>|
            (exists|i: int| 0 <= i < words.len() && (#[trigger] words[i]).text == w)
                && !web.words.words().contains(w) && w != bos_text(),
    )
}

/// More words than a vocabulary can number.
pub open spec fn too_many_words(words: Seq<WordView>, web: WebPrior) -> bool {
    web.words.words().len() + new_words(words, web).len() >= word_limit()
}

/// More pairs than can be numbered, or more words in the recent prompts than
/// can be counted.
pub open spec fn too_many_records(t: TablesView) -> bool {
    t.pairs.len() >= NONE || total_len(t.prompts) >= u32::MAX
}

/// Places of id `id`.
pub open spec fn holds_word(map: Seq<u32>, id: int) -> spec_fn(int) -> bool {
    |k: int| map[k] == id
}

/// The counts of the stored words by id; zero where none is stored.
pub open spec fn stored_counts(words: Seq<WordView>, map: Seq<u32>, k: int, n: nat) -> Seq<u32> {
    Seq::new(
        n,
        |id: int|
            match last_place(k, holds_word(map, id)) {
                Some(j) => words[j].count,
                None => 0u32,
            },
    )
}

/// How often the stored words were typed, by id; zero where none is stored.
pub open spec fn stored_raws(words: Seq<WordView>, map: Seq<u32>, k: int, n: nat) -> Seq<u32> {
    Seq::new(
        n,
        |id: int|
            match last_place(k, holds_word(map, id)) {
                Some(j) => words[j].raw,
                None => 0u32,
            },
    )
}

/// `map` gives the id of each stored word.
pub open spec fn names(map: Seq<u32>, vocab: Seq<Seq<char>>, words: Seq<WordView>) -> bool {
    &&& map.len() == words.len()
    &&& forall|i: int|
        0 <= i < words.len() ==> (#[trigger] map[i]) < vocab.len() && vocab[map[i] as int]
            == words[i].text
}

/// `m` holds what was stored, and nothing else. The totals of the follower
/// lists are left at zero.
pub open spec fn restores(
    m: Model,
    params: Params,
    web: WebPrior,
    total: u64,
    words: Seq<WordView>,
    map: Seq<u32>,
    t: TablesView,
) -> bool {
    let n = m.lexicon@.words.len();
    let vocab = m.lexicon@.words;
    &&& m.wf(web)
    &&& m.params == params
    &&& m.version == 0
    &&& sorted_texts(vocab)
    &&& m.lexicon.vocab.base() == n
    &&& forall|w: Seq<char>| #[trigger]
        vocab.contains(w) <==> web.words.words().contains(w) || (exists|i: int|
            0 <= i < words.len() && (#[trigger] words[i]).text == w) || w == bos_text()
    &&& names(map, vocab, words)
    &&& m.lexicon@ == swept(
        (Known {
            raw: stored_raws(words, map, words.len() as int, n),
            ..fresh(vocab, web)
        }),
        n as int,
        params.canonicalize,
    )
    &&& m.counts.total == total
    &&& m.counts.count@ == stored_counts(words, map, words.len() as int, n)
    &&& forall|v: u32, w: u32|
        v < n ==> #[trigger] m.counts.followers.follower(v, w) == (match context_place(
            t.contexts,
            v,
        ) {
            Some(k) => entry_count(t.contexts[k].1, w),
            None => None,
        })
    &&& forall|v: u32|
        v < n ==> #[trigger] m.counts.followers.total_of(v) == (match context_place(
            t.contexts,
            v,
        ) {
            Some(k) => Some(0u64),
            None => None,
        })
    &&& forall|u: u32, v: u32|
        u < n && v < n ==> #[trigger] m.counts.pairs.stats(u, v) == (match pair_place(
            t.pairs,
            u,
            v,
        ) {
            Some(k) => Some((t.pairs[k].2, t.pairs[k].3)),
            None => None,
        })
    &&& forall|u: u32, v: u32, w: u32|
        u < n && v < n ==> #[trigger] m.counts.pairs.trigram(u, v, w) == (match pair_place(
            t.pairs,
            u,
            v,
        ) {
            Some(k) => trigram_count(t.trigrams, k as u32, w),
            None => None,
        })
    &&& forall|id: u32| #[trigger] m.counts.tails.forms_of(id) == stored_forms(t.tails, id)
    &&& prompt_ids(m.session.prompts@) == (if params.session_prompts == 0 {
        Seq::<Seq<u32>>::empty()
    } else {
        newest_of(t.prompts, params.session_prompts as int)
    })
}

/// What the stored words and tables come to.
pub open spec fn read_back(
    tables: Result<TablesView, SnapshotError>,
    params: Params,
    web: WebPrior,
    total: u64,
    words: Seq<WordView>,
    map: Seq<u32>,
    r: Result<Model, SnapshotError>,
) -> bool {
    match tables {
        Err(e) => r == Err::<Model, SnapshotError>(e),
        Ok(t) => if too_many_records(t) {
            r == Err::<Model, SnapshotError>(SnapshotError::TooLarge)
        } else {
            r matches Ok(m) && restores(m, params, web, total, words, map, t)
        },
    }
}

/// What reading a payload comes to.
pub open spec fn reads_as(
    payload: Seq<u8>,
    params: Params,
    web: WebPrior,
    r: Result<Model, SnapshotError>,
) -> bool {
    match read_words(payload) {
        Err(e) => r == Err::<Model, SnapshotError>(e),
        Ok(((total, words), at)) => if too_many_words(words, web) {
            r == Err::<Model, SnapshotError>(SnapshotError::TooLarge)
        } else {
            ||| r == Err::<Model, SnapshotError>(SnapshotError::TooLarge) && payload.len()
                > index_limit()
            ||| exists|map: Seq<u32>|
                #![trigger read_tables(payload, at, map)]
                same_texts(map, words) && read_back(
                    read_tables(payload, at, map),
                    params,
                    web,
                    total,
                    words,
                    map,
                    r,
                )
        },
    }
}

/// `map` numbers the words so that equal texts, and no others, get one id.
pub open spec fn same_texts(map: Seq<u32>, words: Seq<WordView>) -> bool {
    &&& map.len() == words.len()
    &&& forall|i: int, j: int|
        #![trigger map[i], map[j]]
        0 <= i < words.len() && 0 <= j < words.len() ==> (map[i] == map[j] <==> words[i].text
            == words[j].text)
}

/// The texts of stored words.
fn word_texts(words: &Vec<WordRecord>) -> (list: Vec<String>)
    ensures
        list@.len() == words@.len(),
        forall|i: int| 0 <= i < words@.len() ==> (#[trigger] list@[i])@ == words@[i].text@,
{
    let mut list: Vec<String> = Vec::new();
    let mut i: usize = 0;
    while i < words.len()
        invariant
            i <= words@.len(),
            list@.len() == i,
            forall|k: int| 0 <= k < i ==> (#[trigger] list@[k])@ == words@[k].text@,
        decreases words@.len() - i,
    {
        list.push(words[i].text.as_str().to_owned());
        i = i + 1;
    }
    list
}

/// The stored words that neither the web vocabulary nor the sentence start
/// brings, each once.
fn unseen_words(words: &Vec<WordRecord>, web: &WebPrior) -> (out: Vec<String>)
    requires
        web_ok(*web),
    ensures
        out@.len() == new_words(words_view(words@), *web).len(),
        forall|w: Seq<char>| #[trigger]
            texts(out@).contains(w) <==> new_words(words_view(words@), *web).contains(w),
{
    let list = word_texts(words);
    let all = sort_distinct(&list);
    let mut out: Vec<String> = Vec::new();
    let mut i: usize = 0;
    let ghost every = texts(all@);
    let ghost known = web.words.words();
    proof {
        lemma_sorted_ascends(known);
    }
    while i < all.len()
        invariant
            every == texts(all@),
            known == web.words.words(),
            ascending_texts(known),
            sorted_texts(every),
            i <= all@.len(),
            forall|w: Seq<char>| #[trigger]
                texts(out@).contains(w) <==> every.take(i as int).contains(w) && !known.contains(w)
                    && w != bos_text(),
            texts(out@).no_duplicates(),
        decreases all@.len() - i,
    {
        let ghost held = texts(out@);
        let ghost w0 = every[i as int];
        assert(w0 == all@[i as int]@);
        let seen = web.words.find(all[i].as_str());
        proof {
            assert(seen matches Some(k) ==> known[k as int] == w0 && known.contains(w0));
            let few = every.take(i as int);
            let more = every.take(i + 1);
            assert(more =~= few.push(w0));
            assert forall|w: Seq<char>| #[trigger]
                more.contains(w) <==> few.contains(w) || w == w0 by {
                if more.contains(w) {
                    let k = choose|k: int| 0 <= k < more.len() && more[k] == w;
                    if k < i {
                        assert(few[k] == w);
                    }
                }
                if few.contains(w) {
                    let k = choose|k: int| 0 <= k < few.len() && few[k] == w;
                    assert(more[k] == w);
                }
                assert(more[i as int] == w0);
            }
            assert(!few.contains(w0)) by {
                if few.contains(w0) {
                    let k = choose|k: int| 0 <= k < few.len() && few[k] == w0;
                    assert(text_lt(every[k], every[i as int]));
                    lemma_lt_irreflexive(vstd::utf8::encode_utf8(w0), 0);
                }
            }
        }
        if seen.is_none() && !same_text(all[i].as_str(), bos()) {
            out.push(all[i].as_str().to_owned());
            proof {
                assert(texts(out@) =~= held.push(w0));
                assert forall|w: Seq<char>| #[trigger]
                    texts(out@).contains(w) <==> held.contains(w) || w == w0 by {
                    if held.contains(w) {
                        let k = choose|k: int| 0 <= k < held.len() && held[k] == w;
                        assert(held.push(w0)[k] == w);
                    }
                    assert(held.push(w0)[held.len() as int] == w0);
                }
                assert(!held.contains(w0));
                assert(held.push(w0).no_duplicates());
            }
        }
        i = i + 1;
    }
    proof {
        let stored = words_view(words@);
        let target = new_words(stored, *web);
        assert(every.take(all@.len() as int) =~= every);
        assert forall|w: Seq<char>| #[trigger]
            texts(out@).contains(w) <==> target.contains(w) by {
            if texts(list@).contains(w) {
                let k = choose|k: int| 0 <= k < texts(list@).len() && texts(list@)[k] == w;
                assert(stored[k].text == w);
            }
            if exists|k: int| 0 <= k < stored.len() && (#[trigger] stored[k]).text == w {
                let k = choose|k: int| 0 <= k < stored.len() && (#[trigger] stored[k]).text == w;
                assert(texts(list@)[k] == w);
            }
        }
        texts(out@).unique_seq_to_set();
        assert(texts(out@).to_set() =~= target);
    }
    out
}

/// Gives the stored words back their counts, and says which id each has.
fn install_words(model: &mut Model, words: &Vec<WordRecord>, web: &WebPrior) -> (map: Vec<u32>)
    requires
        old(model).wf(*web),
        old(model).counts.count@ == Seq::new(old(model).lexicon@.words.len(), |i: int| 0u32),
        old(model).lexicon@.raw == Seq::new(old(model).lexicon@.words.len(), |i: int| 0u32),
        forall|i: int|
            0 <= i < words@.len() ==> old(model).lexicon@.words.contains(
                (#[trigger] words@[i]).text@,
            ),
    ensures
        ({
            let n = old(model).lexicon@.words.len();
            let k = words@.len() as int;
            &&& names(map@, old(model).lexicon@.words, words_view(words@))
            &&& ids_fit(map@, n as int)
            &&& *final(model) == (Model {
                counts: final(model).counts,
                lexicon: final(model).lexicon,
                ..*old(model)
            })
            &&& final(model).counts == (Counts {
                count: final(model).counts.count,
                ..old(model).counts
            })
            &&& final(model).lexicon.vocab == old(model).lexicon.vocab
            &&& final(model).lexicon@ == (Known {
                raw: final(model).lexicon@.raw,
                ..old(model).lexicon@
            })
            &&& final(model).counts.count@ == stored_counts(words_view(words@), map@, k, n)
            &&& final(model).lexicon@.raw == stored_raws(words_view(words@), map@, k, n)
        }),
{
    let ghost start = *model;
    let ghost vocab = model.lexicon@.words;
    let ghost n = vocab.len();
    let ghost all = words_view(words@);
    let mut map: Vec<u32> = Vec::new();
    let mut i: usize = 0;
    proof {
        model.lexicon.vocab.law_vocab_order();
        assert(model.counts.count@ =~= stored_counts(all, map@, 0, n));
        assert(model.lexicon@.raw =~= stored_raws(all, map@, 0, n));
    }
    while i < words.len()
        invariant
            start.wf(*web),
            vocab == start.lexicon@.words,
            n == vocab.len(),
            all == words_view(words@),
            forall|a: int, b: int| 0 <= a < b < vocab.len() ==> vocab[a] != vocab[b],
            forall|k: int|
                0 <= k < words@.len() ==> vocab.contains((#[trigger] words@[k]).text@),
            i <= words@.len(),
            map@.len() == i,
            forall|k: int|
                0 <= k < i ==> (#[trigger] map@[k]) < n && vocab[map@[k] as int] == all[k].text,
            *model == (Model { counts: model.counts, lexicon: model.lexicon, ..start }),
            model.counts == (Counts { count: model.counts.count, ..start.counts }),
            model.lexicon.vocab == start.lexicon.vocab,
            model.lexicon@ == (Known { raw: model.lexicon@.raw, ..start.lexicon@ }),
            model.lexicon.wf(),
            model.counts.count@ == stored_counts(all, map@, i as int, n),
            model.lexicon@.raw == stored_raws(all, map@, i as int, n),
        decreases words@.len() - i,
    {
        let ghost before = *model;
        let ghost prior = map@;
        let found = model.lexicon.find(words[i].text.as_str());
        proof {
            assert(all[i as int] == words@[i as int]@);
            assert(vocab.contains(words@[i as int].text@));
        }
        let id: u32 = match found {
            Some(id) => id,
            None => 0,
        };
        proof {
            assert(vocab[vocab.index_of(words@[i as int].text@)] == words@[i as int].text@);
        }
        model.counts.count.set(id as usize, words[i].count);
        model.lexicon.raw.set(id as usize, words[i].raw);
        map.push(id);
        proof {
            assert forall|x: int| 0 <= x < n implies last_place(i + 1, holds_word(map@, x)) == (
            if x == id {
                Some(i as int)
            } else {
                last_place(i as int, holds_word(prior, x))
            }) by {
                let p = holds_word(map@, x);
                lemma_same_last(prior, map@, i as int, x);
                assert(p(i as int) == (x == id));
            }
            assert(model.counts.count@ =~= stored_counts(all, map@, i + 1, n));
            assert(model.lexicon@.raw =~= stored_raws(all, map@, i + 1, n));
            assert(model.lexicon@ =~= (Known { raw: model.lexicon@.raw, ..start.lexicon@ }));
        }
        i = i + 1;
    }
    map
}

/// Ids read before a place do not depend on what follows.
proof fn lemma_same_last(a: Seq<u32>, b: Seq<u32>, k: int, x: int)
    requires
        k <= a.len(),
        k <= b.len(),
        forall|i: int| 0 <= i < k ==> a[i] == b[i],
    ensures
        last_place(k, holds_word(a, x)) == last_place(k, holds_word(b, x)),
    decreases k,
{
    if k > 0 {
        lemma_same_last(a, b, k - 1, x);
        assert(holds_word(a, x)(k - 1) == holds_word(b, x)(k - 1));
    }
}

/// Can the pairs be numbered, and the words of the recent prompts counted?
fn records_fit(t: &Tables) -> (r: bool)
    ensures
        r == !too_many_records(t@),
{
    let ghost prompts = prompts_view(t.prompts@);
    let mut total: u64 = 0;
    let mut i: usize = 0;
    while i < t.prompts.len()
        invariant
            prompts == prompts_view(t.prompts@),
            i <= t.prompts@.len(),
            total == total_len(prompts.take(i as int)),
            total < u32::MAX,
        decreases t.prompts@.len() - i,
    {
        proof {
            assert(prompts.take(i + 1).drop_last() =~= prompts.take(i as int));
            assert(prompts.take(i + 1).last() == t.prompts@[i as int]@);
            lemma_total_len_grows(prompts, i + 1);
        }
        let len: usize = t.prompts[i].len();
        if len as u64 >= 0xffff_ffff - total {
            return false;
        }
        total = total + len as u64;
        i = i + 1;
    }
    proof {
        assert(prompts.take(prompts.len() as int) =~= prompts);
    }
    t.pairs.len() < NONE as usize
}

/// The first prompts have no more words than all of them.
proof fn lemma_total_len_grows(prompts: Seq<Seq<u32>>, k: int)
    requires
        0 <= k <= prompts.len(),
    ensures
        total_len(prompts.take(k)) <= total_len(prompts),
    decreases prompts.len() - k,
{
    if k == prompts.len() {
        assert(prompts.take(k) =~= prompts);
    } else {
        lemma_total_len_grows(prompts, k + 1);
        assert(prompts.take(k + 1).drop_last() =~= prompts.take(k));
    }
}

/// A model that has learned nothing and knows the stored words, unless there
/// are too many.
fn blank_model(words: &Vec<WordRecord>, params: Params, web: &WebPrior) -> (r: Option<Model>)
    requires
        web_ok(*web),
    ensures
        r is None == too_many_words(words_view(words@), *web),
        r matches Some(m) ==> {
            &&& m.wf(*web)
            &&& m.is_fresh(params)
            &&& m.lexicon@ == fresh(m.lexicon@.words, *web)
            &&& forall|w: Seq<char>| #[trigger]
                m.lexicon@.words.contains(w) <==> web.words.words().contains(w) || (exists|i: int|
                    0 <= i < words@.len() && (#[trigger] words_view(words@)[i]).text == w) || w
                    == bos_text()
        },
{
    let limit: usize = if usize::MAX / 43 < 0x4000_0000 {
        usize::MAX / 43
    } else {
        0x4000_0000
    };
    let web_len: usize = web.len();
    let list = unseen_words(words, web);
    if web_len >= limit || list.len() >= limit - web_len {
        return None;
    }
    let ghost unseen = texts(list@);
    let m = Model::with_words(params, web, list);
    proof {
        assert forall|w: Seq<char>| #[trigger]
            m.lexicon@.words.contains(w) <==> web.words.words().contains(w) || (exists|i: int|
                0 <= i < words@.len() && (#[trigger] words_view(words@)[i]).text == w) || w
                == bos_text() by {
            assert(unseen.contains(w) <==> new_words(words_view(words@), *web).contains(w));
        }
    }
    Some(m)
}

/// Restore a model from a payload. The totals of its follower lists and the
/// scores of its words are left at zero.
pub fn restore(payload: &[u8], params: Params, web: &WebPrior) -> (r: Result<Model, SnapshotError>)
    requires
        web_ok(*web),
    ensures
        reads_as(payload@, params, *web, r),
        r matches Ok(m) ==> m.wf(*web),
{
    let mut reader = Reader::new(payload);
    let (total, words) = match get_words(&mut reader) {
        Ok(w) => w,
        Err(e) => {
            return Err(e);
        },
    };
    let ghost all = words_view(words@);
    let ghost at = reader.at as int;
    let mut model = match blank_model(&words, params, web) {
        Some(m) => m,
        None => {
            return Err(SnapshotError::TooLarge);
        },
    };
    let ghost blank = model;
    let ghost vocab = model.lexicon@.words;
    proof {
        assert forall|i: int| 0 <= i < words@.len() implies vocab.contains(
            (#[trigger] words@[i]).text@,
        ) by {
            assert(all[i].text == words@[i].text@);
        }
        assert(blank.lexicon@.raw =~= Seq::new(vocab.len(), |i: int| 0u32));
        blank.lexicon.vocab.law_vocab_order();
    }
    let map = install_words(&mut model, &words, web);
    let ghost named = model;
    proof {
        assert forall|i: int, j: int|
            #![trigger map@[i], map@[j]]
            0 <= i < all.len() && 0 <= j < all.len() implies (map@[i] == map@[j] <==> all[i].text
            == all[j].text) by {
            assert(vocab[map@[i] as int] == all[i].text);
            assert(vocab[map@[j] as int] == all[j].text);
            if map@[i] < map@[j] {
                assert(vocab[map@[i] as int] != vocab[map@[j] as int]);
            } else if map@[j] < map@[i] {
                assert(vocab[map@[j] as int] != vocab[map@[i] as int]);
            }
        }
        assert(same_texts(map@, all));
    }
    let n: usize = model.lexicon.vocab.len();
    let tables = match get_tables(&mut reader, &map, n) {
        Ok(t) => t,
        Err(e) => {
            proof {
                if !(e == SnapshotError::TooLarge && payload@.len() > index_limit()) {
                    assert(read_tables(payload@, at, map@) == Err::<TablesView, SnapshotError>(e));
                }
            }
            return Err(e);
        },
    };
    let ghost t = tables@;
    if !records_fit(&tables) {
        assert(read_tables(payload@, at, map@) == Ok::<TablesView, SnapshotError>(t));
        return Err(SnapshotError::TooLarge);
    }
    let Tables { contexts, pairs, trigrams, tails, prompts } = tables;
    model.counts.total = total;
    model.counts.followers = FollowerTable::from_contexts(&contexts, n);
    model.counts.pairs = PairTable::from_records(&pairs, &trigrams, n);
    model.counts.tails = TailTable::from_records(tails, Ghost(n as int));
    proof {
        assert(prompts_view(prompts@) =~= prompt_ids(prompts@));
    }
    model.restore_session(prompts);
    let ghost stored = model;
    model.sweep_hygiene();
    proof {
        lemma_swept_keeps(stored.lexicon@, n as int, params.canonicalize);
        assert(stored.lexicon@ == (Known {
            raw: stored_raws(all, map@, all.len() as int, n as nat),
            ..fresh(vocab, *web)
        }));
        assert(model.wf(*web)) by {
            assert(model.counts.wf());
            assert(prompt_ids(model.session.prompts@).len() == model.session.prompts@.len());
        }
        assert forall|u: u32, v: u32| u < n && v < n implies
            #[trigger] model.counts.pairs.stats(u, v) == (match pair_place(t.pairs, u, v) {
            Some(k) => Some((t.pairs[k].2, t.pairs[k].3)),
            None => None,
        }) by {
            lemma_pair_place(t.pairs, u, v);
            assert(model.counts.pairs.pair_of(u, v) == (match pair_place(t.pairs, u, v) {
                Some(k) => Some(k as u32),
                None => None,
            }));
        }
        assert forall|u: u32, v: u32, w: u32| u < n && v < n implies
            #[trigger] model.counts.pairs.trigram(u, v, w) == (match pair_place(t.pairs, u, v) {
            Some(k) => trigram_count(t.trigrams, k as u32, w),
            None => None,
        }) by {
            lemma_pair_place(t.pairs, u, v);
            assert(model.counts.pairs.pair_of(u, v) == (match pair_place(t.pairs, u, v) {
                Some(k) => Some(k as u32),
                None => None,
            }));
        }
        assert(restores(model, params, *web, total, all, map@, t));
        assert(read_tables(payload@, at, map@) == Ok::<TablesView, SnapshotError>(t));
    }
    Ok(model)
}

proof fn lemma_pair_place(pairs: Seq<(u32, u32, u32, u32)>, u: u32, v: u32)
    ensures
        pair_place(pairs, u, v) matches Some(k) ==> 0 <= k < pairs.len(),
{
    lemma_last_place(pairs.len() as int, crate::ngram::restore::holds_pair(pairs, u, v));
}

/// Sweeping moves only shadows and watch marks.
pub proof fn lemma_swept_keeps(l: Known, k: int, canonicalize: bool)
    requires
        crate::ngram::lexicon::tables_fit(l),
        k <= l.words.len(),
    ensures
        swept(l, k, canonicalize).words == l.words,
        swept(l, k, canonicalize).raw == l.raw,
        swept(l, k, canonicalize).web == l.web,
        swept(l, k, canonicalize).trusted == l.trusted,
        crate::ngram::lexicon::tables_fit(swept(l, k, canonicalize)),
    decreases k,
{
    if k > 0 {
        lemma_swept_keeps(l, k - 1, canonicalize);
    }
}

/// Why `bytes` are not a snapshot of this format.
pub open spec fn header_error(bytes: Seq<u8>) -> Option<SnapshotError> {
    if bytes.len() < 12 || bytes.take(8) != magic() {
        Some(SnapshotError::NotSnapshot)
    } else if u32_at(bytes, 8) != VERSION {
        Some(SnapshotError::Version(u32_at(bytes, 8) as u32))
    } else {
        None
    }
}

/// Restore a model from a snapshot.
pub fn decode(bytes: &[u8], params: Params, web: &WebPrior) -> (r: Result<Model, SnapshotError>)
    requires
        web_ok(*web),
    ensures
        r matches Ok(m) ==> m.wf(*web),
        match header_error(bytes@) {
            Some(e) => r == Err::<Model, SnapshotError>(e),
            None => match zstd_content(bytes@.skip(12)) {
                None => r == Err::<Model, SnapshotError>(SnapshotError::Corrupt),
                Some(payload) => reads_as(payload, params, *web, r),
            },
        },
{
    if bytes.len() < 12 || !has_magic(bytes) {
        return Err(SnapshotError::NotSnapshot);
    }
    let version: u32 = get_u32(bytes, 8);
    if version != VERSION {
        return Err(SnapshotError::Version(version));
    }
    let frame: &[u8] = &bytes[12..bytes.len()];
    assert(frame@ =~= bytes@.skip(12));
    match zstd_decode(frame) {
        Some(payload) => restore(&payload, params, web),
        None => Err(SnapshotError::Corrupt),
    }
}

} // verus!
