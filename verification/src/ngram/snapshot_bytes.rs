//! A snapshot's payload written, and that reading gives back what was written.

use crate::bytes::{le32, le64, lemma_le32, lemma_le64, put_u32, put_u64};
use crate::ngram::snapshot_format::{
    counted, flat, holds, lemma_holds_concat, lemma_section_reads, lemma_text_reads,
    lemma_u32_holds, lemma_u64_holds, put_text, read_u32, read_word, section, text_bytes, Parsed,
    SnapshotError,
};
use crate::ngram::snapshot_records::{
    context_bytes, context_reader, contexts_view, entry_bytes, entry_reader, form_bytes,
    form_reader, has_context, has_pair, id_reader, pair_bytes, pair_reader, payload_bytes,
    prompt_bytes, prompt_reader, prompts_view, read_context, read_entry, read_form, read_pair,
    read_tables, read_tail, read_trigram, read_word_record, read_words, repeats_id, tables_bytes,
    tail_bytes, tail_reader, tails_view, trigram_bytes, trigram_reader, word_bytes, word_reader,
    words_view, Tables, TablesView, WordRecord, WordView,
};
use crate::ngram::tail_table::forms_view;
use crate::unicode::byte_len;
use vstd::prelude::*;

verus! {

/// Every count fits its field.
pub open spec fn counts_fit(words: Seq<WordView>, t: TablesView) -> bool {
    &&& words.len() <= u32::MAX
    &&& t.contexts.len() <= u32::MAX
    &&& forall|i: int|
        0 <= i < t.contexts.len() ==> (#[trigger] t.contexts[i]).1.len() <= u32::MAX
    &&& t.pairs.len() <= u32::MAX
    &&& t.trigrams.len() <= u32::MAX
    &&& t.tails.len() <= u32::MAX
    &&& forall|i: int| 0 <= i < t.tails.len() ==> (#[trigger] t.tails[i]).1.len() <= u32::MAX
    &&& t.prompts.len() <= u32::MAX
    &&& forall|i: int| 0 <= i < t.prompts.len() ==> (#[trigger] t.prompts[i]).len() <= u32::MAX
}

fn put_entries(out: &mut Vec<u8>, list: &Vec<(u32, u32)>)
    requires
        list@.len() <= u32::MAX,
    ensures
        final(out)@ == old(out)@ + section(list@, |e: (u32, u32)| entry_bytes(e)),
{
    let ghost start = out@;
    let ghost enc = |e: (u32, u32)| entry_bytes(e);
    let ghost count = le32(list@.len() as u32);
    put_u32(out, list.len() as u32);
    let mut i: usize = 0;
    assert(out@ =~= start + count + flat(list@, 0, enc));
    while i < list.len()
        invariant
            i <= list@.len(),
            enc == (|e: (u32, u32)| entry_bytes(e)),
            out@ == start + count + flat(list@, i as int, enc),
        decreases list@.len() - i,
    {
        let ghost before = out@;
        put_u32(out, list[i].0);
        put_u32(out, list[i].1);
        assert(out@ =~= before + enc(list@[i as int]));
        assert(out@ =~= start + count + (flat(list@, i as int, enc) + enc(list@[i as int])));
        i = i + 1;
    }
    assert(out@ =~= start + section(list@, enc));
}

fn put_forms(out: &mut Vec<u8>, list: &Vec<(String, u32)>)
    requires
        list@.len() <= u32::MAX,
    ensures
        final(out)@ == old(out)@ + section(
            forms_view(list@),
            |f: (Seq<char>, u32)| form_bytes(f),
        ),
{
    let ghost start = out@;
    let ghost enc = |f: (Seq<char>, u32)| form_bytes(f);
    let ghost all = forms_view(list@);
    let ghost count = le32(list@.len() as u32);
    put_u32(out, list.len() as u32);
    let mut i: usize = 0;
    assert(out@ =~= start + count + flat(all, 0, enc));
    while i < list.len()
        invariant
            i <= list@.len(),
            all == forms_view(list@),
            enc == (|f: (Seq<char>, u32)| form_bytes(f)),
            out@ == start + count + flat(all, i as int, enc),
        decreases list@.len() - i,
    {
        let ghost before = out@;
        put_text(out, list[i].0.as_str());
        put_u32(out, list[i].1);
        assert(all[i as int] == (list@[i as int].0@, list@[i as int].1));
        assert(out@ =~= before + enc(all[i as int]));
        assert(out@ =~= start + count + (flat(all, i as int, enc) + enc(all[i as int])));
        i = i + 1;
    }
    assert(out@ =~= start + section(all, enc));
}

fn put_ids(out: &mut Vec<u8>, list: &Vec<u32>)
    requires
        list@.len() <= u32::MAX,
    ensures
        final(out)@ == old(out)@ + prompt_bytes(list@),
{
    let ghost start = out@;
    let ghost enc = |id: u32| le32(id);
    let ghost count = le32(list@.len() as u32);
    put_u32(out, list.len() as u32);
    let mut i: usize = 0;
    assert(out@ =~= start + count + flat(list@, 0, enc));
    while i < list.len()
        invariant
            i <= list@.len(),
            enc == (|id: u32| le32(id)),
            out@ == start + count + flat(list@, i as int, enc),
        decreases list@.len() - i,
    {
        let ghost before = out@;
        put_u32(out, list[i]);
        assert(out@ =~= before + enc(list@[i as int]));
        assert(out@ =~= start + count + (flat(list@, i as int, enc) + enc(list@[i as int])));
        i = i + 1;
    }
    assert(out@ =~= start + section(list@, enc));
}

fn put_contexts(out: &mut Vec<u8>, list: &Vec<(u32, Vec<(u32, u32)>)>)
    requires
        list@.len() <= u32::MAX,
        forall|i: int|
            0 <= i < list@.len() ==> (#[trigger] contexts_view(list@)[i]).1.len() <= u32::MAX,
    ensures
        final(out)@ == old(out)@ + section(
            contexts_view(list@),
            |c: (u32, Seq<(u32, u32)>)| context_bytes(c),
        ),
{
    let ghost start = out@;
    let ghost enc = |c: (u32, Seq<(u32, u32)>)| context_bytes(c);
    let ghost all = contexts_view(list@);
    let ghost count = le32(list@.len() as u32);
    put_u32(out, list.len() as u32);
    let mut i: usize = 0;
    assert(out@ =~= start + count + flat(all, 0, enc));
    while i < list.len()
        invariant
            i <= list@.len(),
            all == contexts_view(list@),
            forall|k: int| 0 <= k < list@.len() ==> (#[trigger] all[k]).1.len() <= u32::MAX,
            enc == (|c: (u32, Seq<(u32, u32)>)| context_bytes(c)),
            out@ == start + count + flat(all, i as int, enc),
        decreases list@.len() - i,
    {
        let ghost before = out@;
        assert(all[i as int] == (list@[i as int].0, list@[i as int].1@));
        put_u32(out, list[i].0);
        put_entries(out, &list[i].1);
        assert(out@ =~= before + enc(all[i as int]));
        assert(out@ =~= start + count + (flat(all, i as int, enc) + enc(all[i as int])));
        i = i + 1;
    }
    assert(out@ =~= start + section(all, enc));
}

fn put_pairs(out: &mut Vec<u8>, list: &Vec<(u32, u32, u32, u32)>)
    requires
        list@.len() <= u32::MAX,
    ensures
        final(out)@ == old(out)@ + section(list@, |p: (u32, u32, u32, u32)| pair_bytes(p)),
{
    let ghost start = out@;
    let ghost enc = |p: (u32, u32, u32, u32)| pair_bytes(p);
    let ghost count = le32(list@.len() as u32);
    put_u32(out, list.len() as u32);
    let mut i: usize = 0;
    assert(out@ =~= start + count + flat(list@, 0, enc));
    while i < list.len()
        invariant
            i <= list@.len(),
            enc == (|p: (u32, u32, u32, u32)| pair_bytes(p)),
            out@ == start + count + flat(list@, i as int, enc),
        decreases list@.len() - i,
    {
        let ghost before = out@;
        put_u32(out, list[i].0);
        put_u32(out, list[i].1);
        put_u32(out, list[i].2);
        put_u32(out, list[i].3);
        assert(out@ =~= before + enc(list@[i as int]));
        assert(out@ =~= start + count + (flat(list@, i as int, enc) + enc(list@[i as int])));
        i = i + 1;
    }
    assert(out@ =~= start + section(list@, enc));
}

fn put_trigrams(out: &mut Vec<u8>, list: &Vec<(u32, u32, u32)>)
    requires
        list@.len() <= u32::MAX,
    ensures
        final(out)@ == old(out)@ + section(list@, |x: (u32, u32, u32)| trigram_bytes(x)),
{
    let ghost start = out@;
    let ghost enc = |x: (u32, u32, u32)| trigram_bytes(x);
    let ghost count = le32(list@.len() as u32);
    put_u32(out, list.len() as u32);
    let mut i: usize = 0;
    assert(out@ =~= start + count + flat(list@, 0, enc));
    while i < list.len()
        invariant
            i <= list@.len(),
            enc == (|x: (u32, u32, u32)| trigram_bytes(x)),
            out@ == start + count + flat(list@, i as int, enc),
        decreases list@.len() - i,
    {
        let ghost before = out@;
        put_u32(out, list[i].0);
        put_u32(out, list[i].1);
        put_u32(out, list[i].2);
        assert(out@ =~= before + enc(list@[i as int]));
        assert(out@ =~= start + count + (flat(list@, i as int, enc) + enc(list@[i as int])));
        i = i + 1;
    }
    assert(out@ =~= start + section(list@, enc));
}

fn put_tails(out: &mut Vec<u8>, list: &Vec<(u32, Vec<(String, u32)>)>)
    requires
        list@.len() <= u32::MAX,
        forall|i: int|
            0 <= i < list@.len() ==> (#[trigger] tails_view(list@)[i]).1.len() <= u32::MAX,
    ensures
        final(out)@ == old(out)@ + section(
            tails_view(list@),
            |x: (u32, Seq<(Seq<char>, u32)>)| tail_bytes(x),
        ),
{
    let ghost start = out@;
    let ghost enc = |x: (u32, Seq<(Seq<char>, u32)>)| tail_bytes(x);
    let ghost all = tails_view(list@);
    let ghost count = le32(list@.len() as u32);
    put_u32(out, list.len() as u32);
    let mut i: usize = 0;
    assert(out@ =~= start + count + flat(all, 0, enc));
    while i < list.len()
        invariant
            i <= list@.len(),
            all == tails_view(list@),
            forall|k: int| 0 <= k < list@.len() ==> (#[trigger] all[k]).1.len() <= u32::MAX,
            enc == (|x: (u32, Seq<(Seq<char>, u32)>)| tail_bytes(x)),
            out@ == start + count + flat(all, i as int, enc),
        decreases list@.len() - i,
    {
        let ghost before = out@;
        assert(all[i as int] == (list@[i as int].0, forms_view(list@[i as int].1@)));
        put_u32(out, list[i].0);
        put_forms(out, &list[i].1);
        assert(out@ =~= before + enc(all[i as int]));
        assert(out@ =~= start + count + (flat(all, i as int, enc) + enc(all[i as int])));
        i = i + 1;
    }
    assert(out@ =~= start + section(all, enc));
}

fn put_prompts(out: &mut Vec<u8>, list: &Vec<Vec<u32>>)
    requires
        list@.len() <= u32::MAX,
        forall|i: int|
            0 <= i < list@.len() ==> (#[trigger] prompts_view(list@)[i]).len() <= u32::MAX,
    ensures
        final(out)@ == old(out)@ + section(prompts_view(list@), |p: Seq<u32>| prompt_bytes(p)),
{
    let ghost start = out@;
    let ghost enc = |p: Seq<u32>| prompt_bytes(p);
    let ghost all = prompts_view(list@);
    let ghost count = le32(list@.len() as u32);
    put_u32(out, list.len() as u32);
    let mut i: usize = 0;
    assert(out@ =~= start + count + flat(all, 0, enc));
    while i < list.len()
        invariant
            i <= list@.len(),
            all == prompts_view(list@),
            forall|k: int| 0 <= k < list@.len() ==> (#[trigger] all[k]).len() <= u32::MAX,
            enc == (|p: Seq<u32>| prompt_bytes(p)),
            out@ == start + count + flat(all, i as int, enc),
        decreases list@.len() - i,
    {
        let ghost before = out@;
        assert(all[i as int] == list@[i as int]@);
        put_ids(out, &list[i]);
        assert(out@ =~= before + enc(all[i as int]));
        assert(out@ =~= start + count + (flat(all, i as int, enc) + enc(all[i as int])));
        i = i + 1;
    }
    assert(out@ =~= start + section(all, enc));
}

fn put_words(out: &mut Vec<u8>, list: &Vec<WordRecord>)
    requires
        list@.len() <= u32::MAX,
    ensures
        final(out)@ == old(out)@ + section(words_view(list@), |w: WordView| word_bytes(w)),
{
    let ghost start = out@;
    let ghost enc = |w: WordView| word_bytes(w);
    let ghost all = words_view(list@);
    let ghost count = le32(list@.len() as u32);
    put_u32(out, list.len() as u32);
    let mut i: usize = 0;
    assert(out@ =~= start + count + flat(all, 0, enc));
    while i < list.len()
        invariant
            i <= list@.len(),
            all == words_view(list@),
            enc == (|w: WordView| word_bytes(w)),
            out@ == start + count + flat(all, i as int, enc),
        decreases list@.len() - i,
    {
        let ghost before = out@;
        assert(all[i as int] == list@[i as int]@);
        put_text(out, list[i].text.as_str());
        put_u32(out, list[i].count);
        put_u32(out, list[i].raw);
        assert(out@ =~= before + enc(all[i as int]));
        assert(out@ =~= start + count + (flat(all, i as int, enc) + enc(all[i as int])));
        i = i + 1;
    }
    assert(out@ =~= start + section(all, enc));
}

/// Writes the payload.
pub fn put_payload(total: u64, words: &Vec<WordRecord>, t: &Tables) -> (out: Vec<u8>)
    requires
        counts_fit(words_view(words@), t@),
    ensures
        out@ == payload_bytes(total, words_view(words@), t@),
{
    let mut out: Vec<u8> = Vec::new();
    put_u64(&mut out, total);
    put_words(&mut out, words);
    put_contexts(&mut out, &t.contexts);
    put_pairs(&mut out, &t.pairs);
    put_trigrams(&mut out, &t.trigrams);
    put_tails(&mut out, &t.tails);
    put_prompts(&mut out, &t.prompts);
    assert(out@ =~= payload_bytes(total, words_view(words@), t@));
    out
}

// ---------------------------------------------------------------------------
// Reading gives back what was written
// ---------------------------------------------------------------------------
/// Every number is that of one of `n` words or of a pair, no context, follower
/// or pair occurs twice, and every form fits its field.
pub open spec fn well_numbered(t: TablesView, n: int) -> bool {
    &&& forall|i: int|
        0 <= i < t.contexts.len() ==> (#[trigger] t.contexts[i]).0 < n && !repeats_id(
            t.contexts[i].1,
        )
    &&& forall|i: int, k: int|
        0 <= i < t.contexts.len() && 0 <= k < t.contexts[i].1.len() ==> (
        #[trigger] t.contexts[i].1[k]).0 < n
    &&& forall|i: int, j: int|
        #![trigger t.contexts[i], t.contexts[j]]
        0 <= i < j < t.contexts.len() ==> t.contexts[i].0 != t.contexts[j].0
    &&& forall|i: int|
        0 <= i < t.pairs.len() ==> (#[trigger] t.pairs[i]).0 < n && t.pairs[i].1 < n
    &&& forall|i: int, j: int|
        #![trigger t.pairs[i], t.pairs[j]]
        0 <= i < j < t.pairs.len() ==> t.pairs[i].0 != t.pairs[j].0 || t.pairs[i].1 != t.pairs[j].1
    &&& forall|i: int|
        0 <= i < t.trigrams.len() ==> (#[trigger] t.trigrams[i]).0 < t.pairs.len()
            && t.trigrams[i].1 < n
    &&& forall|i: int| 0 <= i < t.tails.len() ==> (#[trigger] t.tails[i]).0 < n
    &&& forall|i: int, k: int|
        0 <= i < t.tails.len() && 0 <= k < t.tails[i].1.len() ==> byte_len(
            (#[trigger] t.tails[i].1[k]).0,
        ) <= u16::MAX
    &&& forall|i: int, k: int|
        0 <= i < t.prompts.len() && 0 <= k < t.prompts[i].len() ==> #[trigger] t.prompts[i][k] < n
}

/// The entries with each number replaced by its id.
pub open spec fn mapped_entries(list: Seq<(u32, u32)>, map: Seq<u32>) -> Seq<(u32, u32)> {
    list.map_values(|e: (u32, u32)| (map[e.0 as int], e.1))
}

/// The ids with each number replaced.
pub open spec fn mapped_ids(list: Seq<u32>, map: Seq<u32>) -> Seq<u32> {
    list.map_values(|x: u32| map[x as int])
}

/// The tables with each word number replaced by its id.
pub open spec fn mapped_tables(t: TablesView, map: Seq<u32>) -> TablesView {
    TablesView {
        contexts: t.contexts.map_values(
            |c: (u32, Seq<(u32, u32)>)| (map[c.0 as int], mapped_entries(c.1, map)),
        ),
        pairs: t.pairs.map_values(
            |p: (u32, u32, u32, u32)| (map[p.0 as int], map[p.1 as int], p.2, p.3),
        ),
        trigrams: t.trigrams.map_values(|x: (u32, u32, u32)| (x.0, map[x.1 as int], x.2)),
        tails: t.tails.map_values(|x: (u32, Seq<(Seq<char>, u32)>)| (map[x.0 as int], x.1)),
        prompts: t.prompts.map_values(|p: Seq<u32>| mapped_ids(p, map)),
    }
}

/// Distinct numbers have distinct ids.
pub open spec fn keeps_apart(map: Seq<u32>) -> bool {
    forall|i: int, j: int|
        0 <= i < map.len() && 0 <= j < map.len() && #[trigger] map[i] == #[trigger] map[j] ==> i
            == j
}

proof fn lemma_word_reads(b: Seq<u8>, at: int, x: u32, map: Seq<u32>)
    requires
        holds(b, at, le32(x)),
        x < map.len(),
    ensures
        read_word(b, at, map) == Parsed::<u32>::Ok((map[x as int], at + 4)),
        le32(x).len() == 4,
{
    lemma_u32_holds(b, at, x);
}

proof fn lemma_u32_reads(b: Seq<u8>, at: int, x: u32)
    requires
        holds(b, at, le32(x)),
    ensures
        read_u32(b, at) == Parsed::<u32>::Ok((x, at + 4)),
        le32(x).len() == 4,
{
    lemma_u32_holds(b, at, x);
}

proof fn lemma_entries_read(b: Seq<u8>, at: int, list: Seq<(u32, u32)>, map: Seq<u32>)
    requires
        list.len() <= u32::MAX,
        holds(b, at, section(list, |e: (u32, u32)| entry_bytes(e))),
        forall|k: int| 0 <= k < list.len() ==> (#[trigger] list[k]).0 < map.len(),
    ensures
        counted(b, at, 8, entry_reader(map)) == Parsed::<Seq<(u32, u32)>>::Ok(
            (
                mapped_entries(list, map),
                at + section(list, |e: (u32, u32)| entry_bytes(e)).len(),
            ),
        ),
{
    let enc = |e: (u32, u32)| entry_bytes(e);
    let outs = mapped_entries(list, map);
    let f = entry_reader(map);
    assert forall|i: int, p: int|
        0 <= i < list.len() && holds(b, p, enc(list[i])) implies #[trigger] f(outs.take(i), b, p)
        == Parsed::<(u32, u32)>::Ok((outs[i], p + enc(list[i]).len())) by {
        let e = list[i];
        lemma_holds_concat(b, p, le32(e.0), le32(e.1));
        lemma_word_reads(b, p, e.0, map);
        lemma_u32_reads(b, p + 4, e.1);
        assert(f(outs.take(i), b, p) == read_entry(b, p, map));
    }
    lemma_section_reads(b, at, list, outs, 8, enc, f);
}

proof fn lemma_forms_read(b: Seq<u8>, at: int, list: Seq<(Seq<char>, u32)>)
    requires
        list.len() <= u32::MAX,
        holds(b, at, section(list, |f: (Seq<char>, u32)| form_bytes(f))),
        forall|k: int| 0 <= k < list.len() ==> byte_len((#[trigger] list[k]).0) <= u16::MAX,
    ensures
        counted(b, at, 6, form_reader()) == Parsed::<Seq<(Seq<char>, u32)>>::Ok(
            (list, at + section(list, |f: (Seq<char>, u32)| form_bytes(f)).len()),
        ),
{
    let enc = |f: (Seq<char>, u32)| form_bytes(f);
    let f = form_reader();
    assert forall|i: int, p: int|
        0 <= i < list.len() && holds(b, p, enc(list[i])) implies #[trigger] f(list.take(i), b, p)
        == Parsed::<(Seq<char>, u32)>::Ok((list[i], p + enc(list[i]).len())) by {
        let e = list[i];
        lemma_holds_concat(b, p, text_bytes(e.0), le32(e.1));
        lemma_text_reads(b, p, e.0);
        lemma_u32_reads(b, p + text_bytes(e.0).len(), e.1);
        assert(f(list.take(i), b, p) == read_form(b, p));
    }
    assert forall|i: int| 0 <= i < list.len() implies enc(#[trigger] list[i]).len() >= 6 by {
        lemma_le32(list[i].1);
    }
    lemma_section_reads(b, at, list, list, 6, enc, f);
}

proof fn lemma_ids_read(b: Seq<u8>, at: int, list: Seq<u32>, map: Seq<u32>)
    requires
        list.len() <= u32::MAX,
        holds(b, at, prompt_bytes(list)),
        forall|k: int| 0 <= k < list.len() ==> #[trigger] list[k] < map.len(),
    ensures
        counted(b, at, 4, id_reader(map)) == Parsed::<Seq<u32>>::Ok(
            (mapped_ids(list, map), at + prompt_bytes(list).len()),
        ),
{
    let enc = |id: u32| le32(id);
    let outs = mapped_ids(list, map);
    let f = id_reader(map);
    assert forall|i: int, p: int|
        0 <= i < list.len() && holds(b, p, enc(list[i])) implies #[trigger] f(outs.take(i), b, p)
        == Parsed::<u32>::Ok((outs[i], p + enc(list[i]).len())) by {
        lemma_word_reads(b, p, list[i], map);
        assert(f(outs.take(i), b, p) == read_word(b, p, map));
    }
    lemma_section_reads(b, at, list, outs, 4, enc, f);
}

proof fn lemma_contexts_read(b: Seq<u8>, at: int, t: TablesView, map: Seq<u32>)
    requires
        counts_fit(Seq::empty(), t),
        well_numbered(t, map.len() as int),
        keeps_apart(map),
        holds(b, at, section(t.contexts, |c: (u32, Seq<(u32, u32)>)| context_bytes(c))),
    ensures
        counted(b, at, 8, context_reader(map)) == Parsed::<Seq<(u32, Seq<(u32, u32)>)>>::Ok(
            (
                mapped_tables(t, map).contexts,
                at + section(t.contexts, |c: (u32, Seq<(u32, u32)>)| context_bytes(c)).len(),
            ),
        ),
{
    let list = t.contexts;
    let enc = |c: (u32, Seq<(u32, u32)>)| context_bytes(c);
    let outs = mapped_tables(t, map).contexts;
    let f = context_reader(map);
    assert forall|i: int, p: int|
        0 <= i < list.len() && holds(b, p, enc(list[i])) implies #[trigger] f(outs.take(i), b, p)
        == Parsed::<(u32, Seq<(u32, u32)>)>::Ok((outs[i], p + enc(list[i]).len())) by {
        let c = list[i];
        let body = section(c.1, |e: (u32, u32)| entry_bytes(e));
        lemma_holds_concat(b, p, le32(c.0), body);
        lemma_word_reads(b, p, c.0, map);
        assert forall|k: int| 0 <= k < c.1.len() implies (#[trigger] c.1[k]).0 < map.len() by {
            assert(t.contexts[i].1[k].0 < map.len());
        }
        lemma_entries_read(b, p + 4, c.1, map);
        let entries = mapped_entries(c.1, map);
        assert(!repeats_id(entries)) by {
            if repeats_id(entries) {
                let (x, y) = choose|x: int, y: int|
                    #![trigger entries[x], entries[y]]
                    0 <= x < y < entries.len() && entries[x].0 == entries[y].0;
                assert(c.1[x].0 == c.1[y].0);
                assert(repeats_id(c.1));
            }
        }
        assert(!has_context(outs.take(i), map[c.0 as int])) by {
            if has_context(outs.take(i), map[c.0 as int]) {
                let k = choose|k: int|
                    0 <= k < outs.take(i).len() && (#[trigger] outs.take(i)[k]).0
                        == map[c.0 as int];
                assert(outs.take(i)[k] == outs[k]);
                assert(map[list[k].0 as int] == map[c.0 as int]);
                assert(list[k].0 != list[i].0);
            }
        }
        assert(f(outs.take(i), b, p) == read_context(outs.take(i), b, p, map));
    }
    assert forall|i: int| 0 <= i < list.len() implies enc(#[trigger] list[i]).len() >= 8 by {
        lemma_le32(list[i].0);
        lemma_le32(list[i].1.len() as u32);
    }
    lemma_section_reads(b, at, list, outs, 8, enc, f);
}

proof fn lemma_pairs_read(b: Seq<u8>, at: int, t: TablesView, map: Seq<u32>)
    requires
        counts_fit(Seq::empty(), t),
        well_numbered(t, map.len() as int),
        keeps_apart(map),
        holds(b, at, section(t.pairs, |p: (u32, u32, u32, u32)| pair_bytes(p))),
    ensures
        counted(b, at, 16, pair_reader(map)) == Parsed::<Seq<(u32, u32, u32, u32)>>::Ok(
            (
                mapped_tables(t, map).pairs,
                at + section(t.pairs, |p: (u32, u32, u32, u32)| pair_bytes(p)).len(),
            ),
        ),
{
    let list = t.pairs;
    let enc = |p: (u32, u32, u32, u32)| pair_bytes(p);
    let outs = mapped_tables(t, map).pairs;
    let f = pair_reader(map);
    assert forall|i: int, p: int|
        0 <= i < list.len() && holds(b, p, enc(list[i])) implies #[trigger] f(outs.take(i), b, p)
        == Parsed::<(u32, u32, u32, u32)>::Ok((outs[i], p + enc(list[i]).len())) by {
        let c = list[i];
        lemma_holds_concat(b, p, le32(c.0) + le32(c.1) + le32(c.2), le32(c.3));
        lemma_holds_concat(b, p, le32(c.0) + le32(c.1), le32(c.2));
        lemma_holds_concat(b, p, le32(c.0), le32(c.1));
        lemma_word_reads(b, p, c.0, map);
        lemma_word_reads(b, p + 4, c.1, map);
        lemma_u32_reads(b, p + 8, c.2);
        lemma_u32_reads(b, p + 12, c.3);
        let (u, v) = (map[c.0 as int], map[c.1 as int]);
        assert(!has_pair(outs.take(i), u, v)) by {
            if has_pair(outs.take(i), u, v) {
                let k = choose|k: int|
                    0 <= k < outs.take(i).len() && (#[trigger] outs.take(i)[k]).0 == u
                        && outs.take(i)[k].1 == v;
                assert(outs.take(i)[k] == outs[k]);
                assert(map[list[k].0 as int] == u && map[list[k].1 as int] == v);
                assert(list[k].0 != list[i].0 || list[k].1 != list[i].1);
            }
        }
        assert(f(outs.take(i), b, p) == read_pair(outs.take(i), b, p, map));
    }
    assert forall|i: int| 0 <= i < list.len() implies enc(#[trigger] list[i]).len() >= 16 by {
        lemma_le32(list[i].0);
    }
    lemma_section_reads(b, at, list, outs, 16, enc, f);
}

proof fn lemma_trigrams_read(b: Seq<u8>, at: int, t: TablesView, map: Seq<u32>)
    requires
        counts_fit(Seq::empty(), t),
        well_numbered(t, map.len() as int),
        holds(b, at, section(t.trigrams, |x: (u32, u32, u32)| trigram_bytes(x))),
    ensures
        counted(b, at, 12, trigram_reader(map, t.pairs.len() as int)) == Parsed::<
            Seq<(u32, u32, u32)>,
        >::Ok(
            (
                mapped_tables(t, map).trigrams,
                at + section(t.trigrams, |x: (u32, u32, u32)| trigram_bytes(x)).len(),
            ),
        ),
{
    let list = t.trigrams;
    let enc = |x: (u32, u32, u32)| trigram_bytes(x);
    let outs = mapped_tables(t, map).trigrams;
    let f = trigram_reader(map, t.pairs.len() as int);
    assert forall|i: int, p: int|
        0 <= i < list.len() && holds(b, p, enc(list[i])) implies #[trigger] f(outs.take(i), b, p)
        == Parsed::<(u32, u32, u32)>::Ok((outs[i], p + enc(list[i]).len())) by {
        let c = list[i];
        lemma_holds_concat(b, p, le32(c.0) + le32(c.1), le32(c.2));
        lemma_holds_concat(b, p, le32(c.0), le32(c.1));
        lemma_u32_reads(b, p, c.0);
        lemma_word_reads(b, p + 4, c.1, map);
        lemma_u32_reads(b, p + 8, c.2);
        assert(f(outs.take(i), b, p) == read_trigram(b, p, map, t.pairs.len() as int));
    }
    assert forall|i: int| 0 <= i < list.len() implies enc(#[trigger] list[i]).len() >= 12 by {
        lemma_le32(list[i].0);
    }
    lemma_section_reads(b, at, list, outs, 12, enc, f);
}

proof fn lemma_tails_read(b: Seq<u8>, at: int, t: TablesView, map: Seq<u32>)
    requires
        counts_fit(Seq::empty(), t),
        well_numbered(t, map.len() as int),
        holds(b, at, section(t.tails, |x: (u32, Seq<(Seq<char>, u32)>)| tail_bytes(x))),
    ensures
        counted(b, at, 8, tail_reader(map)) == Parsed::<Seq<(u32, Seq<(Seq<char>, u32)>)>>::Ok(
            (
                mapped_tables(t, map).tails,
                at + section(t.tails, |x: (u32, Seq<(Seq<char>, u32)>)| tail_bytes(x)).len(),
            ),
        ),
{
    let list = t.tails;
    let enc = |x: (u32, Seq<(Seq<char>, u32)>)| tail_bytes(x);
    let outs = mapped_tables(t, map).tails;
    let f = tail_reader(map);
    assert forall|i: int, p: int|
        0 <= i < list.len() && holds(b, p, enc(list[i])) implies #[trigger] f(outs.take(i), b, p)
        == Parsed::<(u32, Seq<(Seq<char>, u32)>)>::Ok((outs[i], p + enc(list[i]).len())) by {
        let c = list[i];
        lemma_holds_concat(
            b,
            p,
            le32(c.0),
            section(c.1, |f: (Seq<char>, u32)| form_bytes(f)),
        );
        lemma_word_reads(b, p, c.0, map);
        assert forall|k: int| 0 <= k < c.1.len() implies byte_len((#[trigger] c.1[k]).0)
            <= u16::MAX by {
            assert(byte_len(t.tails[i].1[k].0) <= u16::MAX);
        }
        lemma_forms_read(b, p + 4, c.1);
        assert(f(outs.take(i), b, p) == read_tail(b, p, map));
    }
    assert forall|i: int| 0 <= i < list.len() implies enc(#[trigger] list[i]).len() >= 8 by {
        lemma_le32(list[i].0);
        lemma_le32(list[i].1.len() as u32);
    }
    lemma_section_reads(b, at, list, outs, 8, enc, f);
}

proof fn lemma_prompts_read(b: Seq<u8>, at: int, t: TablesView, map: Seq<u32>)
    requires
        counts_fit(Seq::empty(), t),
        well_numbered(t, map.len() as int),
        holds(b, at, section(t.prompts, |p: Seq<u32>| prompt_bytes(p))),
    ensures
        counted(b, at, 4, prompt_reader(map)) == Parsed::<Seq<Seq<u32>>>::Ok(
            (
                mapped_tables(t, map).prompts,
                at + section(t.prompts, |p: Seq<u32>| prompt_bytes(p)).len(),
            ),
        ),
{
    let list = t.prompts;
    let enc = |p: Seq<u32>| prompt_bytes(p);
    let outs = mapped_tables(t, map).prompts;
    let f = prompt_reader(map);
    assert forall|i: int, p: int|
        0 <= i < list.len() && holds(b, p, enc(list[i])) implies #[trigger] f(outs.take(i), b, p)
        == Parsed::<Seq<u32>>::Ok((outs[i], p + enc(list[i]).len())) by {
        let c = list[i];
        assert forall|k: int| 0 <= k < c.len() implies #[trigger] c[k] < map.len() by {
            assert(t.prompts[i][k] < map.len());
        }
        lemma_ids_read(b, p, c, map);
        assert(f(outs.take(i), b, p) == counted(b, p, 4, id_reader(map)));
    }
    assert forall|i: int| 0 <= i < list.len() implies enc(#[trigger] list[i]).len() >= 4 by {
        lemma_le32(list[i].len() as u32);
    }
    lemma_section_reads(b, at, list, outs, 4, enc, f);
}

proof fn lemma_words_read(b: Seq<u8>, at: int, words: Seq<WordView>)
    requires
        words.len() <= u32::MAX,
        forall|i: int| 0 <= i < words.len() ==> byte_len((#[trigger] words[i]).text) <= u16::MAX,
        holds(b, at, section(words, |w: WordView| word_bytes(w))),
    ensures
        counted(b, at, 10, word_reader()) == Parsed::<Seq<WordView>>::Ok(
            (words, at + section(words, |w: WordView| word_bytes(w)).len()),
        ),
{
    let enc = |w: WordView| word_bytes(w);
    let f = word_reader();
    assert forall|i: int, p: int|
        0 <= i < words.len() && holds(b, p, enc(words[i])) implies #[trigger] f(
        words.take(i),
        b,
        p,
    ) == Parsed::<WordView>::Ok((words[i], p + enc(words[i]).len())) by {
        let w = words[i];
        lemma_holds_concat(b, p, text_bytes(w.text) + le32(w.count), le32(w.raw));
        lemma_holds_concat(b, p, text_bytes(w.text), le32(w.count));
        lemma_text_reads(b, p, w.text);
        let q = p + text_bytes(w.text).len();
        lemma_u32_reads(b, q, w.count);
        lemma_u32_reads(b, q + 4, w.raw);
        assert(f(words.take(i), b, p) == read_word_record(b, p));
    }
    assert forall|i: int| 0 <= i < words.len() implies enc(#[trigger] words[i]).len() >= 10 by {
        lemma_le32(words[i].count);
        lemma_le32(words[i].raw);
    }
    lemma_section_reads(b, at, words, words, 10, enc, f);
}

proof fn lemma_three_parts(x: Seq<u8>, y: Seq<u8>, z: Seq<u8>)
    ensures
        holds(x + y + z, 0, x),
        holds(x + y + z, x.len() as int, y),
        holds(x + y + z, (x.len() + y.len()) as int, z),
        (x + y + z).len() == x.len() + y.len() + z.len(),
{
    let b = x + y + z;
    assert(b.subrange(0, x.len() as int) =~= x);
    assert(b.subrange(x.len() as int, (x.len() + y.len()) as int) =~= y);
    assert(b.subrange((x.len() + y.len()) as int, (x.len() + y.len() + z.len()) as int) =~= z);
}

proof fn lemma_five_parts(
    b: Seq<u8>,
    at: int,
    s1: Seq<u8>,
    s2: Seq<u8>,
    s3: Seq<u8>,
    s4: Seq<u8>,
    s5: Seq<u8>,
)
    requires
        holds(b, at, s1 + s2 + s3 + s4 + s5),
    ensures
        holds(b, at, s1),
        holds(b, at + s1.len(), s2),
        holds(b, at + s1.len() + s2.len(), s3),
        holds(b, at + s1.len() + s2.len() + s3.len(), s4),
        holds(b, at + s1.len() + s2.len() + s3.len() + s4.len(), s5),
        (s1 + s2 + s3 + s4 + s5).len() == s1.len() + s2.len() + s3.len() + s4.len() + s5.len(),
{
    lemma_holds_concat(b, at, s1 + s2 + s3 + s4, s5);
    lemma_holds_concat(b, at, s1 + s2 + s3, s4);
    lemma_holds_concat(b, at, s1 + s2, s3);
    lemma_holds_concat(b, at, s1, s2);
}

/// Reading a payload gives back the total and the words that were written.
pub proof fn law_words_read_back(total: u64, words: Seq<WordView>, t: TablesView)
    requires
        counts_fit(words, t),
        forall|i: int| 0 <= i < words.len() ==> byte_len((#[trigger] words[i]).text) <= u16::MAX,
    ensures
        read_words(payload_bytes(total, words, t)) == Parsed::<(u64, Seq<WordView>)>::Ok(
            ((total, words), 8int + section(words, |w: WordView| word_bytes(w)).len()),
        ),
{
    let b = payload_bytes(total, words, t);
    let body = section(words, |w: WordView| word_bytes(w));
    lemma_le64(total);
    lemma_three_parts(le64(total), body, tables_bytes(t));
    lemma_u64_holds(b, 0, total);
    lemma_words_read(b, 8, words);
}

proof fn lemma_tables_read(b: Seq<u8>, at: int, t: TablesView, map: Seq<u32>)
    requires
        counts_fit(Seq::empty(), t),
        well_numbered(t, map.len() as int),
        keeps_apart(map),
        holds(b, at, tables_bytes(t)),
        at + tables_bytes(t).len() == b.len(),
    ensures
        read_tables(b, at, map) == Ok::<TablesView, SnapshotError>(mapped_tables(t, map)),
{
    let s1 = section(t.contexts, |c: (u32, Seq<(u32, u32)>)| context_bytes(c));
    let s2 = section(t.pairs, |p: (u32, u32, u32, u32)| pair_bytes(p));
    let s3 = section(t.trigrams, |x: (u32, u32, u32)| trigram_bytes(x));
    let s4 = section(t.tails, |x: (u32, Seq<(Seq<char>, u32)>)| tail_bytes(x));
    let s5 = section(t.prompts, |p: Seq<u32>| prompt_bytes(p));
    lemma_five_parts(b, at, s1, s2, s3, s4, s5);
    lemma_contexts_read(b, at, t, map);
    lemma_pairs_read(b, at + s1.len(), t, map);
    lemma_trigrams_read(b, at + s1.len() + s2.len(), t, map);
    lemma_tails_read(b, at + s1.len() + s2.len() + s3.len(), t, map);
    lemma_prompts_read(b, at + s1.len() + s2.len() + s3.len() + s4.len(), t, map);
}

/// Reading a payload gives back the tables that were written, each word number
/// replaced by the id it stands for.
pub proof fn law_tables_read_back(total: u64, words: Seq<WordView>, t: TablesView, map: Seq<u32>)
    requires
        counts_fit(words, t),
        map.len() == words.len(),
        well_numbered(t, words.len() as int),
        keeps_apart(map),
    ensures
        read_tables(
            payload_bytes(total, words, t),
            8int + section(words, |w: WordView| word_bytes(w)).len(),
            map,
        ) == Ok::<TablesView, SnapshotError>(mapped_tables(t, map)),
{
    let body = section(words, |w: WordView| word_bytes(w));
    lemma_le64(total);
    lemma_three_parts(le64(total), body, tables_bytes(t));
    lemma_tables_read(payload_bytes(total, words, t), 8int + body.len(), t, map);
}

} // verus!
