//! The records of a snapshot's payload.

use crate::bytes::{le32, le64, u32_at, u64_at, Reader};
use crate::ngram::follower_table::{by_id, lemma_distinct_ids, lemma_same_members, sort_by_id};
use crate::ngram::lexicon::NONE;
use crate::ngram::pair_table::{key_of, lemma_key, pair_key};
use crate::ngram::snapshot_format::{
    counted, get_count, get_text, get_u32, get_word, lemma_many_stops, many, read_text, read_u32,
    read_word, section, text_bytes, Parsed, SnapshotError,
};
use crate::ngram::session::total_len;
use crate::ngram::structures::IdTable;
use crate::ngram::tail_table::forms_view;
use vstd::prelude::*;

verus! {

/// A stored word.
pub struct WordRecord {
    pub text: String,
    /// Bits of its count.
    pub count: u32,
    /// How often it was typed.
    pub raw: u32,
}

/// A stored word with its text as characters.
#[verifier::ext_equal]
pub struct WordView {
    pub text: Seq<char>,
    pub count: u32,
    pub raw: u32,
}

impl View for WordRecord {
    type V = WordView;

    open spec fn view(&self) -> WordView {
        WordView { text: self.text@, count: self.count, raw: self.raw }
    }
}

/// The words as views.
pub open spec fn words_view(words: Seq<WordRecord>) -> Seq<WordView> {
    words.map_values(|w: WordRecord| w@)
}

/// What a snapshot holds besides its words.
pub struct Tables {
    /// Followers with the bits of their counts, by context word.
    pub contexts: Vec<(u32, Vec<(u32, u32)>)>,
    /// Context pairs: the two words, bits of the total, distinct words.
    pub pairs: Vec<(u32, u32, u32, u32)>,
    /// Pair position, word, bits of the count.
    pub trigrams: Vec<(u32, u32, u32)>,
    /// Casings with the bits of their counts, by word.
    pub tails: Vec<(u32, Vec<(String, u32)>)>,
    /// Words of recent prompts, oldest first.
    pub prompts: Vec<Vec<u32>>,
}

#[verifier::ext_equal]
pub struct TablesView {
    pub contexts: Seq<(u32, Seq<(u32, u32)>)>,
    pub pairs: Seq<(u32, u32, u32, u32)>,
    pub trigrams: Seq<(u32, u32, u32)>,
    pub tails: Seq<(u32, Seq<(Seq<char>, u32)>)>,
    pub prompts: Seq<Seq<u32>>,
}

pub open spec fn contexts_view(list: Seq<(u32, Vec<(u32, u32)>)>) -> Seq<(u32, Seq<(u32, u32)>)> {
    list.map_values(|c: (u32, Vec<(u32, u32)>)| (c.0, c.1@))
}

pub open spec fn tails_view(list: Seq<(u32, Vec<(String, u32)>)>) -> Seq<
    (u32, Seq<(Seq<char>, u32)>),
> {
    list.map_values(|c: (u32, Vec<(String, u32)>)| (c.0, forms_view(c.1@)))
}

pub open spec fn prompts_view(list: Seq<Vec<u32>>) -> Seq<Seq<u32>> {
    list.map_values(|p: Vec<u32>| p@)
}

impl View for Tables {
    type V = TablesView;

    open spec fn view(&self) -> TablesView {
        TablesView {
            contexts: contexts_view(self.contexts@),
            pairs: self.pairs@,
            trigrams: self.trigrams@,
            tails: tails_view(self.tails@),
            prompts: prompts_view(self.prompts@),
        }
    }
}

// ---------------------------------------------------------------------------
// What the records look like
// ---------------------------------------------------------------------------
pub open spec fn word_bytes(w: WordView) -> Seq<u8> {
    text_bytes(w.text) + le32(w.count) + le32(w.raw)
}

pub open spec fn entry_bytes(e: (u32, u32)) -> Seq<u8> {
    le32(e.0) + le32(e.1)
}

pub open spec fn context_bytes(c: (u32, Seq<(u32, u32)>)) -> Seq<u8> {
    le32(c.0) + section(c.1, |e: (u32, u32)| entry_bytes(e))
}

pub open spec fn pair_bytes(p: (u32, u32, u32, u32)) -> Seq<u8> {
    le32(p.0) + le32(p.1) + le32(p.2) + le32(p.3)
}

pub open spec fn trigram_bytes(t: (u32, u32, u32)) -> Seq<u8> {
    le32(t.0) + le32(t.1) + le32(t.2)
}

pub open spec fn form_bytes(f: (Seq<char>, u32)) -> Seq<u8> {
    text_bytes(f.0) + le32(f.1)
}

pub open spec fn tail_bytes(t: (u32, Seq<(Seq<char>, u32)>)) -> Seq<u8> {
    le32(t.0) + section(t.1, |f: (Seq<char>, u32)| form_bytes(f))
}

pub open spec fn prompt_bytes(p: Seq<u32>) -> Seq<u8> {
    section(p, |id: u32| le32(id))
}

/// The bytes of the tables.
pub open spec fn tables_bytes(t: TablesView) -> Seq<u8> {
    section(t.contexts, |c: (u32, Seq<(u32, u32)>)| context_bytes(c)) + section(
        t.pairs,
        |p: (u32, u32, u32, u32)| pair_bytes(p),
    ) + section(t.trigrams, |x: (u32, u32, u32)| trigram_bytes(x)) + section(
        t.tails,
        |x: (u32, Seq<(Seq<char>, u32)>)| tail_bytes(x),
    ) + section(t.prompts, |p: Seq<u32>| prompt_bytes(p))
}

/// The bytes of the whole payload.
pub open spec fn payload_bytes(total: u64, words: Seq<WordView>, t: TablesView) -> Seq<u8> {
    le64(total) + section(words, |w: WordView| word_bytes(w)) + tables_bytes(t)
}

// ---------------------------------------------------------------------------
// How they are read
// ---------------------------------------------------------------------------
pub open spec fn read_word_record(b: Seq<u8>, at: int) -> Parsed<WordView> {
    match read_text(b, at) {
        Err(e) => Err(e),
        Ok((text, p)) => match read_u32(b, p) {
            Err(e) => Err(e),
            Ok((count, q)) => match read_u32(b, q) {
                Err(e) => Err(e),
                Ok((raw, r)) => Ok((WordView { text, count, raw }, r)),
            },
        },
    }
}

pub open spec fn word_reader() -> spec_fn(Seq<WordView>, Seq<u8>, int) -> Parsed<WordView> {
    |xs: Seq<WordView>, b: Seq<u8>, at: int| read_word_record(b, at)
}

pub open spec fn read_entry(b: Seq<u8>, at: int, map: Seq<u32>) -> Parsed<(u32, u32)> {
    match read_word(b, at, map) {
        Err(e) => Err(e),
        Ok((id, p)) => match read_u32(b, p) {
            Err(e) => Err(e),
            Ok((bits, q)) => Ok(((id, bits), q)),
        },
    }
}

pub open spec fn entry_reader(map: Seq<u32>) -> spec_fn(Seq<(u32, u32)>, Seq<u8>, int) -> Parsed<
    (u32, u32),
> {
    |xs: Seq<(u32, u32)>, b: Seq<u8>, at: int| read_entry(b, at, map)
}

/// Some id occurs twice.
pub open spec fn repeats_id(list: Seq<(u32, u32)>) -> bool {
    exists|i: int, j: int|
        #![trigger list[i], list[j]]
        0 <= i < j < list.len() && list[i].0 == list[j].0
}

/// `ctx` is among the contexts.
pub open spec fn has_context(xs: Seq<(u32, Seq<(u32, u32)>)>, ctx: u32) -> bool {
    exists|i: int| 0 <= i < xs.len() && (#[trigger] xs[i]).0 == ctx
}

pub open spec fn read_context(
    xs: Seq<(u32, Seq<(u32, u32)>)>,
    b: Seq<u8>,
    at: int,
    map: Seq<u32>,
) -> Parsed<(u32, Seq<(u32, u32)>)> {
    match read_word(b, at, map) {
        Err(e) => Err(e),
        Ok((ctx, p)) => match counted(b, p, 8, entry_reader(map)) {
            Err(e) => Err(e),
            Ok((list, q)) => if repeats_id(list) {
                Err(SnapshotError::DuplicateFollower)
            } else if has_context(xs, ctx) {
                Err(SnapshotError::DuplicateContext)
            } else {
                Ok(((ctx, list), q))
            },
        },
    }
}

pub open spec fn context_reader(map: Seq<u32>) -> spec_fn(
    Seq<(u32, Seq<(u32, u32)>)>,
    Seq<u8>,
    int,
) -> Parsed<(u32, Seq<(u32, u32)>)> {
    |xs: Seq<(u32, Seq<(u32, u32)>)>, b: Seq<u8>, at: int| read_context(xs, b, at, map)
}

/// The pair is among the pairs.
pub open spec fn has_pair(xs: Seq<(u32, u32, u32, u32)>, u: u32, v: u32) -> bool {
    exists|i: int| 0 <= i < xs.len() && (#[trigger] xs[i]).0 == u && xs[i].1 == v
}

pub open spec fn read_pair(
    xs: Seq<(u32, u32, u32, u32)>,
    b: Seq<u8>,
    at: int,
    map: Seq<u32>,
) -> Parsed<(u32, u32, u32, u32)> {
    match read_word(b, at, map) {
        Err(e) => Err(e),
        Ok((u, p)) => match read_word(b, p, map) {
            Err(e) => Err(e),
            Ok((v, q)) => if has_pair(xs, u, v) {
                Err(SnapshotError::DuplicatePair)
            } else {
                match read_u32(b, q) {
                    Err(e) => Err(e),
                    Ok((total, r)) => match read_u32(b, r) {
                        Err(e) => Err(e),
                        Ok((types, s)) => Ok(((u, v, total, types), s)),
                    },
                }
            },
        },
    }
}

pub open spec fn pair_reader(map: Seq<u32>) -> spec_fn(
    Seq<(u32, u32, u32, u32)>,
    Seq<u8>,
    int,
) -> Parsed<(u32, u32, u32, u32)> {
    |xs: Seq<(u32, u32, u32, u32)>, b: Seq<u8>, at: int| read_pair(xs, b, at, map)
}

pub open spec fn read_trigram(b: Seq<u8>, at: int, map: Seq<u32>, n_pairs: int) -> Parsed<
    (u32, u32, u32),
> {
    match read_u32(b, at) {
        Err(e) => Err(e),
        Ok((pair, p)) => if pair >= n_pairs {
            Err(SnapshotError::TrigramPair)
        } else {
            match read_word(b, p, map) {
                Err(e) => Err(e),
                Ok((w, q)) => match read_u32(b, q) {
                    Err(e) => Err(e),
                    Ok((bits, r)) => Ok(((pair, w, bits), r)),
                },
            }
        },
    }
}

pub open spec fn trigram_reader(map: Seq<u32>, n_pairs: int) -> spec_fn(
    Seq<(u32, u32, u32)>,
    Seq<u8>,
    int,
) -> Parsed<(u32, u32, u32)> {
    |xs: Seq<(u32, u32, u32)>, b: Seq<u8>, at: int| read_trigram(b, at, map, n_pairs)
}

pub open spec fn read_form(b: Seq<u8>, at: int) -> Parsed<(Seq<char>, u32)> {
    match read_text(b, at) {
        Err(e) => Err(e),
        Ok((text, p)) => match read_u32(b, p) {
            Err(e) => Err(e),
            Ok((bits, q)) => Ok(((text, bits), q)),
        },
    }
}

pub open spec fn form_reader() -> spec_fn(Seq<(Seq<char>, u32)>, Seq<u8>, int) -> Parsed<
    (Seq<char>, u32),
> {
    |xs: Seq<(Seq<char>, u32)>, b: Seq<u8>, at: int| read_form(b, at)
}

pub open spec fn read_tail(b: Seq<u8>, at: int, map: Seq<u32>) -> Parsed<
    (u32, Seq<(Seq<char>, u32)>),
> {
    match read_word(b, at, map) {
        Err(e) => Err(e),
        Ok((id, p)) => match counted(b, p, 6, form_reader()) {
            Err(e) => Err(e),
            Ok((forms, q)) => Ok(((id, forms), q)),
        },
    }
}

pub open spec fn tail_reader(map: Seq<u32>) -> spec_fn(
    Seq<(u32, Seq<(Seq<char>, u32)>)>,
    Seq<u8>,
    int,
) -> Parsed<(u32, Seq<(Seq<char>, u32)>)> {
    |xs: Seq<(u32, Seq<(Seq<char>, u32)>)>, b: Seq<u8>, at: int| read_tail(b, at, map)
}

pub open spec fn id_reader(map: Seq<u32>) -> spec_fn(Seq<u32>, Seq<u8>, int) -> Parsed<u32> {
    |xs: Seq<u32>, b: Seq<u8>, at: int| read_word(b, at, map)
}

pub open spec fn prompt_reader(map: Seq<u32>) -> spec_fn(Seq<Seq<u32>>, Seq<u8>, int) -> Parsed<
    Seq<u32>,
> {
    |xs: Seq<Seq<u32>>, b: Seq<u8>, at: int| counted(b, at, 4, id_reader(map))
}

/// The total and the words.
pub open spec fn read_words(b: Seq<u8>) -> Parsed<(u64, Seq<WordView>)> {
    if 8 > b.len() {
        Err(SnapshotError::Truncated)
    } else {
        match counted(b, 8, 10, word_reader()) {
            Err(e) => Err(e),
            Ok((words, p)) => Ok(((u64_at(b, 0) as u64, words), p)),
        }
    }
}

/// The tables, up to the end of the payload.
pub open spec fn read_tables(b: Seq<u8>, at: int, map: Seq<u32>) -> Result<
    TablesView,
    SnapshotError,
> {
    match counted(b, at, 8, context_reader(map)) {
        Err(e) => Err(e),
        Ok((contexts, p)) => match counted(b, p, 16, pair_reader(map)) {
            Err(e) => Err(e),
            Ok((pairs, q)) => match counted(
                b,
                q,
                12,
                trigram_reader(map, pairs.len() as int),
            ) {
                Err(e) => Err(e),
                Ok((trigrams, r)) => match counted(b, r, 8, tail_reader(map)) {
                    Err(e) => Err(e),
                    Ok((tails, s)) => match counted(b, s, 4, prompt_reader(map)) {
                        Err(e) => Err(e),
                        Ok((prompts, t)) => if t != b.len() {
                            Err(SnapshotError::Trailing)
                        } else {
                            Ok(TablesView { contexts, pairs, trigrams, tails, prompts })
                        },
                    },
                },
            },
        },
    }
}

// ---------------------------------------------------------------------------
// Reading
// ---------------------------------------------------------------------------
/// Reads the total and the words.
pub fn get_words(r: &mut Reader<'_>) -> (w: Result<(u64, Vec<WordRecord>), SnapshotError>)
    requires
        old(r).wf(),
        old(r).at == 0,
    ensures
        final(r).wf(),
        final(r).bytes == old(r).bytes,
        match w {
            Ok((total, words)) => read_words(old(r).bytes@) == Parsed::<(u64, Seq<WordView>)>::Ok(
                ((total, words_view(words@)), final(r).at as int),
            ),
            Err(e) => read_words(old(r).bytes@) == Parsed::<(u64, Seq<WordView>)>::Err(e),
        },
{
    let ghost b = r.bytes@;
    let total: u64 = match r.u64() {
        Some(t) => t,
        None => {
            return Err(SnapshotError::Truncated);
        },
    };
    let n: usize = match get_count(r, 10) {
        Ok(n) => n,
        Err(e) => {
            return Err(e);
        },
    };
    let mut words: Vec<WordRecord> = Vec::new();
    let mut i: usize = 0;
    assert(words_view(words@) =~= Seq::<WordView>::empty());
    while i < n
        invariant
            r.wf(),
            r.bytes@ == b,
            r.bytes == old(r).bytes,
            i <= n,
            8 + 4 <= b.len(),
            n == u32_at(b, 8),
            n * 10 <= b.len() - 12,
            total == u64_at(b, 0),
            many(b, 12, i as int, word_reader()) == Parsed::<Seq<WordView>>::Ok(
                (words_view(words@), r.at as int),
            ),
        decreases n - i,
    {
        let ghost prior = words@;
        proof {
            lemma_next(b, 12, i as int, n as int, word_reader());
        }
        let text = match get_text(r) {
            Ok(t) => t,
            Err(e) => {
                return Err(e);
            },
        };
        let count: u32 = match get_u32(r) {
            Ok(c) => c,
            Err(e) => {
                return Err(e);
            },
        };
        let raw: u32 = match get_u32(r) {
            Ok(c) => c,
            Err(e) => {
                return Err(e);
            },
        };
        let record = WordRecord { text, count, raw };
        words.push(record);
        assert(words_view(words@) =~= words_view(prior).push(record@));
        i = i + 1;
    }
    Ok((total, words))
}

/// One more record: where reading stops, the whole reading stops.
proof fn lemma_next<T>(
    b: Seq<u8>,
    at: int,
    i: int,
    n: int,
    f: spec_fn(Seq<T>, Seq<u8>, int) -> Parsed<T>,
)
    requires
        0 <= i < n,
        many(b, at, i, f) is Ok,
    ensures
        match many(b, at, i, f) {
            Ok((xs, p)) => match f(xs, b, p) {
                Err(e) => many(b, at, n, f) == Parsed::<Seq<T>>::Err(e),
                Ok((x, q)) => many(b, at, i + 1, f) == Parsed::<Seq<T>>::Ok((xs.push(x), q)),
            },
            Err(e) => true,
        },
{
    if many(b, at, i + 1, f) is Err {
        lemma_many_stops(b, at, i + 1, n, f);
    }
}

/// Every id is below `n`.
pub open spec fn ids_fit(map: Seq<u32>, n: int) -> bool {
    forall|i: int| 0 <= i < map.len() ==> #[trigger] map[i] < n
}

/// Stored contexts: no context or follower occurs twice, ids below `n`.
pub open spec fn contexts_ok(list: Seq<(u32, Seq<(u32, u32)>)>, n: int) -> bool {
    &&& forall|i: int| 0 <= i < list.len() ==> (#[trigger] list[i]).0 < n && !repeats_id(list[i].1)
    &&& forall|i: int, k: int|
        0 <= i < list.len() && 0 <= k < list[i].1.len() ==> (#[trigger] list[i].1[k]).0 < n
    &&& forall|i: int, j: int|
        #![trigger list[i], list[j]]
        0 <= i < j < list.len() ==> list[i].0 != list[j].0
}

/// Stored pairs: none occurs twice, ids below `n`.
pub open spec fn pairs_ok(list: Seq<(u32, u32, u32, u32)>, n: int) -> bool {
    &&& forall|i: int| 0 <= i < list.len() ==> (#[trigger] list[i]).0 < n && list[i].1 < n
    &&& forall|i: int, j: int|
        #![trigger list[i], list[j]]
        0 <= i < j < list.len() ==> list[i].0 != list[j].0 || list[i].1 != list[j].1
}

/// Whether an id occurs twice.
fn has_repeat(list: &Vec<(u32, u32)>) -> (r: bool)
    ensures
        r == repeats_id(list@),
{
    let sorted = sort_by_id(list);
    let mut i: usize = 1;
    while i < sorted.len()
        invariant
            by_id(sorted@),
            sorted@.to_multiset() == list@.to_multiset(),
            1 <= i,
            i <= sorted@.len() || sorted@.len() == 0,
            forall|k: int| 0 < k < i && k < sorted@.len() ==> sorted@[k - 1].0 < (
            #[trigger] sorted@[k]).0,
        decreases sorted@.len() - i,
    {
        if sorted[i - 1].0 == sorted[i].0 {
            proof {
                if !repeats_id(list@) {
                    lemma_distinct_ids(list@, sorted@);
                    assert(sorted@[i - 1].0 != sorted@[i as int].0);
                }
            }
            return true;
        }
        assert(sorted@[i - 1].0 <= sorted@[i as int].0);
        i = i + 1;
    }
    proof {
        let s = sorted@;
        assert forall|a: int, b: int| 0 <= a < b < s.len() implies s[a].0 < s[b].0 by {
            assert(s[a].0 <= s[b - 1].0);
            assert(s[b - 1].0 < s[b].0);
        }
        assert(s.no_duplicates());
        s.lemma_multiset_has_no_duplicates();
        list@.lemma_multiset_has_no_duplicates_conv();
        if repeats_id(list@) {
            let (a, b) = choose|a: int, b: int|
                #![trigger list@[a], list@[b]]
                0 <= a < b < list@.len() && list@[a].0 == list@[b].0;
            assert(list@.contains(list@[a]) && list@.contains(list@[b]));
            lemma_same_members(list@, s, list@[a]);
            lemma_same_members(list@, s, list@[b]);
            let p = choose|p: int| 0 <= p < s.len() && s[p] == list@[a];
            let q = choose|q: int| 0 <= q < s.len() && s[q] == list@[b];
            assert(list@[a] != list@[b]);
            if p < q {
                assert(s[p].0 < s[q].0);
            } else {
                assert(s[q].0 < s[p].0);
            }
        }
    }
    false
}

/// Reads the followers of a context.
fn get_entries(r: &mut Reader<'_>, map: &Vec<u32>) -> (l: Result<Vec<(u32, u32)>, SnapshotError>)
    requires
        old(r).wf(),
    ensures
        final(r).wf(),
        final(r).bytes == old(r).bytes,
        match l {
            Ok(list) => counted(old(r).bytes@, old(r).at as int, 8, entry_reader(map@))
                == Parsed::<Seq<(u32, u32)>>::Ok((list@, final(r).at as int)) && forall|k: int|
                0 <= k < list@.len() ==> map@.contains((#[trigger] list@[k]).0),
            Err(e) => counted(old(r).bytes@, old(r).at as int, 8, entry_reader(map@)) == Parsed::<
                Seq<(u32, u32)>,
            >::Err(e),
        },
{
    let ghost b = r.bytes@;
    let ghost at = r.at as int;
    let n: usize = match get_count(r, 8) {
        Ok(n) => n,
        Err(e) => {
            return Err(e);
        },
    };
    let mut list: Vec<(u32, u32)> = Vec::new();
    let mut i: usize = 0;
    assert(list@ =~= Seq::<(u32, u32)>::empty());
    while i < n
        invariant
            r.wf(),
            r.bytes@ == b,
            r.bytes == old(r).bytes,
            i <= n,
            at == old(r).at,
            at + 4 <= b.len(),
            n == u32_at(b, at),
            n * 8 <= b.len() - (at + 4),
            many(b, at + 4, i as int, entry_reader(map@)) == Parsed::<Seq<(u32, u32)>>::Ok(
                (list@, r.at as int),
            ),
            forall|k: int| 0 <= k < list@.len() ==> map@.contains((#[trigger] list@[k]).0),
        decreases n - i,
    {
        proof {
            lemma_next(b, at + 4, i as int, n as int, entry_reader(map@));
        }
        let id: u32 = match get_word(r, map) {
            Ok(w) => w,
            Err(e) => {
                return Err(e);
            },
        };
        let bits: u32 = match get_u32(r) {
            Ok(x) => x,
            Err(e) => {
                return Err(e);
            },
        };
        list.push((id, bits));
        i = i + 1;
    }
    Ok(list)
}

/// Reads the contexts.
fn get_contexts(r: &mut Reader<'_>, map: &Vec<u32>, words: usize) -> (l: Result<
    Vec<(u32, Vec<(u32, u32)>)>,
    SnapshotError,
>)
    requires
        old(r).wf(),
        ids_fit(map@, words as int),
    ensures
        final(r).wf(),
        final(r).bytes == old(r).bytes,
        match l {
            Ok(list) => counted(old(r).bytes@, old(r).at as int, 8, context_reader(map@))
                == Parsed::<Seq<(u32, Seq<(u32, u32)>)>>::Ok(
                (contexts_view(list@), final(r).at as int),
            ) && contexts_ok(contexts_view(list@), words as int),
            Err(e) => counted(old(r).bytes@, old(r).at as int, 8, context_reader(map@)) == Parsed::<
                Seq<(u32, Seq<(u32, u32)>)>,
            >::Err(e),
        },
{
    let ghost b = r.bytes@;
    let ghost at = r.at as int;
    let n: usize = match get_count(r, 8) {
        Ok(n) => n,
        Err(e) => {
            return Err(e);
        },
    };
    let mut list: Vec<(u32, Vec<(u32, u32)>)> = Vec::new();
    let mut seen: Vec<bool> = vec![false; words];
    let mut i: usize = 0;
    assert(contexts_view(list@) =~= Seq::<(u32, Seq<(u32, u32)>)>::empty());
    while i < n
        invariant
            r.wf(),
            r.bytes@ == b,
            r.bytes == old(r).bytes,
            ids_fit(map@, words as int),
            i <= n,
            at == old(r).at,
            at + 4 <= b.len(),
            n == u32_at(b, at),
            n * 8 <= b.len() - (at + 4),
            seen@.len() == words,
            forall|id: u32|
                id < words ==> (#[trigger] seen@[id as int]) == has_context(
                    contexts_view(list@),
                    id,
                ),
            many(b, at + 4, i as int, context_reader(map@)) == Parsed::<
                Seq<(u32, Seq<(u32, u32)>)>,
            >::Ok((contexts_view(list@), r.at as int)),
            contexts_ok(contexts_view(list@), words as int),
        decreases n - i,
    {
        let ghost prior = contexts_view(list@);
        let ghost p = r.at as int;
        proof {
            lemma_next(b, at + 4, i as int, n as int, context_reader(map@));
        }
        let ctx: u32 = match get_word(r, map) {
            Ok(w) => w,
            Err(e) => {
                return Err(e);
            },
        };
        let entries = match get_entries(r, map) {
            Ok(l) => l,
            Err(e) => {
                return Err(e);
            },
        };
        if has_repeat(&entries) {
            return Err(SnapshotError::DuplicateFollower);
        }
        assert(map@[u32_at(b, p)] < words);
        if seen[ctx as usize] {
            return Err(SnapshotError::DuplicateContext);
        }
        let ghost item = (ctx, entries@);
        seen.set(ctx as usize, true);
        list.push((ctx, entries));
        proof {
            assert(contexts_view(list@) =~= prior.push(item));
            let now = contexts_view(list@);
            assert forall|a: int| 0 <= a < now.len() implies (#[trigger] now[a]).0 < words
                && !repeats_id(now[a].1) by {
                if a < prior.len() {
                    assert(now[a] == prior[a]);
                }
            }
            assert forall|a: int, k: int| 0 <= a < now.len() && 0 <= k < now[a].1.len() implies (
            #[trigger] now[a].1[k]).0 < words by {
                if a < prior.len() {
                    assert(now[a] == prior[a]);
                    assert(prior[a].1[k].0 < words);
                } else {
                    assert(map@.contains(item.1[k].0));
                }
            }
            assert forall|a: int, c: int|
                #![trigger now[a], now[c]]
                0 <= a < c < now.len() implies now[a].0 != now[c].0 by {
                assert(now[a] == prior[a]);
                if c < prior.len() {
                    assert(now[c] == prior[c]);
                } else {
                    assert(!has_context(prior, ctx));
                }
            }
            assert forall|id: u32| id < words implies (#[trigger] seen@[id as int]) == has_context(
                contexts_view(list@),
                id,
            ) by {
                let now = contexts_view(list@);
                if id == ctx {
                    assert(now[prior.len() as int].0 == id);
                }
                if has_context(prior, id) {
                    let k = choose|k: int| 0 <= k < prior.len() && (#[trigger] prior[k]).0 == id;
                    assert(now[k].0 == id);
                }
                if has_context(now, id) && id != ctx {
                    let k = choose|k: int| 0 <= k < now.len() && (#[trigger] now[k]).0 == id;
                    assert(prior[k].0 == id);
                }
            }
        }
        i = i + 1;
    }
    Ok(list)
}

/// Most records an index can hold here.
pub open spec fn index_limit() -> int {
    usize::MAX as int / 43 - 12
}

/// Reads the pairs, unless there are more than can be indexed.
fn get_pairs(r: &mut Reader<'_>, map: &Vec<u32>, words: usize) -> (l: Result<
    Vec<(u32, u32, u32, u32)>,
    SnapshotError,
>)
    requires
        old(r).wf(),
        words < NONE,
        ids_fit(map@, words as int),
    ensures
        final(r).wf(),
        final(r).bytes == old(r).bytes,
        match l {
            Ok(list) => counted(old(r).bytes@, old(r).at as int, 16, pair_reader(map@))
                == Parsed::<Seq<(u32, u32, u32, u32)>>::Ok((list@, final(r).at as int))
                && list@.len() <= index_limit() && pairs_ok(list@, words as int) && 16
                * list@.len() <= old(r).bytes@.len(),
            Err(e) => {
                ||| e == SnapshotError::TooLarge && old(r).bytes@.len() > index_limit()
                ||| counted(old(r).bytes@, old(r).at as int, 16, pair_reader(map@)) == Parsed::<
                    Seq<(u32, u32, u32, u32)>,
                >::Err(e)
            },
        },
{
    let ghost b = r.bytes@;
    let ghost at = r.at as int;
    let n: usize = match get_count(r, 16) {
        Ok(n) => n,
        Err(e) => {
            return Err(e);
        },
    };
    if n > usize::MAX / 43 - 12 {
        return Err(SnapshotError::TooLarge);
    }
    let mut list: Vec<(u32, u32, u32, u32)> = Vec::new();
    let mut seen: IdTable<u32> = IdTable::with_capacity(n);
    proof {
        seen.lemma_len();
    }
    let mut i: usize = 0;
    assert(list@ =~= Seq::<(u32, u32, u32, u32)>::empty());
    while i < n
        invariant
            r.wf(),
            r.bytes@ == b,
            r.bytes == old(r).bytes,
            words < NONE,
            ids_fit(map@, words as int),
            i <= n,
            n <= index_limit(),
            at == old(r).at,
            at + 4 <= b.len(),
            n == u32_at(b, at),
            n * 16 <= b.len() - (at + 4),
            seen.wf(),
            seen@.dom().finite(),
            seen@.dom().len() <= i,
            list@.len() == i,
            forall|u: u32, v: u32| #[trigger]
                seen@.dom().contains(key_of(u, v)) == has_pair(list@, u, v),
            many(b, at + 4, i as int, pair_reader(map@)) == Parsed::<
                Seq<(u32, u32, u32, u32)>,
            >::Ok((list@, r.at as int)),
            pairs_ok(list@, words as int),
        decreases n - i,
    {
        let ghost prior = list@;
        let ghost before = seen@;
        let ghost p = r.at as int;
        proof {
            lemma_next(b, at + 4, i as int, n as int, pair_reader(map@));
        }
        let u: u32 = match get_word(r, map) {
            Ok(w) => w,
            Err(e) => {
                return Err(e);
            },
        };
        let v: u32 = match get_word(r, map) {
            Ok(w) => w,
            Err(e) => {
                return Err(e);
            },
        };
        assert(map@[u32_at(b, p)] < words);
        let key = pair_key(u, v);
        let (slot, fresh) = seen.entry(key);
        *slot = 0;
        proof {
            assert(seen@ == before.insert(key, 0));
            assert(seen@.dom() =~= before.dom().insert(key));
        }
        if !fresh {
            return Err(SnapshotError::DuplicatePair);
        }
        let total: u32 = match get_u32(r) {
            Ok(x) => x,
            Err(e) => {
                return Err(e);
            },
        };
        let types: u32 = match get_u32(r) {
            Ok(x) => x,
            Err(e) => {
                return Err(e);
            },
        };
        list.push((u, v, total, types));
        proof {
            assert forall|a: int, c: int|
                #![trigger list@[a], list@[c]]
                0 <= a < c < list@.len() implies list@[a].0 != list@[c].0 || list@[a].1
                != list@[c].1 by {
                assert(list@[a] == prior[a]);
                if c < prior.len() {
                    assert(list@[c] == prior[c]);
                } else {
                    assert(before.dom().contains(key_of(u, v)) == has_pair(prior, u, v));
                }
            }
            assert forall|a: u32, c: u32| #[trigger] seen@.dom().contains(key_of(a, c)) == has_pair(
                list@,
                a,
                c,
            ) by {
                lemma_key(a, c);
                lemma_key(u, v);
                assert(before.dom().contains(key_of(a, c)) == has_pair(prior, a, c));
                if a == u && c == v {
                    assert(list@[i as int].0 == a && list@[i as int].1 == c);
                } else {
                    if has_pair(prior, a, c) {
                        let k = choose|k: int|
                            0 <= k < prior.len() && (#[trigger] prior[k]).0 == a && prior[k].1
                                == c;
                        assert(list@[k].0 == a && list@[k].1 == c);
                    }
                    if has_pair(list@, a, c) {
                        let k = choose|k: int|
                            0 <= k < list@.len() && (#[trigger] list@[k]).0 == a && list@[k].1
                                == c;
                        assert(prior[k].0 == a && prior[k].1 == c);
                    }
                }
            }
        }
        i = i + 1;
    }
    Ok(list)
}

/// Reads the trigrams.
fn get_trigrams(r: &mut Reader<'_>, map: &Vec<u32>, n_pairs: usize) -> (l: Result<
    Vec<(u32, u32, u32)>,
    SnapshotError,
>)
    requires
        old(r).wf(),
    ensures
        final(r).wf(),
        final(r).bytes == old(r).bytes,
        match l {
            Ok(list) => counted(
                old(r).bytes@,
                old(r).at as int,
                12,
                trigram_reader(map@, n_pairs as int),
            ) == Parsed::<Seq<(u32, u32, u32)>>::Ok((list@, final(r).at as int)) && list@.len()
                <= index_limit() && forall|k: int|
                0 <= k < list@.len() ==> (#[trigger] list@[k]).0 < n_pairs && map@.contains(
                    list@[k].1,
                ),
            Err(e) => {
                ||| e == SnapshotError::TooLarge && old(r).bytes@.len() > index_limit()
                ||| counted(
                    old(r).bytes@,
                    old(r).at as int,
                    12,
                    trigram_reader(map@, n_pairs as int),
                ) == Parsed::<Seq<(u32, u32, u32)>>::Err(e)
            },
        },
{
    let ghost b = r.bytes@;
    let ghost at = r.at as int;
    let n: usize = match get_count(r, 12) {
        Ok(n) => n,
        Err(e) => {
            return Err(e);
        },
    };
    if n > usize::MAX / 43 - 12 {
        return Err(SnapshotError::TooLarge);
    }
    let mut list: Vec<(u32, u32, u32)> = Vec::new();
    let mut i: usize = 0;
    assert(list@ =~= Seq::<(u32, u32, u32)>::empty());
    while i < n
        invariant
            r.wf(),
            r.bytes@ == b,
            r.bytes == old(r).bytes,
            i <= n,
            n <= index_limit(),
            at == old(r).at,
            at + 4 <= b.len(),
            n == u32_at(b, at),
            n * 12 <= b.len() - (at + 4),
            list@.len() == i,
            many(b, at + 4, i as int, trigram_reader(map@, n_pairs as int)) == Parsed::<
                Seq<(u32, u32, u32)>,
            >::Ok((list@, r.at as int)),
            forall|k: int|
                0 <= k < list@.len() ==> (#[trigger] list@[k]).0 < n_pairs && map@.contains(
                    list@[k].1,
                ),
        decreases n - i,
    {
        proof {
            lemma_next(b, at + 4, i as int, n as int, trigram_reader(map@, n_pairs as int));
        }
        let pair: u32 = match get_u32(r) {
            Ok(x) => x,
            Err(e) => {
                return Err(e);
            },
        };
        if pair as usize >= n_pairs {
            return Err(SnapshotError::TrigramPair);
        }
        let w: u32 = match get_word(r, map) {
            Ok(x) => x,
            Err(e) => {
                return Err(e);
            },
        };
        let bits: u32 = match get_u32(r) {
            Ok(x) => x,
            Err(e) => {
                return Err(e);
            },
        };
        list.push((pair, w, bits));
        i = i + 1;
    }
    Ok(list)
}

/// Reads the forms of a word.
fn get_forms(r: &mut Reader<'_>) -> (l: Result<Vec<(String, u32)>, SnapshotError>)
    requires
        old(r).wf(),
    ensures
        final(r).wf(),
        final(r).bytes == old(r).bytes,
        match l {
            Ok(list) => counted(old(r).bytes@, old(r).at as int, 6, form_reader()) == Parsed::<
                Seq<(Seq<char>, u32)>,
            >::Ok((forms_view(list@), final(r).at as int)),
            Err(e) => counted(old(r).bytes@, old(r).at as int, 6, form_reader()) == Parsed::<
                Seq<(Seq<char>, u32)>,
            >::Err(e),
        },
{
    let ghost b = r.bytes@;
    let ghost at = r.at as int;
    let n: usize = match get_count(r, 6) {
        Ok(n) => n,
        Err(e) => {
            return Err(e);
        },
    };
    let mut list: Vec<(String, u32)> = Vec::new();
    let mut i: usize = 0;
    assert(forms_view(list@) =~= Seq::<(Seq<char>, u32)>::empty());
    while i < n
        invariant
            r.wf(),
            r.bytes@ == b,
            r.bytes == old(r).bytes,
            i <= n,
            at == old(r).at,
            at + 4 <= b.len(),
            n == u32_at(b, at),
            n * 6 <= b.len() - (at + 4),
            many(b, at + 4, i as int, form_reader()) == Parsed::<Seq<(Seq<char>, u32)>>::Ok(
                (forms_view(list@), r.at as int),
            ),
        decreases n - i,
    {
        let ghost prior = list@;
        proof {
            lemma_next(b, at + 4, i as int, n as int, form_reader());
        }
        let text = match get_text(r) {
            Ok(t) => t,
            Err(e) => {
                return Err(e);
            },
        };
        let bits: u32 = match get_u32(r) {
            Ok(x) => x,
            Err(e) => {
                return Err(e);
            },
        };
        let ghost item = (text@, bits);
        list.push((text, bits));
        assert(forms_view(list@) =~= forms_view(prior).push(item));
        i = i + 1;
    }
    Ok(list)
}

/// Reads the casings.
fn get_tails(r: &mut Reader<'_>, map: &Vec<u32>) -> (l: Result<
    Vec<(u32, Vec<(String, u32)>)>,
    SnapshotError,
>)
    requires
        old(r).wf(),
    ensures
        final(r).wf(),
        final(r).bytes == old(r).bytes,
        match l {
            Ok(list) => counted(old(r).bytes@, old(r).at as int, 8, tail_reader(map@)) == Parsed::<
                Seq<(u32, Seq<(Seq<char>, u32)>)>,
            >::Ok((tails_view(list@), final(r).at as int)) && forall|k: int|
                0 <= k < list@.len() ==> map@.contains((#[trigger] list@[k]).0),
            Err(e) => counted(old(r).bytes@, old(r).at as int, 8, tail_reader(map@)) == Parsed::<
                Seq<(u32, Seq<(Seq<char>, u32)>)>,
            >::Err(e),
        },
{
    let ghost b = r.bytes@;
    let ghost at = r.at as int;
    let n: usize = match get_count(r, 8) {
        Ok(n) => n,
        Err(e) => {
            return Err(e);
        },
    };
    let mut list: Vec<(u32, Vec<(String, u32)>)> = Vec::new();
    let mut i: usize = 0;
    assert(tails_view(list@) =~= Seq::<(u32, Seq<(Seq<char>, u32)>)>::empty());
    while i < n
        invariant
            r.wf(),
            r.bytes@ == b,
            r.bytes == old(r).bytes,
            i <= n,
            at == old(r).at,
            at + 4 <= b.len(),
            n == u32_at(b, at),
            n * 8 <= b.len() - (at + 4),
            many(b, at + 4, i as int, tail_reader(map@)) == Parsed::<
                Seq<(u32, Seq<(Seq<char>, u32)>)>,
            >::Ok((tails_view(list@), r.at as int)),
            forall|k: int| 0 <= k < list@.len() ==> map@.contains((#[trigger] list@[k]).0),
        decreases n - i,
    {
        let ghost prior = list@;
        proof {
            lemma_next(b, at + 4, i as int, n as int, tail_reader(map@));
        }
        let id: u32 = match get_word(r, map) {
            Ok(w) => w,
            Err(e) => {
                return Err(e);
            },
        };
        let forms = match get_forms(r) {
            Ok(f) => f,
            Err(e) => {
                return Err(e);
            },
        };
        let ghost item = (id, forms_view(forms@));
        list.push((id, forms));
        assert(tails_view(list@) =~= tails_view(prior).push(item));
        i = i + 1;
    }
    Ok(list)
}

/// Reads the words of a prompt.
fn get_ids(r: &mut Reader<'_>, map: &Vec<u32>) -> (l: Result<Vec<u32>, SnapshotError>)
    requires
        old(r).wf(),
    ensures
        final(r).wf(),
        final(r).bytes == old(r).bytes,
        match l {
            Ok(list) => counted(old(r).bytes@, old(r).at as int, 4, id_reader(map@)) == Parsed::<
                Seq<u32>,
            >::Ok((list@, final(r).at as int)) && final(r).at == old(r).at + 4 + 4 * list@.len()
                && forall|k: int| 0 <= k < list@.len() ==> map@.contains(#[trigger] list@[k]),
            Err(e) => counted(old(r).bytes@, old(r).at as int, 4, id_reader(map@)) == Parsed::<
                Seq<u32>,
            >::Err(e),
        },
{
    let ghost b = r.bytes@;
    let ghost at = r.at as int;
    let n: usize = match get_count(r, 4) {
        Ok(n) => n,
        Err(e) => {
            return Err(e);
        },
    };
    let mut list: Vec<u32> = Vec::new();
    let mut i: usize = 0;
    assert(list@ =~= Seq::<u32>::empty());
    while i < n
        invariant
            r.wf(),
            r.bytes@ == b,
            r.bytes == old(r).bytes,
            i <= n,
            at == old(r).at,
            at + 4 <= b.len(),
            n == u32_at(b, at),
            n * 4 <= b.len() - (at + 4),
            many(b, at + 4, i as int, id_reader(map@)) == Parsed::<Seq<u32>>::Ok(
                (list@, r.at as int),
            ),
            r.at == at + 4 + 4 * i,
            list@.len() == i,
            forall|k: int| 0 <= k < list@.len() ==> map@.contains(#[trigger] list@[k]),
        decreases n - i,
    {
        proof {
            lemma_next(b, at + 4, i as int, n as int, id_reader(map@));
        }
        let id: u32 = match get_word(r, map) {
            Ok(w) => w,
            Err(e) => {
                return Err(e);
            },
        };
        list.push(id);
        i = i + 1;
    }
    Ok(list)
}

/// Reads the prompts.
fn get_prompts(r: &mut Reader<'_>, map: &Vec<u32>) -> (l: Result<Vec<Vec<u32>>, SnapshotError>)
    requires
        old(r).wf(),
    ensures
        final(r).wf(),
        final(r).bytes == old(r).bytes,
        match l {
            Ok(list) => counted(old(r).bytes@, old(r).at as int, 4, prompt_reader(map@))
                == Parsed::<Seq<Seq<u32>>>::Ok((prompts_view(list@), final(r).at as int))
                && 4 * total_len(prompts_view(list@)) <= old(r).bytes@.len() && forall|p: int, k: int|
                0 <= p < list@.len() && 0 <= k < list@[p]@.len() ==> map@.contains(
                    #[trigger] list@[p]@[k],
                ),
            Err(e) => counted(old(r).bytes@, old(r).at as int, 4, prompt_reader(map@)) == Parsed::<
                Seq<Seq<u32>>,
            >::Err(e),
        },
{
    let ghost b = r.bytes@;
    let ghost at = r.at as int;
    let n: usize = match get_count(r, 4) {
        Ok(n) => n,
        Err(e) => {
            return Err(e);
        },
    };
    let mut list: Vec<Vec<u32>> = Vec::new();
    let mut i: usize = 0;
    assert(prompts_view(list@) =~= Seq::<Seq<u32>>::empty());
    while i < n
        invariant
            r.wf(),
            r.bytes@ == b,
            r.bytes == old(r).bytes,
            i <= n,
            at == old(r).at,
            at + 4 <= b.len(),
            n == u32_at(b, at),
            n * 4 <= b.len() - (at + 4),
            many(b, at + 4, i as int, prompt_reader(map@)) == Parsed::<Seq<Seq<u32>>>::Ok(
                (prompts_view(list@), r.at as int),
            ),
            at + 4 + 4 * total_len(prompts_view(list@)) <= r.at,
            forall|p: int, k: int|
                0 <= p < list@.len() && 0 <= k < list@[p]@.len() ==> map@.contains(
                    #[trigger] list@[p]@[k],
                ),
        decreases n - i,
    {
        let ghost prior = list@;
        proof {
            lemma_next(b, at + 4, i as int, n as int, prompt_reader(map@));
        }
        let ids = match get_ids(r, map) {
            Ok(l) => l,
            Err(e) => {
                return Err(e);
            },
        };
        let ghost item = ids@;
        list.push(ids);
        proof {
            let now = prompts_view(list@);
            assert(now =~= prompts_view(prior).push(item));
            assert(now.drop_last() =~= prompts_view(prior));
            assert(now.last() == item);
            assert forall|p: int, k: int| 0 <= p < list@.len() && 0 <= k < list@[p]@.len() implies
                map@.contains(#[trigger] list@[p]@[k]) by {
                if p < prior.len() {
                    assert(map@.contains(prior[p]@[k]));
                } else {
                    assert(map@.contains(item[k]));
                }
            }
        }
        i = i + 1;
    }
    Ok(list)
}

/// Every id is below `n`, no context, follower or pair occurs twice, and the
/// pairs and trigrams can be indexed.
pub open spec fn tables_ok(t: Tables, n: int) -> bool {
    &&& contexts_ok(contexts_view(t.contexts@), n)
    &&& pairs_ok(t.pairs@, n)
    &&& t.pairs@.len() <= index_limit()
    &&& t.trigrams@.len() <= index_limit()
    &&& forall|i: int|
        0 <= i < t.trigrams@.len() ==> (#[trigger] t.trigrams@[i]).0 < t.pairs@.len()
            && t.trigrams@[i].1 < n
    &&& forall|i: int| 0 <= i < t.tails@.len() ==> (#[trigger] t.tails@[i]).0 < n
    &&& forall|p: int, k: int|
        0 <= p < t.prompts@.len() && 0 <= k < t.prompts@[p]@.len() ==> #[trigger] t.prompts@[p]@[k]
            < n
}

/// Reads the tables, up to the end of the payload.
pub fn get_tables(r: &mut Reader<'_>, map: &Vec<u32>, words: usize) -> (t: Result<
    Tables,
    SnapshotError,
>)
    requires
        old(r).wf(),
        words < NONE,
        ids_fit(map@, words as int),
    ensures
        match t {
            Ok(tables) => read_tables(old(r).bytes@, old(r).at as int, map@) == Ok::<
                TablesView,
                SnapshotError,
            >(tables@) && tables_ok(tables, words as int) && 16 * tables.pairs@.len()
                <= old(r).bytes@.len() && 4 * total_len(tables@.prompts) <= old(r).bytes@.len(),
            Err(e) => {
                ||| e == SnapshotError::TooLarge && old(r).bytes@.len() > index_limit()
                ||| read_tables(old(r).bytes@, old(r).at as int, map@) == Err::<
                    TablesView,
                    SnapshotError,
                >(e)
            },
        },
{
    let contexts = match get_contexts(r, map, words) {
        Ok(l) => l,
        Err(e) => {
            return Err(e);
        },
    };
    let ghost p = r.at as int;
    let pairs = match get_pairs(r, map, words) {
        Ok(l) => l,
        Err(e) => {
            return Err(e);
        },
    };
    let n_pairs: usize = pairs.len();
    let trigrams = match get_trigrams(r, map, n_pairs) {
        Ok(l) => l,
        Err(e) => {
            return Err(e);
        },
    };
    let tails = match get_tails(r, map) {
        Ok(l) => l,
        Err(e) => {
            return Err(e);
        },
    };
    let prompts = match get_prompts(r, map) {
        Ok(l) => l,
        Err(e) => {
            return Err(e);
        },
    };
    if r.at != r.bytes.len() {
        return Err(SnapshotError::Trailing);
    }
    Ok(Tables { contexts, pairs, trigrams, tails, prompts })
}

} // verus!
