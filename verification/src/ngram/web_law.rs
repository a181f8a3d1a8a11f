//! What the web data holds: how it is laid out, which rows belong to which
//! context, and which words it vouches for.

use crate::bytes::u32_at;
use crate::ngram::web::{
    content_error, contexts_error, first_row, follower_at, lines_end, rows_error, slot_of,
    terminated_lines, words_at, WebError, WebPrior, NO_SLOT,
};
use crate::ngram::tail_table::{form_count, form_place, with_form};
use crate::prose::{lemma_line_end, line_end};
use vstd::prelude::*;

verus! {

/// The word list stands behind the header, four bytes for each word, a bit for
/// each word, and eight bytes for each context and each row.
pub proof fn law_the_tables_stand_before_the_words(raw: Seq<u8>)
    ensures
        words_at(raw) == 32 + 4 * u32_at(raw, 8) + (u32_at(raw, 8) + 7) / 8 + 8 * u32_at(raw, 16)
            + 8 * u32_at(raw, 20),
{
}

/// Data of another kind, of another version or cut short is refused as such.
pub proof fn law_foreign_data_is_refused(raw: Seq<u8>)
    ensures
        raw.len() < 4 ==> content_error(raw) == Some(WebError::Truncated),
        raw.len() >= 4 && raw.take(4) != seq![0x50u8, 0x49u8, 0x57u8, 0x50u8] ==> content_error(raw)
            == Some(WebError::BadMagic),
        raw.len() >= 8 && raw.take(4) == seq![0x50u8, 0x49u8, 0x57u8, 0x50u8] && u32_at(raw, 4) != 1
            ==> content_error(raw) == Some(WebError::Version(u32_at(raw, 4) as u32)),
        content_error(raw) is None ==> raw.len() >= 24 && raw.len() >= words_at(raw) && u32_at(
            raw,
            4,
        ) == 1,
{
    if raw.len() >= 4 {
        let magic = seq![0x50u8, 0x49u8, 0x57u8, 0x50u8];
        let head = raw.take(4);
        assert(head[0] == raw[0] && head[1] == raw[1] && head[2] == raw[2] && head[3] == raw[3]);
        if head == magic {
            assert(head[0] == 0x50 && head[1] == 0x49 && head[2] == 0x57 && head[3] == 0x50);
        } else if raw[0] == 0x50 && raw[1] == 0x49 && raw[2] == 0x57 && raw[3] == 0x50 {
            assert(head =~= magic);
        }
    }
}

/// Lines end at their line ends, and the last may do without.
pub proof fn law_lines_end_at_their_line_ends(line: Seq<char>, rest: Seq<char>, from: Seq<char>)
    requires
        !line.contains('\n'),
    ensures
        ({
            let text = from + line.push('\n') + rest;
            let n = from.len() as int;
            terminated_lines(text, n) == seq![line] + terminated_lines(text, n + line.len() + 1)
        }),
        line.len() > 0 ==> terminated_lines(from + line, from.len() as int) == seq![line],
{
    let text = from + line.push('\n') + rest;
    let n = from.len() as int;
    lemma_line_end(text, n);
    let nl = line_end(text, n);
    assert(text[n + line.len()] == '\n');
    if nl < n + line.len() {
        assert(text[nl] == line[nl - n]);
        assert(line.contains(line[nl - n]));
    }
    assert(nl == n + line.len());
    assert(text.subrange(n, nl) =~= line);
    let bare = from + line;
    if line.len() > 0 {
        lemma_line_end(bare, n);
        let end = line_end(bare, n);
        if end < bare.len() {
            assert(bare[end] == line[end - n]);
            assert(line.contains(line[end - n]));
        }
        assert(bare.subrange(n, end) =~= line);
    }
}

/// A number of lines ends right behind as many line ends.
pub proof fn law_lines_are_counted_by_their_ends(raw: Seq<u8>, at: int, count: int, p: int)
    requires
        0 < count,
        0 <= at <= p <= raw.len(),
        forall|k: int| at <= k < p ==> #[trigger] raw[k] != 10,
    ensures
        p < raw.len() && raw[p] == 10 ==> lines_end(raw, at, count) == lines_end(
            raw,
            p + 1,
            count - 1,
        ),
        p == raw.len() ==> lines_end(raw, at, count) is None,
        lines_end(raw, p, 0) == Some(p),
    decreases p - at,
{
    if at < p {
        assert(raw[at] != 10);
        law_lines_are_counted_by_their_ends(raw, at + 1, count, p);
    }
}

/// The rows of a context follow those of the contexts before it.
pub proof fn law_rows_follow_each_other(lengths: Seq<u32>, s: int)
    requires
        0 <= s < lengths.len(),
    ensures
        first_row(lengths, 0) == 0,
        first_row(lengths, s + 1) == first_row(lengths, s) + lengths[s],
{
}

/// The words of a context's rows are told by their distances, so they rise.
pub proof fn law_row_words_rise(deltas: Seq<u32>, row: int, i: int, j: int)
    requires
        0 <= i <= j,
    ensures
        follower_at(deltas, row, 0) == deltas[row],
        follower_at(deltas, row, i) <= follower_at(deltas, row, j),
        i < j ==> follower_at(deltas, row, j) - follower_at(deltas, row, j - 1) == deltas[row + j],
    decreases j,
{
    if i < j {
        law_row_words_rise(deltas, row, i, j - 1);
    }
}

/// Row `k` from `row` on is there and names a word of the list.
pub open spec fn row_good(deltas: Seq<u32>, words: int, row: int, k: int) -> bool {
    row + k < deltas.len() && follower_at(deltas, row, k) < words
}

proof fn lemma_rows_good(deltas: Seq<u32>, words: int, row: int, len: int, i: int)
    requires
        0 <= i,
    ensures
        rows_error(deltas, words, row, len, i) is None ==> forall|k: int|
            i <= k < len ==> #[trigger] row_good(deltas, words, row, k),
        (forall|k: int| i <= k < len ==> #[trigger] row_good(deltas, words, row, k)) ==> rows_error(
            deltas,
            words,
            row,
            len,
            i,
        ) is None,
    decreases len - i,
{
    if i < len {
        lemma_rows_good(deltas, words, row, len, i + 1);
        if rows_error(deltas, words, row, len, i) is None {
            assert(row_good(deltas, words, row, i));
            assert(rows_error(deltas, words, row, len, i + 1) is None);
        }
        if forall|k: int| i <= k < len ==> #[trigger] row_good(deltas, words, row, k) {
            assert(row_good(deltas, words, row, i));
        }
    }
}

/// The rows of context `s` name words of the list.
pub open spec fn context_good(
    contexts: Seq<u32>,
    lengths: Seq<u32>,
    deltas: Seq<u32>,
    words: int,
    s: int,
) -> bool {
    contexts[s] <= words && forall|k: int|
        0 <= k < lengths[s] ==> #[trigger] row_good(deltas, words, first_row(lengths, s), k)
}

/// The tables are good exactly when every context is a word or the sentence
/// start, every row names a word, and the rows are as many as the contexts say.
pub proof fn law_tables_are_good_when_every_row_is(
    contexts: Seq<u32>,
    lengths: Seq<u32>,
    deltas: Seq<u32>,
    words: int,
    s: int,
)
    requires
        0 <= s <= contexts.len(),
    ensures
        contexts_error(contexts, lengths, deltas, words, s) is None <==> (forall|t: int|
            s <= t < contexts.len() ==> #[trigger] context_good(contexts, lengths, deltas, words, t))
            && first_row(lengths, contexts.len() as int) == deltas.len(),
    decreases contexts.len() - s,
{
    if s < contexts.len() {
        law_tables_are_good_when_every_row_is(contexts, lengths, deltas, words, s + 1);
        lemma_rows_good(deltas, words, first_row(lengths, s), lengths[s] as int, 0);
        if forall|t: int|
            s <= t < contexts.len() ==> #[trigger] context_good(contexts, lengths, deltas, words, t) {
            assert(context_good(contexts, lengths, deltas, words, s));
        }
        if contexts_error(contexts, lengths, deltas, words, s) is None {
            assert(context_good(contexts, lengths, deltas, words, s));
        }
    }
}

/// A context's slot is the last that was told for it, and none where none was.
pub proof fn law_slots_belong_to_their_context(contexts: Seq<u32>, s: int, id: int, p: int)
    requires
        0 <= p <= s <= contexts.len() < NO_SLOT,
        forall|k: int| p <= k < s ==> #[trigger] contexts[k] != id,
    ensures
        p == 0 ==> slot_of(contexts, s, id) == NO_SLOT,
        p > 0 && contexts[p - 1] == id ==> slot_of(contexts, s, id) == p - 1,
    decreases s - p,
{
    if p < s {
        assert(contexts[s - 1] != id);
        law_slots_belong_to_their_context(contexts, s - 1, id, p);
    }
}

/// A word is real when the dictionary has it or the web has it two hundred
/// thousand times.
pub proof fn law_the_web_vouches_for_words(web: WebPrior, word: Seq<char>, id: usize)
    requires
        web.wf(),
        id < web.count@.len(),
    ensures
        web.trusts(word, None) <==> web.dict_only.words().contains(word),
        web.dict_bit(id as int) ==> web.trusts(word, Some(id)),
        0x4843_5000 <= web.count@[id as int] <= 0x7f80_0000 ==> web.trusts(word, Some(id)),
        !web.dict_bit(id as int) && web.count@[id as int] < 0x4843_5000 ==> !web.trusts(
            word,
            Some(id),
        ),
{
}

proof fn lemma_form_place(forms: Seq<(Seq<char>, u32)>, form: Seq<char>, at: int)
    requires
        0 <= at <= forms.len(),
    ensures
        at <= form_place(forms, form, at) <= forms.len(),
        form_place(forms, form, at) < forms.len() ==> forms[form_place(forms, form, at)].0 == form,
        forall|k: int| at <= k < form_place(forms, form, at) ==> (#[trigger] forms[k]).0 != form,
    decreases forms.len() - at,
{
    if at < forms.len() && forms[at].0 != form {
        lemma_form_place(forms, form, at + 1);
    }
}

proof fn lemma_form_place_is(forms: Seq<(Seq<char>, u32)>, form: Seq<char>, at: int, p: int)
    requires
        0 <= at <= p <= forms.len(),
        p < forms.len() ==> forms[p].0 == form,
        forall|k: int| at <= k < p ==> (#[trigger] forms[k]).0 != form,
    ensures
        form_place(forms, form, at) == p,
    decreases p - at,
{
    if at < p {
        assert(forms[at].0 != form);
        lemma_form_place_is(forms, form, at + 1, p);
    }
}

/// A written form that is stored reads back with its count, and the counts of
/// the others stay.
pub proof fn law_stored_forms_read_back(
    forms: Seq<(Seq<char>, u32)>,
    form: Seq<char>,
    other: Seq<char>,
    bits: u32,
)
    ensures
        form_count(with_form(forms, form, bits), form) == Some(bits),
        other != form ==> form_count(with_form(forms, form, bits), other) == form_count(forms, other),
        with_form(forms, form, bits).len() <= forms.len() + 1,
{
    let now = with_form(forms, form, bits);
    lemma_form_place(forms, form, 0);
    let p = form_place(forms, form, 0);
    assert forall|k: int| 0 <= k < p implies (#[trigger] now[k]).0 != form by {
        assert(now[k] == forms[k]);
    }
    lemma_form_place_is(now, form, 0, p);
    if other != form {
        lemma_form_place(forms, other, 0);
        let q = form_place(forms, other, 0);
        assert forall|k: int| 0 <= k < q implies (#[trigger] now[k]).0 != other by {
            assert(forms[k].0 != other);
        }
        if q < forms.len() {
            lemma_form_place_is(now, other, 0, q);
        } else {
            lemma_form_place_is(now, other, 0, now.len() as int);
        }
    }
}

} // verus!
