//! Cutting a text into pre-tokens: every numeric character on its own, and
//! the pieces between them by a regular expression.

use regex::Regex;
use vstd::prelude::*;

use crate::patterns::{find_at, found, source, SPLIT};
use crate::prose::span_view;
use crate::unicode::{
    at_boundary, byte_len, byte_offsets, chars_before, chars_of, lemma_byte_len_monotone,
    lemma_byte_len_prefix, lemma_chars_before, lemma_encode_concat, numeric, string_of,
    whitespace,
};

verus! {

/// Where a pre-token ends whose match covers the characters `s..e` of `piece`:
/// a run of two or more spaces with something behind it leaves its last one to
/// the next pre-token.
pub open spec fn stop_of(piece: Seq<char>, s: int, e: int) -> int {
    if e < piece.len() && e - s > 1 && forall|k: int| s <= k < e ==> whitespace(#[trigger] piece[k]) {
        e - 1
    } else {
        e
    }
}

/// The pre-tokens of `piece` from the character `at` on, as character
/// positions.
pub open spec fn split_from(piece: Seq<char>, at: int) -> Seq<(int, int)>
    decreases piece.len() - at,
{
    if at < 0 || at >= piece.len() {
        Seq::empty()
    } else {
        match found(SPLIT@, piece, byte_len(piece.take(at)) as int) {
            None => Seq::empty(),
            Some((s, e)) => {
                let start = chars_before(piece, s);
                let stop = stop_of(piece, start, chars_before(piece, e));
                if stop <= at || stop > piece.len() {
                    Seq::empty()
                } else {
                    seq![(start, stop)] + split_from(piece, stop)
                }
            },
        }
    }
}

/// Character positions of a piece that starts at `base`, as byte offsets of
/// the whole `text`.
pub open spec fn in_bytes(text: Seq<char>, spans: Seq<(int, int)>, base: int) -> Seq<(int, int)> {
    spans.map_values(
        |s: (int, int)|
            (byte_len(text.take(base + s.0)) as int, byte_len(text.take(base + s.1)) as int),
    )
}

/// The pre-tokens of the piece `start..end` of `text`, as byte offsets.
pub open spec fn piece_spans(text: Seq<char>, start: int, end: int) -> Seq<(int, int)> {
    in_bytes(text, split_from(text.subrange(start, end), 0), start)
}

/// The pre-tokens of `text` from the character `i` on, as byte offsets, where
/// the piece at hand started at `start`.
pub open spec fn pre_spans(text: Seq<char>, start: int, i: int) -> Seq<(int, int)>
    decreases text.len() - i,
{
    if i < 0 || i >= text.len() {
        piece_spans(text, start, text.len() as int)
    } else if numeric(text[i]) {
        piece_spans(text, start, i) + seq![
            (byte_len(text.take(i)) as int, byte_len(text.take(i + 1)) as int),
        ] + pre_spans(text, i + 1, i + 1)
    } else {
        pre_spans(text, start, i + 1)
    }
}

/// Consecutive spans that start where the one before ends, from `from` to
/// `to`, none of them empty.
pub open spec fn tiles(spans: Seq<(int, int)>, from: int, to: int) -> bool
    decreases spans.len(),
{
    if spans.len() == 0 {
        from == to
    } else {
        &&& spans[0].0 == from
        &&& spans[0].0 < spans[0].1
        &&& tiles(spans.drop_first(), spans[0].1, to)
    }
}

/// Two runs of spans that meet make one.
pub proof fn lemma_tiles_concat(a: Seq<(int, int)>, b: Seq<(int, int)>, from: int, mid: int, to: int)
    requires
        tiles(a, from, mid),
        tiles(b, mid, to),
    ensures
        tiles(a + b, from, to),
    decreases a.len(),
{
    if a.len() == 0 {
        assert(a + b =~= b);
    } else {
        lemma_tiles_concat(a.drop_first(), b, a[0].1, mid, to);
        assert((a + b).drop_first() =~= a.drop_first() + b);
    }
}

/// One more span at the end.
pub proof fn lemma_tiles_push(a: Seq<(int, int)>, from: int, mid: int, to: int)
    requires
        tiles(a, from, mid),
        mid < to,
    ensures
        tiles(a.push((mid, to)), from, to),
{
    let one = seq![(mid, to)];
    assert(one.drop_first() =~= Seq::<(int, int)>::empty());
    assert(tiles(one.drop_first(), to, to));
    assert(tiles(one, mid, to));
    lemma_tiles_concat(a, one, from, mid, to);
    assert(a + one =~= a.push((mid, to)));
}

/// Offsets inside a piece add to where the piece starts.
proof fn lemma_piece_offset(text: Seq<char>, start: int, end: int, k: int)
    requires
        0 <= start <= end <= text.len(),
        0 <= k <= end - start,
    ensures
        byte_len(text.take(start + k)) == byte_len(text.take(start)) + byte_len(
            text.subrange(start, end).take(k),
        ),
        byte_len(text.subrange(start, end).take(k)) <= byte_len(text.subrange(start, end)),
{
    let piece = text.subrange(start, end);
    assert(text.take(start + k) =~= text.take(start) + piece.take(k));
    lemma_encode_concat(text.take(start), piece.take(k));
    lemma_byte_len_prefix(piece, k);
}

/// The character position of the byte offset `offset`, looked for from the
/// position `from` on.
fn advance(offsets: &Vec<usize>, from: usize, offset: usize, Ghost(text): Ghost<Seq<char>>) -> (k:
    usize)
    requires
        offsets@.len() == text.len() + 1,
        forall|k: int| 0 <= k <= text.len() ==> #[trigger] offsets@[k] == byte_len(text.take(k)),
        from <= text.len(),
        byte_len(text.take(from as int)) <= offset,
        at_boundary(text, offset as int),
    ensures
        from <= k <= text.len(),
        k == chars_before(text, offset as int),
        byte_len(text.take(k as int)) == offset,
{
    let ghost goal = chars_before(text, offset as int);
    proof {
        if goal < from {
            lemma_byte_len_monotone(text, goal, from as int);
        }
    }
    let top: usize = offsets.len();
    let mut k: usize = from;
    while offsets[k] < offset
        invariant
            top == offsets@.len(),
            offsets@.len() == text.len() + 1,
            forall|k: int| 0 <= k <= text.len() ==> #[trigger] offsets@[k] == byte_len(text.take(k)),
            0 <= goal <= text.len(),
            byte_len(text.take(goal)) == offset,
            from <= k <= goal,
        decreases goal - k,
    {
        assert(k < goal);
        k = k + 1;
    }
    proof {
        if k < goal {
            lemma_byte_len_monotone(text, k as int, goal);
        }
    }
    k
}

/// Whether all of `chars[s..e]` is white space.
fn all_space(chars: &[char], s: usize, e: usize) -> (r: bool)
    requires
        s <= e <= chars@.len(),
    ensures
        r == forall|k: int| s <= k < e ==> whitespace(#[trigger] chars@[k]),
{
    let mut k: usize = s;
    while k < e
        invariant
            s <= k <= e <= chars@.len(),
            forall|j: int| s <= j < k ==> whitespace(#[trigger] chars@[j]),
        decreases e - k,
    {
        let c: char = chars[k];
        if !c.is_whitespace() {
            return false;
        }
        k = k + 1;
    }
    true
}

/// Cuts the piece `start..end` of a text, given as character positions, and
/// appends the byte spans of its pre-tokens.
pub(crate) fn split_piece(
    split: &Regex,
    chars: &Vec<char>,
    offsets: &Vec<usize>,
    start: usize,
    end: usize,
    spans: &mut Vec<(usize, usize)>,
)
    requires
        source(*split) == SPLIT@,
        start <= end <= chars@.len(),
        byte_len(chars@) <= usize::MAX,
        offsets@.len() == chars@.len() + 1,
        forall|k: int| 0 <= k <= chars@.len() ==> #[trigger] offsets@[k] == byte_len(chars@.take(k)),
    ensures
        span_view(final(spans)@) == span_view(old(spans)@) + piece_spans(
            chars@,
            start as int,
            end as int,
        ),
        tiles(
            piece_spans(chars@, start as int, end as int),
            byte_len(chars@.take(start as int)) as int,
            byte_len(chars@.take(end as int)) as int,
        ),
{
    let slice: &[char] = &chars[start..end];
    let ghost text = chars@;
    let ghost piece = text.subrange(start as int, end as int);
    let ghost before = span_view(spans@);
    let copy = string_of(slice);
    assert(copy@ =~= piece);
    let own = byte_offsets_of(slice, Ghost(text), start, end);
    let size: usize = end - start;
    let mut at: usize = 0;
    let ghost mut done: Seq<(int, int)> = Seq::empty();
    assert(done + in_bytes(text, split_from(piece, 0), start as int) =~= piece_spans(
        text,
        start as int,
        end as int,
    ));
    assert(before + in_bytes(text, split_from(piece, 0), start as int) == span_view(spans@)
        + in_bytes(text, split_from(piece, at as int), start as int));
    while at < size
        invariant
            source(*split) == SPLIT@,
            start <= end <= chars@.len(),
            size == end - start,
            byte_len(chars@) <= usize::MAX,
            offsets@.len() == chars@.len() + 1,
            forall|k: int|
                0 <= k <= chars@.len() ==> #[trigger] offsets@[k] == byte_len(chars@.take(k)),
            text == chars@,
            piece == text.subrange(start as int, end as int),
            slice@ == piece,
            copy@ == piece,
            own@.len() == piece.len() + 1,
            forall|k: int| 0 <= k <= piece.len() ==> #[trigger] own@[k] == byte_len(piece.take(k)),
            at <= size,
            done + in_bytes(text, split_from(piece, at as int), start as int) == piece_spans(
                text,
                start as int,
                end as int,
            ),
            tiles(
                done,
                byte_len(text.take(start as int)) as int,
                byte_len(text.take(start + at)) as int,
            ),
            before + in_bytes(text, split_from(piece, 0), start as int) == span_view(spans@)
                + in_bytes(text, split_from(piece, at as int), start as int),
        decreases size - at,
    {
        proof {
            lemma_chars_before(piece, byte_len(piece.take(at as int)) as int, at as int);
            lemma_byte_len_monotone(piece, at as int, piece.len() as int);
            assert(piece.take(piece.len() as int) =~= piece);
        }
        let (s, e) = match find_at(split, copy.as_str(), own[at]) {
            Some(span) => span,
            None => (0, 0),
        };
        let first = advance(&own, at, s, Ghost(piece));
        let last = advance(&own, first, e, Ghost(piece));
        proof {
            lemma_chars_before(piece, s as int, at as int);
            assert(first == at);
            assert(first < last) by {
                if last == first {
                    assert(byte_len(piece.take(last as int)) == byte_len(piece.take(first as int)));
                }
            }
        }
        let mut stop: usize = last;
        if last < size && last - first > 1 && all_space(slice, first, last) {
            stop = last - 1;
        }
        let ghost rest = split_from(piece, stop as int);
        let ghost mid = spans@;
        spans.push((offsets[start + first], offsets[start + stop]));
        proof {
            assert(stop == stop_of(piece, first as int, last as int));
            assert(split_from(piece, at as int) == seq![(first as int, stop as int)] + rest);
            assert(in_bytes(text, split_from(piece, at as int), start as int) =~= seq![
                (
                    byte_len(text.take(start + first)) as int,
                    byte_len(text.take(start + stop)) as int,
                ),
            ] + in_bytes(text, rest, start as int));
            assert(span_view(spans@) =~= span_view(mid).push(
                (
                    byte_len(text.take(start + first)) as int,
                    byte_len(text.take(start + stop)) as int,
                ),
            ));
            assert(span_view(mid) + in_bytes(text, split_from(piece, at as int), start as int)
                =~= span_view(spans@) + in_bytes(text, rest, start as int));
            let pair = (
                byte_len(text.take(start + first)) as int,
                byte_len(text.take(start + stop)) as int,
            );
            lemma_byte_len_monotone(text, start + first, start + stop);
            lemma_tiles_push(done, byte_len(text.take(start as int)) as int, pair.0, pair.1);
            assert(done + in_bytes(text, split_from(piece, at as int), start as int) =~= done.push(
                pair,
            ) + in_bytes(text, rest, start as int));
            done = done.push(pair);
        }
        at = stop;
    }
    proof {
        assert(split_from(piece, at as int) =~= Seq::<(int, int)>::empty());
        assert(in_bytes(text, split_from(piece, at as int), start as int) =~= Seq::<
            (int, int),
        >::empty());
        assert(span_view(spans@) + Seq::<(int, int)>::empty() =~= span_view(spans@));
        assert(done + Seq::<(int, int)>::empty() =~= done);
    }
}

fn byte_offsets_of(slice: &[char], Ghost(text): Ghost<Seq<char>>, start: usize, end: usize) -> (own:
    Vec<usize>)
    requires
        start <= end <= text.len(),
        byte_len(text) <= usize::MAX,
        slice@ == text.subrange(start as int, end as int),
    ensures
        own@.len() == slice@.len() + 1,
        forall|k: int| 0 <= k <= slice@.len() ==> #[trigger] own@[k] == byte_len(slice@.take(k)),
{
    proof {
        let piece = text.subrange(start as int, end as int);
        lemma_piece_offset(text, start as int, end as int, end - start);
        assert(piece.take(end - start) =~= piece);
        lemma_byte_len_prefix(text, end as int);
    }
    byte_offsets(slice)
}

/// Byte spans of the pre-tokens of `text`: every numeric character is one of
/// its own, and the pattern cuts each piece between them on its own.
pub(crate) fn pre_tokenize_with(split: &Regex, text: &str) -> (spans: Vec<(usize, usize)>)
    requires
        source(*split) == SPLIT@,
    ensures
        span_view(spans@) == pre_spans(text@, 0, 0),
        tiles(span_view(spans@), 0, byte_len(text@) as int),
{
    let chars = chars_of(text);
    let offsets = byte_offsets(chars.as_slice());
    let mut spans: Vec<(usize, usize)> = Vec::new();
    let mut piece_start: usize = 0;
    let mut i: usize = 0;
    assert(span_view(spans@) + pre_spans(text@, 0, 0) =~= pre_spans(text@, 0, 0));
    assert(text@.take(0) =~= Seq::<char>::empty());
    assert(tiles(span_view(spans@), 0, byte_len(text@.take(0)) as int));
    while i < chars.len()
        invariant
            source(*split) == SPLIT@,
            chars@ == text@,
            piece_start <= i <= chars@.len(),
            byte_len(chars@) <= usize::MAX,
            offsets@.len() == chars@.len() + 1,
            forall|k: int|
                0 <= k <= chars@.len() ==> #[trigger] offsets@[k] == byte_len(chars@.take(k)),
            span_view(spans@) + pre_spans(text@, piece_start as int, i as int) == pre_spans(
                text@,
                0,
                0,
            ),
            tiles(span_view(spans@), 0, byte_len(text@.take(piece_start as int)) as int),
        decreases chars@.len() - i,
    {
        let c: char = chars[i];
        if c.is_numeric() {
            let ghost before = span_view(spans@);
            split_piece(split, &chars, &offsets, piece_start, i, &mut spans);
            let ghost mid = spans@;
            spans.push((offsets[i], offsets[i + 1]));
            proof {
                let pair = (byte_len(text@.take(i as int)) as int, byte_len(text@.take(i + 1)) as int);
                assert(span_view(spans@) =~= span_view(mid).push(pair));
                let a = byte_len(text@.take(piece_start as int)) as int;
                lemma_tiles_concat(
                    before,
                    piece_spans(text@, piece_start as int, i as int),
                    0,
                    a,
                    pair.0,
                );
                lemma_byte_len_monotone(text@, i as int, i + 1);
                lemma_tiles_push(span_view(mid), 0, pair.0, pair.1);
                assert(before + (piece_spans(text@, piece_start as int, i as int) + seq![pair]
                    + pre_spans(text@, i + 1, i + 1)) =~= span_view(spans@) + pre_spans(
                    text@,
                    i + 1,
                    i + 1,
                ));
            }
            piece_start = i + 1;
        }
        i = i + 1;
    }
    let ghost before = span_view(spans@);
    split_piece(split, &chars, &offsets, piece_start, chars.len(), &mut spans);
    proof {
        assert(text@.take(text@.len() as int) =~= text@);
        lemma_tiles_concat(
            before,
            piece_spans(text@, piece_start as int, text@.len() as int),
            0,
            byte_len(text@.take(piece_start as int)) as int,
            byte_len(text@) as int,
        );
    }
    spans
}

} // verus!
