//! The bytes of a snapshot's payload, written and read.
//!
//! ```text
//! f64 total
//! u32 words     { u16 len, utf8, f32 count, u32 raw }
//! u32 contexts  { u32 word, u32 n, n × { u32 word, f32 count } }
//! u32 pairs     { u32 u, u32 v, f32 total, u32 types }        (pair index = position)
//! u32 trigrams  { u32 pair, u32 word, f32 count }
//! u32 tailed    { u32 word, u32 n, n × { u16 len, utf8, f32 count } }
//! u32 prompts   { u32 n, n × u32 word }                        (session cache, oldest first)
//! ```

use crate::bytes::{
    le16, le32, le64, lemma_le16, lemma_le32, lemma_le64, put_bytes, put_u16, u16_at, u32_at,
    u64_at, Reader,
};
use crate::unicode::{byte_len, byte_offsets, chars_of, string_of, text_from_utf8};
use vstd::prelude::*;
use vstd::slice::slice_to_vec;
use vstd::utf8::{
    decode_utf8, encode_utf8, encode_utf8_decode_utf8, encode_utf8_valid_utf8, valid_utf8,
};

verus! {

/// Why a snapshot is refused.
#[derive(Clone, Copy, Debug, PartialEq, Eq, Structural)]
pub enum SnapshotError {
    /// The bytes do not start like a snapshot.
    NotSnapshot,
    /// The format version is another one.
    Version(u32),
    /// The compressed frame is damaged.
    Corrupt,
    /// The payload ends too early.
    Truncated,
    /// A count is larger than what is left could hold.
    CountOutOfRange,
    /// A text is not UTF-8.
    NotUtf8,
    /// A word number is not that of a stored word.
    WordIndex,
    /// A word follows one context twice.
    DuplicateFollower,
    /// A context occurs twice.
    DuplicateContext,
    /// A pair occurs twice.
    DuplicatePair,
    /// A trigram's pair does not exist.
    TrigramPair,
    /// Bytes are left over.
    Trailing,
    /// More records than this machine can index.
    TooLarge,
}

/// Something read, and where the next begins.
pub type Parsed<T> = Result<(T, int), SnapshotError>;

/// `s` stands in `b` at `at`.
pub open spec fn holds(b: Seq<u8>, at: int, s: Seq<u8>) -> bool {
    0 <= at && at + s.len() <= b.len() && b.subrange(at, at + s.len()) == s
}

pub proof fn lemma_holds_concat(b: Seq<u8>, at: int, s: Seq<u8>, t: Seq<u8>)
    requires
        holds(b, at, s + t),
    ensures
        holds(b, at, s),
        holds(b, at + s.len(), t),
{
    let all = b.subrange(at, at + (s + t).len());
    assert(b.subrange(at, at + s.len()) =~= all.subrange(0, s.len() as int));
    assert(all.subrange(0, s.len() as int) =~= s);
    assert(b.subrange(at + s.len(), at + s.len() + t.len()) =~= all.subrange(
        s.len() as int,
        (s + t).len() as int,
    ));
    assert(all.subrange(s.len() as int, (s + t).len() as int) =~= t);
}

/// `n` records from `at` on; what is read of a record may depend on the ones
/// before it.
pub open spec fn many<T>(
    b: Seq<u8>,
    at: int,
    n: int,
    f: spec_fn(Seq<T>, Seq<u8>, int) -> Parsed<T>,
) -> Parsed<Seq<T>>
    decreases n,
{
    if n <= 0 {
        Ok((Seq::empty(), at))
    } else {
        match many(b, at, n - 1, f) {
            Err(e) => Err(e),
            Ok((xs, p)) => match f(xs, b, p) {
                Err(e) => Err(e),
                Ok((x, q)) => Ok((xs.push(x), q)),
            },
        }
    }
}

pub proof fn lemma_many_stops<T>(
    b: Seq<u8>,
    at: int,
    i: int,
    n: int,
    f: spec_fn(Seq<T>, Seq<u8>, int) -> Parsed<T>,
)
    requires
        0 <= i <= n,
        many(b, at, i, f) is Err,
    ensures
        many(b, at, n, f) == many(b, at, i, f),
    decreases n - i,
{
    if i < n {
        lemma_many_stops(b, at, i, n - 1, f);
    }
}

/// A count, bounded by the bytes left, and as many records of at least `min`
/// bytes.
pub open spec fn counted<T>(
    b: Seq<u8>,
    at: int,
    min: int,
    f: spec_fn(Seq<T>, Seq<u8>, int) -> Parsed<T>,
) -> Parsed<Seq<T>> {
    if at + 4 > b.len() {
        Err(SnapshotError::Truncated)
    } else if u32_at(b, at) * min > b.len() - (at + 4) {
        Err(SnapshotError::CountOutOfRange)
    } else {
        many(b, at + 4, u32_at(b, at), f)
    }
}

/// The first `k` records one after the other.
pub open spec fn flat<T>(items: Seq<T>, k: int, enc: spec_fn(T) -> Seq<u8>) -> Seq<u8>
    decreases k,
{
    if k <= 0 {
        Seq::empty()
    } else {
        flat(items, k - 1, enc) + enc(items[k - 1])
    }
}

/// A count and the records.
pub open spec fn section<T>(items: Seq<T>, enc: spec_fn(T) -> Seq<u8>) -> Seq<u8> {
    le32(items.len() as u32) + flat(items, items.len() as int, enc)
}

proof fn lemma_flat_len<T>(items: Seq<T>, k: int, enc: spec_fn(T) -> Seq<u8>, min: int)
    requires
        0 <= k <= items.len(),
        0 <= min,
        forall|i: int| 0 <= i < items.len() ==> enc(#[trigger] items[i]).len() >= min,
    ensures
        flat(items, k, enc).len() >= k * min,
    decreases k,
{
    if k > 0 {
        lemma_flat_len(items, k - 1, enc, min);
        assert(enc(items[k - 1]).len() >= min);
        assert(k * min == (k - 1) * min + min) by (nonlinear_arith);
    } else {
        assert(k * min == 0) by (nonlinear_arith)
            requires
                k == 0,
        ;
    }
}

/// Records written one after the other are read back.
proof fn lemma_many_reads<T, U>(
    b: Seq<u8>,
    at: int,
    items: Seq<T>,
    outs: Seq<U>,
    k: int,
    enc: spec_fn(T) -> Seq<u8>,
    f: spec_fn(Seq<U>, Seq<u8>, int) -> Parsed<U>,
)
    requires
        outs.len() == items.len(),
        0 <= k <= items.len(),
        holds(b, at, flat(items, k, enc)),
        forall|i: int, p: int|
            0 <= i < items.len() && holds(b, p, enc(items[i])) ==> #[trigger] f(outs.take(i), b, p)
                == Parsed::<U>::Ok((outs[i], p + enc(items[i]).len())),
    ensures
        many(b, at, k, f) == Parsed::<Seq<U>>::Ok((outs.take(k), at + flat(items, k, enc).len())),
    decreases k,
{
    if k > 0 {
        let head = flat(items, k - 1, enc);
        let last = enc(items[k - 1]);
        lemma_holds_concat(b, at, head, last);
        lemma_many_reads(b, at, items, outs, k - 1, enc, f);
        assert(outs.take(k - 1).push(outs[k - 1]) =~= outs.take(k));
        assert(f(outs.take(k - 1), b, at + head.len()) == Parsed::<U>::Ok(
            (outs[k - 1], at + head.len() + last.len()),
        ));
    } else {
        assert(outs.take(0) =~= Seq::<U>::empty());
    }
}

/// A counted section is read back.
pub proof fn lemma_section_reads<T, U>(
    b: Seq<u8>,
    at: int,
    items: Seq<T>,
    outs: Seq<U>,
    min: int,
    enc: spec_fn(T) -> Seq<u8>,
    f: spec_fn(Seq<U>, Seq<u8>, int) -> Parsed<U>,
)
    requires
        items.len() <= u32::MAX,
        outs.len() == items.len(),
        0 <= min,
        holds(b, at, section(items, enc)),
        forall|i: int| 0 <= i < items.len() ==> enc(#[trigger] items[i]).len() >= min,
        forall|i: int, p: int|
            0 <= i < items.len() && holds(b, p, enc(items[i])) ==> #[trigger] f(outs.take(i), b, p)
                == Parsed::<U>::Ok((outs[i], p + enc(items[i]).len())),
    ensures
        counted(b, at, min, f) == Parsed::<Seq<U>>::Ok((outs, at + section(items, enc).len())),
{
    let n = items.len() as int;
    let count = le32(n as u32);
    let body = flat(items, n, enc);
    lemma_holds_concat(b, at, count, body);
    lemma_u32_holds(b, at, n as u32);
    lemma_flat_len(items, n, enc, min);
    lemma_many_reads(b, at + 4, items, outs, n, enc, f);
    assert(outs.take(n) =~= outs);
}

pub proof fn lemma_u32_holds(b: Seq<u8>, at: int, x: u32)
    requires
        holds(b, at, le32(x)),
    ensures
        u32_at(b, at) == x,
        at + 4 <= b.len(),
{
    lemma_le32(x);
    let s = b.subrange(at, at + 4);
    assert(s[0] == b[at] && s[1] == b[at + 1] && s[2] == b[at + 2] && s[3] == b[at + 3]);
}

proof fn lemma_u16_holds(b: Seq<u8>, at: int, x: u16)
    requires
        holds(b, at, le16(x)),
    ensures
        u16_at(b, at) == x,
        at + 2 <= b.len(),
{
    lemma_le16(x);
    let s = b.subrange(at, at + 2);
    assert(s[0] == b[at] && s[1] == b[at + 1]);
}

pub proof fn lemma_u64_holds(b: Seq<u8>, at: int, x: u64)
    requires
        holds(b, at, le64(x)),
    ensures
        u64_at(b, at) == x,
        at + 8 <= b.len(),
{
    lemma_le64(x);
    let s = b.subrange(at, at + 8);
    assert(s[0] == b[at] && s[1] == b[at + 1] && s[2] == b[at + 2] && s[3] == b[at + 3]);
    assert(s[4] == b[at + 4] && s[5] == b[at + 5] && s[6] == b[at + 6] && s[7] == b[at + 7]);
}

// ---------------------------------------------------------------------------
// Numbers and texts
// ---------------------------------------------------------------------------
/// Four bytes.
pub open spec fn read_u32(b: Seq<u8>, at: int) -> Parsed<u32> {
    if at + 4 > b.len() {
        Err(SnapshotError::Truncated)
    } else {
        Ok((u32_at(b, at) as u32, at + 4))
    }
}

/// A text with its length.
pub open spec fn read_text(b: Seq<u8>, at: int) -> Parsed<Seq<char>> {
    if at + 2 > b.len() {
        Err(SnapshotError::Truncated)
    } else {
        let end = at + 2 + u16_at(b, at);
        if end > b.len() {
            Err(SnapshotError::Truncated)
        } else if !valid_utf8(b.subrange(at + 2, end)) {
            Err(SnapshotError::NotUtf8)
        } else {
            Ok((decode_utf8(b.subrange(at + 2, end)), end))
        }
    }
}

/// A word number, as the id it stands for.
pub open spec fn read_word(b: Seq<u8>, at: int, map: Seq<u32>) -> Parsed<u32> {
    if at + 4 > b.len() {
        Err(SnapshotError::Truncated)
    } else if u32_at(b, at) >= map.len() {
        Err(SnapshotError::WordIndex)
    } else {
        Ok((map[u32_at(b, at)], at + 4))
    }
}

/// The longest part of the first `k` characters that takes at most 65535 bytes.
pub open spec fn cut_len(text: Seq<char>, k: int) -> int
    decreases k,
{
    if k <= 0 || byte_len(text.take(k)) <= u16::MAX {
        k
    } else {
        cut_len(text, k - 1)
    }
}

/// A text cut to 65535 bytes at a character boundary.
pub open spec fn cut_text(text: Seq<char>) -> Seq<char> {
    text.take(cut_len(text, text.len() as int))
}

/// A text with its length.
pub open spec fn text_bytes(text: Seq<char>) -> Seq<u8> {
    le16(byte_len(cut_text(text)) as u16) + encode_utf8(cut_text(text))
}

proof fn lemma_cut_len(text: Seq<char>, k: int)
    requires
        0 <= k <= text.len(),
    ensures
        0 <= cut_len(text, k) <= k,
        byte_len(text.take(cut_len(text, k))) <= u16::MAX,
    decreases k,
{
    if k <= 0 {
        assert(text.take(0) =~= Seq::<char>::empty());
    } else if byte_len(text.take(k)) > u16::MAX {
        lemma_cut_len(text, k - 1);
    }
}

/// A text that fits is read back.
pub proof fn lemma_text_reads(b: Seq<u8>, at: int, text: Seq<char>)
    requires
        byte_len(text) <= u16::MAX,
        holds(b, at, text_bytes(text)),
    ensures
        cut_text(text) == text,
        text_bytes(text).len() == 2 + byte_len(text),
        read_text(b, at) == Parsed::<Seq<char>>::Ok((text, at + text_bytes(text).len())),
{
    assert(text.take(text.len() as int) =~= text);
    let n = byte_len(text) as u16;
    lemma_holds_concat(b, at, le16(n), encode_utf8(text));
    lemma_u16_holds(b, at, n);
    encode_utf8_valid_utf8(text);
    encode_utf8_decode_utf8(text);
}

/// Appends a text with its length.
pub(crate) fn put_text(out: &mut Vec<u8>, text: &str)
    ensures
        final(out)@ == old(out)@ + text_bytes(text@),
{
    let ghost before = out@;
    let chars = chars_of(text);
    let offsets = byte_offsets(&chars);
    let mut k: usize = chars.len();
    proof {
        lemma_cut_len(text@, text@.len() as int);
    }
    while k > 0 && offsets[k] > 65535
        invariant
            chars@ == text@,
            k <= chars@.len(),
            offsets@.len() == chars@.len() + 1,
            forall|i: int|
                0 <= i <= chars@.len() ==> #[trigger] offsets@[i] == byte_len(chars@.take(i)),
            cut_len(text@, text@.len() as int) == cut_len(text@, k as int),
        decreases k,
    {
        k = k - 1;
    }
    let head = string_of(&chars[0..k]);
    assert(head@ =~= cut_text(text@));
    let bytes = head.as_str().as_bytes();
    put_u16(out, bytes.len() as u16);
    put_bytes(out, bytes);
    assert(out@ =~= before + text_bytes(text@));
}

/// Reads a text with its length.
pub(crate) fn get_text(r: &mut Reader<'_>) -> (t: Result<String, SnapshotError>)
    requires
        old(r).wf(),
    ensures
        final(r).wf(),
        final(r).bytes == old(r).bytes,
        match t {
            Ok(s) => read_text(old(r).bytes@, old(r).at as int) == Parsed::<Seq<char>>::Ok(
                (s@, final(r).at as int),
            ),
            Err(e) => read_text(old(r).bytes@, old(r).at as int) == Parsed::<Seq<char>>::Err(e),
        },
{
    let n: usize = match r.u16() {
        Some(n) => n as usize,
        None => {
            return Err(SnapshotError::Truncated);
        },
    };
    match r.take(n) {
        Some(part) => match text_from_utf8(slice_to_vec(part)) {
            Some(s) => {
                proof {
                    encode_utf8_valid_utf8(s@);
                    encode_utf8_decode_utf8(s@);
                }
                Ok(s)
            },
            None => Err(SnapshotError::NotUtf8),
        },
        None => Err(SnapshotError::Truncated),
    }
}

/// Reads a word number.
pub(crate) fn get_word(r: &mut Reader<'_>, map: &Vec<u32>) -> (id: Result<u32, SnapshotError>)
    requires
        old(r).wf(),
    ensures
        final(r).wf(),
        final(r).bytes == old(r).bytes,
        match id {
            Ok(w) => map@.contains(w) && read_word(old(r).bytes@, old(r).at as int, map@)
                == Parsed::<u32>::Ok((w, final(r).at as int)),
            Err(e) => read_word(old(r).bytes@, old(r).at as int, map@) == Parsed::<u32>::Err(e),
        },
{
    match r.u32() {
        Some(i) => if (i as usize) < map.len() {
            Ok(map[i as usize])
        } else {
            Err(SnapshotError::WordIndex)
        },
        None => Err(SnapshotError::Truncated),
    }
}

/// Reads a count of records of at least `min` bytes each.
pub(crate) fn get_count(r: &mut Reader<'_>, min: usize) -> (n: Result<usize, SnapshotError>)
    requires
        old(r).wf(),
        0 < min <= 16,
    ensures
        final(r).wf(),
        final(r).bytes == old(r).bytes,
        match n {
            Ok(n) => old(r).at + 4 <= old(r).bytes@.len() && final(r).at == old(r).at + 4 && n
                == u32_at(old(r).bytes@, old(r).at as int) && n * min <= old(r).bytes@.len() - (
            old(r).at + 4),
            Err(e) => {
                ||| e == SnapshotError::Truncated && old(r).at + 4 > old(r).bytes@.len()
                ||| e == SnapshotError::CountOutOfRange && old(r).at + 4 <= old(r).bytes@.len()
                    && u32_at(old(r).bytes@, old(r).at as int) * min > old(r).bytes@.len() - (
                old(r).at + 4)
            },
        },
{
    match r.u32() {
        Some(n) => {
            let left: u64 = (r.bytes.len() - r.at) as u64;
            assert(n as u64 * min as u64 <= u32::MAX as u64 * 16) by (nonlinear_arith)
                requires
                    n <= u32::MAX,
                    min <= 16,
            ;
            if n as u64 * min as u64 <= left {
                assert(n <= n * min) by (nonlinear_arith)
                    requires
                        min > 0,
                        n >= 0,
                ;
                Ok(n as usize)
            } else {
                Err(SnapshotError::CountOutOfRange)
            }
        },
        None => Err(SnapshotError::Truncated),
    }
}

pub(crate) fn get_u32(r: &mut Reader<'_>) -> (x: Result<u32, SnapshotError>)
    requires
        old(r).wf(),
    ensures
        final(r).wf(),
        final(r).bytes == old(r).bytes,
        match x {
            Ok(v) => read_u32(old(r).bytes@, old(r).at as int) == Parsed::<u32>::Ok(
                (v, final(r).at as int),
            ),
            Err(e) => read_u32(old(r).bytes@, old(r).at as int) == Parsed::<u32>::Err(e),
        },
{
    match r.u32() {
        Some(v) => Ok(v),
        None => Err(SnapshotError::Truncated),
    }
}

} // verus!
