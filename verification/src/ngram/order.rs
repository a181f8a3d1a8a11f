//! Byte order of texts and the block of texts that share a prefix.

use crate::unicode::{lemma_encode_concat, lemma_encode_injective};
use vstd::prelude::*;
use vstd::utf8::*;

verus! {

/// `a` comes before `b` in byte order, their first `i` bytes being the same.
pub open spec fn lt_from(a: Seq<u8>, b: Seq<u8>, i: int) -> bool
    decreases a.len() - i,
{
    if i >= b.len() {
        false
    } else if i >= a.len() {
        true
    } else if a[i] != b[i] {
        a[i] < b[i]
    } else {
        lt_from(a, b, i + 1)
    }
}

/// `a` comes before `b` in byte order.
pub open spec fn text_lt(a: Seq<char>, b: Seq<char>) -> bool {
    lt_from(encode_utf8(a), encode_utf8(b), 0)
}

/// `text` starts with `prefix`.
pub open spec fn starts_with(text: Seq<char>, prefix: Seq<char>) -> bool {
    bytes_start(encode_utf8(text), encode_utf8(prefix))
}

/// `bytes` start with `prefix`.
pub open spec fn bytes_start(bytes: Seq<u8>, prefix: Seq<u8>) -> bool {
    prefix.len() <= bytes.len() && bytes.take(prefix.len() as int) == prefix
}

/// Texts in strictly ascending byte order.
pub open spec fn sorted_texts(words: Seq<Seq<char>>) -> bool {
    forall|i: int, j: int|
        #![trigger words[i], words[j]]
        0 <= i < j < words.len() ==> text_lt(words[i], words[j])
}

/// Texts in ascending byte order: no later one is less.
pub open spec fn ascending_texts(words: Seq<Seq<char>>) -> bool {
    forall|i: int, j: int|
        #![trigger words[i], words[j]]
        0 <= i < j < words.len() ==> !text_lt(words[j], words[i])
}

/// Texts in strictly ascending order are in ascending order.
pub proof fn lemma_sorted_ascends(words: Seq<Seq<char>>)
    requires
        sorted_texts(words),
    ensures
        ascending_texts(words),
{
    assert forall|i: int, j: int|
        #![trigger words[i], words[j]]
        0 <= i < j < words.len() implies !text_lt(words[j], words[i]) by {
        lemma_lt_asymmetric(encode_utf8(words[i]), encode_utf8(words[j]), 0);
    }
}

/// What is not less than a text comes behind it, or is the same.
proof fn lemma_not_less(a: Seq<char>, b: Seq<char>)
    requires
        !text_lt(b, a),
    ensures
        a == b || text_lt(a, b),
{
    if a != b {
        lemma_text_total(a, b);
    }
}

/// In ascending texts, a text at or before one that is less than `key` is less,
/// and a text at or behind one that is not less is not.
pub proof fn lemma_less_spreads(words: Seq<Seq<char>>, key: Seq<char>, i: int, j: int)
    requires
        ascending_texts(words),
        0 <= i <= j < words.len(),
    ensures
        text_lt(words[j], key) ==> text_lt(words[i], key),
{
    if i < j && text_lt(words[j], key) {
        lemma_not_less(words[i], words[j]);
        if words[i] != words[j] {
            lemma_lt_transitive(
                encode_utf8(words[i]),
                encode_utf8(words[j]),
                encode_utf8(key),
                0,
            );
        }
    }
}

pub proof fn lemma_lt_irreflexive(a: Seq<u8>, i: int)
    ensures
        !lt_from(a, a, i),
    decreases a.len() - i,
{
    if i < a.len() {
        lemma_lt_irreflexive(a, i + 1);
    }
}

pub proof fn lemma_lt_asymmetric(a: Seq<u8>, b: Seq<u8>, i: int)
    requires
        lt_from(a, b, i),
    ensures
        !lt_from(b, a, i),
    decreases a.len() - i,
{
    if i < a.len() && i < b.len() && a[i] == b[i] {
        lemma_lt_asymmetric(a, b, i + 1);
    }
}

pub proof fn lemma_lt_transitive(a: Seq<u8>, b: Seq<u8>, c: Seq<u8>, i: int)
    requires
        lt_from(a, b, i),
        lt_from(b, c, i),
    ensures
        lt_from(a, c, i),
    decreases a.len() - i,
{
    if i < a.len() && i < b.len() && i < c.len() && a[i] == b[i] && b[i] == c[i] {
        lemma_lt_transitive(a, b, c, i + 1);
    }
}

pub proof fn lemma_lt_total(a: Seq<u8>, b: Seq<u8>, i: int)
    requires
        0 <= i <= a.len(),
        i <= b.len(),
        a.take(i) == b.take(i),
        a != b,
    ensures
        lt_from(a, b, i) || lt_from(b, a, i),
    decreases a.len() - i,
{
    if i < a.len() && i < b.len() {
        if a[i] == b[i] {
            assert(a.take(i + 1) =~= a.take(i).push(a[i]));
            assert(b.take(i + 1) =~= b.take(i).push(b[i]));
            lemma_lt_total(a, b, i + 1);
        }
    } else if i == a.len() && i == b.len() {
        assert(a.take(i) =~= a);
        assert(b.take(i) =~= b);
    }
}

/// Different texts are in order one way or the other.
pub proof fn lemma_text_total(a: Seq<char>, b: Seq<char>)
    requires
        a != b,
    ensures
        text_lt(a, b) || text_lt(b, a),
{
    let x = encode_utf8(a);
    let y = encode_utf8(b);
    if x == y {
        lemma_encode_injective(a, b);
    }
    assert(x.take(0) =~= y.take(0));
    lemma_lt_total(x, y, 0);
}

/// A text that starts with `p` does not come before `p`; and once a text at or
/// behind `p` does not start with it, none behind that text does.
pub proof fn lemma_prefix_block(p: Seq<u8>, w: Seq<u8>, x: Seq<u8>, i: int)
    requires
        0 <= i <= p.len(),
        i <= w.len(),
        p.take(i) == w.take(i),
        !lt_from(w, p, i),
        !bytes_start(w, p),
        w == x || lt_from(w, x, i),
    ensures
        !bytes_start(x, p),
    decreases p.len() - i,
{
    if bytes_start(x, p) {
        if i >= p.len() {
            assert(p.take(i) =~= p);
            assert(w.take(p.len() as int) =~= p);
        } else {
            assert(x[i] == p[i]) by {
                assert(x.take(p.len() as int)[i] == p[i]);
            }
            if i < w.len() && w[i] == p[i] {
                assert(p.take(i + 1) =~= p.take(i).push(p[i]));
                assert(w.take(i + 1) =~= w.take(i).push(w[i]));
                lemma_prefix_block(p, w, x, i + 1);
            }
        }
    }
}

pub proof fn lemma_prefix_not_before(p: Seq<u8>, w: Seq<u8>, i: int)
    requires
        bytes_start(w, p),
        0 <= i,
    ensures
        !lt_from(w, p, i),
    decreases p.len() - i,
{
    if i < p.len() {
        assert(w.take(p.len() as int)[i] == p[i]);
        lemma_prefix_not_before(p, w, i + 1);
    }
}

/// Whether `a` comes before `b` in byte order.
pub fn text_less(a: &str, b: &str) -> (r: bool)
    ensures
        r == text_lt(a@, b@),
{
    let x = a.as_bytes();
    let y = b.as_bytes();
    let mut i: usize = 0;
    loop
        invariant
            x@ == encode_utf8(a@),
            y@ == encode_utf8(b@),
            i <= x@.len(),
            i <= y@.len(),
            lt_from(x@, y@, 0) == lt_from(x@, y@, i as int),
        decreases x@.len() - i,
    {
        if i >= y.len() {
            return false;
        }
        if i >= x.len() {
            return true;
        }
        if x[i] != y[i] {
            return x[i] < y[i];
        }
        i = i + 1;
    }
}

/// Whether `text` starts with `prefix`.
pub fn text_starts(text: &str, prefix: &str) -> (r: bool)
    ensures
        r == starts_with(text@, prefix@),
{
    let x = text.as_bytes();
    let p = prefix.as_bytes();
    if x.len() < p.len() {
        return false;
    }
    let mut i: usize = 0;
    while i < p.len()
        invariant
            x@ == encode_utf8(text@),
            p@ == encode_utf8(prefix@),
            p@.len() <= x@.len(),
            i <= p@.len(),
            forall|k: int| 0 <= k < i ==> x@[k] == p@[k],
        decreases p@.len() - i,
    {
        if x[i] != p[i] {
            assert(x@.take(p@.len() as int)[i as int] != p@[i as int]);
            return false;
        }
        i = i + 1;
    }
    assert(x@.take(p@.len() as int) =~= p@);
    true
}

/// The texts of sorted `words` that start with `prefix` are those from `lo` to
/// `hi`.
pub open spec fn prefix_block(words: Seq<Seq<char>>, prefix: Seq<char>, lo: int, hi: int) -> bool {
    &&& 0 <= lo <= hi <= words.len()
    &&& forall|i: int|
        0 <= i < words.len() ==> (starts_with(#[trigger] words[i], prefix) <==> lo <= i < hi)
}

/// Starting with a text's bytes is starting with its characters.
pub proof fn lemma_starts_with(text: Seq<char>, prefix: Seq<char>)
    ensures
        starts_with(text, prefix) <==> prefix.len() <= text.len() && text.take(prefix.len() as int)
            == prefix,
    decreases prefix.len(),
{
    let t = encode_utf8(text);
    let p = encode_utf8(prefix);
    if prefix.len() <= text.len() && text.take(prefix.len() as int) == prefix {
        let rest = text.skip(prefix.len() as int);
        assert(prefix + rest =~= text);
        lemma_encode_concat(prefix, rest);
        assert(t.take(p.len() as int) =~= p);
    }
    if starts_with(text, prefix) {
        if prefix.len() > 0 {
            encode_utf8_first_scalar(prefix);
            if text.len() == 0 {
                assert(t.len() == 0);
            }
            encode_utf8_first_scalar(text);
            let n = length_of_first_scalar(p);
            assert forall|k: int| 0 <= k < p.len() implies #[trigger] t[k] == p[k] by {
                assert(t.take(p.len() as int)[k] == p[k]);
            }
            assert(t[0] == p[0]);
            assert(length_of_first_scalar(t) == n);
            assert(decode_first_scalar(t) == decode_first_scalar(p));
            lemma_same_char(text[0], prefix[0]);
            let tail = text.drop_first();
            let rest = prefix.drop_first();
            assert(t =~= encode_scalar(text[0] as u32) + encode_utf8(tail));
            assert(p =~= encode_scalar(prefix[0] as u32) + encode_utf8(rest));
            let q = encode_utf8(rest);
            assert forall|k: int| 0 <= k < q.len() implies encode_utf8(tail)[k] == q[k] by {
                assert(t[n + k] == p[n + k]);
            }
            assert(encode_utf8(tail).take(q.len() as int) =~= q);
            lemma_starts_with(tail, rest);
            assert(text.take(prefix.len() as int) =~= prefix) by {
                assert forall|k: int| 0 <= k < prefix.len() implies text[k] == prefix[k] by {
                    if k > 0 {
                        assert(tail.take(rest.len() as int)[k - 1] == rest[k - 1]);
                    }
                }
            }
        } else {
            assert(text.take(0) =~= prefix);
        }
    }
}

proof fn lemma_same_char(a: char, b: char)
    requires
        a as u32 == b as u32,
    ensures
        a == b,
{
}

/// What two binary searches learn: everything before `lo` comes before the
/// prefix, and nothing else does; from `lo` up to `hi` all start with it, and
/// from `hi` on none does.
pub proof fn lemma_prefix_search(
    words: Seq<Seq<char>>,
    prefix: Seq<char>,
    lo: int,
    at: int,
)
    requires
        ascending_texts(words),
        0 <= lo <= at < words.len(),
        forall|i: int| 0 <= i < lo ==> text_lt(#[trigger] words[i], prefix),
        forall|i: int| lo <= i < words.len() ==> !text_lt(#[trigger] words[i], prefix),
    ensures
        starts_with(words[at], prefix) ==> forall|i: int|
            lo <= i <= at ==> starts_with(#[trigger] words[i], prefix),
        !starts_with(words[at], prefix) ==> forall|i: int|
            at <= i < words.len() ==> !starts_with(#[trigger] words[i], prefix),
        forall|i: int| 0 <= i < lo ==> !starts_with(#[trigger] words[i], prefix),
{
    let p = encode_utf8(prefix);
    assert forall|i: int, j: int|
        lo <= i <= j < words.len() && !starts_with(#[trigger] words[i], prefix) implies !starts_with(
        #[trigger] words[j],
        prefix,
    ) by {
        let w = encode_utf8(words[i]);
        let x = encode_utf8(words[j]);
        assert(p.take(0) =~= w.take(0));
        if i < j {
            lemma_not_less(words[i], words[j]);
        }
        lemma_prefix_block(p, w, x, 0);
    }
    assert forall|i: int| 0 <= i < lo implies !starts_with(#[trigger] words[i], prefix) by {
        if starts_with(words[i], prefix) {
            lemma_prefix_not_before(p, encode_utf8(words[i]), 0);
        }
    }
}

} // verus!
