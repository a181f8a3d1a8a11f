//! Sorting word lists and folding them together without repeats.

use crate::ngram::order::{lemma_lt_transitive, lemma_text_total, sorted_texts, text_less, text_lt};
use crate::ngram::vocab::texts;
use vstd::prelude::*;
use vstd::utf8::encode_utf8;

verus! {

/// `out` holds, in byte order and each once, exactly the words of `a` and `b`.
pub open spec fn is_merge(out: Seq<Seq<char>>, a: Seq<Seq<char>>, b: Seq<Seq<char>>) -> bool {
    &&& sorted_texts(out)
    &&& forall|w: Seq<char>| #[trigger] out.contains(w) <==> a.contains(w) || b.contains(w)
}

proof fn lemma_push_sorted(out: Seq<Seq<char>>, w: Seq<char>)
    requires
        sorted_texts(out),
        forall|k: int| 0 <= k < out.len() ==> text_lt(#[trigger] out[k], w),
    ensures
        sorted_texts(out.push(w)),
{
    let now = out.push(w);
    assert forall|i: int, j: int|
        #![trigger now[i], now[j]]
        0 <= i < j < now.len() implies text_lt(now[i], now[j]) by {
        assert(now[i] == out[i]);
        if j < out.len() {
            assert(now[j] == out[j]);
        }
    }
}

proof fn lemma_take_more(a: Seq<Seq<char>>, i: int, w: Seq<char>)
    requires
        0 <= i < a.len(),
    ensures
        a.take(i + 1).contains(w) <==> a.take(i).contains(w) || a[i] == w,
{
    let more = a.take(i + 1);
    let less = a.take(i);
    if more.contains(w) {
        let k = choose|k: int| 0 <= k < more.len() && more[k] == w;
        if k < i {
            assert(less[k] == w);
        }
    }
    if less.contains(w) {
        let k = choose|k: int| 0 <= k < less.len() && less[k] == w;
        assert(more[k] == w);
    }
    if a[i] == w {
        assert(more[i] == w);
    }
}

proof fn lemma_push_contains(s: Seq<Seq<char>>, x: Seq<char>, y: Seq<char>)
    ensures
        s.push(x).contains(y) <==> s.contains(y) || x == y,
{
    let t = s.push(x);
    if s.contains(y) {
        let k = choose|k: int| 0 <= k < s.len() && s[k] == y;
        assert(t[k] == y);
    }
    if x == y {
        assert(t[s.len() as int] == y);
    }
    if t.contains(y) {
        let k = choose|k: int| 0 <= k < t.len() && t[k] == y;
        if k < s.len() {
            assert(s[k] == y);
        }
    }
}

/// The words of two sorted lists, in order, each once.
pub fn merge_distinct(a: &Vec<String>, b: &Vec<String>) -> (out: Vec<String>)
    requires
        sorted_texts(texts(a@)),
        sorted_texts(texts(b@)),
    ensures
        is_merge(texts(out@), texts(a@), texts(b@)),
        out@.len() <= a@.len() + b@.len(),
{
    let ghost x = texts(a@);
    let ghost y = texts(b@);
    let mut out: Vec<String> = Vec::new();
    let mut i: usize = 0;
    let mut j: usize = 0;
    while i < a.len() || j < b.len()
        invariant
            i <= a@.len(),
            j <= b@.len(),
            x == texts(a@),
            y == texts(b@),
            sorted_texts(x),
            sorted_texts(y),
            out@.len() <= i + j,
            sorted_texts(texts(out@)),
            forall|w: Seq<char>| #[trigger]
                texts(out@).contains(w) <==> x.take(i as int).contains(w) || y.take(
                    j as int,
                ).contains(w),
            forall|k: int|
                0 <= k < out@.len() && i < a@.len() ==> text_lt(
                    #[trigger] texts(out@)[k],
                    x[i as int],
                ),
            forall|k: int|
                0 <= k < out@.len() && j < b@.len() ==> text_lt(
                    #[trigger] texts(out@)[k],
                    y[j as int],
                ),
        decreases a@.len() - i + b@.len() - j,
    {
        let ghost before = texts(out@);
        let first: bool = j >= b.len() || (i < a.len() && text_less(a[i].as_str(), b[j].as_str()));
        let second: bool = !first && (i >= a.len() || text_less(b[j].as_str(), a[i].as_str()));
        let word: String = if second {
            b[j].as_str().to_owned()
        } else {
            a[i].as_str().to_owned()
        };
        let ghost w = word@;
        proof {
            if !first && !second && x[i as int] != y[j as int] {
                lemma_text_total(x[i as int], y[j as int]);
            }
            lemma_push_sorted(before, w);
        }
        out.push(word);
        assert(texts(out@) =~= before.push(w));
        let ni: usize = if second {
            i
        } else {
            i + 1
        };
        let nj: usize = if first {
            j
        } else {
            j + 1
        };
        proof {
            let now = texts(out@);
            assert forall|v: Seq<char>| #[trigger] now.contains(v) <==> x.take(ni as int).contains(v)
                || y.take(nj as int).contains(v) by {
                lemma_push_contains(before, w, v);
                if i < x.len() {
                    lemma_take_more(x, i as int, v);
                }
                if j < y.len() {
                    lemma_take_more(y, j as int, v);
                }
                assert(before.contains(v) <==> x.take(i as int).contains(v) || y.take(
                    j as int,
                ).contains(v));
            }
            assert forall|k: int| 0 <= k < now.len() && ni < a@.len() implies text_lt(
                #[trigger] now[k],
                x[ni as int],
            ) by {
                if k < before.len() {
                    assert(now[k] == before[k]);
                    if ni > i {
                        assert(text_lt(x[i as int], x[ni as int]));
                        lemma_lt_transitive(
                            encode_utf8(before[k]),
                            encode_utf8(x[i as int]),
                            encode_utf8(x[ni as int]),
                            0,
                        );
                    }
                } else if ni > i {
                    assert(text_lt(x[i as int], x[ni as int]));
                }
            }
            assert forall|k: int| 0 <= k < now.len() && nj < b@.len() implies text_lt(
                #[trigger] now[k],
                y[nj as int],
            ) by {
                if k < before.len() {
                    assert(now[k] == before[k]);
                    if nj > j {
                        assert(text_lt(y[j as int], y[nj as int]));
                        lemma_lt_transitive(
                            encode_utf8(before[k]),
                            encode_utf8(y[j as int]),
                            encode_utf8(y[nj as int]),
                            0,
                        );
                    }
                } else if nj > j {
                    assert(text_lt(y[j as int], y[nj as int]));
                }
            }
        }
        i = ni;
        j = nj;
    }
    assert(x.take(i as int) =~= x);
    assert(y.take(j as int) =~= y);
    out
}

/// The words from `from` up to `to`, in byte order, each once.
fn sort_range(words: &Vec<String>, from: usize, to: usize) -> (out: Vec<String>)
    requires
        from <= to <= words@.len(),
    ensures
        sorted_texts(texts(out@)),
        forall|w: Seq<char>| #[trigger]
            texts(out@).contains(w) <==> texts(words@).subrange(from as int, to as int).contains(w),
        out@.len() <= to - from,
    decreases to - from,
{
    let ghost part = texts(words@).subrange(from as int, to as int);
    if to - from <= 1 {
        let mut out: Vec<String> = Vec::new();
        if from < to {
            out.push(words[from].as_str().to_owned());
        }
        assert(texts(out@) =~= part);
        return out;
    }
    let mid: usize = from + (to - from) / 2;
    let a = sort_range(words, from, mid);
    let b = sort_range(words, mid, to);
    let out = merge_distinct(&a, &b);
    proof {
        let l = texts(words@).subrange(from as int, mid as int);
        let r = texts(words@).subrange(mid as int, to as int);
        assert(part =~= l + r);
        assert forall|w: Seq<char>| #[trigger] texts(out@).contains(w) <==> part.contains(w) by {
            assert(texts(a@).contains(w) <==> l.contains(w));
            assert(texts(b@).contains(w) <==> r.contains(w));
            if l.contains(w) {
                let k = choose|k: int| 0 <= k < l.len() && l[k] == w;
                assert(part[k] == w);
            }
            if r.contains(w) {
                let k = choose|k: int| 0 <= k < r.len() && r[k] == w;
                assert(part[l.len() + k] == w);
            }
            if part.contains(w) {
                let k = choose|k: int| 0 <= k < part.len() && part[k] == w;
                if k < l.len() {
                    assert(l[k] == w);
                } else {
                    assert(r[k - l.len()] == w);
                }
            }
        }
    }
    out
}

/// The words of any list, in byte order, each once.
pub fn sort_distinct(words: &Vec<String>) -> (out: Vec<String>)
    ensures
        sorted_texts(texts(out@)),
        forall|w: Seq<char>| #[trigger]
            texts(out@).contains(w) <==> texts(words@).contains(w),
        out@.len() <= words@.len(),
{
    let out = sort_range(words, 0, words.len());
    assert(texts(words@).subrange(0, words@.len() as int) =~= texts(words@));
    out
}

} // verus!
