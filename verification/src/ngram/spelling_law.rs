//! What misspellings count toward, and which words they are compared with.

use crate::ngram::hygiene::{
    deletes_and_swaps, insertions, letter_insertions, letter_substitutions, neighbours, nth_letter,
    slips, spliced, substitutions,
};
use crate::ngram::lexicon::{
    canonical_of, found_ids, id_of, pull, refreshed, slip_ids, strongest, stronger, suggestible,
    Known, Params, NONE,
};
use vstd::prelude::*;

verus! {

// ---------------------------------------------------------------------------
// One edit away
// ---------------------------------------------------------------------------
proof fn lemma_deletes_and_swaps(w: Seq<char>, n: int, i: int)
    requires
        0 <= i < n,
    ensures
        0 < i < w.len() - 1 && w[i] != '\'' ==> deletes_and_swaps(w, n).contains(
            w.take(i) + w.skip(i + 1),
        ),
        i < w.len() - 2 && w[i] != w[i + 1] && w[i] != '\'' && w[i + 1] != '\''
            ==> deletes_and_swaps(w, n).contains(
            w.take(i) + seq![w[i + 1], w[i]] + w.skip(i + 2),
        ),
    decreases n,
{
    let now = deletes_and_swaps(w, n);
    let prior = deletes_and_swaps(w, n - 1);
    assert(prior.len() <= now.len());
    assert forall|k: int| 0 <= k < prior.len() implies now[k] == #[trigger] prior[k] by {}
    let a = w.take(i) + w.skip(i + 1);
    let b = w.take(i) + seq![w[i + 1], w[i]] + w.skip(i + 2);
    if i < n - 1 {
        lemma_deletes_and_swaps(w, n - 1, i);
        if prior.contains(a) {
            let k = choose|k: int| 0 <= k < prior.len() && prior[k] == a;
            assert(now[k] == a);
        }
        if prior.contains(b) {
            let k = choose|k: int| 0 <= k < prior.len() && prior[k] == b;
            assert(now[k] == b);
        }
    } else {
        assert(spliced(w, i, Seq::empty(), i + 1) =~= a);
        assert(spliced(w, i, seq![w[i + 1], w[i]], i + 2) =~= b);
        if 0 < i < w.len() - 1 && w[i] != '\'' {
            assert(now[prior.len() as int] == a);
        }
        if i < w.len() - 2 && w[i] != w[i + 1] && w[i] != '\'' && w[i + 1] != '\'' {
            assert(now[now.len() - 1] == b);
        }
    }
}

proof fn lemma_letters(w: Seq<char>, i: int, k: int, j: int)
    requires
        0 <= j < k <= 26,
    ensures
        nth_letter(j) != w[i] ==> letter_substitutions(w, i, k).contains(
            spliced(w, i, seq![nth_letter(j)], i + 1),
        ),
        letter_insertions(w, i, k).contains(spliced(w, i, seq![nth_letter(j)], i)),
    decreases k,
{
    let s = letter_substitutions(w, i, k);
    let n = letter_insertions(w, i, k);
    let s0 = letter_substitutions(w, i, k - 1);
    let n0 = letter_insertions(w, i, k - 1);
    let a = spliced(w, i, seq![nth_letter(j)], i + 1);
    let b = spliced(w, i, seq![nth_letter(j)], i);
    if j < k - 1 {
        lemma_letters(w, i, k - 1, j);
        if s0.contains(a) {
            let q = choose|q: int| 0 <= q < s0.len() && s0[q] == a;
            assert(s[q] == a);
        }
        let q = choose|q: int| 0 <= q < n0.len() && n0[q] == b;
        assert(n[q] == b);
    } else {
        if nth_letter(j) != w[i] {
            assert(s[s.len() - 1] == a);
        }
        assert(n[n.len() - 1] == b);
    }
}

proof fn lemma_substitutions(w: Seq<char>, n: int, i: int, j: int)
    requires
        0 < i < n,
        0 <= j < 26,
        w[i] != '\'',
        nth_letter(j) != w[i],
    ensures
        substitutions(w, n).contains(spliced(w, i, seq![nth_letter(j)], i + 1)),
    decreases n,
{
    let a = spliced(w, i, seq![nth_letter(j)], i + 1);
    let now = substitutions(w, n);
    let prior = substitutions(w, n - 1);
    if i < n - 1 {
        lemma_substitutions(w, n - 1, i, j);
        let q = choose|q: int| 0 <= q < prior.len() && prior[q] == a;
        assert(now[q] == a);
    } else {
        lemma_letters(w, i, 26, j);
        let more = letter_substitutions(w, i, 26);
        let q = choose|q: int| 0 <= q < more.len() && more[q] == a;
        assert(now[prior.len() + q] == a);
    }
}

proof fn lemma_insertions(w: Seq<char>, n: int, i: int, j: int)
    requires
        0 < i < n,
        0 <= j < 26,
    ensures
        insertions(w, n).contains(spliced(w, i, seq![nth_letter(j)], i)),
    decreases n,
{
    let a = spliced(w, i, seq![nth_letter(j)], i);
    let now = insertions(w, n);
    let prior = insertions(w, n - 1);
    if i < n - 1 {
        lemma_insertions(w, n - 1, i, j);
        let q = choose|q: int| 0 <= q < prior.len() && prior[q] == a;
        assert(now[q] == a);
    } else {
        lemma_letters(w, i, 26, j);
        let more = letter_insertions(w, i, 26);
        let q = choose|q: int| 0 <= q < more.len() && more[q] == a;
        assert(now[prior.len() + q] == a);
    }
}

/// A word's neighbours are all words that one slip makes of it: an inner
/// character left out, two unequal characters before the last swapped, an inner
/// character replaced by a letter, or a letter put in behind the first and
/// before the last; apostrophes stay where they are.
pub proof fn law_neighbours_are_one_slip_away(w: Seq<char>, i: int, j: int)
    requires
        0 <= j < 26,
    ensures
        0 < i < w.len() - 1 && w[i] != '\'' ==> neighbours(w).contains(w.take(i) + w.skip(i + 1)),
        0 <= i < w.len() - 2 && w[i] != w[i + 1] && w[i] != '\'' && w[i + 1] != '\'' ==> neighbours(
            w,
        ).contains(w.take(i) + seq![w[i + 1], w[i]] + w.skip(i + 2)),
        0 < i < w.len() - 1 && w[i] != '\'' && w[i] != (97 + j) as char ==> neighbours(w).contains(
            w.take(i) + seq![(97 + j) as char] + w.skip(i + 1),
        ),
        0 < i < w.len() ==> neighbours(w).contains(
            w.take(i) + seq![(97 + j) as char] + w.skip(i),
        ),
{
    let all = neighbours(w);
    let a = deletes_and_swaps(w, w.len() - 1);
    let b = substitutions(w, w.len() - 1);
    let c = insertions(w, w.len() as int);
    assert(all == a + b + c);
    if 0 <= i < w.len() - 1 {
        lemma_deletes_and_swaps(w, w.len() - 1, i);
        let x = w.take(i) + w.skip(i + 1);
        if a.contains(x) {
            let q = choose|q: int| 0 <= q < a.len() && a[q] == x;
            assert(all[q] == x);
        }
        let y = w.take(i) + seq![w[i + 1], w[i]] + w.skip(i + 2);
        if a.contains(y) {
            let q = choose|q: int| 0 <= q < a.len() && a[q] == y;
            assert(all[q] == y);
        }
    }
    if 0 < i < w.len() - 1 && w[i] != '\'' && w[i] != (97 + j) as char {
        lemma_substitutions(w, w.len() - 1, i, j);
        let x = spliced(w, i, seq![nth_letter(j)], i + 1);
        let q = choose|q: int| 0 <= q < b.len() && b[q] == x;
        assert(all[a.len() + q] == x);
    }
    if 0 < i < w.len() {
        lemma_insertions(w, w.len() as int, i, j);
        let x = spliced(w, i, seq![nth_letter(j)], i);
        let q = choose|q: int| 0 <= q < c.len() && c[q] == x;
        assert(all[a.len() + b.len() + q] == x);
    }
}

// ---------------------------------------------------------------------------
// Real spellings
// ---------------------------------------------------------------------------
/// `other` may absorb `id`: it was typed so many times as often, and is a real
/// spelling or typed ten times; or it was never typed, is a real spelling of the
/// web, and `id` is still rare.
pub open spec fn may_absorb(l: Known, p: Params, id: int, other: int) -> bool {
    if l.raw[other] > 0 {
        l.raw[other] >= p.canon_ratio * (l.raw[id] + 1) && (l.trusted[other] || l.raw[other] >= 10)
    } else {
        l.raw[id] < p.canon_max_count && l.web[other] != NONE && l.trusted[other]
    }
}

proof fn lemma_strongest(
    l: Known,
    web_count: Seq<u32>,
    p: Params,
    id: int,
    list: Seq<Seq<char>>,
    k: int,
)
    requires
        0 <= k <= list.len(),
    ensures
        ({
            let (c, key) = strongest(l, web_count, p, id, list, k);
            &&& c == id && key == (0u64, 0i64) || exists|i: int|
                0 <= i < k && id_of(l.words, #[trigger] list[i]) == Some(c) && pull(
                    l,
                    web_count,
                    p,
                    id,
                    c,
                ) == Some(key)
            &&& forall|i: int, other: int|
                0 <= i < k && id_of(l.words, #[trigger] list[i]) == Some(other) && (#[trigger] pull(
                    l,
                    web_count,
                    p,
                    id,
                    other,
                )) is Some ==> !stronger(pull(l, web_count, p, id, other)->0, key)
        }),
    decreases k,
{
    if k > 0 {
        lemma_strongest(l, web_count, p, id, list, k - 1);
        let prior = strongest(l, web_count, p, id, list, k - 1);
        let now = strongest(l, web_count, p, id, list, k);
        if now == prior {
            if !(now.0 == id && now.1 == (0u64, 0i64)) {
                let i = choose|i: int|
                    0 <= i < k - 1 && id_of(l.words, #[trigger] list[i]) == Some(prior.0) && pull(
                        l,
                        web_count,
                        p,
                        id,
                        prior.0,
                    ) == Some(prior.1);
                assert(id_of(l.words, list[i]) == Some(now.0));
            }
        } else {
            assert(id_of(l.words, list[k - 1]) == Some(now.0));
        }
        assert forall|i: int, other: int|
            0 <= i < k && id_of(l.words, #[trigger] list[i]) == Some(other) && (#[trigger] pull(
                l,
                web_count,
                p,
                id,
                other,
            )) is Some implies !stronger(pull(l, web_count, p, id, other)->0, now.1) by {
            if i < k - 1 {
                assert(!stronger(pull(l, web_count, p, id, other)->0, prior.1));
            }
        }
    }
}

/// A word counts as itself, unless it is a misspelling of five or more
/// characters and a neighbour may absorb it; and then no neighbour that may was
/// typed more often than the one it counts as, where web counts are finite.
pub proof fn law_misspellings_count_as_what_may_absorb_them(
    l: Known,
    web_count: Seq<u32>,
    p: Params,
    id: int,
    i: int,
)
    requires
        0 <= id < l.words.len(),
        0 <= i < neighbours(l.words[id]).len(),
    ensures
        ({
            let c = canonical_of(l, web_count, p, id);
            let list = neighbours(l.words[id]);
            &&& !p.canonicalize || l.trusted[id] || l.words[id].len() < 5 ==> c == id
            &&& c != id ==> may_absorb(l, p, id, c) && l.words.contains(l.words[c]) && list.contains(
                l.words[c],
            )
            &&& p.canonicalize && !l.trusted[id] && l.words[id].len() >= 5 ==> match id_of(
                l.words,
                list[i],
            ) {
                Some(other) => pull(l, web_count, p, id, other) is Some ==> pull(
                    l,
                    web_count,
                    p,
                    id,
                    c,
                ) is Some && !stronger(
                    pull(l, web_count, p, id, other)->0,
                    pull(l, web_count, p, id, c)->0,
                ) || c == id,
                None => true,
            }
        }),
{
    let c = canonical_of(l, web_count, p, id);
    let list = neighbours(l.words[id]);
    lemma_strongest(l, web_count, p, id, list, list.len() as int);
    let (best, key) = strongest(l, web_count, p, id, list, list.len() as int);
    if c != id {
        let k = choose|k: int|
            0 <= k < list.len() && id_of(l.words, #[trigger] list[k]) == Some(best) && pull(
                l,
                web_count,
                p,
                id,
                best,
            ) == Some(key);
        assert(l.words.contains(list[k]));
        assert(l.words[c] == list[k]);
        assert(list.contains(list[k]));
    }
    if let Some(other) = id_of(l.words, list[i]) {
        if pull(l, web_count, p, id, other) is Some && p.canonicalize && !l.trusted[id]
            && l.words[id].len() >= 5 {
            assert(!stronger(pull(l, web_count, p, id, other)->0, key));
        }
    }
}

proof fn lemma_found(words: Seq<Seq<char>>, list: Seq<Seq<char>>, k: int)
    requires
        0 <= k <= list.len(),
        words.len() < NONE,
    ensures
        forall|x: u32|
            #[trigger] found_ids(words, list, k).contains(x) ==> x < words.len() && exists|i: int|
                0 <= i < k && #[trigger] list[i] == words[x as int],
        forall|i: int|
            0 <= i < k && words.contains(#[trigger] list[i]) ==> found_ids(words, list, k).contains(
                words.index_of(list[i]) as u32,
            ),
    decreases k,
{
    if k > 0 {
        lemma_found(words, list, k - 1);
        let prior = found_ids(words, list, k - 1);
        let now = found_ids(words, list, k);
        assert forall|x: u32| #[trigger] now.contains(x) implies x < words.len() && exists|i: int|
            0 <= i < k && #[trigger] list[i] == words[x as int] by {
            if prior.contains(x) {
                let i = choose|i: int| 0 <= i < k - 1 && #[trigger] list[i] == words[x as int];
                assert(list[i] == words[x as int]);
            } else {
                let q = choose|q: int| 0 <= q < now.len() && now[q] == x;
                if q < prior.len() {
                    assert(prior[q] == x);
                }
                let at = words.index_of(list[k - 1]);
                assert(words[at] == list[k - 1]);
                assert(x == at);
            }
        }
        assert forall|i: int| 0 <= i < k && words.contains(#[trigger] list[i]) implies now.contains(
            words.index_of(list[i]) as u32,
        ) by {
            let x = words.index_of(list[i]) as u32;
            if i < k - 1 {
                assert(prior.contains(x));
                let q = choose|q: int| 0 <= q < prior.len() && prior[q] == x;
                assert(now[q] == x);
            } else if !prior.contains(x) {
                assert(now[prior.len() as int] == x);
            }
        }
    }
}

/// A misspelling is shadowed exactly where a real word one unmistakable slip
/// away was typed at least three times and at least a third as often.
pub proof fn law_shadows_are_cast_by_real_words(l: Known, id: int)
    requires
        l.words.len() < NONE,
        0 <= id < l.words.len(),
        l.shadowed.len() == l.words.len(),
        forall|i: int, j: int| 0 <= i < j < l.words.len() ==> l.words[i] != l.words[j],
    ensures
        refreshed(l, id).shadowed[id] <==> exists|k: int|
            0 <= k < l.words.len() && slips(l.words[id]).contains(#[trigger] l.words[k])
                && l.trusted[k] && l.raw[k] >= 3 && 3 * l.raw[k] >= l.raw[id],
        forall|k: int|
            0 <= k < l.words.len() && k != id ==> #[trigger] refreshed(l, id).shadowed[k]
                == l.shadowed[k],
{
    let list = slips(l.words[id]);
    let found = slip_ids(l.words, id);
    lemma_found(l.words, list, list.len() as int);
    if refreshed(l, id).shadowed[id] {
        let j = choose|j: int|
            0 <= j < found.len() && l.trusted[(#[trigger] found[j]) as int] && l.raw[found[j] as int]
                >= 3 && 3 * l.raw[found[j] as int] >= l.raw[id];
        assert(found.contains(found[j]));
        let k = found[j] as int;
        assert(list.contains(l.words[k]));
    }
    if exists|k: int|
        0 <= k < l.words.len() && list.contains(#[trigger] l.words[k]) && l.trusted[k] && l.raw[k]
            >= 3 && 3 * l.raw[k] >= l.raw[id] {
        let k = choose|k: int|
            0 <= k < l.words.len() && list.contains(#[trigger] l.words[k]) && l.trusted[k]
                && l.raw[k] >= 3 && 3 * l.raw[k] >= l.raw[id];
        let i = choose|i: int| 0 <= i < list.len() && list[i] == l.words[k];
        assert(l.words.contains(list[i]));
        let at = l.words.index_of(list[i]);
        assert(l.words[at] == l.words[k]);
        assert(at == k) by {
            if at < k {
                assert(l.words[at] != l.words[k]);
            } else if k < at {
                assert(l.words[k] != l.words[at]);
            }
        }
        assert(found.contains(k as u32));
        let j = choose|j: int| 0 <= j < found.len() && found[j] == k as u32;
        assert(l.trusted[found[j] as int]);
    }
}

/// Real spellings may always be suggested, shadowed misspellings never, and any
/// other word where it is of the web or typed often enough.
pub proof fn law_what_may_be_suggested(l: Known, id: int, min_count: u32)
    ensures
        l.trusted[id] ==> suggestible(l, id, min_count),
        !l.trusted[id] && l.shadowed[id] ==> !suggestible(l, id, min_count),
        !l.trusted[id] && !l.shadowed[id] && l.web[id] != NONE ==> suggestible(l, id, min_count),
        !l.trusted[id] && !l.shadowed[id] && l.web[id] == NONE ==> (suggestible(l, id, min_count)
            <==> l.raw[id] >= min_count),
{
}

/// A misspelling counts as another word as soon as some neighbour that may
/// absorb it was typed, where that neighbour's web count is finite.
pub proof fn law_typed_neighbours_absorb_misspellings(
    l: Known,
    web_count: Seq<u32>,
    p: Params,
    id: int,
    i: int,
    other: int,
)
    requires
        0 <= id < l.words.len(),
        p.canonicalize,
        p.canon_ratio >= 1,
        !l.trusted[id],
        l.words[id].len() >= 5,
        0 <= i < neighbours(l.words[id]).len(),
        id_of(l.words, neighbours(l.words[id])[i]) == Some(other),
        may_absorb(l, p, id, other),
        l.raw[other] > 0,
        l.web[other] == NONE || web_count[l.web[other] as int] < 0x7f80_0000,
    ensures
        canonical_of(l, web_count, p, id) != id,
        l.raw[canonical_of(l, web_count, p, id)] >= l.raw[other] || l.web[canonical_of(
            l,
            web_count,
            p,
            id,
        )] != NONE,
{
    let list = neighbours(l.words[id]);
    let n = list.len() as int;
    lemma_strongest(l, web_count, p, id, list, n);
    let (best, key) = strongest(l, web_count, p, id, list, n);
    let offer = pull(l, web_count, p, id, other);
    assert(p.canon_ratio * (l.raw[id] + 1) >= l.raw[id] + 1) by (nonlinear_arith)
        requires
            p.canon_ratio >= 1,
            l.raw[id] >= 0,
    ;
    assert(offer is Some && (offer->0).0 == l.raw[other]);
    assert(id_of(l.words, list[i]) == Some(other));
    assert(!stronger(offer->0, key));
    assert(key != (0u64, 0i64));
    let k = choose|k: int|
        0 <= k < list.len() && id_of(l.words, #[trigger] list[k]) == Some(best) && pull(
            l,
            web_count,
            p,
            id,
            best,
        ) == Some(key);
    assert(pull(l, web_count, p, id, id) is None);
}

} // verus!
