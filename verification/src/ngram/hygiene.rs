//! Spelling-edit enumeration for vocabulary hygiene: which learned spellings
//! are typing slips of real words.

use crate::ngram::vocab::texts;
use crate::unicode::{chars_of, string_of};
use vstd::prelude::*;

verus! {

/// `w` with the characters from `i` up to `j` replaced by `mid`.
pub open spec fn spliced(w: Seq<char>, i: int, mid: Seq<char>, j: int) -> Seq<char> {
    w.take(i) + mid + w.skip(j)
}

/// The `k`-th letter of `a`–`z`.
pub open spec fn nth_letter(k: int) -> char {
    (97 + k) as char
}

/// Deleting the character at `i` counts as a slip: neither the first nor an
/// apostrophe.
pub open spec fn deletable(w: Seq<char>, i: int) -> bool {
    0 < i < w.len() - 1 && w[i] != '\''
}

/// Swapping the characters at `i` and `i + 1` counts as a slip: they differ,
/// neither is an apostrophe, and neither is the final character.
pub open spec fn swappable(w: Seq<char>, i: int) -> bool {
    0 <= i < w.len() - 2 && w[i] != w[i + 1] && w[i] != '\'' && w[i + 1] != '\''
}

/// The deletes and adjacent swaps at positions before `i`, in order.
pub open spec fn deletes_and_swaps(w: Seq<char>, i: int) -> Seq<Seq<char>>
    decreases i,
{
    if i <= 0 {
        Seq::empty()
    } else {
        let at = i - 1;
        let prior = deletes_and_swaps(w, at);
        let less = if deletable(w, at) {
            prior.push(spliced(w, at, Seq::empty(), at + 1))
        } else {
            prior
        };
        if swappable(w, at) {
            less.push(spliced(w, at, seq![w[at + 1], w[at]], at + 2))
        } else {
            less
        }
    }
}

/// The substitutions of the first `k` letters at `i`.
pub open spec fn letter_substitutions(w: Seq<char>, i: int, k: int) -> Seq<Seq<char>>
    decreases k,
{
    if k <= 0 {
        Seq::empty()
    } else if nth_letter(k - 1) != w[i] {
        letter_substitutions(w, i, k - 1).push(spliced(w, i, seq![nth_letter(k - 1)], i + 1))
    } else {
        letter_substitutions(w, i, k - 1)
    }
}

/// The substitutions at inner positions before `i`.
pub open spec fn substitutions(w: Seq<char>, i: int) -> Seq<Seq<char>>
    decreases i,
{
    if i <= 1 {
        Seq::empty()
    } else if w[i - 1] == '\'' {
        substitutions(w, i - 1)
    } else {
        substitutions(w, i - 1) + letter_substitutions(w, i - 1, 26)
    }
}

/// The insertions of the first `k` letters at `i`.
pub open spec fn letter_insertions(w: Seq<char>, i: int, k: int) -> Seq<Seq<char>>
    decreases k,
{
    if k <= 0 {
        Seq::empty()
    } else {
        letter_insertions(w, i, k - 1).push(spliced(w, i, seq![nth_letter(k - 1)], i))
    }
}

/// The insertions at positions from 1 on before `i`.
pub open spec fn insertions(w: Seq<char>, i: int) -> Seq<Seq<char>>
    decreases i,
{
    if i <= 1 {
        Seq::empty()
    } else {
        insertions(w, i - 1) + letter_insertions(w, i - 1, 26)
    }
}

/// The edit-distance-1 neighbours of `w` that look like typing slips, in order.
pub open spec fn neighbours(w: Seq<char>) -> Seq<Seq<char>> {
    deletes_and_swaps(w, w.len() - 1) + substitutions(w, w.len() - 1) + insertions(
        w,
        w.len() as int,
    )
}

fn splice(w: &[char], i: usize, mid: &[char], j: usize) -> (r: String)
    requires
        i <= j <= w@.len(),
    ensures
        r@ == spliced(w@, i as int, mid@, j as int),
{
    let mut out: Vec<char> = Vec::new();
    let mut k: usize = 0;
    while k < i
        invariant
            k <= i <= w@.len(),
            out@ == w@.take(k as int),
        decreases i - k,
    {
        out.push(w[k]);
        assert(w@.take(k as int).push(w@[k as int]) =~= w@.take(k + 1));
        k = k + 1;
    }
    k = 0;
    assert(w@.take(i as int) + mid@.take(0) =~= w@.take(i as int));
    while k < mid.len()
        invariant
            k <= mid@.len(),
            i <= w@.len(),
            out@ == w@.take(i as int) + mid@.take(k as int),
        decreases mid@.len() - k,
    {
        out.push(mid[k]);
        assert(w@.take(i as int) + mid@.take(k + 1) =~= (w@.take(i as int) + mid@.take(
            k as int,
        )).push(mid@[k as int]));
        k = k + 1;
    }
    assert(mid@.take(k as int) =~= mid@);
    k = j;
    assert(w@.take(i as int) + mid@ + w@.subrange(j as int, j as int) =~= w@.take(i as int) + mid@);
    while k < w.len()
        invariant
            j <= k <= w@.len(),
            i <= w@.len(),
            out@ == w@.take(i as int) + mid@ + w@.subrange(j as int, k as int),
        decreases w@.len() - k,
    {
        out.push(w[k]);
        assert(w@.take(i as int) + mid@ + w@.subrange(j as int, k + 1) =~= (w@.take(i as int) + mid@
            + w@.subrange(j as int, k as int)).push(w@[k as int]));
        k = k + 1;
    }
    assert(w@.subrange(j as int, k as int) =~= w@.skip(j as int));
    string_of(&out)
}

fn letter(k: u8) -> (c: char)
    requires
        k < 26,
    ensures
        c == nth_letter(k as int),
{
    (97 + k) as char
}

/// Appends to `out`, keeping the texts in step.
fn emit(out: &mut Vec<String>, text: String)
    ensures
        texts(final(out)@) == texts(old(out)@).push(text@),
{
    let ghost before = out@;
    out.push(text);
    assert(texts(out@) =~= texts(before).push(text@));
}

/// The Damerau edit-distance-1 neighbours of `word` that look like typing
/// slips, in order: deletes, adjacent transposes, substitutions and inserts
/// over `a`–`z`, except
/// - edits of the final character (`subagents`/`subagent`,
///   `truncates`/`truncated` are inflections);
/// - edits of the first character other than a transposition (`gcloud`/`cloud`,
///   `oauth`/`auth` are distinct words);
/// - edits touching an apostrophe (`we're`/`were`, `don't`/`dont`).
pub fn for_each_neighbour(word: &str) -> (out: Vec<String>)
    ensures
        texts(out@) == neighbours(word@),
        forall|k: int|
            0 <= k < out@.len() ==> (#[trigger] out@[k])@.len() > 0 && out@[k]@.last()
                == word@.last(),
{
    let chars = chars_of(word);
    let n: usize = chars.len();
    let mut out: Vec<String> = Vec::new();
    assert(texts(out@) =~= Seq::<Seq<char>>::empty());
    if n == 0 {
        assert(texts(out@) =~= neighbours(word@));
        assert(out@.len() == 0);
        return out;
    }
    let mut i: usize = 0;
    while i < n - 1
        invariant
            n == chars@.len(),
            1 <= n,
            i <= n - 1,
            texts(out@) == deletes_and_swaps(chars@, i as int),
        decreases n - 1 - i,
    {
        let c = chars[i];
        let next = chars[i + 1];
        if i > 0 && c != '\'' {
            let none: Vec<char> = Vec::new();
            assert(none@ =~= Seq::<char>::empty());
            emit(&mut out, splice(&chars, i, &none, i + 1));
        }
        if i < n - 2 && c != next && c != '\'' && next != '\'' {
            let pair: Vec<char> = vec![next, c];
            assert(pair@ =~= seq![next, c]);
            emit(&mut out, splice(&chars, i, &pair, i + 2));
        }
        i = i + 1;
    }
    let ghost first = deletes_and_swaps(chars@, n - 1);
    i = 1;
    assert(first + substitutions(chars@, 1) =~= first);
    while i < n - 1
        invariant
            n == chars@.len(),
            1 <= n,
            1 <= i,
            i <= n - 1 || i == 1,
            texts(out@) == first + substitutions(chars@, i as int),
        decreases n - i,
    {
        if chars[i] != '\'' {
            let mut k: u8 = 0;
            let ghost base = first + substitutions(chars@, i as int);
            assert(base + letter_substitutions(chars@, i as int, 0) =~= base);
            while k < 26
                invariant
                    n == chars@.len(),
                    1 <= i < n - 1,
                    k <= 26,
                    texts(out@) == base + letter_substitutions(chars@, i as int, k as int),
                decreases 26 - k,
            {
                let l = letter(k);
                if l != chars[i] {
                    let one: Vec<char> = vec![l];
                    assert(one@ =~= seq![l]);
                    let ghost before = letter_substitutions(chars@, i as int, k as int);
                    let text = splice(&chars, i, &one, i + 1);
                    assert((base + before).push(text@) =~= base + before.push(text@));
                    emit(&mut out, text);
                }
                k = k + 1;
            }
            assert(base + letter_substitutions(chars@, i as int, 26) =~= first + substitutions(
                chars@,
                i + 1,
            ));
        }
        i = i + 1;
    }
    let ghost second = first + substitutions(chars@, n - 1);
    proof {
        if n == 1 {
            assert(substitutions(chars@, 0) =~= substitutions(chars@, 1));
        }
    }
    i = 1;
    assert(second + insertions(chars@, 1) =~= second);
    while i < n
        invariant
            n == chars@.len(),
            1 <= i <= n,
            texts(out@) == second + insertions(chars@, i as int),
        decreases n - i,
    {
        let mut k: u8 = 0;
        let ghost base = second + insertions(chars@, i as int);
        assert(base + letter_insertions(chars@, i as int, 0) =~= base);
        while k < 26
            invariant
                n == chars@.len(),
                1 <= i < n,
                k <= 26,
                texts(out@) == base + letter_insertions(chars@, i as int, k as int),
            decreases 26 - k,
        {
            let l = letter(k);
            let one: Vec<char> = vec![l];
            assert(one@ =~= seq![l]);
            let ghost before = letter_insertions(chars@, i as int, k as int);
            let text = splice(&chars, i, &one, i);
            assert((base + before).push(text@) =~= base + before.push(text@));
            emit(&mut out, text);
            k = k + 1;
        }
        assert(base + letter_insertions(chars@, i as int, 26) =~= second + insertions(
            chars@,
            i + 1,
        ));
        i = i + 1;
    }
    proof {
        lemma_neighbours_end(word@);
        assert forall|k: int| 0 <= k < out@.len() implies (#[trigger] out@[k])@.len() > 0
            && out@[k]@.last() == word@.last() by {
            assert(texts(out@)[k] == out@[k]@);
        }
    }
    out
}

/// Every text of the list ends in the final character of `w`.
pub open spec fn keep_the_end(list: Seq<Seq<char>>, w: Seq<char>) -> bool {
    forall|k: int|
        0 <= k < list.len() ==> (#[trigger] list[k]).len() > 0 && list[k].last() == w.last()
}

proof fn lemma_spliced_end(w: Seq<char>, i: int, mid: Seq<char>, j: int)
    requires
        0 <= i <= j < w.len(),
    ensures
        spliced(w, i, mid, j).len() > 0,
        spliced(w, i, mid, j).last() == w.last(),
{
}

proof fn lemma_deletes_end(w: Seq<char>, i: int)
    ensures
        keep_the_end(deletes_and_swaps(w, i), w),
    decreases i,
{
    if i > 0 {
        let at = i - 1;
        lemma_deletes_end(w, at);
        if deletable(w, at) {
            lemma_spliced_end(w, at, Seq::empty(), at + 1);
        }
        if swappable(w, at) {
            lemma_spliced_end(w, at, seq![w[at + 1], w[at]], at + 2);
        }
    }
}

proof fn lemma_letters_end(w: Seq<char>, i: int, k: int)
    requires
        0 <= i < w.len(),
    ensures
        keep_the_end(letter_insertions(w, i, k), w),
        i + 1 < w.len() ==> keep_the_end(letter_substitutions(w, i, k), w),
    decreases k,
{
    if k > 0 {
        lemma_letters_end(w, i, k - 1);
        lemma_spliced_end(w, i, seq![nth_letter(k - 1)], i);
        if i + 1 < w.len() {
            lemma_spliced_end(w, i, seq![nth_letter(k - 1)], i + 1);
        }
    }
}

proof fn lemma_inner_end(w: Seq<char>, i: int)
    ensures
        i <= w.len() ==> keep_the_end(insertions(w, i), w),
        i < w.len() ==> keep_the_end(substitutions(w, i), w),
    decreases i,
{
    if 1 < i <= w.len() {
        lemma_inner_end(w, i - 1);
        lemma_letters_end(w, i - 1, 26);
    }
}

proof fn lemma_neighbours_end(w: Seq<char>)
    ensures
        keep_the_end(neighbours(w), w),
{
    lemma_deletes_end(w, w.len() - 1);
    lemma_inner_end(w, w.len() - 1);
    lemma_inner_end(w, w.len() as int);
}

/// The pair at `i` is a doubled inner letter.
pub open spec fn doubled(w: Seq<char>, i: int) -> bool {
    0 < i && i + 2 < w.len() && w[i] == w[i + 1] && w[i] != '\''
}

/// The letter at `i` is an inner one that may be doubled.
pub open spec fn doublable(w: Seq<char>, i: int) -> bool {
    0 < i < w.len() - 1 && w[i] != '\''
}

/// `w` with the characters at `i` and `i + 1` swapped.
pub open spec fn swapped(w: Seq<char>, i: int) -> Seq<char> {
    spliced(w, i, seq![w[i + 1], w[i]], i + 2)
}

/// `w` without one of the doubled letters at `i`.
pub open spec fn undoubled(w: Seq<char>, i: int) -> Seq<char> {
    spliced(w, i, Seq::empty(), i + 1)
}

/// `w` with the letter at `i` doubled.
pub open spec fn redoubled(w: Seq<char>, i: int) -> Seq<char> {
    spliced(w, i + 1, seq![w[i]], i + 1)
}

/// The adjacent swaps and undoubled pairs at positions before `i`, in order.
pub open spec fn swaps_and_undoubles(w: Seq<char>, i: int) -> Seq<Seq<char>>
    decreases i,
{
    if i <= 0 {
        Seq::empty()
    } else {
        let at = i - 1;
        let prior = swaps_and_undoubles(w, at);
        let less = if swappable(w, at) {
            prior.push(swapped(w, at))
        } else {
            prior
        };
        if doubled(w, at) {
            less.push(undoubled(w, at))
        } else {
            less
        }
    }
}

/// The doubled inner letters at positions before `i`, in order.
pub open spec fn doubles(w: Seq<char>, i: int) -> Seq<Seq<char>>
    decreases i,
{
    if i <= 1 {
        Seq::empty()
    } else if doublable(w, i - 1) {
        doubles(w, i - 1).push(redoubled(w, i - 1))
    } else {
        doubles(w, i - 1)
    }
}

/// The unmistakable slips of `w`, in order.
pub open spec fn slips(w: Seq<char>) -> Seq<Seq<char>> {
    swaps_and_undoubles(w, w.len() - 1) + doubles(w, w.len() - 1)
}

/// The unmistakable slips among [`for_each_neighbour`]'s edits: adjacent
/// transpositions (`isntead`, `proeprly`) and doubled/undoubled inner letters
/// (`cannonical`, `comit`). Unlike substitutions these rarely turn one real
/// word or jargon term into another (`serde`/`serve`), so they are safe to act
/// on even when the variant is typed often. The relation is symmetric: `b` is
/// a slip of `a` iff `a` is a slip of `b`.
pub fn for_each_slip(word: &str) -> (out: Vec<String>)
    ensures
        texts(out@) == slips(word@),
{
    let chars = chars_of(word);
    let n: usize = chars.len();
    let mut out: Vec<String> = Vec::new();
    assert(texts(out@) =~= Seq::<Seq<char>>::empty());
    if n == 0 {
        assert(texts(out@) =~= slips(word@));
        return out;
    }
    let mut i: usize = 0;
    while i < n - 1
        invariant
            n == chars@.len(),
            1 <= n,
            i <= n - 1,
            texts(out@) == swaps_and_undoubles(chars@, i as int),
        decreases n - 1 - i,
    {
        let c = chars[i];
        let next = chars[i + 1];
        if i < n - 2 && c != next && c != '\'' && next != '\'' {
            let pair: Vec<char> = vec![next, c];
            assert(pair@ =~= seq![next, c]);
            emit(&mut out, splice(&chars, i, &pair, i + 2));
        }
        // Undouble a pair touching neither end (`uutils`, `sshot` are names).
        if c == next && c != '\'' && i > 0 && i < n - 2 {
            let none: Vec<char> = Vec::new();
            assert(none@ =~= Seq::<char>::empty());
            emit(&mut out, splice(&chars, i, &none, i + 1));
        }
        i = i + 1;
    }
    let ghost first = swaps_and_undoubles(chars@, n - 1);
    // Double a letter that is neither the first nor the last.
    i = 1;
    assert(first + doubles(chars@, 1) =~= first);
    while i < n - 1
        invariant
            n == chars@.len(),
            1 <= n,
            1 <= i,
            i <= n - 1 || i == 1,
            texts(out@) == first + doubles(chars@, i as int),
        decreases n - i,
    {
        if chars[i] != '\'' {
            let one: Vec<char> = vec![chars[i]];
            assert(one@ =~= seq![chars@[i as int]]);
            let ghost before = doubles(chars@, i as int);
            let text = splice(&chars, i + 1, &one, i + 1);
            assert((first + before).push(text@) =~= first + before.push(text@));
            emit(&mut out, text);
        }
        i = i + 1;
    }
    proof {
        if n == 1 {
            assert(doubles(chars@, 0) =~= doubles(chars@, 1));
        }
    }
    out
}

/// `b` is `a` after one slip.
pub open spec fn one_slip(a: Seq<char>, b: Seq<char>) -> bool {
    ||| exists|i: int| #[trigger] swappable(a, i) && b == swapped(a, i)
    ||| exists|i: int| #[trigger] doubled(a, i) && b == undoubled(a, i)
    ||| exists|i: int| #[trigger] doublable(a, i) && b == redoubled(a, i)
}

proof fn lemma_contains_push(s: Seq<Seq<char>>, x: Seq<char>, y: Seq<char>)
    ensures
        s.push(x).contains(y) == (s.contains(y) || x == y),
{
    let t = s.push(x);
    if s.contains(y) {
        let k = choose|k: int| 0 <= k < s.len() && s[k] == y;
        assert(t[k] == y);
    }
    if x == y {
        assert(t[s.len() as int] == y);
    }
    if t.contains(y) {
        let k = choose|k: int| 0 <= k < t.len() && t[k] == y;
        if k < s.len() {
            assert(s[k] == y);
        }
    }
}

proof fn lemma_swaps_members(w: Seq<char>, i: int, b: Seq<char>)
    ensures
        swaps_and_undoubles(w, i).contains(b) <==> ((exists|k: int|
            k < i && #[trigger] swappable(w, k) && b == swapped(w, k)) || (exists|k: int|
            k < i && #[trigger] doubled(w, k) && b == undoubled(w, k))),
    decreases i,
{
    if i > 0 {
        let at = i - 1;
        lemma_swaps_members(w, at, b);
        let prior = swaps_and_undoubles(w, at);
        let less = if swappable(w, at) {
            prior.push(swapped(w, at))
        } else {
            prior
        };
        lemma_contains_push(prior, swapped(w, at), b);
        lemma_contains_push(less, undoubled(w, at), b);
        assert(swappable(w, at) || !swappable(w, at));
        assert(doubled(w, at) || !doubled(w, at));
    }
}

proof fn lemma_doubles_members(w: Seq<char>, i: int, b: Seq<char>)
    ensures
        doubles(w, i).contains(b) <==> exists|k: int|
            k < i && #[trigger] doublable(w, k) && b == redoubled(w, k),
    decreases i,
{
    if i > 1 {
        lemma_doubles_members(w, i - 1, b);
        lemma_contains_push(doubles(w, i - 1), redoubled(w, i - 1), b);
        assert(doublable(w, i - 1) || !doublable(w, i - 1));
    }
}

proof fn lemma_slip_members(w: Seq<char>, b: Seq<char>)
    ensures
        slips(w).contains(b) <==> one_slip(w, b),
{
    let n = w.len() - 1;
    lemma_swaps_members(w, n, b);
    lemma_doubles_members(w, n, b);
    let x = swaps_and_undoubles(w, n);
    let y = doubles(w, n);
    assert((x + y).contains(b) == (x.contains(b) || y.contains(b))) by {
        if x.contains(b) {
            let k = choose|k: int| 0 <= k < x.len() && x[k] == b;
            assert((x + y)[k] == b);
        }
        if y.contains(b) {
            let k = choose|k: int| 0 <= k < y.len() && y[k] == b;
            assert((x + y)[x.len() + k] == b);
        }
        if (x + y).contains(b) {
            let k = choose|k: int| 0 <= k < (x + y).len() && (x + y)[k] == b;
            if k < x.len() {
                assert(x[k] == b);
            } else {
                assert(y[k - x.len()] == b);
            }
        }
    }
}

proof fn lemma_one_slip_back(a: Seq<char>, b: Seq<char>)
    requires
        one_slip(a, b),
    ensures
        one_slip(b, a),
{
    if exists|i: int| #[trigger] swappable(a, i) && b == swapped(a, i) {
        let i = choose|i: int| #[trigger] swappable(a, i) && b == swapped(a, i);
        assert(swappable(b, i));
        assert(swapped(b, i) =~= a);
    } else if exists|i: int| #[trigger] doubled(a, i) && b == undoubled(a, i) {
        let i = choose|i: int| #[trigger] doubled(a, i) && b == undoubled(a, i);
        assert(doublable(b, i));
        assert(redoubled(b, i) =~= a);
    } else {
        let i = choose|i: int| #[trigger] doublable(a, i) && b == redoubled(a, i);
        assert(doubled(b, i));
        assert(undoubled(b, i) =~= a);
    }
}

/// Slips are symmetric: `b` is a slip of `a` exactly when `a` is a slip of `b`.
pub proof fn law_slips_are_symmetric(a: Seq<char>, b: Seq<char>)
    ensures
        slips(a).contains(b) <==> slips(b).contains(a),
{
    lemma_slip_members(a, b);
    lemma_slip_members(b, a);
    if one_slip(a, b) {
        lemma_one_slip_back(a, b);
    }
    if one_slip(b, a) {
        lemma_one_slip_back(b, a);
    }
}

proof fn lemma_contains_concat(x: Seq<Seq<char>>, y: Seq<Seq<char>>, b: Seq<char>)
    ensures
        x.contains(b) ==> (x + y).contains(b),
        y.contains(b) ==> (x + y).contains(b),
{
    if x.contains(b) {
        let k = choose|k: int| 0 <= k < x.len() && x[k] == b;
        assert((x + y)[k] == b);
    }
    if y.contains(b) {
        let k = choose|k: int| 0 <= k < y.len() && y[k] == b;
        assert((x + y)[x.len() + k] == b);
    }
}

proof fn lemma_deletes_member(w: Seq<char>, i: int, at: int)
    requires
        0 <= at < i,
    ensures
        deletable(w, at) ==> deletes_and_swaps(w, i).contains(
            spliced(w, at, Seq::empty(), at + 1),
        ),
        swappable(w, at) ==> deletes_and_swaps(w, i).contains(swapped(w, at)),
    decreases i,
{
    let last = i - 1;
    let prior = deletes_and_swaps(w, last);
    let gone = spliced(w, last, Seq::empty(), last + 1);
    let less = if deletable(w, last) {
        prior.push(gone)
    } else {
        prior
    };
    lemma_contains_push(prior, gone, spliced(w, at, Seq::empty(), at + 1));
    lemma_contains_push(less, swapped(w, last), spliced(w, at, Seq::empty(), at + 1));
    lemma_contains_push(prior, gone, swapped(w, at));
    lemma_contains_push(less, swapped(w, last), swapped(w, at));
    if at < last {
        lemma_deletes_member(w, last, at);
    }
}

proof fn lemma_letter_insertion_member(w: Seq<char>, i: int, k: int, l: int)
    requires
        0 <= l < k,
    ensures
        letter_insertions(w, i, k).contains(spliced(w, i, seq![nth_letter(l)], i)),
    decreases k,
{
    let goal = spliced(w, i, seq![nth_letter(l)], i);
    lemma_contains_push(
        letter_insertions(w, i, k - 1),
        spliced(w, i, seq![nth_letter(k - 1)], i),
        goal,
    );
    if l < k - 1 {
        lemma_letter_insertion_member(w, i, k - 1, l);
    }
}

proof fn lemma_insertion_member(w: Seq<char>, stop: int, i: int, l: int)
    requires
        1 <= i < stop,
        0 <= l < 26,
    ensures
        insertions(w, stop).contains(spliced(w, i, seq![nth_letter(l)], i)),
    decreases stop,
{
    let goal = spliced(w, i, seq![nth_letter(l)], i);
    lemma_contains_concat(insertions(w, stop - 1), letter_insertions(w, stop - 1, 26), goal);
    if i == stop - 1 {
        lemma_letter_insertion_member(w, i, 26, l);
    } else {
        lemma_insertion_member(w, stop - 1, i, l);
    }
}

/// Every slip of a word whose inner letters are `a`–`z` is one of its
/// neighbours.
pub proof fn law_slips_are_neighbours(w: Seq<char>, b: Seq<char>)
    requires
        forall|i: int| 0 < i < w.len() - 1 ==> 'a' <= #[trigger] w[i] <= 'z',
        slips(w).contains(b),
    ensures
        neighbours(w).contains(b),
{
    lemma_slip_members(w, b);
    let n = w.len() as int;
    let x = deletes_and_swaps(w, n - 1);
    let y = substitutions(w, n - 1);
    let z = insertions(w, n);
    lemma_contains_concat(x, y, b);
    lemma_contains_concat(x + y, z, b);
    if exists|i: int| #[trigger] swappable(w, i) && b == swapped(w, i) {
        let i = choose|i: int| #[trigger] swappable(w, i) && b == swapped(w, i);
        lemma_deletes_member(w, n - 1, i);
    } else if exists|i: int| #[trigger] doubled(w, i) && b == undoubled(w, i) {
        let i = choose|i: int| #[trigger] doubled(w, i) && b == undoubled(w, i);
        assert(deletable(w, i));
        lemma_deletes_member(w, n - 1, i);
    } else {
        let i = choose|i: int| #[trigger] doublable(w, i) && b == redoubled(w, i);
        let l = w[i] as int - 97;
        assert('a' <= w[i] <= 'z');
        assert(nth_letter(l) == w[i]);
        lemma_insertion_member(w, n, i + 1, l);
    }
}

/// The unmistakable slips of a word are the swaps of two unequal characters
/// before the last, one of two equal inner characters left out, and an inner
/// character typed twice.
pub proof fn law_unmistakable_slips_are_swaps_and_doubles(w: Seq<char>, i: int)
    ensures
        0 <= i < w.len() - 2 && w[i] != w[i + 1] && w[i] != '\'' && w[i + 1] != '\'' ==> slips(
            w,
        ).contains(w.take(i) + seq![w[i + 1], w[i]] + w.skip(i + 2)),
        0 < i < w.len() - 2 && w[i] == w[i + 1] && w[i] != '\'' ==> slips(w).contains(
            w.take(i) + w.skip(i + 1),
        ),
        0 < i < w.len() - 1 && w[i] != '\'' ==> slips(w).contains(
            w.take(i + 1) + seq![w[i]] + w.skip(i + 1),
        ),
{
    if 0 <= i < w.len() - 2 && w[i] != w[i + 1] && w[i] != '\'' && w[i + 1] != '\'' {
        assert(swappable(w, i));
        lemma_slip_members(w, swapped(w, i));
    }
    if 0 < i < w.len() - 2 && w[i] == w[i + 1] && w[i] != '\'' {
        assert(doubled(w, i));
        lemma_slip_members(w, undoubled(w, i));
        assert(undoubled(w, i) =~= w.take(i) + w.skip(i + 1));
    }
    if 0 < i < w.len() - 1 && w[i] != '\'' {
        assert(doublable(w, i));
        lemma_slip_members(w, redoubled(w, i));
    }
}

} // verus!
