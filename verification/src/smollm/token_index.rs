//! Token-text lookups for prefix-constrained decoding.

use regex::Regex;
use vstd::prelude::*;

use crate::ngram::order::{
    lemma_lt_irreflexive, lemma_lt_transitive, lemma_prefix_block, lemma_prefix_not_before,
    lemma_starts_with, lemma_text_total, starts_with, text_less, text_lt, text_starts,
};
use crate::patterns::{source, LETTER};
use crate::prose::{class_has_word, letter_class, word_char};
use crate::unicode::{chars_of, same_text, string_of};
use vstd::utf8::encode_utf8;

verus! {

/// The texts of some tokens.
pub open spec fn texts_view(texts: Seq<Option<String>>) -> Seq<Option<Seq<char>>> {
    texts.map_values(
        |t: Option<String>|
            match t {
                Some(s) => Some(s@),
                None => None,
            },
    )
}

/// The token's text starts with a word character.
pub open spec fn continues(text: Option<Seq<char>>) -> bool {
    match text {
        Some(t) => t.len() > 0 && word_char(t[0]),
        None => false,
    }
}

/// The tokens below `k` that continue a word, or those that end it.
pub open spec fn tokens_by_kind(texts: Seq<Option<Seq<char>>>, k: int, cont: bool) -> Seq<u32>
    decreases k,
{
    if k <= 0 {
        Seq::empty()
    } else if continues(texts[k - 1]) == cont {
        tokens_by_kind(texts, k - 1, cont).push((k - 1) as u32)
    } else {
        tokens_by_kind(texts, k - 1, cont)
    }
}

/// The text of a token that has one.
pub open spec fn text_at(texts: Seq<Option<Seq<char>>>, id: u32) -> Seq<char> {
    match texts[id as int] {
        Some(t) => t,
        None => Seq::empty(),
    }
}

/// The token `a` comes before `b`: by text bytes, then by number.
pub open spec fn before(texts: Seq<Option<Seq<char>>>, a: u32, b: u32) -> bool {
    text_lt(text_at(texts, a), text_at(texts, b)) || (text_at(texts, a) == text_at(texts, b) && a
        < b)
}

/// Tokens with a text, in order.
pub open spec fn in_text_order(texts: Seq<Option<Seq<char>>>, ids: Seq<u32>) -> bool {
    &&& forall|i: int|
        0 <= i < ids.len() ==> (#[trigger] ids[i]) < texts.len() && texts[ids[i] as int] is Some
    &&& forall|i: int, j: int|
        0 <= i < j < ids.len() ==> before(texts, #[trigger] ids[i], #[trigger] ids[j])
}

/// The first `k` of `ids` that satisfy `p`, in their order.
pub open spec fn kept(ids: Seq<u32>, p: spec_fn(u32) -> bool, k: int) -> Seq<u32>
    decreases k,
{
    if k <= 0 {
        Seq::empty()
    } else if p(ids[k - 1]) {
        kept(ids, p, k - 1).push(ids[k - 1])
    } else {
        kept(ids, p, k - 1)
    }
}

/// `text` starts with `r`.
pub open spec fn extends(text: Seq<char>, r: Seq<char>) -> bool {
    r.len() <= text.len() && text.take(r.len() as int) == r
}

/// The token's text is `r` itself.
pub open spec fn spells(texts: Seq<Option<Seq<char>>>, r: Seq<char>) -> spec_fn(u32) -> bool {
    |id: u32| text_at(texts, id) == r
}

/// The token's text is `r`, or goes on behind it with a word character.
pub open spec fn covers_on(texts: Seq<Option<Seq<char>>>, r: Seq<char>) -> spec_fn(u32) -> bool {
    |id: u32|
        {
            let t = text_at(texts, id);
            extends(t, r) && (t.len() == r.len() || word_char(t[r.len() as int]))
        }
}

/// The token's text goes on behind `r` with a boundary.
pub open spec fn closes(texts: Seq<Option<Seq<char>>>, r: Seq<char>) -> spec_fn(u32) -> bool {
    |id: u32|
        {
            let t = text_at(texts, id);
            extends(t, r) && t.len() > r.len() && !word_char(t[r.len() as int])
        }
}

/// The tokens whose text is a proper, non-empty prefix of `r` of fewer than `n`
/// characters, shortest first.
pub open spec fn prefix_tokens(
    texts: Seq<Option<Seq<char>>>,
    ids: Seq<u32>,
    r: Seq<char>,
    n: int,
) -> Seq<u32>
    decreases n,
{
    if n <= 1 {
        Seq::empty()
    } else {
        prefix_tokens(texts, ids, r, n - 1) + kept(
            ids,
            spells(texts, r.take(n - 1)),
            ids.len() as int,
        )
    }
}

/// Where the leading run of word characters of `text` ends, from `i` on.
pub open spec fn run_stop(text: Seq<char>, i: int) -> int
    decreases text.len() - i,
{
    if 0 <= i < text.len() && word_char(text[i]) {
        run_stop(text, i + 1)
    } else {
        i
    }
}

/// What is known of the leading run.
pub proof fn lemma_run_stop(text: Seq<char>, i: int)
    requires
        0 <= i <= text.len(),
    ensures
        i <= run_stop(text, i) <= text.len(),
        forall|k: int| i <= k < run_stop(text, i) ==> word_char(#[trigger] text[k]),
        run_stop(text, i) < text.len() ==> !word_char(text[run_stop(text, i)]),
    decreases text.len() - i,
{
    if i < text.len() && word_char(text[i]) {
        lemma_run_stop(text, i + 1);
    }
}

/// The leading run of word characters of `text`, and whether a boundary
/// follows it inside `text`. `class` is the class of letters.
pub fn word_run(text: &[char], class: &Regex) -> (r: (Vec<char>, bool))
    requires
        source(*class) == LETTER@,
    ensures
        r.0@ == text@.take(run_stop(text@, 0)),
        r.1 == (run_stop(text@, 0) < text@.len()),
        0 <= run_stop(text@, 0) <= text@.len(),
{
    let mut run: Vec<char> = Vec::new();
    let mut i: usize = 0;
    while i < text.len() && class_has_word(class, text[i])
        invariant
            source(*class) == LETTER@,
            i <= text@.len(),
            run@ == text@.take(i as int),
            run_stop(text@, 0) == run_stop(text@, i as int),
        decreases text@.len() - i,
    {
        run.push(text[i]);
        assert(text@.take(i as int).push(text@[i as int]) =~= text@.take(i + 1));
        i = i + 1;
    }
    (run, i < text.len())
}

/// Token texts with the lookups that decoding needs.
pub struct TokenIndex {
    /// The text of every token that can spell one.
    pub texts: Vec<Option<String>>,
    /// Tokens whose text starts with a word character.
    pub cont_ids: Vec<u32>,
    /// Every other token: each ends the word.
    pub boundary_ids: Vec<u32>,
    /// The tokens with a text, by text bytes, then by number.
    pub sorted: Vec<u32>,
    /// The class of letters, compiled.
    pub class: Regex,
}

impl TokenIndex {
    /// The texts.
    pub open spec fn texts_of(&self) -> Seq<Option<Seq<char>>> {
        texts_view(self.texts@)
    }

    /// The lists are the texts' own.
    pub open spec fn wf(&self) -> bool {
        let texts = self.texts_of();
        &&& source(self.class) == LETTER@
        &&& texts.len() <= 0x1_0000_0000
        &&& self.cont_ids@ == tokens_by_kind(texts, texts.len() as int, true)
        &&& self.boundary_ids@ == tokens_by_kind(texts, texts.len() as int, false)
        &&& in_text_order(texts, self.sorted@)
        &&& forall|id: int|
            0 <= id < texts.len() && #[trigger] texts[id] is Some ==> self.sorted@.contains(
                id as u32,
            )
    }

    /// Indexes the texts; a token without one can never spell a word.
    pub fn new(texts: Vec<Option<String>>) -> (index: TokenIndex)
        requires
            texts@.len() <= 0x1_0000_0000,
        ensures
            index.wf(),
            index.texts_of() == texts_view(texts@),
    {
        let mut cont_ids: Vec<u32> = Vec::new();
        let mut boundary_ids: Vec<u32> = Vec::new();
        let mut named: Vec<u32> = Vec::new();
        let class = letter_class();
        let ghost views = texts_view(texts@);
        let mut i: usize = 0;
        while i < texts.len()
            invariant
                source(class) == LETTER@,
                texts@.len() <= 0x1_0000_0000,
                views == texts_view(texts@),
                i <= texts@.len(),
                cont_ids@ == tokens_by_kind(views, i as int, true),
                boundary_ids@ == tokens_by_kind(views, i as int, false),
                forall|k: int|
                    0 <= k < named@.len() ==> (#[trigger] named@[k]) < i && views[named@[k] as int]
                        is Some,
                forall|a: int, b: int| 0 <= a < b < named@.len() ==> named@[a] < named@[b],
                forall|id: int|
                    0 <= id < i && #[trigger] views[id] is Some ==> named@.contains(id as u32),
            decreases texts@.len() - i,
        {
            let id: u32 = i as u32;
            let ghost held = named@;
            let mut goes_on = false;
            match &texts[i] {
                Some(text) => {
                    assert(views[i as int] == Some(text@));
                    let chars = chars_of(text.as_str());
                    goes_on = chars.len() > 0 && class_has_word(&class, chars[0]);
                    named.push(id);
                    assert(named@[held.len() as int] == id);
                },
                None => {
                    assert(views[i as int] is None);
                },
            }
            if goes_on {
                cont_ids.push(id);
            } else {
                boundary_ids.push(id);
            }
            proof {
                assert forall|x: int| 0 <= x < i + 1 && #[trigger] views[x] is Some implies named@.contains(
                    x as u32,
                ) by {
                    if x < i {
                        assert(held.contains(x as u32));
                        let k = choose|k: int| 0 <= k < held.len() && held[k] == x as u32;
                        assert(named@[k] == x as u32);
                    }
                }
            }
            i = i + 1;
        }
        let sorted = sort_tokens(&texts, &named, 0, named.len());
        proof {
            assert(named@.subrange(0, named@.len() as int) =~= named@);
        }
        TokenIndex { texts, cont_ids, boundary_ids, sorted, class }
    }

    /// The characters of a token's text.
    fn chars(&self, id: u32) -> (chars: Vec<char>)
        requires
            id < self.texts@.len(),
        ensures
            chars@ == text_at(self.texts_of(), id),
    {
        assert(self.texts_of()[id as int] == texts_view(self.texts@)[id as int]);
        match &self.texts[id as usize] {
            Some(text) => chars_of(text.as_str()),
            None => Vec::new(),
        }
    }

    /// The text of a token; empty where it has none.
    pub fn text(&self, id: u32) -> (text: &str)
        requires
            id < self.texts@.len(),
        ensures
            text@ == text_at(self.texts_of(), id),
    {
        assert(self.texts_of()[id as int] == texts_view(self.texts@)[id as int]);
        match &self.texts[id as usize] {
            Some(text) => text.as_str(),
            None => {
                proof {
                    reveal_strlit("");
                    assert(""@ =~= Seq::<char>::empty());
                }
                ""
            },
        }
    }

    /// The first sorted token whose text does not come before `r`.
    fn lower_bound(&self, r: &str) -> (lo: usize)
        requires
            self.wf(),
        ensures
            lo <= self.sorted@.len(),
            forall|k: int|
                0 <= k < lo ==> text_lt(
                    text_at(self.texts_of(), #[trigger] self.sorted@[k]),
                    r@,
                ),
            forall|k: int|
                lo <= k < self.sorted@.len() ==> !text_lt(
                    text_at(self.texts_of(), #[trigger] self.sorted@[k]),
                    r@,
                ),
    {
        let ghost texts = self.texts_of();
        let mut lo: usize = 0;
        let mut hi: usize = self.sorted.len();
        while lo < hi
            invariant
                self.wf(),
                texts == self.texts_of(),
                lo <= hi <= self.sorted@.len(),
                forall|k: int|
                    0 <= k < lo ==> text_lt(text_at(texts, #[trigger] self.sorted@[k]), r@),
                forall|k: int|
                    hi <= k < self.sorted@.len() ==> !text_lt(
                        text_at(texts, #[trigger] self.sorted@[k]),
                        r@,
                    ),
            decreases hi - lo,
        {
            let mid: usize = lo + (hi - lo) / 2;
            let id: u32 = self.sorted[mid];
            if text_less(self.text(id), r) {
                proof {
                    assert forall|k: int| 0 <= k < mid + 1 implies text_lt(
                        text_at(texts, #[trigger] self.sorted@[k]),
                        r@,
                    ) by {
                        if k < mid {
                            assert(before(texts, self.sorted@[k], self.sorted@[mid as int]));
                            lemma_lt_before(texts, self.sorted@[k], id, r@);
                        }
                    }
                }
                lo = mid + 1;
            } else {
                proof {
                    assert forall|k: int| mid <= k < self.sorted@.len() implies !text_lt(
                        text_at(texts, #[trigger] self.sorted@[k]),
                        r@,
                    ) by {
                        if k > mid {
                            assert(before(texts, self.sorted@[mid as int], self.sorted@[k]));
                            if text_lt(text_at(texts, self.sorted@[k]), r@) {
                                lemma_lt_before(texts, id, self.sorted@[k], r@);
                            }
                        }
                    }
                }
                hi = mid;
            }
        }
        lo
    }

    /// The tokens whose text is `r`, in order of number.
    fn spelling(&self, r: &str, out: &mut Vec<u32>)
        requires
            self.wf(),
        ensures
            final(out)@ == old(out)@ + kept(
                self.sorted@,
                spells(self.texts_of(), r@),
                self.sorted@.len() as int,
            ),
    {
        let ghost texts = self.texts_of();
        let ghost p = spells(texts, r@);
        let ghost first = out@;
        let n: usize = self.sorted.len();
        let mut k = self.lower_bound(r);
        let ghost lo = k as int;
        proof {
            assert forall|i: int| 0 <= i < lo implies !p(#[trigger] self.sorted@[i]) by {
                if p(self.sorted@[i]) {
                    lemma_lt_irreflexive(encode_utf8(r@), 0);
                }
            }
            lemma_kept_none(self.sorted@, p, 0, lo);
            assert(first + kept(self.sorted@, p, lo) =~= first);
        }
        while k < n && same_text(self.text(self.sorted[k]), r)
            invariant
                self.wf(),
                n == self.sorted@.len(),
                texts == self.texts_of(),
                p == spells(texts, r@),
                lo <= k <= n,
                out@ == first + kept(self.sorted@, p, k as int),
            decreases n - k,
        {
            out.push(self.sorted[k]);
            proof {
                assert(p(self.sorted@[k as int]));
                assert(out@ =~= first + kept(self.sorted@, p, k + 1));
            }
            k = k + 1;
        }
        proof {
            assert forall|i: int| k <= i < n implies !p(#[trigger] self.sorted@[i]) by {
                if p(self.sorted@[i]) && i > k {
                    let id = self.sorted@[k as int];
                    assert(before(texts, id, self.sorted@[i]));
                    assert(!text_lt(text_at(texts, id), r@));
                }
            }
            lemma_kept_none(self.sorted@, p, k as int, n as int);
        }
    }

    /// The tokens that can spell the rest `r` of a target: those whose word goes
    /// on (a proper prefix of `r`, or a text that covers `r` and goes on with a
    /// word character or ends), and those that spell `r` and then close the
    /// word.
    pub fn prefix_children(&self, r: &[char]) -> (children: (Vec<u32>, Vec<u32>))
        requires
            self.wf(),
        ensures
            children.0@ == prefix_tokens(
                self.texts_of(),
                self.sorted@,
                r@,
                r@.len() as int,
            ) + kept(
                self.sorted@,
                covers_on(self.texts_of(), r@),
                self.sorted@.len() as int,
            ),
            children.1@ == kept(
                self.sorted@,
                closes(self.texts_of(), r@),
                self.sorted@.len() as int,
            ),
    {
        let ghost texts = self.texts_of();
        let ghost ids = self.sorted@;
        let ghost on = covers_on(texts, r@);
        let ghost off = closes(texts, r@);
        let mut cand: Vec<u32> = Vec::new();
        let mut at: usize = 1;
        assert(cand@ =~= prefix_tokens(texts, ids, r@, 1));
        while at < r.len()
            invariant
                self.wf(),
                texts == self.texts_of(),
                ids == self.sorted@,
                1 <= at,
                at <= r@.len() || at == 1,
                cand@ == prefix_tokens(texts, ids, r@, at as int),
            decreases r@.len() - at,
        {
            let head = string_of(&r[0..at]);
            assert(head@ =~= r@.take(at as int));
            self.spelling(head.as_str(), &mut cand);
            at = at + 1;
        }
        let ghost first = cand@;
        proof {
            if r@.len() <= 1 {
                assert(prefix_tokens(texts, ids, r@, r@.len() as int) =~= prefix_tokens(
                    texts,
                    ids,
                    r@,
                    1,
                ));
            }
            assert(first == prefix_tokens(texts, ids, r@, r@.len() as int));
        }
        let mut ends: Vec<u32> = Vec::new();
        let text = string_of(r);
        let n: usize = self.sorted.len();
        let mut k = self.lower_bound(text.as_str());
        let ghost lo = k as int;
        proof {
            assert forall|i: int| 0 <= i < lo implies !on(#[trigger] ids[i]) && !off(ids[i]) by {
                lemma_starts_with(text_at(texts, ids[i]), r@);
                if starts_with(text_at(texts, ids[i]), r@) {
                    lemma_prefix_not_before(
                        encode_utf8(r@),
                        encode_utf8(text_at(texts, ids[i])),
                        0,
                    );
                }
            }
            lemma_kept_none(ids, on, 0, lo);
            lemma_kept_none(ids, off, 0, lo);
            assert(first + kept(ids, on, lo) =~= first);
        }
        while k < n && text_starts(self.text(self.sorted[k]), text.as_str())
            invariant
                self.wf(),
                n == self.sorted@.len(),
                texts == self.texts_of(),
                ids == self.sorted@,
                on == covers_on(texts, r@),
                off == closes(texts, r@),
                text@ == r@,
                lo <= k <= n,
                cand@ == first + kept(ids, on, k as int),
                ends@ == kept(ids, off, k as int),
            decreases n - k,
        {
            let id: u32 = self.sorted[k];
            let chars = self.chars(id);
            proof {
                lemma_starts_with(text_at(texts, id), r@);
            }
            if chars.len() > r.len() && !class_has_word(&self.class, chars[r.len()]) {
                ends.push(id);
                assert(off(id) && !on(id));
            } else {
                cand.push(id);
                assert(on(id) && !off(id));
                assert(cand@ =~= first + kept(ids, on, k + 1));
            }
            k = k + 1;
        }
        proof {
            assert forall|i: int| k <= i < n implies !on(#[trigger] ids[i]) && !off(ids[i]) by {
                let w = encode_utf8(text_at(texts, ids[k as int]));
                let x = encode_utf8(text_at(texts, ids[i]));
                let p = encode_utf8(r@);
                lemma_starts_with(text_at(texts, ids[i]), r@);
                if i > k {
                    assert(before(texts, ids[k as int], ids[i]));
                }
                assert(p.take(0) =~= w.take(0));
                lemma_prefix_block(p, w, x, 0);
            }
            lemma_kept_none(ids, on, k as int, n as int);
            lemma_kept_none(ids, off, k as int, n as int);
        }
        (cand, ends)
    }
}

/// Nothing is kept of a stretch where nothing fits.
proof fn lemma_kept_none(ids: Seq<u32>, p: spec_fn(u32) -> bool, a: int, b: int)
    requires
        0 <= a <= b <= ids.len(),
        forall|i: int| a <= i < b ==> !p(#[trigger] ids[i]),
    ensures
        kept(ids, p, b) == kept(ids, p, a),
        a == 0 ==> kept(ids, p, b) == Seq::<u32>::empty(),
    decreases b - a,
{
    if a < b {
        assert(!p(ids[b - 1]));
        lemma_kept_none(ids, p, a, b - 1);
    }
}

proof fn lemma_lt_before(texts: Seq<Option<Seq<char>>>, a: u32, b: u32, r: Seq<char>)
    requires
        before(texts, a, b),
        text_lt(text_at(texts, b), r),
    ensures
        text_lt(text_at(texts, a), r),
{
    if text_lt(text_at(texts, a), text_at(texts, b)) {
        lemma_lt_transitive(
            encode_utf8(text_at(texts, a)),
            encode_utf8(text_at(texts, b)),
            encode_utf8(r),
            0,
        );
    }
}

proof fn lemma_before_transitive(texts: Seq<Option<Seq<char>>>, a: u32, b: u32, c: u32)
    requires
        before(texts, a, b),
        before(texts, b, c),
    ensures
        before(texts, a, c),
{
    if text_lt(text_at(texts, b), text_at(texts, c)) {
        lemma_lt_before(texts, a, b, text_at(texts, c));
    }
}

/// Merges two sorted runs; every number of the first is below every number of
/// the second.
fn merge_tokens(texts: &Vec<Option<String>>, a: &Vec<u32>, b: &Vec<u32>) -> (out: Vec<u32>)
    requires
        in_text_order(texts_view(texts@), a@),
        in_text_order(texts_view(texts@), b@),
        forall|i: int, j: int|
            0 <= i < a@.len() && 0 <= j < b@.len() ==> #[trigger] a@[i] < #[trigger] b@[j],
    ensures
        in_text_order(texts_view(texts@), out@),
        forall|x: u32| #[trigger] out@.contains(x) <==> a@.contains(x) || b@.contains(x),
{
    let ghost views = texts_view(texts@);
    let mut out: Vec<u32> = Vec::new();
    let mut i: usize = 0;
    let mut j: usize = 0;
    while i < a.len() || j < b.len()
        invariant
            views == texts_view(texts@),
            in_text_order(views, a@),
            in_text_order(views, b@),
            forall|i: int, j: int|
                0 <= i < a@.len() && 0 <= j < b@.len() ==> #[trigger] a@[i] < #[trigger] b@[j],
            i <= a@.len(),
            j <= b@.len(),
            in_text_order(views, out@),
            forall|k: int|
                0 <= k < out@.len() && i < a@.len() ==> before(
                    views,
                    #[trigger] out@[k],
                    a@[i as int],
                ),
            forall|k: int|
                0 <= k < out@.len() && j < b@.len() ==> before(
                    views,
                    #[trigger] out@[k],
                    b@[j as int],
                ),
            forall|k: int| 0 <= k < i ==> out@.contains(#[trigger] a@[k]),
            forall|k: int| 0 <= k < j ==> out@.contains(#[trigger] b@[k]),
            forall|k: int|
                0 <= k < out@.len() ==> a@.contains(#[trigger] out@[k]) || b@.contains(out@[k]),
        decreases a@.len() - i + b@.len() - j,
    {
        let first: bool = if j >= b.len() {
            true
        } else if i >= a.len() {
            false
        } else {
            !comes_later(texts, a[i], b[j])
        };
        let ghost held = out@;
        if first {
            let e: u32 = a[i];
            proof {
                if j < b@.len() {
                    lemma_sides(views, e, b@[j as int]);
                }
                if i + 1 < a@.len() {
                    assert(before(views, a@[i as int], a@[i + 1]));
                    assert forall|k: int| 0 <= k < held.len() implies before(
                        views,
                        #[trigger] held[k],
                        a@[i + 1],
                    ) by {
                        lemma_before_transitive(views, held[k], e, a@[i + 1]);
                    }
                }
                assert(a@.contains(e));
            }
            out.push(e);
            i = i + 1;
        } else {
            let e: u32 = b[j];
            proof {
                if j + 1 < b@.len() {
                    assert(before(views, b@[j as int], b@[j + 1]));
                    assert forall|k: int| 0 <= k < held.len() implies before(
                        views,
                        #[trigger] held[k],
                        b@[j + 1],
                    ) by {
                        lemma_before_transitive(views, held[k], e, b@[j + 1]);
                    }
                }
                assert(b@.contains(e));
            }
            out.push(e);
            j = j + 1;
        }
        proof {
            assert(out@[held.len() as int] == out@.last());
            assert forall|x: u32| held.contains(x) implies #[trigger] out@.contains(x) by {
                let k = choose|k: int| 0 <= k < held.len() && held[k] == x;
                assert(out@[k] == x);
            }
            assert(out@.contains(out@[held.len() as int]));
            assert forall|k: int| 0 <= k < out@.len() implies a@.contains(#[trigger] out@[k])
                || b@.contains(out@[k]) by {
                if k < held.len() {
                    assert(out@[k] == held[k]);
                }
            }
        }
    }
    proof {
        assert forall|x: u32| #[trigger] out@.contains(x) <==> a@.contains(x) || b@.contains(x) by {
            if a@.contains(x) {
                let k = choose|k: int| 0 <= k < a@.len() && a@[k] == x;
                assert(out@.contains(a@[k]));
            }
            if b@.contains(x) {
                let k = choose|k: int| 0 <= k < b@.len() && b@[k] == x;
                assert(out@.contains(b@[k]));
            }
        }
    }
    out
}

/// Of two different tokens one comes first.
proof fn lemma_sides(texts: Seq<Option<Seq<char>>>, a: u32, b: u32)
    requires
        a < b,
        !text_lt(text_at(texts, b), text_at(texts, a)),
    ensures
        before(texts, a, b),
{
    if text_at(texts, a) != text_at(texts, b) {
        lemma_text_total(text_at(texts, a), text_at(texts, b));
    }
}

/// Whether the text of `a` comes after that of `b`.
fn comes_later(texts: &Vec<Option<String>>, a: u32, b: u32) -> (r: bool)
    requires
        a < texts@.len(),
        b < texts@.len(),
    ensures
        r == text_lt(text_at(texts_view(texts@), b), text_at(texts_view(texts@), a)),
{
    proof {
        reveal_strlit("");
        assert(""@ =~= Seq::<char>::empty());
        assert(texts_view(texts@)[a as int] == match texts@[a as int] {
            Some(s) => Some(s@),
            None => None,
        });
        assert(texts_view(texts@)[b as int] == match texts@[b as int] {
            Some(s) => Some(s@),
            None => None,
        });
    }
    let x = match &texts[a as usize] {
        Some(text) => text.as_str(),
        None => "",
    };
    let y = match &texts[b as usize] {
        Some(text) => text.as_str(),
        None => "",
    };
    text_less(y, x)
}

/// Sorts the tokens `ids[from..to]`, whose numbers ascend.
fn sort_tokens(texts: &Vec<Option<String>>, ids: &Vec<u32>, from: usize, to: usize) -> (out: Vec<u32>)
    requires
        from <= to <= ids@.len(),
        forall|k: int|
            0 <= k < ids@.len() ==> (#[trigger] ids@[k]) < texts@.len() && texts_view(
                texts@,
            )[ids@[k] as int] is Some,
        forall|a: int, b: int| 0 <= a < b < ids@.len() ==> ids@[a] < ids@[b],
    ensures
        in_text_order(texts_view(texts@), out@),
        forall|x: u32| #[trigger]
            out@.contains(x) <==> ids@.subrange(from as int, to as int).contains(x),
    decreases to - from,
{
    let ghost part = ids@.subrange(from as int, to as int);
    if to - from <= 1 {
        let mut out: Vec<u32> = Vec::new();
        if from < to {
            out.push(ids[from]);
        }
        assert(out@ =~= part);
        return out;
    }
    let mid: usize = from + (to - from) / 2;
    let a = sort_tokens(texts, ids, from, mid);
    let b = sort_tokens(texts, ids, mid, to);
    let ghost left = ids@.subrange(from as int, mid as int);
    let ghost right = ids@.subrange(mid as int, to as int);
    proof {
        assert forall|i: int, j: int|
            0 <= i < a@.len() && 0 <= j < b@.len() implies #[trigger] a@[i] < #[trigger] b@[j] by {
            assert(a@.contains(a@[i]) && b@.contains(b@[j]));
            assert(left.contains(a@[i]) && right.contains(b@[j]));
            let x = choose|x: int| 0 <= x < left.len() && left[x] == a@[i];
            let y = choose|y: int| 0 <= y < right.len() && right[y] == b@[j];
            assert(left[x] == ids@[from + x] && right[y] == ids@[mid + y]);
        }
    }
    let out = merge_tokens(texts, &a, &b);
    proof {
        assert(part =~= left + right);
        assert forall|x: u32| #[trigger] out@.contains(x) <==> part.contains(x) by {
            assert(out@.contains(x) <==> a@.contains(x) || b@.contains(x));
            if left.contains(x) {
                let k = choose|k: int| 0 <= k < left.len() && left[k] == x;
                assert(part[k] == x);
            }
            if right.contains(x) {
                let k = choose|k: int| 0 <= k < right.len() && right[k] == x;
                assert(part[left.len() + k] == x);
            }
            if part.contains(x) {
                let k = choose|k: int| 0 <= k < part.len() && part[k] == x;
                if k < left.len() {
                    assert(left[k] == x);
                } else {
                    assert(right[k - left.len()] == x);
                }
            }
        }
    }
    out
}

} // verus!
