//! How much of the text and of the recent prompts a completion looks at.

use vstd::prelude::*;

use super::context::{
    anchor_place, last_anchor, lemma_space_at, tail_from, tail_start, window_from,
    window_low,
};
use super::memory::{lemma_utf16_concat, remembered, trimmed, window_units};
use crate::prose::{js_space, typed_shape};
use crate::unicode::utf16_len;

verus! {

proof fn lemma_last_anchor(before: Seq<char>, lo: int, hi: int, k: int)
    requires
        0 <= k <= before.len(),
    ensures
        match last_anchor(before, lo, hi, k) {
            Some(at) => 0 <= at < k && anchor_place(before, lo, hi, at) && forall|i: int|
                at < i < k ==> !#[trigger] anchor_place(before, lo, hi, i),
            None => forall|i: int| 0 <= i < k ==> !#[trigger] anchor_place(before, lo, hi, i),
        },
    decreases k,
{
    if k > 0 {
        lemma_last_anchor(before, lo, hi, k - 1);
    }
}

proof fn lemma_tail_start(before: Seq<char>, units: int, k: int)
    requires
        0 <= k <= before.len(),
        0 <= units,
        utf16_len(before.skip(k)) <= units,
    ensures
        0 <= tail_start(before, units, k) <= k,
        tail_start(before, units, k) == 0 || utf16_len(
            before.skip(tail_start(before, units, k) - 1),
        ) > units,
        forall|j: int|
            tail_start(before, units, k) <= j <= k ==> utf16_len(#[trigger] before.skip(j)) <= units,
    decreases k,
{
    if k > 0 && utf16_len(before.skip(k - 1)) <= units {
        lemma_tail_start(before, units, k - 1);
    }
}

proof fn lemma_units_fall(before: Seq<char>, a: int, b: int)
    requires
        0 <= a <= b <= before.len(),
    ensures
        utf16_len(before.skip(b)) <= utf16_len(before.skip(a)),
    decreases b - a,
{
    if a < b {
        lemma_units_fall(before, a + 1, b);
        assert(before.skip(a) =~= seq![before[a]] + before.skip(a + 1));
        lemma_utf16_concat(seq![before[a]], before.skip(a + 1));
    }
}

/// A text of at most four hundred units is looked at whole. Of a longer one the
/// window starts at the last anchor word that leaves between four hundred and
/// six hundred and fifty-six units; where there is none, behind the first white
/// space within the last four hundred units.
pub proof fn law_window_is_as_long_as_it_may_be(before: Seq<char>, total: int, lo: int)
    requires
        total == utf16_len(before),
        total <= 656 ==> lo == 0,
        total > 656 ==> lo == total - 656,
    ensures
        total <= 400 ==> window_from(before) == 0,
        total > 400 ==> forall|i: int|
            0 <= i < before.len() && #[trigger] anchor_place(before, lo, total - 400, i) ==> i
                <= window_from(before) && anchor_place(
                before,
                lo,
                total - 400,
                window_from(before),
            ),
        total > 400 && (forall|i: int|
            0 <= i < before.len() ==> !#[trigger] anchor_place(before, lo, total - 400, i)) ==> {
            let at = window_from(before);
            &&& utf16_len(before.skip(at)) <= 400
            &&& forall|p: int|
                0 <= p < at - 1 && js_space(#[trigger] before[p]) ==> utf16_len(before.skip(p))
                    > 400
            &&& at > 0 && !js_space(before[at - 1]) ==> utf16_len(before.skip(at - 1)) > 400
        },
{
    let at = window_from(before);
    let n = before.len() as int;
    if total > 400 {
        assert(lo == window_low(total));
        lemma_last_anchor(before, lo, total - 400, n);
        match last_anchor(before, lo, total - 400, n) {
            Some(a) => {
                assert(anchor_place(before, lo, total - 400, a));
            },
            None => {
                assert(before.skip(n) =~= Seq::<char>::empty());
                lemma_tail_start(before, 400, n);
                let start = tail_start(before, 400, n);
                lemma_space_at(before, start);
                assert(at == tail_from(before, 400));
                assert(start <= at);
                lemma_units_fall(before, start, at);
                assert forall|p: int| 0 <= p < at - 1 && js_space(
                    #[trigger] before[p],
                ) implies utf16_len(before.skip(p)) > 400 by {
                    if p < start {
                        lemma_units_fall(before, p, start - 1);
                    }
                }
            },
        }
    }
}

/// An anchor place is the start of a word.
pub proof fn law_anchors_are_word_starts(before: Seq<char>, lo: int, hi: int, i: int)
    requires
        anchor_place(before, lo, hi, i),
    ensures
        0 < i < before.len(),
        js_space(before[i - 1]),
        !js_space(before[i]),
        lo <= utf16_len(before.take(i)) <= hi,
{
}

proof fn lemma_trimmed(recent: Seq<Seq<char>>)
    requires
        recent.len() > 0,
    ensures
        ({
            let after = trimmed(recent);
            &&& 0 < after.len() <= recent.len()
            &&& after == recent.skip(recent.len() - after.len())
            &&& after.len() == 1 || window_units(after) <= 1500
            &&& forall|k: int|
                after.len() < k <= recent.len() ==> window_units(
                    #[trigger] recent.skip(recent.len() - k),
                ) > 1500
        }),
    decreases recent.len(),
{
    assert(recent.skip(0) =~= recent);
    if recent.len() > 1 && window_units(recent) > 1500 {
        let rest = recent.drop_first();
        lemma_trimmed(rest);
        let after = trimmed(recent);
        assert(rest.skip(rest.len() - after.len()) =~= recent.skip(recent.len() - after.len()));
        assert forall|k: int| after.len() < k <= recent.len() implies window_units(
            #[trigger] recent.skip(recent.len() - k),
        ) > 1500 by {
            if k < recent.len() {
                assert(rest.skip(rest.len() - k) =~= recent.skip(recent.len() - k));
            }
        }
    }
}

/// The memory takes typed prompts of up to fifteen hundred units and no others;
/// it keeps everything until it passes twenty-five hundred units, and then the
/// most of the newest prompts that fit fifteen hundred, and the newest in any
/// case.
pub proof fn law_memory_keeps_the_newest_that_fit(recent: Seq<Seq<char>>, prompt: Seq<char>)
    ensures
        ({
            let grown = recent.push(prompt);
            let after = remembered(recent, prompt);
            &&& !typed_shape(prompt, 1500) ==> after == recent
            &&& typed_shape(prompt, 1500) && window_units(grown) <= 2500 ==> after == grown
            &&& typed_shape(prompt, 1500) && window_units(grown) > 2500 ==> {
                &&& 0 < after.len() <= grown.len()
                &&& after == grown.skip(grown.len() - after.len())
                &&& after.len() == 1 || window_units(after) <= 1500
                &&& forall|k: int|
                    after.len() < k <= grown.len() ==> window_units(
                        #[trigger] grown.skip(grown.len() - k),
                    ) > 1500
            }
        }),
{
    lemma_trimmed(recent.push(prompt));
}

} // verus!
