//! Byte-pair encoding of one pre-token: symbols are merged by rank, lowest
//! first, leftmost on ties.

use std::collections::HashMap;

use vstd::prelude::*;

use crate::ngram::pair_table::{key_of, pair_key};

verus! {

broadcast use vstd::std_specs::hash::group_hash_axioms;

/// A token and the byte span that it covers.
pub type Symbol = (u32, usize, usize);

/// One symbol for every byte of `bytes[start..end]` that has one.
pub open spec fn first_symbols(ids: Seq<Option<u32>>, bytes: Seq<u8>, start: int, end: int) -> Seq<
    Symbol,
>
    decreases end - start,
{
    if end <= start {
        Seq::empty()
    } else {
        let head = first_symbols(ids, bytes, start, end - 1);
        match ids[bytes[end - 1] as int] {
            Some(id) => head.push((id, (end - 1) as usize, end as usize)),
            None => head,
        }
    }
}

/// The symbols `i` and `i + 1` can merge.
pub open spec fn merges_at(merges: Map<u64, (u32, u32)>, symbols: Seq<Symbol>, i: int) -> bool {
    merges.contains_key(key_of(symbols[i].0, symbols[i + 1].0))
}

/// The rank of the merge of the symbols `i` and `i + 1`.
pub open spec fn rank_at(merges: Map<u64, (u32, u32)>, symbols: Seq<Symbol>, i: int) -> u32 {
    merges[key_of(symbols[i].0, symbols[i + 1].0)].0
}

/// The token that the symbols `i` and `i + 1` merge into.
pub open spec fn token_at(merges: Map<u64, (u32, u32)>, symbols: Seq<Symbol>, i: int) -> u32 {
    merges[key_of(symbols[i].0, symbols[i + 1].0)].1
}

/// The merge to make among the first `k` neighbouring pairs.
pub open spec fn best_merge(merges: Map<u64, (u32, u32)>, symbols: Seq<Symbol>, k: int) -> Option<
    int,
>
    decreases k,
{
    if k <= 0 {
        None
    } else {
        let before = best_merge(merges, symbols, k - 1);
        if !merges_at(merges, symbols, k - 1) {
            before
        } else {
            match before {
                Some(i) if rank_at(merges, symbols, i) <= rank_at(merges, symbols, k - 1) => before,
                _ => Some(k - 1),
            }
        }
    }
}

/// The merge that is made has the lowest rank of all, and is the leftmost of
/// that rank; none is made exactly when no two neighbours can merge.
pub proof fn law_best_merge_is_lowest_and_leftmost(
    merges: Map<u64, (u32, u32)>,
    symbols: Seq<Symbol>,
    k: int,
)
    ensures
        match best_merge(merges, symbols, k) {
            Some(i) => {
                &&& 0 <= i < k
                &&& merges_at(merges, symbols, i)
                &&& forall|j: int|
                    0 <= j < k && #[trigger] merges_at(merges, symbols, j) ==> rank_at(
                        merges,
                        symbols,
                        i,
                    ) < rank_at(merges, symbols, j) || (rank_at(merges, symbols, i) == rank_at(
                        merges,
                        symbols,
                        j,
                    ) && i <= j)
            },
            None => forall|j: int| 0 <= j < k ==> !#[trigger] merges_at(merges, symbols, j),
        },
    decreases k,
{
    if k > 0 {
        law_best_merge_is_lowest_and_leftmost(merges, symbols, k - 1);
    }
}

/// The symbols after the pair at `i` has become the token `id`.
pub open spec fn joined(symbols: Seq<Symbol>, i: int, id: u32) -> Seq<Symbol> {
    symbols.update(i, (id, symbols[i].1, symbols[i + 1].2)).remove(i + 1)
}

/// The symbols once no merge is left.
pub open spec fn merged(merges: Map<u64, (u32, u32)>, symbols: Seq<Symbol>) -> Seq<Symbol>
    decreases symbols.len(),
{
    match best_merge(merges, symbols, symbols.len() - 1) {
        Some(i) if 0 <= i < symbols.len() - 1 => merged(
            merges,
            joined(symbols, i, token_at(merges, symbols, i)),
        ),
        _ => symbols,
    }
}

/// The tokens of the pre-tokens `spans` of `bytes`.
pub open spec fn tokens_of(
    ids: Seq<Option<u32>>,
    merges: Map<u64, (u32, u32)>,
    bytes: Seq<u8>,
    spans: Seq<(int, int)>,
) -> Seq<Symbol>
    decreases spans.len(),
{
    if spans.len() == 0 {
        Seq::empty()
    } else {
        tokens_of(ids, merges, bytes, spans.drop_last()) + merged(
            merges,
            first_symbols(ids, bytes, spans.last().0, spans.last().1),
        )
    }
}

/// Symbols inside `start..end`, in order, none of them empty, none
/// overlapping another.
pub open spec fn in_order(symbols: Seq<Symbol>, start: int, end: int) -> bool {
    &&& start <= end
    &&& forall|i: int|
        0 <= i < symbols.len() ==> start <= (#[trigger] symbols[i]).1 < symbols[i].2 <= end
    &&& forall|i: int, j: int|
        0 <= i < j < symbols.len() ==> (#[trigger] symbols[i]).2 <= (#[trigger] symbols[j]).1
}

/// Some symbol covers the byte `p`.
pub open spec fn covered(symbols: Seq<Symbol>, p: int) -> bool {
    exists|i: int| 0 <= i < symbols.len() && (#[trigger] symbols[i]).1 <= p < symbols[i].2
}

/// The bytes of `start..end` that have a symbol are covered.
pub open spec fn covers(
    symbols: Seq<Symbol>,
    ids: Seq<Option<u32>>,
    bytes: Seq<u8>,
    start: int,
    end: int,
) -> bool {
    forall|p: int|
        start <= p < end && ids[#[trigger] bytes[p] as int] is Some ==> covered(symbols, p)
}

/// Every symbol begins and ends with a byte that has one.
#[verifier::opaque]
pub open spec fn rooted(symbols: Seq<Symbol>, ids: Seq<Option<u32>>, bytes: Seq<u8>) -> bool {
    forall|i: int|
        0 <= i < symbols.len() ==> ids[bytes[(#[trigger] symbols[i]).1 as int] as int] is Some
            && ids[bytes[symbols[i].2 - 1] as int] is Some
}

/// A symbol begins with a byte that has one.
pub proof fn lemma_rooted(
    symbols: Seq<Symbol>,
    ids: Seq<Option<u32>>,
    bytes: Seq<u8>,
    i: int,
)
    requires
        rooted(symbols, ids, bytes),
        0 <= i < symbols.len(),
    ensures
        ids[bytes[symbols[i].1 as int] as int] is Some,
{
    reveal(rooted);
}

proof fn lemma_first_rooted(ids: Seq<Option<u32>>, bytes: Seq<u8>, start: int, end: int)
    requires
        0 <= start <= end <= usize::MAX,
    ensures
        rooted(first_symbols(ids, bytes, start, end), ids, bytes),
    decreases end - start,
{
    reveal(rooted);
    if start < end {
        lemma_first_rooted(ids, bytes, start, end - 1);
    }
}

proof fn lemma_merged_rooted(
    merges: Map<u64, (u32, u32)>,
    symbols: Seq<Symbol>,
    ids: Seq<Option<u32>>,
    bytes: Seq<u8>,
)
    requires
        rooted(symbols, ids, bytes),
    ensures
        rooted(merged(merges, symbols), ids, bytes),
    decreases symbols.len(),
{
    reveal(rooted);
    match best_merge(merges, symbols, symbols.len() - 1) {
        Some(i) if 0 <= i < symbols.len() - 1 => {
            let id = token_at(merges, symbols, i);
            let after = joined(symbols, i, id);
            assert forall|j: int| 0 <= j < after.len() implies ids[bytes[(
            #[trigger] after[j]).1 as int] as int] is Some && ids[bytes[after[j].2
                - 1] as int] is Some by {
                if j < i {
                    assert(after[j] == symbols[j]);
                } else if j == i {
                    assert(after[j].1 == symbols[i].1 && after[j].2 == symbols[i + 1].2);
                } else {
                    assert(after[j] == symbols[j + 1]);
                }
            }
            lemma_merged_rooted(merges, after, ids, bytes);
        },
        _ => {},
    }
}

/// The tokens of neighbouring pre-tokens begin and end with bytes that have a
/// symbol.
pub proof fn lemma_tokens_rooted(
    ids: Seq<Option<u32>>,
    merges: Map<u64, (u32, u32)>,
    bytes: Seq<u8>,
    before: Seq<Symbol>,
    start: int,
    end: int,
)
    requires
        0 <= start <= end <= usize::MAX,
        rooted(before, ids, bytes),
    ensures
        rooted(before + merged(merges, first_symbols(ids, bytes, start, end)), ids, bytes),
{
    reveal(rooted);
    lemma_first_rooted(ids, bytes, start, end);
    lemma_merged_rooted(merges, first_symbols(ids, bytes, start, end), ids, bytes);
}

pub(crate) proof fn lemma_first_symbols(ids: Seq<Option<u32>>, bytes: Seq<u8>, start: int, end: int)
    requires
        0 <= start <= end <= usize::MAX,
    ensures
        in_order(first_symbols(ids, bytes, start, end), start, end),
        covers(first_symbols(ids, bytes, start, end), ids, bytes, start, end),
    decreases end - start,
{
    if start < end {
        lemma_first_symbols(ids, bytes, start, end - 1);
        let head = first_symbols(ids, bytes, start, end - 1);
        let all = first_symbols(ids, bytes, start, end);
        assert forall|p: int|
            start <= p < end && ids[#[trigger] bytes[p] as int] is Some implies covered(all, p) by {
            if p == end - 1 {
                assert(all[head.len() as int].1 <= p < all[head.len() as int].2);
            } else {
                assert(covered(head, p));
                let i = choose|i: int|
                    0 <= i < head.len() && (#[trigger] head[i]).1 <= p < head[i].2;
                assert(all[i] == head[i]);
            }
        }
    }
}

pub(crate) proof fn lemma_joined(symbols: Seq<Symbol>, i: int, id: u32, start: int, end: int)
    requires
        0 <= i < symbols.len() - 1,
        in_order(symbols, start, end),
    ensures
        in_order(joined(symbols, i, id), start, end),
        forall|p: int| covered(symbols, p) ==> #[trigger] covered(joined(symbols, i, id), p),
{
    let after = joined(symbols, i, id);
    assert forall|p: int| covered(symbols, p) implies #[trigger] covered(after, p) by {
        let j = choose|j: int|
            0 <= j < symbols.len() && (#[trigger] symbols[j]).1 <= p < symbols[j].2;
        if j < i {
            assert(after[j] == symbols[j]);
        } else if j <= i + 1 {
            assert(after[i].1 <= p < after[i].2);
        } else {
            assert(after[j - 1] == symbols[j]);
        }
    }
}

proof fn lemma_merged(
    merges: Map<u64, (u32, u32)>,
    symbols: Seq<Symbol>,
    ids: Seq<Option<u32>>,
    bytes: Seq<u8>,
    start: int,
    end: int,
)
    requires
        in_order(symbols, start, end),
        covers(symbols, ids, bytes, start, end),
    ensures
        in_order(merged(merges, symbols), start, end),
        covers(merged(merges, symbols), ids, bytes, start, end),
    decreases symbols.len(),
{
    match best_merge(merges, symbols, symbols.len() - 1) {
        Some(i) if 0 <= i < symbols.len() - 1 => {
            let id = token_at(merges, symbols, i);
            lemma_joined(symbols, i, id, start, end);
            lemma_merged(merges, joined(symbols, i, id), ids, bytes, start, end);
        },
        _ => {},
    }
}

/// The tokens of neighbouring pre-tokens are in order and cover every byte
/// that has a symbol.
pub proof fn lemma_tokens_cover(
    ids: Seq<Option<u32>>,
    merges: Map<u64, (u32, u32)>,
    bytes: Seq<u8>,
    before: Seq<Symbol>,
    start: int,
    end: int,
)
    requires
        0 <= start <= end <= usize::MAX,
        in_order(before, 0, start),
        covers(before, ids, bytes, 0, start),
    ensures
        in_order(before + merged(merges, first_symbols(ids, bytes, start, end)), 0, end),
        covers(
            before + merged(merges, first_symbols(ids, bytes, start, end)),
            ids,
            bytes,
            0,
            end,
        ),
{
    let more = merged(merges, first_symbols(ids, bytes, start, end));
    lemma_first_symbols(ids, bytes, start, end);
    lemma_merged(merges, first_symbols(ids, bytes, start, end), ids, bytes, start, end);
    let all = before + more;
    assert forall|p: int|
        0 <= p < end && ids[#[trigger] bytes[p] as int] is Some implies covered(all, p) by {
        if p < start {
            assert(covered(before, p));
            let i = choose|i: int|
                0 <= i < before.len() && (#[trigger] before[i]).1 <= p < before[i].2;
            assert(all[i] == before[i]);
        } else {
            assert(covered(more, p));
            let i = choose|i: int| 0 <= i < more.len() && (#[trigger] more[i]).1 <= p < more[i].2;
            assert(all[before.len() + i] == more[i]);
        }
    }
}

/// The merge to make next: its position and the token it gives.
fn next_merge(merges: &HashMap<u64, (u32, u32)>, symbols: &Vec<Symbol>) -> (best: Option<
    (usize, u32),
>)
    ensures
        match best {
            Some((i, id)) => {
                &&& best_merge(merges@, symbols@, symbols@.len() - 1) == Some(i as int)
                &&& i + 1 < symbols@.len()
                &&& id == token_at(merges@, symbols@, i as int)
            },
            None => best_merge(merges@, symbols@, symbols@.len() - 1) is None,
        },
{
    let mut best: Option<(usize, u32)> = None;
    let mut low: u32 = 0;
    if symbols.len() == 0 {
        return None;
    }
    let pairs: usize = symbols.len() - 1;
    let mut k: usize = 0;
    while k < pairs
        invariant
            pairs == symbols@.len() - 1,
            k <= pairs,
            match best {
                Some((i, id)) => {
                    &&& best_merge(merges@, symbols@, k as int) == Some(i as int)
                    &&& i < k
                    &&& id == token_at(merges@, symbols@, i as int)
                    &&& low == rank_at(merges@, symbols@, i as int)
                },
                None => best_merge(merges@, symbols@, k as int) is None,
            },
        decreases pairs - k,
    {
        let key: u64 = pair_key(symbols[k].0, symbols[k + 1].0);
        match merges.get(&key) {
            Some(entry) => {
                let (rank, id) = *entry;
                if best.is_none() || rank < low {
                    best = Some((k, id));
                    low = rank;
                }
            },
            None => {},
        }
        k = k + 1;
    }
    best
}

/// Merges the bytes `start..end` of one pre-token by rank and appends the
/// tokens with their byte spans.
pub fn bpe(
    ids: &Vec<Option<u32>>,
    merges: &HashMap<u64, (u32, u32)>,
    bytes: &[u8],
    start: usize,
    end: usize,
    out: &mut Vec<Symbol>,
)
    requires
        ids@.len() == 256,
        start <= end <= bytes@.len(),
    ensures
        final(out)@ == old(out)@ + merged(
            merges@,
            first_symbols(ids@, bytes@, start as int, end as int),
        ),
{
    let mut symbols: Vec<Symbol> = Vec::new();
    let mut at: usize = start;
    while at < end
        invariant
            ids@.len() == 256,
            start <= at <= end <= bytes@.len(),
            symbols@ == first_symbols(ids@, bytes@, start as int, at as int),
        decreases end - at,
    {
        let b: u8 = bytes[at];
        match ids[b as usize] {
            Some(id) => {
                symbols.push((id, at, at + 1));
            },
            None => {},
        }
        at = at + 1;
    }
    let ghost goal = merged(merges@, symbols@);
    loop
        invariant
            merged(merges@, symbols@) == goal,
        ensures
            symbols@ == goal,
        decreases symbols@.len(),
    {
        match next_merge(merges, &symbols) {
            Some((i, id)) => {
                let ghost before = symbols@;
                let count: usize = symbols.len();
                assert(i + 1 < count);
                let first = symbols[i];
                let second = symbols[i + 1];
                symbols.set(i, (id, first.1, second.2));
                symbols.remove(i + 1);
                assert(symbols@ =~= joined(before, i as int, id));
            },
            None => {
                break ;
            },
        }
    }
    out.append(&mut symbols);
}

} // verus!
