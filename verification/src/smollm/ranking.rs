//! Order of single-precision numbers by their bit patterns, and the best few
//! tokens of a row of them.

use vstd::prelude::*;

verus! {

/// Where a bit pattern stands in the total order of single-precision numbers:
/// negative numbers from the largest pattern down, then positive ones.
pub open spec fn total_key(bits: u32) -> u32 {
    if bits >= 0x8000_0000 {
        (0xffff_ffff - bits) as u32
    } else {
        (bits + 0x8000_0000) as u32
    }
}

/// The pattern is no number.
pub open spec fn not_a_number(bits: u32) -> bool {
    bits % 0x8000_0000 > 0x7f80_0000
}

/// The pattern is zero, of either sign.
pub open spec fn is_zero(bits: u32) -> bool {
    bits % 0x8000_0000 == 0
}

/// `a >= b`: in the total order, or as numbers compare, where both zeros are
/// the same and a pattern that is no number compares with nothing.
pub open spec fn at_least(a: u32, b: u32, total: bool) -> bool {
    if total {
        total_key(b) <= total_key(a)
    } else {
        !not_a_number(a) && !not_a_number(b) && ((is_zero(a) && is_zero(b)) || total_key(b)
            <= total_key(a))
    }
}

fn key(bits: u32) -> (k: u32)
    ensures
        k == total_key(bits),
{
    if bits >= 0x8000_0000 {
        0xffff_ffff - bits
    } else {
        bits + 0x8000_0000
    }
}

/// Whether `a >= b`.
pub fn is_at_least(a: u32, b: u32, total: bool) -> (r: bool)
    ensures
        r == at_least(a, b, total),
{
    if total {
        return key(b) <= key(a);
    }
    let low_a: u32 = a % 0x8000_0000;
    let low_b: u32 = b % 0x8000_0000;
    if low_a > 0x7f80_0000 || low_b > 0x7f80_0000 {
        return false;
    }
    (low_a == 0 && low_b == 0) || key(b) <= key(a)
}

/// Behind the leading entries that are at least `value`, from `p` on.
pub open spec fn place(row: Seq<u32>, best: Seq<u32>, value: u32, total: bool, p: int) -> int
    decreases best.len() - p,
{
    if 0 <= p < best.len() && at_least(row[best[p] as int], value, total) {
        place(row, best, value, total, p + 1)
    } else {
        p
    }
}

/// The best `k` tokens after one more token `id`.
pub open spec fn lead_with(row: Seq<u32>, best: Seq<u32>, id: u32, k: int, total: bool) -> Seq<u32> {
    let value = row[id as int];
    if best.len() == k && best.len() > 0 && at_least(row[best.last() as int], value, total) {
        best
    } else {
        let grown = best.insert(place(row, best, value, total, 0), id);
        if grown.len() > k {
            grown.take(k)
        } else {
            grown
        }
    }
}

/// The best `k` of the first `n` tokens by their row values, best first, the
/// earlier first among equals.
pub open spec fn leading(row: Seq<u32>, ids: Seq<u32>, n: int, k: int, total: bool) -> Seq<u32>
    decreases n,
{
    if n <= 0 {
        Seq::empty()
    } else {
        lead_with(row, leading(row, ids, n - 1, k, total), ids[n - 1], k, total)
    }
}

proof fn lemma_place(row: Seq<u32>, best: Seq<u32>, value: u32, total: bool, p: int)
    requires
        0 <= p <= best.len(),
    ensures
        p <= place(row, best, value, total, p) <= best.len(),
        forall|j: int|
            p <= j < place(row, best, value, total, p) ==> at_least(
                row[#[trigger] best[j] as int],
                value,
                total,
            ),
        place(row, best, value, total, p) < best.len() ==> !at_least(
            row[best[place(row, best, value, total, p)] as int],
            value,
            total,
        ),
    decreases best.len() - p,
{
    if p < best.len() && at_least(row[best[p] as int], value, total) {
        lemma_place(row, best, value, total, p + 1);
    }
}

/// The tokens listed come from the tokens given.
pub proof fn lemma_leading_members(row: Seq<u32>, ids: Seq<u32>, n: int, k: int, total: bool)
    requires
        0 <= n <= ids.len(),
        0 <= k,
    ensures
        leading(row, ids, n, k, total).len() <= k,
        forall|i: int|
            0 <= i < leading(row, ids, n, k, total).len() ==> ids.contains(
                #[trigger] leading(row, ids, n, k, total)[i],
            ),
    decreases n,
{
    if n > 0 {
        lemma_leading_members(row, ids, n - 1, k, total);
        let best = leading(row, ids, n - 1, k, total);
        let id = ids[n - 1];
        let p = place(row, best, row[id as int], total, 0);
        lemma_place(row, best, row[id as int], total, 0);
        let now = leading(row, ids, n, k, total);
        assert(ids.contains(id));
        assert forall|i: int| 0 <= i < now.len() implies ids.contains(#[trigger] now[i]) by {
            if now != best {
                if i < p {
                    assert(now[i] == best[i]);
                } else if i > p {
                    assert(now[i] == best[i - 1]);
                }
            } else {
                assert(now[i] == best[i]);
            }
        }
    }
}

/// Every value is a number.
pub open spec fn all_numbers(row: Seq<u32>, ids: Seq<u32>) -> bool {
    forall|i: int| 0 <= i < ids.len() ==> !not_a_number(row[#[trigger] ids[i] as int])
}

proof fn lemma_at_least_total(a: u32, b: u32, total: bool)
    requires
        total || (!not_a_number(a) && !not_a_number(b)),
    ensures
        at_least(a, b, total) || at_least(b, a, total),
{
}

proof fn lemma_at_least_transitive(a: u32, b: u32, c: u32, total: bool)
    requires
        at_least(a, b, total),
        at_least(b, c, total),
    ensures
        at_least(a, c, total),
{
}

/// The list is as long as it can be, it runs from the best value down, and no
/// token left out is better than one listed.
pub proof fn law_leading_are_the_best(row: Seq<u32>, ids: Seq<u32>, n: int, k: int, total: bool)
    requires
        0 <= n <= ids.len(),
        0 <= k,
        total || all_numbers(row, ids),
    ensures
        leading(row, ids, n, k, total).len() == if n < k {
            n
        } else {
            k
        },
        forall|i: int, j: int|
            0 <= i <= j < leading(row, ids, n, k, total).len() ==> at_least(
                row[#[trigger] leading(row, ids, n, k, total)[i] as int],
                row[#[trigger] leading(row, ids, n, k, total)[j] as int],
                total,
            ),
        forall|m: int, i: int|
            0 <= m < n && 0 <= i < leading(row, ids, n, k, total).len() ==> leading(
                row,
                ids,
                n,
                k,
                total,
            ).contains(#[trigger] ids[m]) || at_least(
                row[#[trigger] leading(row, ids, n, k, total)[i] as int],
                row[ids[m] as int],
                total,
            ),
    decreases n,
{
    if n > 0 {
        law_leading_are_the_best(row, ids, n - 1, k, total);
        lemma_leading_members(row, ids, n - 1, k, total);
        let best = leading(row, ids, n - 1, k, total);
        let now = leading(row, ids, n, k, total);
        let id = ids[n - 1];
        let value = row[id as int];
        let p = place(row, best, value, total, 0);
        lemma_place(row, best, value, total, 0);
        assert forall|i: int| 0 <= i < best.len() implies total || !not_a_number(
            row[#[trigger] best[i] as int],
        ) by {
            assert(ids.contains(best[i]));
            let m = choose|m: int| 0 <= m < ids.len() && ids[m] == best[i];
            assert(total || !not_a_number(row[ids[m] as int]));
        }
        let skipped = best.len() == k && best.len() > 0 && at_least(
            row[best.last() as int],
            value,
            total,
        );
        if skipped {
            assert forall|i: int| 0 <= i < best.len() implies at_least(
                row[#[trigger] best[i] as int],
                value,
                total,
            ) by {
                assert(best[best.len() - 1] == best.last());
                lemma_at_least_transitive(
                    row[best[i] as int],
                    row[best[best.len() - 1] as int],
                    value,
                    total,
                );
            }
        } else {
            let grown = best.insert(p, id);
            // Everything behind the new token is below it.
            assert forall|j: int| p <= j < best.len() implies at_least(
                value,
                row[#[trigger] best[j] as int],
                total,
            ) by {
                lemma_at_least_total(row[best[p] as int], value, total);
                assert(at_least(row[best[p] as int], row[best[j] as int], total));
                lemma_at_least_transitive(value, row[best[p] as int], row[best[j] as int], total);
            }
            assert forall|i: int| 0 <= i < grown.len() implies #[trigger] grown[i] == (if i < p {
                best[i]
            } else if i == p {
                id
            } else {
                best[i - 1]
            }) by {}
            lemma_at_least_total(value, value, total);
            assert forall|i: int, j: int| 0 <= i <= j < grown.len() implies at_least(
                row[#[trigger] grown[i] as int],
                row[#[trigger] grown[j] as int],
                total,
            ) by {
                if i != p && j != p {
                    let a = if i < p {
                        i
                    } else {
                        i - 1
                    };
                    let b = if j < p {
                        j
                    } else {
                        j - 1
                    };
                    assert(at_least(row[best[a] as int], row[best[b] as int], total));
                }
            }
            assert forall|i: int| 0 <= i < now.len() implies now[i] == grown[i] by {}
            assert forall|m: int, i: int| 0 <= m < n && 0 <= i < now.len() implies now.contains(
                #[trigger] ids[m],
            ) || at_least(row[#[trigger] now[i] as int], row[ids[m] as int], total) by {
                // Where the token stands in the grown list, if it does.
                if m < n - 1 && best.contains(ids[m]) {
                    let a = choose|a: int| 0 <= a < best.len() && best[a] == ids[m];
                    let b = if a < p {
                        a
                    } else {
                        a + 1
                    };
                    assert(grown[b] == ids[m]);
                    if b < now.len() {
                        assert(now[b] == ids[m]);
                    } else {
                        assert(at_least(row[grown[i] as int], row[grown[b] as int], total));
                    }
                } else if m < n - 1 {
                    if i < p {
                        assert(at_least(row[best[i] as int], row[ids[m] as int], total));
                    } else if i > p {
                        assert(at_least(row[best[i - 1] as int], row[ids[m] as int], total));
                    } else if p < best.len() {
                        assert(at_least(row[best[p] as int], row[ids[m] as int], total));
                        lemma_at_least_transitive(
                            value,
                            row[best[p] as int],
                            row[ids[m] as int],
                            total,
                        );
                    } else if best.len() > 0 {
                        // The list was full, or nothing was left out of it.
                        lemma_nothing_left_out(row, ids, n - 1, k, total, m);
                    } else {
                        lemma_nothing_left_out(row, ids, n - 1, k, total, m);
                    }
                } else if p < now.len() {
                    assert(now[p] == id);
                } else {
                    assert(at_least(row[grown[i] as int], row[grown[p] as int], total));
                }
            }
        }
    }
}

/// While the list is not full, every token is listed.
proof fn lemma_nothing_left_out(row: Seq<u32>, ids: Seq<u32>, n: int, k: int, total: bool, m: int)
    requires
        0 <= m < n <= ids.len(),
        leading(row, ids, n, k, total).len() < k,
    ensures
        leading(row, ids, n, k, total).contains(ids[m]),
    decreases n,
{
    let best = leading(row, ids, n - 1, k, total);
    let id = ids[n - 1];
    let p = place(row, best, row[id as int], total, 0);
    lemma_place(row, best, row[id as int], total, 0);
    let now = leading(row, ids, n, k, total);
    if m == n - 1 {
        assert(now[p] == id);
    } else {
        lemma_nothing_left_out(row, ids, n - 1, k, total, m);
        let a = choose|a: int| 0 <= a < best.len() && best[a] == ids[m];
        if a < p {
            assert(now[a] == ids[m]);
        } else {
            assert(now[a + 1] == ids[m]);
        }
    }
}

/// The best `k` tokens by their row values, best first.
pub fn leaders(row: &Vec<u32>, ids: &Vec<u32>, k: usize, total: bool) -> (best: Vec<u32>)
    requires
        forall|i: int| 0 <= i < ids@.len() ==> (#[trigger] ids@[i]) < row@.len(),
    ensures
        best@ == leading(row@, ids@, ids@.len() as int, k as int, total),
{
    let mut best: Vec<u32> = Vec::new();
    let mut n: usize = 0;
    while n < ids.len()
        invariant
            forall|i: int| 0 <= i < ids@.len() ==> (#[trigger] ids@[i]) < row@.len(),
            n <= ids@.len(),
            best@ == leading(row@, ids@, n as int, k as int, total),
            best@.len() <= k,
            forall|i: int| 0 <= i < best@.len() ==> (#[trigger] best@[i]) < row@.len(),
        decreases ids@.len() - n,
    {
        let id: u32 = ids[n];
        let value: u32 = row[id as usize];
        let full = best.len() == k && best.len() > 0 && is_at_least(
            row[best[best.len() - 1] as usize],
            value,
            total,
        );
        if !full {
            let mut p: usize = 0;
            while p < best.len() && is_at_least(row[best[p] as usize], value, total)
                invariant
                    p <= best@.len(),
                    forall|i: int| 0 <= i < best@.len() ==> (#[trigger] best@[i]) < row@.len(),
                    place(row@, best@, value, total, 0) == place(
                        row@,
                        best@,
                        value,
                        total,
                        p as int,
                    ),
                decreases best@.len() - p,
            {
                p = p + 1;
            }
            best.insert(p, id);
            if best.len() > k {
                best.truncate(k);
            }
        }
        n = n + 1;
    }
    best
}

/// The `k` tokens of highest value, best first.
pub fn top_k(row: &Vec<u32>, ids: &Vec<u32>, k: usize) -> (best: Vec<u32>)
    requires
        forall|i: int| 0 <= i < ids@.len() ==> (#[trigger] ids@[i]) < row@.len(),
    ensures
        best@ == leading(row@, ids@, ids@.len() as int, k as int, false),
{
    leaders(row, ids, k, false)
}

} // verus!
