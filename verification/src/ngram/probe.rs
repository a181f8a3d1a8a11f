//! Linear probing over a circular slot array.

use vstd::arithmetic::power2::{lemma_pow2_adds, lemma_pow2_pos, pow2};
use vstd::bits::lemma_u64_shr_is_div;
use vstd::prelude::*;

verus! {

/// Steps forward from `home` to `at` in a ring of `n` slots.
pub open spec fn ring_distance(home: int, at: int, n: int) -> int {
    if at >= home {
        at - home
    } else {
        at - home + n
    }
}

/// `slots` is a power of two and `shift` leaves exactly the bits that number
/// them.
pub open spec fn sized(slots: nat, shift: u32) -> bool {
    4 <= 64 - shift <= 62 && slots == pow2((64 - shift) as nat)
}

/// A shifted hash numbers a slot.
pub proof fn lemma_shift_in_range(hash: u64, slots: nat, shift: u32)
    requires
        sized(slots, shift),
    ensures
        (hash >> (shift as u64)) < slots,
        slots >= 16,
{
    lemma_u64_shr_is_div(hash, shift as u64);
    lemma_pow2_pos(shift as nat);
    lemma_pow2_adds(shift as nat, (64 - shift) as nat);
    assert(pow2(64) == 0x1_0000_0000_0000_0000) by {
        vstd::arithmetic::power2::lemma2_to64();
    }
    let d = pow2(shift as nat) as int;
    let q = hash as int / d;
    assert(d * (slots as int) == 0x1_0000_0000_0000_0000);
    assert(q < slots) by (nonlinear_arith)
        requires
            q == hash as int / d,
            d > 0,
            (hash as int) < d * (slots as int),
    ;
    lemma_pow2_adds(4, (60 - shift) as nat);
    assert(pow2(4) == 16) by {
        vstd::arithmetic::power2::lemma2_to64();
    }
    lemma_pow2_pos((60 - shift) as nat);
    assert(slots >= 16) by (nonlinear_arith)
        requires
            slots == 16 * pow2((60 - shift) as nat),
            pow2((60 - shift) as nat) >= 1,
    ;
}

/// Doubling the slots takes one bit less of shift.
pub proof fn lemma_sized_double(slots: nat, shift: u32)
    requires
        sized(slots, shift),
        shift > 2,
    ensures
        sized(2 * slots, (shift - 1) as u32),
{
    vstd::arithmetic::power2::lemma_pow2_unfold((65 - shift) as nat);
}

/// The smallest table.
pub proof fn lemma_sized_base()
    ensures
        sized(16, 60),
{
    vstd::arithmetic::power2::lemma2_to64();
}

/// The ids of a range, counted.
pub proof fn lemma_id_range(lo: int, hi: int, ids: Set<u32>)
    requires
        0 <= lo <= hi <= u32::MAX,
        forall|x: u32| #[trigger] ids.contains(x) <==> lo <= x < hi,
    ensures
        ids.finite(),
        ids.len() == hi - lo,
{
    let list = Seq::new((hi - lo) as nat, |i: int| (lo + i) as u32);
    assert(list.no_duplicates());
    list.unique_seq_to_set();
    assert(list.to_set() =~= ids) by {
        assert forall|x: u32| ids.contains(x) implies list.to_set().contains(x) by {
            assert(list[x - lo] == x);
        }
    }
}

} // verus!
