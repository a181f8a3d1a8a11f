//! Data structures behind prefix-constrained ranking.
//!
//! Base word ids are lexicographic ranks, so "every word starting with
//! `prefix`" is one contiguous id range. Range sums, range top-k and id-sorted
//! follower lists then answer prefix queries without per-prefix tables.

use crate::ngram::probe::{
    lemma_shift_in_range, lemma_sized_base, lemma_sized_double, ring_distance, sized,
};
use vstd::prelude::*;
use vstd::set_lib::lemma_len_subset;
use vstd::utf8::encode_utf8;

verus! {

/// Multiplier of the string hash.
pub const FX_SEED: u64 = 0x51_7c_c1_b7_27_22_0a_95;

/// Multiply-rotate hasher for small integer and string keys.
#[derive(Clone, Copy, Default)]
pub struct FxHasher {
    hash: u64,
}

/// One round: rotate the state left by five bits, mix the word in, multiply.
pub open spec fn fx_mix(hash: u64, word: u64) -> u64 {
    (((hash << 5) | (hash >> 59)) ^ word).wrapping_mul(FX_SEED)
}

/// The little-endian number in the first `n` bytes of `bytes` from `at` on.
pub open spec fn le_number(bytes: Seq<u8>, at: int, n: nat) -> nat
    decreases n,
{
    if n == 0 {
        0
    } else {
        bytes[at] as nat + 256 * le_number(bytes, at + 1, (n - 1) as nat)
    }
}

/// The state after all bytes from `at` on, taken eight at a time; a shorter
/// rest counts as one zero-padded word.
pub open spec fn fx_bytes(hash: u64, bytes: Seq<u8>, at: int) -> u64
    decreases bytes.len() - at,
{
    if at >= bytes.len() {
        hash
    } else if at + 8 <= bytes.len() {
        fx_bytes(fx_mix(hash, le_number(bytes, at, 8) as u64), bytes, at + 8)
    } else {
        fx_mix(hash, le_number(bytes, at, (bytes.len() - at) as nat) as u64)
    }
}

proof fn lemma_le_number_bound(bytes: Seq<u8>, at: int, n: nat)
    ensures
        n <= 8 ==> le_number(bytes, at, n) < vstd::arithmetic::power2::pow2(8 * n),
    decreases n,
{
    if n == 0 {
        vstd::arithmetic::power2::lemma2_to64();
    } else if n <= 8 {
        lemma_le_number_bound(bytes, at + 1, (n - 1) as nat);
        vstd::arithmetic::power2::lemma_pow2_adds(8, (8 * n - 8) as nat);
        vstd::arithmetic::power2::lemma2_to64();
    }
}

fn le_word(bytes: &[u8], at: usize, n: usize) -> (word: u64)
    requires
        n <= 8,
        at + n <= bytes@.len(),
    ensures
        word == le_number(bytes@, at as int, n as nat),
{
    let total: usize = bytes.len();
    let mut word: u64 = 0;
    let mut i: usize = n;
    while i > 0
        invariant
            total == bytes@.len(),
            n <= 8,
            i <= n,
            at + n <= bytes@.len(),
            word == le_number(bytes@, at + i, (n - i) as nat),
        decreases i,
    {
        i = i - 1;
        proof {
            lemma_le_number_bound(bytes@, at + i, (n - i) as nat);
            vstd::arithmetic::power2::lemma2_to64();
            vstd::arithmetic::power2::lemma2_to64_rest();
            if n - i < 8 {
                vstd::arithmetic::power2::lemma_pow2_strictly_increases(
                    (8 * (n - i)) as nat,
                    64,
                );
            }
        }
        word = bytes[at + i] as u64 + 256 * word;
    }
    word
}

impl FxHasher {
    /// The state of the hasher.
    pub closed spec fn state(&self) -> u64 {
        self.hash
    }

    /// A hasher that has seen nothing.
    pub fn new() -> (h: FxHasher)
        ensures
            h.state() == 0,
    {
        FxHasher { hash: 0 }
    }

    /// Mixes one word in.
    pub fn mix(&mut self, word: u64)
        ensures
            final(self).state() == fx_mix(old(self).state(), word),
    {
        let h: u64 = self.hash;
        self.hash = (((h << 5) | (h >> 59)) ^ word).wrapping_mul(FX_SEED);
    }

    /// Mixes bytes in, eight at a time.
    pub fn write(&mut self, bytes: &[u8])
        ensures
            final(self).state() == fx_bytes(old(self).state(), bytes@, 0),
    {
        let mut at: usize = 0;
        while bytes.len() - at >= 8
            invariant
                at <= bytes@.len(),
                fx_bytes(self.state(), bytes@, at as int) == fx_bytes(
                    old(self).state(),
                    bytes@,
                    0,
                ),
            decreases bytes@.len() - at,
        {
            let word: u64 = le_word(bytes, at, 8);
            self.mix(word);
            at = at + 8;
        }
        if at < bytes.len() {
            let word: u64 = le_word(bytes, at, bytes.len() - at);
            self.mix(word);
        }
    }

    /// Mixes one byte in.
    pub fn write_u8(&mut self, value: u8)
        ensures
            final(self).state() == fx_mix(old(self).state(), value as u64),
    {
        self.mix(value as u64);
    }

    /// Mixes one 32-bit number in.
    pub fn write_u32(&mut self, value: u32)
        ensures
            final(self).state() == fx_mix(old(self).state(), value as u64),
    {
        self.mix(value as u64);
    }

    /// Mixes one 64-bit number in.
    pub fn write_u64(&mut self, value: u64)
        ensures
            final(self).state() == fx_mix(old(self).state(), value),
    {
        self.mix(value);
    }

    /// Mixes one machine word in.
    pub fn write_usize(&mut self, value: usize)
        ensures
            final(self).state() == fx_mix(old(self).state(), value as u64),
    {
        self.mix(value as u64);
    }

    /// The hash of everything seen.
    pub fn finish(&self) -> (hash: u64)
        ensures
            hash == self.state(),
    {
        self.hash
    }
}

/// The hash of a text: its bytes, then their number.
pub open spec fn text_hash(bytes: Seq<u8>) -> u64 {
    fx_mix(fx_bytes(0, bytes, 0), bytes.len() as u64)
}

/// Hash of a string, used by the vocabulary's open-addressing index.
pub fn hash_str(text: &str) -> (hash: u64)
    ensures
        hash == text_hash(encode_utf8(text@)),
{
    let bytes = text.as_bytes();
    let mut hasher = FxHasher::new();
    hasher.write(bytes);
    hasher.mix(bytes.len() as u64);
    hasher.finish()
}

// ---------------------------------------------------------------------------
// IdTable
// ---------------------------------------------------------------------------
/// Marks a free slot; no key may have this value.
pub const EMPTY_KEY: u64 = u64::MAX;

/// Open-addressing hash table from `u64` keys to small `Copy` values (linear
/// probing, load at most 3/4, no deletion: rebuild to prune).
pub struct IdTable<V: Copy + Default> {
    keys: Vec<u64>,
    values: Vec<V>,
    shift: u32,
    len: usize,
}

/// Where the search for `key` begins.
spec fn home_slot(key: u64, shift: u32) -> int {
    (key.wrapping_mul(0x9e37_79b9_7f4a_7c15) >> (shift as u64)) as int
}

/// No key but the free mark occurs twice.
spec fn keys_unique(keys: Seq<u64>) -> bool {
    forall|i: int, j: int|
        0 <= i < keys.len() && 0 <= j < keys.len() && #[trigger] keys[i] == #[trigger] keys[j]
            && keys[i] != EMPTY_KEY ==> i == j
}

/// Every key is found by probing from its home slot.
spec fn keys_reachable(keys: Seq<u64>, shift: u32) -> bool {
    forall|i: int, j: int|
        0 <= i < keys.len() && 0 <= j < keys.len() && #[trigger] keys[i] != EMPTY_KEY
            && ring_distance(home_slot(keys[i], shift), j, keys.len() as int) < ring_distance(
            home_slot(keys[i], shift),
            i,
            keys.len() as int,
        ) ==> #[trigger] keys[j] != EMPTY_KEY
}

/// The keys in use.
spec fn key_set(keys: Seq<u64>) -> Set<u64> {
    Set::new(|k: u64| k != EMPTY_KEY && keys.contains(k))
}

impl<V: Copy + Default> View for IdTable<V> {
    type V = Map<u64, V>;

    closed spec fn view(&self) -> Map<u64, V> {
        Map::new(
            |k: u64| k != EMPTY_KEY && self.keys@.contains(k),
            |k: u64| self.values@[self.keys@.index_of(k)],
        )
    }
}

impl<V: Copy + Default> IdTable<V> {
    /// The table keeps its slots, its keys and its count in order.
    pub closed spec fn wf(&self) -> bool {
        &&& sized(self.keys@.len(), self.shift)
        &&& self.values@.len() == self.keys@.len()
        &&& 16 * self.keys@.len() <= usize::MAX + 1
        &&& keys_unique(self.keys@)
        &&& keys_reachable(self.keys@, self.shift)
        &&& key_set(self.keys@).finite()
        &&& key_set(self.keys@).len() == self.len
        &&& 4 * self.len <= 3 * self.keys@.len()
    }

    /// The number of keys is the size of the map.
    pub proof fn lemma_len(&self)
        requires
            self.wf(),
        ensures
            self@.dom().finite(),
            !self@.dom().contains(EMPTY_KEY),
    {
        assert(self@.dom() =~= key_set(self.keys@));
    }

    proof fn lemma_free_slot(&self) -> (e: int)
        requires
            self.wf(),
        ensures
            0 <= e < self.keys@.len(),
            self.keys@[e] == EMPTY_KEY,
    {
        lemma_shift_in_range(0, self.keys@.len(), self.shift);
        if forall|i: int| 0 <= i < self.keys@.len() ==> #[trigger] self.keys@[i] != EMPTY_KEY {
            assert(self.keys@.no_duplicates());
            self.keys@.unique_seq_to_set();
            assert forall|k: u64| self.keys@.to_set().contains(k) implies key_set(
                self.keys@,
            ).contains(k) by {
                let i = choose|i: int| 0 <= i < self.keys@.len() && self.keys@[i] == k;
                assert(self.keys@[i] != EMPTY_KEY);
            }
            lemma_len_subset(self.keys@.to_set(), key_set(self.keys@));
            assert(false);
        }
        choose|i: int| 0 <= i < self.keys@.len() && #[trigger] self.keys@[i] == EMPTY_KEY
    }

    /// Table sized for about `capacity` entries.
    pub fn with_capacity(capacity: usize) -> (t: IdTable<V>)
        requires
            43 * (capacity + 12) <= usize::MAX,
        ensures
            t.wf(),
            t@ == Map::<u64, V>::empty(),
    {
        let mut slots: usize = 16;
        let mut shift: u32 = 60;
        proof {
            lemma_sized_base();
        }
        while slots * 3 < capacity * 4
            invariant
                43 * (capacity + 12) <= usize::MAX,
                sized(slots as nat, shift),
                slots * 3 < capacity * 8 + 49,
            decreases
                    (if slots * 3 < capacity * 4 {
                        capacity * 4 - slots * 3
                    } else {
                        0
                    }),
        {
            proof {
                lemma_shift_bound(slots, shift);
                lemma_shift_in_range(0, slots as nat, shift);
                lemma_sized_double(slots as nat, shift);
            }
            slots = slots * 2;
            shift = shift - 1;
        }
        let keys: Vec<u64> = vec![EMPTY_KEY; slots];
        let values: Vec<V> = vec![V::default(); slots];
        let t = IdTable { keys, values, shift, len: 0 };
        assert(key_set(t.keys@) =~= Set::empty());
        assert(t@ =~= Map::<u64, V>::empty());
        t
    }

    /// Number of stored keys.
    pub fn len(&self) -> (n: usize)
        requires
            self.wf(),
        ensures
            n == self@.dom().len(),
    {
        assert(self@.dom() =~= key_set(self.keys@));
        self.len
    }

    /// Slot holding `key`, or the free slot where it would go.
    fn slot(&self, key: u64) -> (at: usize)
        requires
            self.wf(),
            key != EMPTY_KEY,
        ensures
            at < self.keys@.len(),
            self.keys@[at as int] == key || self.keys@[at as int] == EMPTY_KEY,
            self.keys@[at as int] == EMPTY_KEY ==> !self.keys@.contains(key),
            forall|j: int|
                0 <= j < self.keys@.len() && ring_distance(
                    home_slot(key, self.shift),
                    j,
                    self.keys@.len() as int,
                ) < ring_distance(
                    home_slot(key, self.shift),
                    at as int,
                    self.keys@.len() as int,
                ) ==> #[trigger] self.keys@[j] != EMPTY_KEY,
    {
        let n: usize = self.keys.len();
        let hash: u64 = key.wrapping_mul(0x9e37_79b9_7f4a_7c15);
        proof {
            lemma_shift_in_range(hash, self.keys@.len(), self.shift);
        }
        let mut at: usize = (hash >> (self.shift as u64)) as usize;
        let ghost home = home_slot(key, self.shift);
        let ghost e = self.lemma_free_slot();
        loop
            invariant
                self.wf(),
                key != EMPTY_KEY,
                n == self.keys@.len(),
                at < n,
                0 <= home < n,
                home == home_slot(key, self.shift),
                0 <= e < n,
                self.keys@[e] == EMPTY_KEY,
                ring_distance(home, at as int, n as int) <= ring_distance(home, e, n as int),
                forall|j: int|
                    0 <= j < n && ring_distance(home, j, n as int) < ring_distance(
                        home,
                        at as int,
                        n as int,
                    ) ==> #[trigger] self.keys@[j] != EMPTY_KEY && self.keys@[j] != key,
            decreases ring_distance(home, e, n as int) - ring_distance(home, at as int, n as int),
        {
            let stored: u64 = self.keys[at];
            if stored == key || stored == EMPTY_KEY {
                proof {
                    if stored == EMPTY_KEY && self.keys@.contains(key) {
                        let i = choose|i: int| 0 <= i < n && self.keys@[i] == key;
                        assert(self.keys@[i] != EMPTY_KEY);
                        assert(self.keys@[at as int] == EMPTY_KEY);
                        assert(ring_distance(home, i, n as int) < ring_distance(
                            home,
                            at as int,
                            n as int,
                        ));
                    }
                }
                return at;
            }
            assert(at != e);
            at = if at + 1 == n {
                0
            } else {
                at + 1
            };
        }
    }

    /// Value stored at `key`.
    pub fn get(&self, key: u64) -> (value: Option<V>)
        requires
            self.wf(),
            key != EMPTY_KEY,
        ensures
            value == (if self@.dom().contains(key) {
                Some(self@[key])
            } else {
                None
            }),
    {
        let at = self.slot(key);
        if self.keys[at] == key {
            assert(self.keys@.contains(key));
            assert(self.keys@.index_of(key) == at);
            Some(self.values[at])
        } else {
            None
        }
    }

    proof fn lemma_after_insert(before: IdTable<V>, after: IdTable<V>, at: int, key: u64)
        requires
            before.wf(),
            key != EMPTY_KEY,
            !before.keys@.contains(key),
            0 <= at < before.keys@.len(),
            before.keys@[at] == EMPTY_KEY,
            forall|j: int|
                0 <= j < before.keys@.len() && ring_distance(
                    home_slot(key, before.shift),
                    j,
                    before.keys@.len() as int,
                ) < ring_distance(home_slot(key, before.shift), at, before.keys@.len() as int)
                    ==> #[trigger] before.keys@[j] != EMPTY_KEY,
            after.keys@ == before.keys@.update(at, key),
            after.values@.len() == before.values@.len(),
            forall|j: int|
                0 <= j < before.values@.len() && j != at ==> #[trigger] after.values@[j]
                    == before.values@[j],
            after.shift == before.shift,
            after.len == before.len + 1,
            4 * (before.len + 1) <= 3 * before.keys@.len(),
        ensures
            after.wf(),
            after@ == before@.insert(key, after.values@[at]),
    {
        let ks = before.keys@;
        let ka = after.keys@;
        assert(key_set(ka) =~= key_set(ks).insert(key)) by {
            assert(ka[at] == key);
            assert forall|k: u64| key_set(ks).contains(k) implies key_set(ka).contains(k) by {
                let i = choose|i: int| 0 <= i < ks.len() && ks[i] == k;
                assert(ka[i] == k);
            }
        }
        assert(!key_set(ks).contains(key));
        assert(keys_unique(ka)) by {
            assert forall|i: int, j: int|
                0 <= i < ka.len() && 0 <= j < ka.len() && #[trigger] ka[i] == #[trigger] ka[j]
                    && ka[i] != EMPTY_KEY implies i == j by {
                if i == at && j != at {
                    assert(ks[j] == key);
                } else if j == at && i != at {
                    assert(ks[i] == key);
                } else if i != at && j != at {
                    assert(ks[i] == ks[j]);
                }
            }
        }
        assert(keys_reachable(ka, after.shift)) by {
            assert forall|i: int, j: int|
                0 <= i < ka.len() && 0 <= j < ka.len() && #[trigger] ka[i] != EMPTY_KEY
                    && ring_distance(home_slot(ka[i], after.shift), j, ka.len() as int)
                    < ring_distance(
                    home_slot(ka[i], after.shift),
                    i,
                    ka.len() as int,
                ) implies #[trigger] ka[j] != EMPTY_KEY by {
                if j != at {
                    assert(ks[j] == ka[j]);
                    if i != at {
                        assert(ks[i] == ka[i]);
                    }
                }
            }
        }
        assert(after@ =~= before@.insert(key, after.values@[at])) by {
            assert forall|k: u64| #[trigger] before@.dom().contains(k) implies after@[k]
                == before@[k] by {
                let i = before.keys@.index_of(k);
                assert(ks[i] == k);
                assert(ka[i] == k);
                let j = ka.index_of(k);
                assert(ka[j] == k);
                assert(i == j);
                assert(i != at);
            }
            assert(ka.index_of(key) == at) by {
                assert(ka[at] == key);
                let j = ka.index_of(key);
                assert(ka[j] == key);
            }
        }
    }

    fn insert_new(&mut self, key: u64, value: V)
        requires
            old(self).wf(),
            key != EMPTY_KEY,
            !old(self)@.dom().contains(key),
            4 * (old(self)@.dom().len() + 1) <= 3 * old(self).slots(),
        ensures
            final(self).wf(),
            final(self)@ == old(self)@.insert(key, value),
            final(self).slots() == old(self).slots(),
    {
        let ghost before = *self;
        assert(self@.dom() =~= key_set(self.keys@));
        let at = self.slot(key);
        assert(self.keys@[at as int] == EMPTY_KEY) by {
            if self.keys@[at as int] == key {
                assert(self.keys@.contains(key));
            }
        }
        self.keys.set(at, key);
        self.values.set(at, value);
        self.len = self.len + 1;
        proof {
            Self::lemma_after_insert(before, *self, at as int, key);
        }
    }

    /// The number of slots.
    pub closed spec fn slots(&self) -> nat {
        self.keys@.len()
    }

    fn grow(&mut self)
        requires
            old(self).wf(),
            32 * old(self).slots() <= usize::MAX,
        ensures
            final(self).wf(),
            final(self)@ == old(self)@,
            final(self).slots() == 2 * old(self).slots(),
    {
        let ghost before = *self;
        let slots: usize = self.keys.len() * 2;
        proof {
            lemma_shift_bound(self.keys.len(), self.shift);
            lemma_shift_in_range(0, self.keys@.len(), self.shift);
            lemma_sized_double(self.keys@.len(), self.shift);
        }
        let keys: Vec<u64> = vec![EMPTY_KEY; slots];
        let values: Vec<V> = vec![V::default(); slots];
        let mut next = IdTable { keys, values, shift: self.shift - 1, len: 0 };
        assert(key_set(next.keys@) =~= Set::empty());
        assert(next@ =~= Map::<u64, V>::empty());
        assert(self@.dom() =~= key_set(self.keys@));
        let n: usize = self.keys.len();
        let mut i: usize = 0;
        while i < n
            invariant
                *self == before,
                before.wf(),
                n == before.keys@.len(),
                i <= n,
                next.wf(),
                next.slots() == 2 * n,
                next@.dom().finite(),
                next@.dom().subset_of(before@.dom()),
                before@.dom().finite(),
                before@.dom().len() == before.len,
                forall|k: u64|
                    #[trigger] next@.dom().contains(k) <==> (k != EMPTY_KEY && exists|j: int|
                        0 <= j < i && before.keys@[j] == k),
                forall|k: u64| #[trigger] next@.dom().contains(k) ==> next@[k] == before@[k],
            decreases n - i,
        {
            let key: u64 = self.keys[i];
            let ghost prior = next@;
            if key != EMPTY_KEY {
                let value: V = self.values[i];
                proof {
                    assert(before.keys@.contains(key));
                    assert(before.keys@.index_of(key) == i);
                    assert(before@.dom().contains(key));
                    assert(!prior.dom().contains(key));
                    assert(prior.dom().insert(key).subset_of(before@.dom()));
                    lemma_len_subset(prior.dom().insert(key), before@.dom());
                }
                next.insert_new(key, value);
            }
            i = i + 1;
            proof {
                assert forall|k: u64| #[trigger] next@.dom().contains(k) implies (k != EMPTY_KEY
                    && exists|j: int| 0 <= j < i && before.keys@[j] == k) by {
                    if prior.dom().contains(k) {
                        let j = choose|j: int| 0 <= j < i - 1 && before.keys@[j] == k;
                        assert(0 <= j < i && before.keys@[j] == k);
                    } else {
                        assert(before.keys@[i - 1] == k);
                    }
                }
                assert forall|k: u64|
                    (k != EMPTY_KEY && exists|j: int| 0 <= j < i && before.keys@[j] == k) implies
                    #[trigger] next@.dom().contains(k) by {
                    let j = choose|j: int| 0 <= j < i && before.keys@[j] == k;
                    if j < i - 1 {
                        assert(prior.dom().contains(k));
                    }
                }
            }
        }
        assert(next@ =~= before@) by {
            assert forall|k: u64| #[trigger] before@.dom().contains(k) implies next@.dom().contains(
                k,
            ) by {
                let j = choose|j: int| 0 <= j < n && before.keys@[j] == k;
                assert(before.keys@[j] == k);
            }
        }
        *self = next;
    }

    /// Mutable value at `key`, inserting the default first when absent. The
    /// flag is true when the key was inserted.
    pub fn entry(&mut self, key: u64) -> (r: (&mut V, bool))
        requires
            old(self).wf(),
            key != EMPTY_KEY,
            43 * (old(self)@.dom().len() + 1) <= usize::MAX,
        ensures
            r.1 == !old(self)@.dom().contains(key),
            !r.1 ==> *r.0 == old(self)@[key],
            r.1 ==> call_ensures(V::default, (), *r.0),
            final(self).wf(),
            final(self)@ == old(self)@.insert(key, *final(r.0)),
    {
        let ghost before = *self;
        assert(self@.dom() =~= key_set(self.keys@));
        let mut at = self.slot(key);
        let fresh = self.keys[at] != key;
        if fresh {
            assert(!self@.dom().contains(key));
            let n: usize = self.keys.len();
            if (self.len + 1) * 4 > n * 3 {
                self.grow();
                at = self.slot(key);
                assert(self@.dom() =~= key_set(self.keys@));
                assert(self.keys@[at as int] == EMPTY_KEY) by {
                    if self.keys@[at as int] == key {
                        assert(self.keys@.contains(key));
                    }
                }
            }
            let ghost mid = *self;
            self.keys.set(at, key);
            self.values.set(at, V::default());
            self.len = self.len + 1;
            proof {
                Self::lemma_after_insert(mid, *self, at as int, key);
            }
        } else {
            assert(self.keys@.contains(key));
        }
        proof {
            assert(self.keys@[at as int] == key);
            assert(self.keys@.index_of(key) == at);
            Self::lemma_value_update(*self, at as int);
        }
        (&mut self.values[at], fresh)
    }

    proof fn lemma_value_update(t: IdTable<V>, at: int)
        requires
            t.wf(),
            0 <= at < t.keys@.len(),
            t.keys@[at] != EMPTY_KEY,
        ensures
            forall|u: IdTable<V>, v: V|
                u.keys == t.keys && u.shift == t.shift && u.len == t.len && #[trigger] u.values@
                    == #[trigger] t.values@.update(at, v) ==> u.wf() && u@ == t@.insert(
                    t.keys@[at],
                    v,
                ),
    {
        assert forall|u: IdTable<V>, v: V|
            u.keys == t.keys && u.shift == t.shift && u.len == t.len && #[trigger] u.values@
                == #[trigger] t.values@.update(at, v) implies u.wf() && u@ == t@.insert(
            t.keys@[at],
            v,
        ) by {
            assert(u@ =~= t@.insert(t.keys@[at], v)) by {
                assert forall|k: u64| #[trigger] t@.dom().contains(k) && k != t.keys@[at] implies u@[k]
                    == t@[k] by {
                    assert(t.keys@[t.keys@.index_of(k)] == k);
                }
                assert(t.keys@.index_of(t.keys@[at]) == at) by {
                    assert(t.keys@[t.keys@.index_of(t.keys@[at])] == t.keys@[at]);
                }
            }
        }
    }

    /// Every `(key, value)` pair, in slot order.
    pub fn iter(&self) -> (pairs: Vec<(u64, V)>)
        requires
            self.wf(),
        ensures
            pairs@.len() == self@.dom().len(),
            forall|i: int|
                0 <= i < pairs@.len() ==> self@.contains_pair(
                    (#[trigger] pairs@[i]).0,
                    pairs@[i].1,
                ),
            forall|k: u64| #[trigger]
                self@.dom().contains(k) ==> exists|i: int|
                    0 <= i < pairs@.len() && pairs@[i].0 == k,
            forall|i: int, j: int| 0 <= i < j < pairs@.len() ==> pairs@[i].0 != pairs@[j].0,
    {
        let mut pairs: Vec<(u64, V)> = Vec::new();
        let n: usize = self.keys.len();
        let mut i: usize = 0;
        while i < n
            invariant
                self.wf(),
                n == self.keys@.len(),
                i <= n,
                forall|p: int|
                    0 <= p < pairs@.len() ==> self@.contains_pair(
                        (#[trigger] pairs@[p]).0,
                        pairs@[p].1,
                    ) && exists|j: int| 0 <= j < i && self.keys@[j] == pairs@[p].0,
                forall|j: int|
                    0 <= j < i && #[trigger] self.keys@[j] != EMPTY_KEY ==> exists|p: int|
                        0 <= p < pairs@.len() && pairs@[p].0 == self.keys@[j],
                forall|p: int, q: int| 0 <= p < q < pairs@.len() ==> pairs@[p].0 != pairs@[q].0,
            decreases n - i,
        {
            let key: u64 = self.keys[i];
            let ghost prior = pairs@;
            if key != EMPTY_KEY {
                proof {
                    assert(self.keys@.contains(key));
                    assert(self.keys@.index_of(key) == i);
                    assert forall|p: int| 0 <= p < prior.len() implies #[trigger] prior[p].0
                        != key by {
                        let j = choose|j: int| 0 <= j < i && self.keys@[j] == prior[p].0;
                        assert(self.keys@[j] != EMPTY_KEY);
                    }
                }
                pairs.push((key, self.values[i]));
                assert(pairs@[prior.len() as int].0 == key);
                assert forall|j: int|
                    0 <= j < i + 1 && #[trigger] self.keys@[j] != EMPTY_KEY implies exists|p: int|
                    0 <= p < pairs@.len() && pairs@[p].0 == self.keys@[j] by {
                    if j < i {
                        let p = choose|p: int| 0 <= p < prior.len() && prior[p].0 == self.keys@[j];
                        assert(pairs@[p].0 == self.keys@[j]);
                    }
                }
            }
            i = i + 1;
        }
        proof {
            let firsts = pairs@.map_values(|p: (u64, V)| p.0);
            assert(firsts.no_duplicates());
            firsts.unique_seq_to_set();
            assert(firsts.to_set() =~= self@.dom()) by {
                assert forall|k: u64| self@.dom().contains(k) implies firsts.to_set().contains(k) by {
                    let j = choose|j: int| 0 <= j < n && self.keys@[j] == k;
                    assert(self.keys@[j] == k);
                    let p = choose|p: int| 0 <= p < pairs@.len() && pairs@[p].0 == self.keys@[j];
                    assert(firsts[p] == k);
                }
                assert forall|k: u64| firsts.to_set().contains(k) implies self@.dom().contains(k) by {
                    let p = choose|p: int| 0 <= p < firsts.len() && firsts[p] == k;
                    assert(pairs@[p].0 == k);
                }
            }
        }
        pairs
    }
}

/// Few enough slots for a machine word leave some shift.
proof fn lemma_shift_bound(slots: usize, shift: u32)
    requires
        sized(slots as nat, shift),
        16 * slots <= usize::MAX + 1,
    ensures
        shift > 2,
{
    vstd::arithmetic::power2::lemma2_to64();
    vstd::arithmetic::power2::lemma2_to64_rest();
    if shift == 2 {
        assert(slots == vstd::arithmetic::power2::pow2(62));
    }
}

} // verus!
