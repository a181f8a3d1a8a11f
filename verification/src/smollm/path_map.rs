//! A map from token paths to handles of rows that are kept outside.

use vstd::prelude::*;

verus! {

/// What a list of entries maps: a later entry replaces an earlier one.
pub open spec fn entries_map(entries: Seq<(Vec<u32>, u64)>) -> Map<Seq<u32>, u64>
    decreases entries.len(),
{
    if entries.len() == 0 {
        Map::empty()
    } else {
        entries_map(entries.drop_last()).insert(entries.last().0@, entries.last().1)
    }
}

/// Whether two paths are the same.
pub fn same_path(a: &[u32], b: &[u32]) -> (r: bool)
    ensures
        r == (a@ == b@),
{
    if a.len() != b.len() {
        return false;
    }
    let mut i: usize = 0;
    while i < a.len()
        invariant
            a@.len() == b@.len(),
            i <= a@.len(),
            forall|k: int| 0 <= k < i ==> a@[k] == b@[k],
        decreases a@.len() - i,
    {
        if a[i] != b[i] {
            return false;
        }
        i = i + 1;
    }
    assert(a@ =~= b@);
    true
}

/// A copy of some tokens.
pub fn copy_tokens(tokens: &[u32]) -> (out: Vec<u32>)
    ensures
        out@ == tokens@,
{
    let mut out: Vec<u32> = Vec::new();
    let mut i: usize = 0;
    while i < tokens.len()
        invariant
            i <= tokens@.len(),
            out@ == tokens@.take(i as int),
        decreases tokens@.len() - i,
    {
        out.push(tokens[i]);
        assert(tokens@.take(i as int).push(tokens@[i as int]) =~= tokens@.take(i + 1));
        i = i + 1;
    }
    assert(tokens@.take(i as int) =~= tokens@);
    out
}

/// Token paths with a handle each.
pub struct PathMap {
    pub entries: Vec<(Vec<u32>, u64)>,
}

impl View for PathMap {
    type V = Map<Seq<u32>, u64>;

    open spec fn view(&self) -> Map<Seq<u32>, u64> {
        entries_map(self.entries@)
    }
}

proof fn lemma_entry(entries: Seq<(Vec<u32>, u64)>, k: int, path: Seq<u32>)
    requires
        0 <= k <= entries.len(),
        forall|i: int| k <= i < entries.len() ==> (#[trigger] entries[i]).0@ != path,
    ensures
        entries_map(entries).contains_key(path) == entries_map(entries.take(k)).contains_key(path),
        entries_map(entries).contains_key(path) ==> entries_map(entries)[path] == entries_map(
            entries.take(k),
        )[path],
    decreases entries.len() - k,
{
    if k == entries.len() {
        assert(entries.take(k) =~= entries);
    } else {
        let head = entries.drop_last();
        assert forall|i: int| k <= i < head.len() implies (#[trigger] head[i]).0@ != path by {
            assert(head[i] == entries[i]);
        }
        lemma_entry(head, k, path);
        assert(head.take(k) =~= entries.take(k));
        assert(entries.last() == entries[entries.len() - 1]);
    }
}

impl PathMap {
    /// An empty map.
    pub fn new() -> (m: PathMap)
        ensures
            m@ == Map::<Seq<u32>, u64>::empty(),
    {
        PathMap { entries: Vec::new() }
    }

    /// The handle of a path.
    pub fn get(&self, path: &[u32]) -> (handle: Option<u64>)
        ensures
            match handle {
                Some(h) => self@.contains_key(path@) && self@[path@] == h,
                None => !self@.contains_key(path@),
            },
    {
        let mut k: usize = self.entries.len();
        while k > 0
            invariant
                k <= self.entries@.len(),
                forall|i: int|
                    k <= i < self.entries@.len() ==> (#[trigger] self.entries@[i]).0@ != path@,
            decreases k,
        {
            k = k - 1;
            if same_path(self.entries[k].0.as_slice(), path) {
                proof {
                    lemma_entry(self.entries@, k + 1, path@);
                    assert(self.entries@.take(k + 1).last() == self.entries@[k as int]);
                }
                return Some(self.entries[k].1);
            }
        }
        proof {
            lemma_entry(self.entries@, 0, path@);
            assert(self.entries@.take(0) =~= Seq::<(Vec<u32>, u64)>::empty());
        }
        None
    }

    /// Sets the handle of a path.
    pub fn put(&mut self, path: Vec<u32>, handle: u64)
        ensures
            final(self)@ == old(self)@.insert(path@, handle),
    {
        let ghost before = self.entries@;
        self.entries.push((path, handle));
        assert(self.entries@.drop_last() =~= before);
    }

    /// Forgets everything.
    pub fn clear(&mut self)
        ensures
            final(self)@ == Map::<Seq<u32>, u64>::empty(),
    {
        self.entries.clear();
    }
}

} // verus!
