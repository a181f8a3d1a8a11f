//! Bookkeeping between the decoder's key-value cache and the search.
//!
//! The cache holds one token sequence: the head, the current word's context,
//! and the search path being scored. Every request keeps the longest prefix
//! that is already cached, and the branches of a search are put back from
//! snapshots. The decoder works outside: the session says what to score or to
//! put back, and is told what came of it. Rows and snapshots are named by
//! handles.

use vstd::prelude::*;

use super::path_map::{copy_tokens, same_path, PathMap};

verus! {

/// How many leading tokens two sequences share, from `i` on.
pub open spec fn shared(a: Seq<u32>, b: Seq<u32>, i: int) -> int
    decreases a.len() - i,
{
    if 0 <= i < a.len() && i < b.len() && a[i] == b[i] {
        shared(a, b, i + 1)
    } else {
        i
    }
}

/// The shared tokens are the same, and no more are.
pub proof fn lemma_shared(a: Seq<u32>, b: Seq<u32>, i: int)
    requires
        0 <= i <= a.len(),
        i <= b.len(),
        a.take(i) == b.take(i),
    ensures
        i <= shared(a, b, i) <= a.len(),
        shared(a, b, i) <= b.len(),
        a.take(shared(a, b, i)) == b.take(shared(a, b, i)),
        shared(a, b, i) < a.len() && shared(a, b, i) < b.len() ==> a[shared(a, b, i)]
            != b[shared(a, b, i)],
    decreases a.len() - i,
{
    if i < a.len() && i < b.len() && a[i] == b[i] {
        assert(a.take(i + 1) =~= a.take(i).push(a[i]));
        assert(b.take(i + 1) =~= b.take(i).push(b[i]));
        lemma_shared(a, b, i + 1);
    }
}

/// From where a sequence has to be scored: behind what is cached of it, the last
/// token in any case.
pub open spec fn score_from(cached: Seq<u32>, full: Seq<u32>) -> int {
    let common = shared(cached, full, 0);
    if common < full.len() {
        common
    } else {
        full.len() - 1
    }
}

/// The token at `from` can be put back from a snapshot: it belongs to the path,
/// is not its last, and the branch up to it has one.
pub open spec fn can_restore(kv: Map<Seq<u32>, u64>, full: Seq<u32>, base: int, from: int) -> bool {
    &&& 0 <= base <= from
    &&& from + 1 < full.len()
    &&& kv.contains_key(full.subrange(base, from + 1))
}

/// How far a branch is put back from snapshots.
pub open spec fn restored_to(kv: Map<Seq<u32>, u64>, full: Seq<u32>, base: int, from: int) -> int
    decreases full.len() - from,
{
    if can_restore(kv, full, base, from) {
        restored_to(kv, full, base, from + 1)
    } else {
        from
    }
}

/// Re-entering a branch whose nodes all have snapshots leaves one token to
/// score.
pub proof fn law_known_branch_scores_one_token(
    kv: Map<Seq<u32>, u64>,
    full: Seq<u32>,
    base: int,
    from: int,
)
    requires
        0 <= base <= from < full.len(),
        forall|i: int|
            base <= i < full.len() - 1 ==> kv.contains_key(#[trigger] full.subrange(base, i + 1)),
    ensures
        restored_to(kv, full, base, from) == full.len() - 1,
    decreases full.len() - from,
{
    if from < full.len() - 1 {
        assert(kv.contains_key(full.subrange(base, from + 1)));
        law_known_branch_scores_one_token(kv, full, base, from + 1);
    }
}

/// The rows of a scored sequence, by the path that each stands behind: `rows[k]`
/// stands behind the first `keep + k + 1` tokens.
pub open spec fn with_rows(
    memo: Map<Seq<u32>, u64>,
    full: Seq<u32>,
    base: int,
    keep: int,
    rows: Seq<u64>,
    n: int,
) -> Map<Seq<u32>, u64>
    decreases n,
{
    if n <= 0 {
        memo
    } else {
        with_rows(memo, full, base, keep, rows, n - 1).insert(
            full.subrange(base, keep + n),
            rows[n - 1],
        )
    }
}

/// What to ask of the decoder next.
pub enum Step {
    /// Cut the cache to `from` tokens, append `tokens`, and give the rows after
    /// `tokens[keep..]`; they are those of the head alone.
    ScoreHead { from: usize, tokens: Vec<u32>, keep: usize },
    /// Put the snapshot `kv` back at `at` and cut the cache behind it.
    Restore { at: usize, kv: u64 },
    /// Cut the cache to `from` tokens, append `tokens`, and give the rows after
    /// `tokens[keep..]`.
    Score { from: usize, tokens: Vec<u32>, keep: usize },
}

/// One request for a row, under way.
pub struct Walk {
    /// The head, the context and the path.
    pub full: Vec<u32>,
    /// How many of them are known to be cached.
    pub from: usize,
}

/// The session's state.
pub struct KvSession {
    /// The tokens that the cache holds.
    pub cached: Vec<u32>,
    pub head: Vec<u32>,
    /// The head and the current word's context.
    pub prefix: Vec<u32>,
    /// Rows by search path, for the current context.
    pub memo: PathMap,
    /// Snapshots of each path's last token, for the current context.
    pub kv: PathMap,
    /// The row after the head alone.
    pub head_row: Option<u64>,
}

impl KvSession {
    /// A context is set, and it starts with the head.
    pub open spec fn ready(&self) -> bool {
        &&& self.prefix@.len() > 0
        &&& self.head@.len() <= self.prefix@.len()
        &&& self.prefix@.take(self.head@.len() as int) == self.head@
    }

    /// The request is for a path of this session, and what it takes for cached
    /// is.
    pub open spec fn follows(&self, walk: &Walk) -> bool {
        &&& self.ready()
        &&& self.prefix@.len() <= walk.full@.len()
        &&& walk.full@.take(self.prefix@.len() as int) == self.prefix@
        &&& walk.from < walk.full@.len()
        &&& walk.from <= self.cached@.len()
        &&& self.cached@.take(walk.from as int) == walk.full@.take(walk.from as int)
    }

    /// The path that a request is for.
    pub open spec fn path_of(&self, walk: &Walk) -> Seq<u32> {
        walk.full@.skip(self.prefix@.len() as int)
    }

    /// From where rows are kept: behind the context at the earliest.
    pub open spec fn keep_from(&self, from: int) -> int {
        if from < self.prefix@.len() - 1 {
            self.prefix@.len() - 1
        } else {
            from
        }
    }

    /// An empty session.
    pub fn new() -> (s: KvSession)
        ensures
            s.cached@.len() == 0,
            s.head@.len() == 0,
            s.prefix@.len() == 0,
            s.memo@ == Map::<Seq<u32>, u64>::empty(),
            s.kv@ == Map::<Seq<u32>, u64>::empty(),
            s.head_row is None,
    {
        KvSession {
            cached: Vec::new(),
            head: Vec::new(),
            prefix: Vec::new(),
            memo: PathMap::new(),
            kv: PathMap::new(),
            head_row: None,
        }
    }

    /// Replaces the head; the row of another one is dropped. The rows of the
    /// context go in any case.
    pub fn set_head(&mut self, head: Vec<u32>)
        ensures
            final(self).head@ == head@,
            final(self).head_row == (if head@ == old(self).head@ {
                old(self).head_row
            } else {
                None
            }),
            final(self).prefix@ == Seq::<u32>::empty(),
            final(self).memo@ == Map::<Seq<u32>, u64>::empty(),
            final(self).kv@ == Map::<Seq<u32>, u64>::empty(),
            final(self).cached@ == old(self).cached@,
    {
        if !same_path(head.as_slice(), self.head.as_slice()) {
            self.head = head;
            self.head_row = None;
        }
        self.prefix = Vec::new();
        assert(self.prefix@ =~= Seq::<u32>::empty());
        self.memo.clear();
        self.kv.clear();
    }

    /// Starts a new word with `context` behind the head. Tells whether the row
    /// of the empty path is known: that of the head serves an empty context.
    pub fn set_context(&mut self, context: &Vec<u32>) -> (known: bool)
        ensures
            final(self).head@ == old(self).head@,
            final(self).head_row == old(self).head_row,
            final(self).cached@ == old(self).cached@,
            final(self).prefix@ == old(self).head@ + context@,
            final(self).kv@ == Map::<Seq<u32>, u64>::empty(),
            known == (context@.len() == 0 && old(self).head_row is Some),
            final(self).memo@ == (if known {
                Map::<Seq<u32>, u64>::empty().insert(Seq::empty(), old(self).head_row->0)
            } else {
                Map::empty()
            }),
            old(self).head@.len() + context@.len() > 0 ==> final(self).ready(),
    {
        self.memo.clear();
        self.kv.clear();
        let mut prefix = copy_tokens(self.head.as_slice());
        let mut more = copy_tokens(context.as_slice());
        prefix.append(&mut more);
        self.prefix = prefix;
        assert(self.prefix@.take(self.head@.len() as int) =~= self.head@);
        if context.len() == 0 {
            match self.head_row {
                Some(row) => {
                    let root: Vec<u32> = Vec::new();
                    assert(root@ =~= Seq::<u32>::empty());
                    self.memo.put(root, row);
                    return true;
                },
                None => {},
            }
        }
        false
    }

    /// Forgets every row and what is cached, after a failure of the decoder.
    pub fn reset(&mut self)
        ensures
            final(self).head@ == old(self).head@,
            final(self).cached@ == Seq::<u32>::empty(),
            final(self).prefix@ == Seq::<u32>::empty(),
            final(self).memo@ == Map::<Seq<u32>, u64>::empty(),
            final(self).kv@ == Map::<Seq<u32>, u64>::empty(),
            final(self).head_row is None,
    {
        self.cached = Vec::new();
        self.prefix = Vec::new();
        assert(self.cached@ =~= Seq::<u32>::empty());
        assert(self.prefix@ =~= Seq::<u32>::empty());
        self.memo.clear();
        self.kv.clear();
        self.head_row = None;
    }

    /// The row of a path, where it was scored since the word began.
    pub fn look(&self, path: &[u32]) -> (row: Option<u64>)
        ensures
            match row {
                Some(row) => self.memo@.contains_key(path@) && self.memo@[path@] == row,
                None => !self.memo@.contains_key(path@),
            },
    {
        self.memo.get(path)
    }

    /// Begins a request for the row of a path: the longest prefix that is cached
    /// is kept.
    pub fn start(&self, path: &[u32]) -> (walk: Walk)
        requires
            self.ready(),
        ensures
            walk.full@ == self.prefix@ + path@,
            walk.from == score_from(self.cached@, walk.full@),
            self.follows(&walk),
    {
        let mut full = copy_tokens(self.prefix.as_slice());
        let mut more = copy_tokens(path);
        full.append(&mut more);
        let mut common: usize = 0;
        while common < self.cached.len() && common < full.len() && self.cached[common]
            == full[common]
            invariant
                common <= self.cached@.len(),
                common <= full@.len(),
                shared(self.cached@, full@, 0) == shared(self.cached@, full@, common as int),
            decreases self.cached@.len() - common,
        {
            common = common + 1;
        }
        let from: usize = if common < full.len() {
            common
        } else {
            full.len() - 1
        };
        proof {
            assert(self.cached@.take(0) =~= full@.take(0));
            lemma_shared(self.cached@, full@, 0);
            assert(self.cached@.take(from as int) =~= self.cached@.take(common as int).take(
                from as int,
            ));
            assert(full@.take(from as int) =~= full@.take(common as int).take(from as int));
            assert(full@.take(self.prefix@.len() as int) =~= self.prefix@);
        }
        Walk { full, from }
    }

    /// What to ask of the decoder next: the head alone while it is not cached,
    /// then the snapshots of the branch, then the rest.
    pub fn step(&self, walk: &Walk) -> (step: Step)
        requires
            self.follows(walk),
        ensures
            match step {
                Step::ScoreHead { from, tokens, keep } => {
                    &&& walk.from < self.head@.len()
                    &&& from == walk.from
                    &&& tokens@ == self.head@.skip(from as int)
                    &&& keep == self.head@.len() - 1 - from
                },
                Step::Restore { at, kv } => {
                    &&& walk.from >= self.head@.len()
                    &&& at == walk.from
                    &&& can_restore(
                        self.kv@,
                        walk.full@,
                        self.prefix@.len() as int,
                        walk.from as int,
                    )
                    &&& kv == self.kv@[walk.full@.subrange(
                        self.prefix@.len() as int,
                        walk.from + 1,
                    )]
                },
                Step::Score { from, tokens, keep } => {
                    &&& walk.from >= self.head@.len()
                    &&& !can_restore(
                        self.kv@,
                        walk.full@,
                        self.prefix@.len() as int,
                        walk.from as int,
                    )
                    &&& from == walk.from
                    &&& tokens@ == walk.full@.skip(from as int)
                    &&& keep == self.keep_from(from as int) - from
                },
            },
    {
        let from: usize = walk.from;
        let head: usize = self.head.len();
        if from < head {
            let tokens = copy_tokens(&walk.full[from..head]);
            proof {
                assert(walk.full@.take(head as int) =~= walk.full@.take(
                    self.prefix@.len() as int,
                ).take(head as int));
                assert(walk.full@.take(head as int) =~= self.head@);
                assert forall|k: int| 0 <= k < tokens@.len() implies tokens@[k] == self.head@.skip(
                    from as int,
                )[k] by {
                    assert(walk.full@.take(head as int)[from + k] == self.head@[from + k]);
                }
                assert(tokens@ =~= self.head@.skip(from as int));
            }
            return Step::ScoreHead { from, tokens, keep: head - 1 - from };
        }
        let base: usize = self.prefix.len();
        let size: usize = walk.full.len();
        if from < size - 1 && from >= base {
            let branch: &[u32] = &walk.full[base..from + 1];
            match self.kv.get(branch) {
                Some(kv) => {
                    return Step::Restore { at: from, kv };
                },
                None => {},
            }
        }
        let tokens = copy_tokens(&walk.full[from..size]);
        assert(tokens@ =~= walk.full@.skip(from as int));
        let keep: usize = if from < base - 1 {
            base - 1 - from
        } else {
            0
        };
        Step::Score { from, tokens, keep }
    }

    /// The head was scored: `row` stands behind it. Answers with the row where
    /// the request was for the head alone.
    pub fn scored_head(&mut self, walk: &mut Walk, row: u64) -> (answer: Option<u64>)
        requires
            old(self).follows(old(walk)),
            old(walk).from < old(self).head@.len(),
        ensures
            final(walk).full@ == old(walk).full@,
            final(self).head@ == old(self).head@,
            final(self).prefix@ == old(self).prefix@,
            final(self).kv@ == old(self).kv@,
            final(self).head_row == Some(row),
            final(self).cached@ == old(self).head@,
            match answer {
                Some(r) => {
                    &&& r == row
                    &&& old(walk).full@.len() == old(self).head@.len()
                    &&& final(self).memo@ == old(self).memo@.insert(Seq::empty(), row)
                },
                None => {
                    &&& old(walk).full@.len() > old(self).head@.len()
                    &&& final(self).memo@ == old(self).memo@
                    &&& final(walk).from == old(self).head@.len()
                    &&& final(self).follows(final(walk))
                },
            },
    {
        let head: usize = self.head.len();
        let whole = copy_tokens(self.head.as_slice());
        self.cached = whole;
        self.head_row = Some(row);
        proof {
            assert(walk.full@.take(head as int) =~= walk.full@.take(
                self.prefix@.len() as int,
            ).take(head as int));
            assert(self.cached@.take(head as int) =~= self.head@);
        }
        if walk.full.len() == head {
            let root: Vec<u32> = Vec::new();
            assert(root@ =~= Seq::<u32>::empty());
            self.memo.put(root, row);
            return Some(row);
        }
        walk.from = head;
        None
    }

    /// A snapshot was put back.
    pub fn restored(&mut self, walk: &mut Walk)
        requires
            old(self).follows(old(walk)),
            can_restore(
                old(self).kv@,
                old(walk).full@,
                old(self).prefix@.len() as int,
                old(walk).from as int,
            ),
        ensures
            final(self).follows(final(walk)),
            final(walk).full@ == old(walk).full@,
            final(walk).from == old(walk).from + 1,
            final(self).cached@ == old(walk).full@.take(old(walk).from + 1),
            final(self).head@ == old(self).head@,
            final(self).prefix@ == old(self).prefix@,
            final(self).memo@ == old(self).memo@,
            final(self).kv@ == old(self).kv@,
            final(self).head_row == old(self).head_row,
    {
        let from: usize = walk.from;
        let size: usize = walk.full.len();
        let token: u32 = walk.full[from];
        assert(from + 1 < size);
        self.cached.truncate(from);
        self.cached.push(token);
        proof {
            assert(self.cached@ =~= walk.full@.take(from + 1));
            assert(self.cached@.take(from + 1) =~= self.cached@);
        }
        walk.from = from + 1;
    }

    /// The rest was scored: `rows` stand behind the kept tokens, and `kv` is the
    /// snapshot of the path's last token. Answers with the row of the path.
    pub fn scored(&mut self, walk: &Walk, rows: &Vec<u64>, kv: u64) -> (answer: Option<u64>)
        requires
            old(self).follows(walk),
            rows@.len() <= walk.full@.len() - old(self).keep_from(walk.from as int),
        ensures
            final(self).cached@ == walk.full@,
            final(self).head@ == old(self).head@,
            final(self).prefix@ == old(self).prefix@,
            final(self).head_row == old(self).head_row,
            final(self).kv@ == (if old(self).path_of(walk).len() > 0 {
                old(self).kv@.insert(old(self).path_of(walk), kv)
            } else {
                old(self).kv@
            }),
            final(self).memo@ == with_rows(
                old(self).memo@,
                walk.full@,
                old(self).prefix@.len() as int,
                old(self).keep_from(walk.from as int),
                rows@,
                rows@.len() as int,
            ),
            match answer {
                Some(row) => rows@.len() > 0 && row == rows@.last(),
                None => rows@.len() == 0,
            },
            rows@.len() == walk.full@.len() - old(self).keep_from(walk.from as int)
                ==> final(self).memo@.contains_key(old(self).path_of(walk)) && Some(
                final(self).memo@[old(self).path_of(walk)],
            ) == answer,
    {
        let base: usize = self.prefix.len();
        let size: usize = walk.full.len();
        let from: usize = walk.from;
        let keep: usize = if from < base - 1 {
            base - 1
        } else {
            from
        };
        self.cached = copy_tokens(walk.full.as_slice());
        let ghost path = self.path_of(walk);
        if size > base {
            let own = copy_tokens(&walk.full[base..size]);
            assert(own@ =~= path);
            self.kv.put(own, kv);
        }
        let mut last: Option<u64> = None;
        let mut k: usize = 0;
        let ghost memo = self.memo@;
        while k < rows.len()
            invariant
                self.cached@ == walk.full@,
                self.head@ == old(self).head@,
                self.prefix@ == old(self).prefix@,
                self.head_row == old(self).head_row,
                self.kv@ == (if path.len() > 0 {
                    old(self).kv@.insert(path, kv)
                } else {
                    old(self).kv@
                }),
                base == self.prefix@.len(),
                size == walk.full@.len(),
                0 < base <= keep + 1,
                keep < size,
                rows@.len() <= size - keep,
                k <= rows@.len(),
                self.memo@ == with_rows(
                    memo,
                    walk.full@,
                    base as int,
                    keep as int,
                    rows@,
                    k as int,
                ),
                match last {
                    Some(row) => k > 0 && row == rows@[k - 1],
                    None => k == 0,
                },
            decreases rows@.len() - k,
        {
            let end: usize = keep + k + 1;
            let key = copy_tokens(&walk.full[base..end]);
            assert(key@ =~= walk.full@.subrange(base as int, keep + (k + 1)));
            self.memo.put(key, rows[k]);
            last = Some(rows[k]);
            k = k + 1;
        }
        proof {
            if rows@.len() == size - keep {
                assert(walk.full@.subrange(base as int, keep + rows@.len()) =~= path);
            }
        }
        last
    }

    /// The decoder failed: its cache is empty.
    pub fn failed(&mut self)
        ensures
            final(self).cached@ == Seq::<u32>::empty(),
            final(self).head@ == old(self).head@,
            final(self).prefix@ == old(self).prefix@,
            final(self).memo@ == old(self).memo@,
            final(self).kv@ == old(self).kv@,
            final(self).head_row == old(self).head_row,
    {
        self.cached = Vec::new();
        assert(self.cached@ =~= Seq::<u32>::empty());
    }
}

} // verus!
