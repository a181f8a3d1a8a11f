//! The state a client's queries share while one word is typed: the left
//! context, the prompt-local window, and the words already shown.

use crate::ngram::cache::{window_from, window_start};
use crate::ngram::text::{
    aligned_lower, context_at, context_of, lowercase_aligned, Context, Slot,
};
use crate::prose::Letters;
use crate::unicode::{chars_of, lower_all, lower_chars_text, same_chars, same_text};
use vstd::prelude::*;

verus! {

/// Query-local state reused across the prefixes of one word.
pub struct QueryState {
    /// Text the memo was built for.
    pub before: Vec<char>,
    pub version: u64,
    /// Lowercase prefix the `shown` chain belongs to.
    pub key: Vec<char>,
    /// Word shown at each shorter prefix length (index = characters).
    pub shown: Vec<Option<String>>,
    /// Shortest prefix length asked about for this text: the client never saw
    /// a ghost at shorter prefixes (its gate starts there).
    pub first_asked: usize,
    /// Lowercased tail of `before` scanned by the prompt-local cache, character
    /// by character.
    pub window: Vec<char>,
    /// Where the window starts in `before`.
    pub window_at: usize,
    pub u: Vec<char>,
    pub v: Vec<char>,
    pub context: Context,
}

impl Default for QueryState {
    fn default() -> (s: QueryState)
        ensures
            s.before@.len() == 0,
            s.version == u64::MAX,
            s.key@.len() == 0,
            s.shown@.len() == 0,
            s.first_asked == usize::MAX,
            s.window@.len() == 0,
            s.window_at == 0,
            s.u@.len() == 0,
            s.v@.len() == 0,
            s.context == (Context { u: Slot::Unknown, v: Slot::Unknown }),
    {
        QueryState {
            before: Vec::new(),
            version: u64::MAX,
            key: Vec::new(),
            shown: Vec::new(),
            first_asked: usize::MAX,
            window: Vec::new(),
            window_at: 0,
            u: Vec::new(),
            v: Vec::new(),
            context: Context { u: Slot::Unknown, v: Slot::Unknown },
        }
    }
}

/// How many characters two texts start with in common.
pub open spec fn common_len(a: Seq<char>, b: Seq<char>, i: int) -> int
    decreases a.len() - i,
{
    if 0 <= i < a.len() && i < b.len() && a[i] == b[i] {
        common_len(a, b, i + 1)
    } else {
        i
    }
}

fn common(a: &[char], b: &[char]) -> (n: usize)
    ensures
        n == common_len(a@, b@, 0),
        n <= a@.len(),
        n <= b@.len(),
{
    let mut n: usize = 0;
    while n < a.len() && n < b.len() && a[n] == b[n]
        invariant
            n <= a@.len(),
            n <= b@.len(),
            common_len(a@, b@, 0) == common_len(a@, b@, n as int),
        decreases a@.len() - n,
    {
        n = n + 1;
    }
    n
}

/// The words shown at each prefix length, as characters.
pub open spec fn shown_texts(shown: Seq<Option<String>>) -> Seq<Option<Seq<char>>> {
    shown.map_values(
        |s: Option<String>|
            match s {
                Some(t) => Some(t@),
                None => None::<Seq<char>>,
            },
    )
}

/// The window into a text of at most `limit` bytes, lowercased.
pub open spec fn window_of(before: Seq<char>, limit: int) -> Seq<char> {
    before.skip(window_from(before, limit, 0)).map_values(|c: char| aligned_lower(c))
}

/// The least of the two.
pub open spec fn least(a: int, b: int) -> int {
    if a < b {
        a
    } else {
        b
    }
}

impl QueryState {
    /// The per-text parts are those of `before`.
    pub open spec fn loaded(&self, before: Seq<char>, cache_window: int, use_cache: bool) -> bool {
        &&& self.before@ == before
        &&& self.context == context_of(before).0
        &&& self.u@ == context_of(before).1
        &&& self.v@ == context_of(before).2
        &&& self.window_at == window_from(before, cache_window, 0)
        &&& self.window@ == (if use_cache {
            window_of(before, cache_window)
        } else {
            Seq::empty()
        })
    }

    /// Prepare the per-text state (context, cache window) unless the memo
    /// already holds it.
    pub fn load(&mut self, version: u64, before: &str, cache_window: usize, use_cache: bool)
        ensures
            old(self).version == version && old(self).before@ == before@ ==> *final(self)
                == *old(self),
            !(old(self).version == version && old(self).before@ == before@) ==> {
                &&& final(self).version == version
                &&& final(self).key@.len() == 0
                &&& final(self).shown@.len() == 0
                &&& final(self).first_asked == usize::MAX
                &&& final(self).loaded(before@, cache_window as int, use_cache)
            },
    {
        let chars = chars_of(before);
        if self.version == version && same_chars(&self.before, &chars) {
            return;
        }
        self.version = version;
        self.key = Vec::new();
        self.shown = Vec::new();
        self.first_asked = usize::MAX;
        let mut letters = Letters::new();
        let (context, u, v) = context_at(&chars, &mut letters);
        self.context = context;
        self.u = u;
        self.v = v;
        let at = window_start(&chars, cache_window);
        self.window_at = at;
        if use_cache {
            let tail: &[char] = &chars[at..chars.len()];
            assert(tail@ =~= chars@.skip(at as int));
            self.window = lowercase_aligned(tail);
        } else {
            self.window = Vec::new();
        }
        assert(self.window@ =~= (if use_cache {
            window_of(before@, cache_window as int)
        } else {
            Seq::empty()
        }));
        self.before = chars;
    }

    /// Opens a query for `prefix`: the lowercase prefix, or nothing when the
    /// prefix is empty or lowercasing changes its length. What was shown at
    /// prefixes that this one does not extend is forgotten.
    pub fn begin(
        &mut self,
        version: u64,
        before: &str,
        prefix: &str,
        cache_window: usize,
        use_cache: bool,
    ) -> (key: Option<Vec<char>>)
        ensures
            key is None <==> prefix@.len() == 0 || lower_chars_text(prefix@).len() != prefix@.len(),
            key is None ==> *final(self) == *old(self),
            key matches Some(k) ==> {
                let kept = old(self).version == version && old(self).before@ == before@;
                let n = prefix@.len() as int;
                let old_key = if kept {
                    old(self).key@
                } else {
                    Seq::empty()
                };
                let old_shown = if kept {
                    shown_texts(old(self).shown@)
                } else {
                    Seq::empty()
                };
                let cut = old_shown.take(
                    least(old_shown.len() as int, least(common_len(old_key, k@, 0) + 1, n)),
                );
                &&& k@ == lower_chars_text(prefix@)
                &&& final(self).key@ == k@
                &&& final(self).version == version
                &&& final(self).before@ == before@
                &&& final(self).first_asked == least(
                    if kept {
                        old(self).first_asked as int
                    } else {
                        usize::MAX as int
                    },
                    n,
                )
                &&& shown_texts(final(self).shown@) == (if cut.len() == 0 {
                    seq![None::<Seq<char>>]
                } else {
                    cut
                })
                &&& 1 <= final(self).shown@.len() <= n
                &&& kept ==> final(self).context == old(self).context && final(self).u
                    == old(self).u && final(self).v == old(self).v && final(self).window
                    == old(self).window && final(self).window_at == old(self).window_at
                &&& !kept ==> final(self).loaded(before@, cache_window as int, use_cache)
            },
    {
        let typed = chars_of(prefix);
        let key = lower_all(&typed);
        let n: usize = typed.len();
        if n == 0 || key.len() != n {
            return None;
        }
        self.load(version, before, cache_window, use_cache);
        let ghost mid = *self;
        if n < self.first_asked {
            self.first_asked = n;
        }
        let shared = common(&self.key, &key);
        let keep: usize = if shared < n {
            shared + 1
        } else {
            n
        };
        let ghost before_cut = self.shown@;
        if keep < self.shown.len() {
            self.shown.truncate(keep);
        }
        assert(shown_texts(self.shown@) =~= shown_texts(before_cut).take(
            least(before_cut.len() as int, keep as int),
        ));
        if self.shown.len() == 0 {
            self.shown.push(None);
            assert(shown_texts(self.shown@) =~= seq![None::<Seq<char>>]);
        }
        let mut copy: Vec<char> = Vec::new();
        let mut i: usize = 0;
        while i < key.len()
            invariant
                i <= key@.len(),
                copy@ == key@.take(i as int),
            decreases key@.len() - i,
        {
            copy.push(key[i]);
            assert(key@.take(i + 1) =~= key@.take(i as int).push(key@[i as int]));
            i = i + 1;
        }
        assert(key@.take(i as int) =~= key@);
        self.key = copy;
        Some(key)
    }

    /// The next shorter prefix to replay before one of `n` characters is
    /// ranked. Prefixes shorter than the client's first query showed nothing.
    pub fn next_replay(&mut self, n: usize) -> (k: Option<usize>)
        ensures
            final(self).first_asked == old(self).first_asked,
            *final(self) == (QueryState { shown: final(self).shown, ..*old(self) }),
            final(self).shown@.len() >= old(self).shown@.len(),
            final(self).shown@.take(old(self).shown@.len() as int) == old(self).shown@,
            forall|i: int|
                old(self).shown@.len() <= i < final(self).shown@.len()
                    ==> #[trigger] final(self).shown@[i] is None && i < old(self).first_asked && i
                    < n,
            match k {
                Some(i) => i == final(self).shown@.len() && old(self).first_asked <= i < n,
                None => final(self).shown@.len() >= n,
            },
    {
        let ghost start = self.shown@;
        while self.shown.len() < n && self.shown.len() < self.first_asked
            invariant
                *self == (QueryState { shown: self.shown, ..*old(self) }),
                start == old(self).shown@,
                self.shown@.len() >= start.len(),
                self.shown@.take(start.len() as int) == start,
                forall|i: int|
                    start.len() <= i < self.shown@.len() ==> #[trigger] self.shown@[i] is None && i
                        < old(self).first_asked && i < n,
            decreases
                    (if self.shown@.len() < n {
                        n - self.shown@.len()
                    } else {
                        0
                    }),
        {
            self.shown.push(None);
            assert(self.shown@.take(start.len() as int) =~= start);
        }
        assert(start.take(start.len() as int) =~= start);
        if self.shown.len() < n {
            Some(self.shown.len())
        } else {
            None
        }
    }

    /// Records what the replayed prefix showed.
    pub fn record(&mut self, word: Option<String>)
        ensures
            *final(self) == (QueryState { shown: final(self).shown, ..*old(self) }),
            final(self).shown@ == old(self).shown@.push(word),
    {
        self.shown.push(word);
    }

    /// `word` was shown at one of the first `k` prefix lengths and typed past.
    pub open spec fn typed_past(&self, word: Seq<char>, k: int) -> bool {
        exists|i: int|
            0 <= i < k && i < self.shown@.len() && (#[trigger] self.shown@[i] matches Some(t)
                && t@ == word)
    }

    /// Whether `word` was shown at a shorter prefix and typed past.
    pub fn excludes(&self, word: &str, k: usize) -> (r: bool)
        ensures
            r == self.typed_past(word@, k as int),
    {
        let mut i: usize = 0;
        while i < k && i < self.shown.len()
            invariant
                i <= k,
                i <= self.shown@.len(),
                forall|j: int|
                    0 <= j < i ==> !(#[trigger] self.shown@[j] matches Some(t) && t@ == word@),
            decreases self.shown@.len() - i,
        {
            if let Some(t) = &self.shown[i] {
                if same_text(t.as_str(), word) {
                    assert(self.shown@[i as int] matches Some(t) && t@ == word@);
                    return true;
                }
            }
            i = i + 1;
        }
        false
    }
}

} // verus!
