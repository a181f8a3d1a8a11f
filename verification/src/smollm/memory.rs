//! The recent prompts that head the context, and the words already offered
//! while one word is typed.

use std::collections::VecDeque;

use vstd::hash_set::StringHashSet;
use vstd::prelude::*;

use crate::prose::{is_typed_like, typed_shape};
use crate::unicode::{chars_of, lower_text, lower_text_of, same_text, utf16_len, utf16_size};

verus! {

/// Memory after a trim, in UTF-16 units.
pub const MEMORY_UNITS: usize = 1500;

/// The size that triggers a trim back to [`MEMORY_UNITS`].
pub const MEMORY_MAX_UNITS: usize = 2500;

/// The longest prompt that is remembered, in UTF-16 units.
pub const PROMPT_UNITS: usize = 1500;

/// The version of the persisted memory.
pub const STATE_VERSION: u32 = 1;

/// The texts of some prompts.
pub open spec fn texts(recent: Seq<String>) -> Seq<Seq<char>> {
    recent.map_values(|p: String| p@)
}

/// The units that the prompts take, a blank line behind each.
pub open spec fn window_units(recent: Seq<Seq<char>>) -> nat
    decreases recent.len(),
{
    if recent.len() == 0 {
        0
    } else {
        window_units(recent.drop_last()) + utf16_len(recent.last()) + 2
    }
}

/// The prompts, each followed by a blank line.
pub open spec fn window_text(recent: Seq<Seq<char>>) -> Seq<char>
    decreases recent.len(),
{
    if recent.len() == 0 {
        Seq::empty()
    } else {
        window_text(recent.drop_last()) + recent.last() + "\n\n"@
    }
}

/// The newest prompts that fit [`MEMORY_UNITS`], the newest of all in any case.
pub open spec fn trimmed(recent: Seq<Seq<char>>) -> Seq<Seq<char>>
    decreases recent.len(),
{
    if recent.len() > 1 && window_units(recent) > MEMORY_UNITS {
        trimmed(recent.drop_first())
    } else {
        recent
    }
}

/// The memory after one more prompt.
pub open spec fn remembered(recent: Seq<Seq<char>>, prompt: Seq<char>) -> Seq<Seq<char>> {
    if !typed_shape(prompt, PROMPT_UNITS as int) {
        recent
    } else {
        let grown = recent.push(prompt);
        if window_units(grown) > MEMORY_MAX_UNITS {
            trimmed(grown)
        } else {
            grown
        }
    }
}

/// The memory after the first `k` of some prompts, from nothing.
pub open spec fn replayed(prompts: Seq<Seq<char>>, k: int) -> Seq<Seq<char>>
    decreases k,
{
    if k <= 0 {
        Seq::empty()
    } else {
        remembered(replayed(prompts, k - 1), prompts[k - 1])
    }
}

/// Every prompt looks typed, and together they stay within the limit.
pub open spec fn memory_ok(recent: Seq<Seq<char>>) -> bool {
    &&& forall|i: int|
        0 <= i < recent.len() ==> typed_shape(#[trigger] recent[i], PROMPT_UNITS as int)
    &&& window_units(recent) <= MEMORY_MAX_UNITS
}

proof fn lemma_units_drop_first(recent: Seq<Seq<char>>)
    requires
        recent.len() > 0,
    ensures
        window_units(recent) == utf16_len(recent[0]) + 2 + window_units(recent.drop_first()),
    decreases recent.len(),
{
    if recent.len() == 1 {
        assert(recent.drop_last() =~= Seq::<Seq<char>>::empty());
        assert(recent.drop_first() =~= Seq::<Seq<char>>::empty());
    } else {
        lemma_units_drop_first(recent.drop_last());
        assert(recent.drop_last().drop_first() =~= recent.drop_first().drop_last());
        assert(recent.drop_first().last() == recent.last());
    }
}

proof fn lemma_trimmed(recent: Seq<Seq<char>>)
    requires
        recent.len() > 0,
        forall|i: int| 0 <= i < recent.len() ==> typed_shape(#[trigger] recent[i], PROMPT_UNITS as int),
    ensures
        trimmed(recent).len() > 0,
        trimmed(recent).len() <= recent.len(),
        trimmed(recent) == recent.skip(recent.len() - trimmed(recent).len()),
        trimmed(recent).len() == 1 || window_units(trimmed(recent)) <= MEMORY_UNITS,
        window_units(trimmed(recent)) <= PROMPT_UNITS + 2,
    decreases recent.len(),
{
    if recent.len() > 1 && window_units(recent) > MEMORY_UNITS {
        let rest = recent.drop_first();
        assert forall|i: int| 0 <= i < rest.len() implies typed_shape(
            #[trigger] rest[i],
            PROMPT_UNITS as int,
        ) by {
            assert(rest[i] == recent[i + 1]);
        }
        lemma_trimmed(rest);
        let n = trimmed(recent).len();
        assert(rest.skip(rest.len() - n) =~= recent.skip(recent.len() - n));
    } else {
        assert(recent.skip(0) =~= recent);
        if recent.len() == 1 {
            assert(recent.drop_last() =~= Seq::<Seq<char>>::empty());
            assert(window_units(recent.drop_last()) == 0);
            assert(typed_shape(recent[0], PROMPT_UNITS as int));
        }
    }
}

/// A prompt that does not look typed changes nothing. Another one is appended,
/// so that the old text stays a prefix of the new, until the limit is passed;
/// then the oldest prompts go, until the rest fits the target or only the new
/// prompt is left. The newest prompt is always the last, and the limit always
/// holds.
pub proof fn law_memory_appends_or_trims(recent: Seq<Seq<char>>, prompt: Seq<char>)
    requires
        memory_ok(recent),
    ensures
        memory_ok(remembered(recent, prompt)),
        !typed_shape(prompt, PROMPT_UNITS as int) ==> remembered(recent, prompt) == recent,
        typed_shape(prompt, PROMPT_UNITS as int) ==> {
            let after = remembered(recent, prompt);
            let grown = recent.push(prompt);
            &&& after.len() > 0
            &&& after.last() == prompt
            &&& after.len() <= grown.len()
            &&& after == grown.skip(grown.len() - after.len())
            &&& after.len() < grown.len() ==> after.len() == 1 || window_units(after)
                <= MEMORY_UNITS
            &&& window_units(grown) <= MEMORY_MAX_UNITS ==> after == grown && window_text(after)
                == window_text(recent) + prompt + "\n\n"@
        },
{
    let grown = recent.push(prompt);
    if typed_shape(prompt, PROMPT_UNITS as int) {
        assert forall|i: int| 0 <= i < grown.len() implies typed_shape(
            #[trigger] grown[i],
            PROMPT_UNITS as int,
        ) by {
            if i < recent.len() {
                assert(grown[i] == recent[i]);
            }
        }
        assert(grown.skip(0) =~= grown);
        assert(grown.drop_last() =~= recent);
        if window_units(grown) > MEMORY_MAX_UNITS {
            lemma_trimmed(grown);
            let after = trimmed(grown);
            let n = after.len();
            assert forall|i: int| 0 <= i < n implies typed_shape(
                #[trigger] after[i],
                PROMPT_UNITS as int,
            ) by {
                assert(after[i] == grown[grown.len() - n + i]);
            }
        }
    }
}

/// Replaying a memory, prompt by prompt, restores it exactly.
pub proof fn law_replay_restores_the_memory(recent: Seq<Seq<char>>)
    requires
        memory_ok(recent),
    ensures
        replayed(recent, recent.len() as int) == recent,
{
    lemma_replay(recent, recent.len() as int);
    assert(recent.take(recent.len() as int) =~= recent);
}

proof fn lemma_replay(recent: Seq<Seq<char>>, k: int)
    requires
        memory_ok(recent),
        0 <= k <= recent.len(),
    ensures
        replayed(recent, k) == recent.take(k),
        window_units(recent.take(k)) <= MEMORY_MAX_UNITS,
    decreases k,
{
    lemma_units_take(recent, k);
    if k > 0 {
        lemma_replay(recent, k - 1);
        assert(typed_shape(recent[k - 1], PROMPT_UNITS as int));
        assert(recent.take(k - 1).push(recent[k - 1]) =~= recent.take(k));
    } else {
        assert(recent.take(0) =~= Seq::<Seq<char>>::empty());
    }
}

proof fn lemma_units_take(recent: Seq<Seq<char>>, k: int)
    requires
        0 <= k <= recent.len(),
    ensures
        window_units(recent.take(k)) <= window_units(recent),
    decreases recent.len() - k,
{
    if k < recent.len() {
        lemma_units_take(recent, k + 1);
        assert(recent.take(k + 1).drop_last() =~= recent.take(k));
    } else {
        assert(recent.take(k) =~= recent);
    }
}

/// The memory's size is the size of its text.
pub proof fn law_units_measure_the_text(recent: Seq<Seq<char>>)
    ensures
        utf16_len(window_text(recent)) == window_units(recent),
    decreases recent.len(),
{
    if recent.len() > 0 {
        let head = window_text(recent.drop_last());
        law_units_measure_the_text(recent.drop_last());
        reveal_strlit("\n\n");
        lemma_utf16_concat(head, recent.last());
        lemma_utf16_concat(head + recent.last(), "\n\n"@);
        reveal_with_fuel(utf16_len, 3);
    }
}

/// UTF-16 sizes add up over concatenation.
pub proof fn lemma_utf16_concat(a: Seq<char>, b: Seq<char>)
    ensures
        utf16_len(a + b) == utf16_len(a) + utf16_len(b),
    decreases b.len(),
{
    if b.len() == 0 {
        assert(a + b =~= a);
    } else {
        lemma_utf16_concat(a, b.drop_last());
        assert((a + b).drop_last() =~= a + b.drop_last());
    }
}

/// Recent typed prompts, oldest first. The window only grows by appending until
/// it passes [`MEMORY_MAX_UNITS`]; then the oldest prompts drop until it fits
/// [`MEMORY_UNITS`] again.
pub struct Memory {
    pub recent: VecDeque<String>,
    /// UTF-16 units of the window's text.
    pub units: usize,
    /// The head no longer matches `recent`.
    pub dirty: bool,
}

impl Default for Memory {
    fn default() -> (m: Memory)
        ensures
            m.wf(),
            m.recent@.len() == 0,
            !m.dirty,
    {
        Memory { recent: VecDeque::new(), units: 0, dirty: false }
    }
}

impl Memory {
    /// The remembered texts.
    pub open spec fn prompts(&self) -> Seq<Seq<char>> {
        texts(self.recent@)
    }

    /// The prompts are valid and the size is theirs.
    pub open spec fn wf(&self) -> bool {
        &&& memory_ok(self.prompts())
        &&& self.units == window_units(self.prompts())
    }

    /// Remembers a prompt that looks typed.
    pub fn remember(&mut self, prompt: &str)
        requires
            old(self).wf(),
        ensures
            final(self).wf(),
            final(self).prompts() == remembered(old(self).prompts(), prompt@),
            final(self).dirty == (old(self).dirty || typed_shape(prompt@, PROMPT_UNITS as int)),
    {
        if !is_typed_like(prompt) {
            return ;
        }
        let ghost before = self.prompts();
        let ghost grown = before.push(prompt@);
        proof {
            law_memory_appends_or_trims(before, prompt@);
        }
        let chars = chars_of(prompt);
        self.units = self.units + utf16_size(chars.as_slice()) + 2;
        self.recent.push_back(prompt.to_owned());
        proof {
            assert(self.prompts() =~= grown);
            assert(grown.drop_last() =~= before);
        }
        if self.units > MEMORY_MAX_UNITS {
            while self.units > MEMORY_UNITS && self.recent.len() > 1
                invariant
                    self.units == window_units(self.prompts()),
                    self.recent@.len() >= 1,
                    trimmed(self.prompts()) == trimmed(grown),
                decreases self.recent@.len(),
            {
                let ghost held = self.prompts();
                proof {
                    lemma_units_drop_first(held);
                }
                match self.recent.pop_front() {
                    Some(gone) => {
                        let chars = chars_of(gone.as_str());
                        assert(gone@ == held[0]);
                        assert(self.prompts() =~= held.drop_first());
                        self.units = self.units - (utf16_size(chars.as_slice()) + 2);
                    },
                    None => {},
                }
            }
        }
        self.dirty = true;
    }

    /// The window, each prompt followed by a blank line.
    pub fn text(&self) -> (text: String)
        ensures
            text@ == window_text(self.prompts()),
    {
        let mut text = String::new();
        let mut i: usize = 0;
        let ghost all = self.prompts();
        assert(all.take(0) =~= Seq::<Seq<char>>::empty());
        while i < self.recent.len()
            invariant
                all == self.prompts(),
                i <= self.recent@.len(),
                text@ == window_text(all.take(i as int)),
            decreases self.recent@.len() - i,
        {
            let prompt = &self.recent[i];
            proof {
                assert(all.take(i + 1).drop_last() =~= all.take(i as int));
                assert(all.take(i + 1).last() == all[i as int]);
                assert(all[i as int] == prompt@);
            }
            text.append(prompt.as_str());
            text.append("\n\n");
            i = i + 1;
        }
        assert(all.take(i as int) =~= all);
        text
    }

    /// A memory read back: the prompts of a state of the known version, replayed
    /// one by one, and a head that is out of date.
    pub fn restore(version: u32, recent: &Vec<String>) -> (r: Result<Memory, u32>)
        ensures
            match r {
                Ok(m) => {
                    &&& version == STATE_VERSION
                    &&& m.wf()
                    &&& m.dirty
                    &&& m.prompts() == replayed(texts(recent@), recent@.len() as int)
                },
                Err(v) => v == version && version != STATE_VERSION,
            },
    {
        if version != STATE_VERSION {
            return Err(version);
        }
        let mut memory = Memory::default();
        assert(memory.prompts() =~= Seq::<Seq<char>>::empty());
        let mut i: usize = 0;
        while i < recent.len()
            invariant
                i <= recent@.len(),
                memory.wf(),
                memory.prompts() == replayed(texts(recent@), i as int),
            decreases recent@.len() - i,
        {
            assert(texts(recent@)[i as int] == recent@[i as int]@);
            memory.remember(recent[i].as_str());
            i = i + 1;
        }
        memory.dirty = true;
        Ok(memory)
    }

    /// The prompts to persist, oldest first.
    pub fn state(&self) -> (recent: Vec<String>)
        ensures
            texts(recent@) == self.prompts(),
    {
        let mut recent: Vec<String> = Vec::new();
        let mut i: usize = 0;
        while i < self.recent.len()
            invariant
                i <= self.recent@.len(),
                texts(recent@) == self.prompts().take(i as int),
            decreases self.recent@.len() - i,
        {
            let copy = self.recent[i].as_str().to_owned();
            let ghost held = recent@;
            recent.push(copy);
            assert(texts(recent@) =~= texts(held).push(copy@));
            assert(self.prompts().take(i as int).push(self.prompts()[i as int])
                =~= self.prompts().take(i + 1));
            i = i + 1;
        }
        assert(self.prompts().take(i as int) =~= self.prompts());
        recent
    }
}

/// Words offered while the current word is typed.
pub struct Shown {
    pub before: String,
    pub prefix_units: usize,
    pub words: StringHashSet,
}

impl Default for Shown {
    fn default() -> (s: Shown)
        ensures
            s.before@ == Seq::<char>::empty(),
            s.prefix_units == 0,
            s.words@ == Set::<Seq<char>>::empty(),
    {
        Shown { before: String::new(), prefix_units: 0, words: StringHashSet::new() }
    }
}

/// The form under which a completed word counts as offered.
pub open spec fn shown_key(prefix: Seq<char>, suffix: Seq<char>) -> Seq<char> {
    lower_text(prefix + suffix)
}

/// The first alternative at or after `i` that was not offered before.
pub open spec fn first_unshown(
    words: Set<Seq<char>>,
    prefix: Seq<char>,
    alternatives: Seq<Seq<char>>,
    i: int,
) -> Option<int>
    decreases alternatives.len() - i,
{
    if i < 0 || i >= alternatives.len() {
        None
    } else if !words.contains(shown_key(prefix, alternatives[i])) {
        Some(i)
    } else {
        first_unshown(words, prefix, alternatives, i + 1)
    }
}

impl Shown {
    /// A new word starts when the text before it changes or the prefix stops
    /// growing.
    pub open spec fn new_word(&self, before: Seq<char>, prefix: Seq<char>) -> bool {
        before != self.before@ || utf16_len(prefix) <= self.prefix_units
    }

    /// Follows the typing: forgets the offered words when a new word starts.
    pub fn track(&mut self, before: &str, prefix: &str)
        ensures
            final(self).before@ == before@,
            final(self).prefix_units == utf16_len(prefix@),
            final(self).words@ == (if old(self).new_word(before@, prefix@) {
                Set::<Seq<char>>::empty()
            } else {
                old(self).words@
            }),
    {
        let chars = chars_of(prefix);
        let units: usize = utf16_size(chars.as_slice());
        let same = same_text(before, self.before.as_str());
        if !same || units <= self.prefix_units {
            self.words.clear();
            if !same {
                self.before = before.to_owned();
            }
        }
        self.prefix_units = units;
    }

    /// The form under which a completed word counts as offered.
    pub fn key(prefix: &str, suffix: &str) -> (key: String)
        ensures
            key@ == shown_key(prefix@, suffix@),
    {
        let mut word = prefix.to_owned();
        word.append(suffix);
        lower_text_of(word.as_str())
    }

    /// Picks the first alternative that was not offered while this word is
    /// typed, and notes it as offered where its confidence says so.
    pub fn pick(&mut self, prefix: &str, alternatives: &Vec<String>, confident: &Vec<bool>) -> (r:
        Option<usize>)
        requires
            alternatives@.len() == confident@.len(),
        ensures
            final(self).before@ == old(self).before@,
            final(self).prefix_units == old(self).prefix_units,
            match r {
                Some(i) => {
                    &&& i < alternatives@.len()
                    &&& first_unshown(old(self).words@, prefix@, texts(alternatives@), 0) == Some(
                        i as int,
                    )
                    &&& final(self).words@ == (if confident@[i as int] {
                        old(self).words@.insert(shown_key(prefix@, alternatives@[i as int]@))
                    } else {
                        old(self).words@
                    })
                },
                None => {
                    &&& first_unshown(old(self).words@, prefix@, texts(alternatives@), 0) is None
                    &&& final(self).words@ == old(self).words@
                },
            },
    {
        let mut i: usize = 0;
        while i < alternatives.len()
            invariant
                *self == *old(self),
                alternatives@.len() == confident@.len(),
                i <= alternatives@.len(),
                first_unshown(self.words@, prefix@, texts(alternatives@), 0) == first_unshown(
                    self.words@,
                    prefix@,
                    texts(alternatives@),
                    i as int,
                ),
            decreases alternatives@.len() - i,
        {
            let key = Shown::key(prefix, alternatives[i].as_str());
            assert(texts(alternatives@)[i as int] == alternatives@[i as int]@);
            if !self.words.contains(key.as_str()) {
                if confident[i] {
                    self.words.insert(key);
                }
                return Some(i);
            }
            i = i + 1;
        }
        None
    }
}

/// A word once noted as offered is not picked again while the same word is
/// typed.
pub proof fn law_offered_words_are_not_picked_again(
    words: Set<Seq<char>>,
    prefix: Seq<char>,
    alternatives: Seq<Seq<char>>,
    i: int,
)
    requires
        0 <= i,
        first_unshown(words, prefix, alternatives, 0) == Some(i),
    ensures
        i < alternatives.len(),
        !words.contains(shown_key(prefix, alternatives[i])),
        forall|j: int|
            0 <= j < i ==> words.contains(shown_key(prefix, #[trigger] alternatives[j])),
{
    lemma_first_unshown(words, prefix, alternatives, 0);
}

proof fn lemma_first_unshown(
    words: Set<Seq<char>>,
    prefix: Seq<char>,
    alternatives: Seq<Seq<char>>,
    k: int,
)
    requires
        0 <= k,
    ensures
        match first_unshown(words, prefix, alternatives, k) {
            Some(i) => {
                &&& k <= i < alternatives.len()
                &&& !words.contains(shown_key(prefix, alternatives[i]))
                &&& forall|j: int|
                    k <= j < i ==> words.contains(shown_key(prefix, #[trigger] alternatives[j]))
            },
            None => true,
        },
    decreases alternatives.len() - k,
{
    if k < alternatives.len() && words.contains(shown_key(prefix, alternatives[k])) {
        lemma_first_unshown(words, prefix, alternatives, k + 1);
    }
}

} // verus!
