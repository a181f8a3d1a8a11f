//! What one completion request asks of the model: a new head when the memory
//! changed, a new context when the word changed, and the text to spell.

use vstd::prelude::*;

use super::context::{context_window, heal, window_from};
use super::memory::{remembered, window_text, Memory, Shown};
use super::tokenizer::{ids_of, Tokenizer};
use crate::prose::typed_shape;
use crate::unicode::{same_text, utf16_len};

verus! {

/// The word being completed: its context text and the lead to spell again.
pub struct Word {
    pub context: String,
    pub lead: String,
}

/// The state between requests.
pub struct Completion {
    /// The token that begins every sequence.
    pub bos: u32,
    pub memory: Memory,
    pub shown: Shown,
    pub word: Option<Word>,
}

/// What to hand to the model for one request.
pub struct Prepared {
    /// The new head, where it changed.
    pub head: Option<Vec<u32>>,
    /// The new context, where the word changed.
    pub context: Option<Vec<u32>>,
    /// What every path has to spell first: the lead and the typed prefix.
    pub target: String,
}

impl Completion {
    /// The memory is valid.
    pub open spec fn wf(&self) -> bool {
        self.memory.wf()
    }

    /// The word at hand already has this context.
    pub open spec fn same_word(&self, context: Seq<char>) -> bool {
        match self.word {
            Some(word) => word.context@ == context,
            None => false,
        }
    }

    /// The tokens of the head: the beginning, the preamble and the memory.
    pub open spec fn head_tokens(&self, tokenizer: &Tokenizer, preamble: Seq<char>) -> Seq<u32> {
        seq![self.bos] + ids_of(tokenizer.tokens(preamble + window_text(self.memory.prompts())))
    }

    /// A fresh state over a memory.
    pub fn new(bos: u32, memory: Memory) -> (c: Completion)
        requires
            memory.wf(),
        ensures
            c.wf(),
            c.bos == bos,
            c.memory == memory,
            c.word is None,
            c.shown.words@ == Set::<Seq<char>>::empty(),
            c.shown.before@ == Seq::<char>::empty(),
            c.shown.prefix_units == 0,
    {
        Completion { bos, memory, shown: Shown::default(), word: None }
    }

    /// Prepares the request for completing `prefix` behind `before`; nothing is
    /// asked for an empty prefix.
    pub fn prepare(&mut self, tokenizer: &Tokenizer, preamble: &str, before: &str, prefix: &str) -> (r:
        Option<Prepared>)
        requires
            old(self).wf(),
            tokenizer.wf(),
            tokenizer.knows_start(prefix@),
        ensures
            final(self).wf(),
            final(self).bos == old(self).bos,
            final(self).memory.prompts() == old(self).memory.prompts(),
            (r is None) == (prefix@.len() == 0),
            r is None ==> *final(self) == *old(self),
            r matches Some(p) ==> {
                let window = before@.skip(window_from(before@));
                let dirty = old(self).memory.dirty;
                let fresh = dirty || !old(self).same_word(window);
                let healed = tokenizer.healed(window, prefix@);
                &&& !final(self).memory.dirty
                &&& match p.head {
                    Some(head) => dirty && head@ == old(self).head_tokens(tokenizer, preamble@),
                    None => !dirty,
                }
                &&& match p.context {
                    Some(ids) => fresh && ids@ == healed.0,
                    None => !fresh,
                }
                &&& final(self).word matches Some(word)
                &&& word.context@ == window
                &&& word.lead@ == (if fresh {
                    healed.1
                } else {
                    (old(self).word->0).lead@
                })
                &&& p.target@ == word.lead@ + prefix@
                &&& final(self).shown.before@ == before@
                &&& final(self).shown.prefix_units == utf16_len(prefix@)
                &&& final(self).shown.words@ == (if old(self).shown.new_word(before@, prefix@) {
                    Set::<Seq<char>>::empty()
                } else {
                    old(self).shown.words@
                })
            },
    {
        if prefix.is_empty() {
            return None;
        }
        self.shown.track(before, prefix);
        let mut head: Option<Vec<u32>> = None;
        if self.memory.dirty {
            let mut text = preamble.to_owned();
            let own = self.memory.text();
            text.append(own.as_str());
            let mut tokens: Vec<u32> = Vec::new();
            tokens.push(self.bos);
            let encoding = tokenizer.encode(text.as_str());
            let mut ids = encoding.ids;
            tokens.append(&mut ids);
            assert(tokens@ =~= old(self).head_tokens(tokenizer, preamble@));
            head = Some(tokens);
            self.memory.dirty = false;
            self.word = None;
        }
        let window = context_window(before);
        let known = match &self.word {
            Some(word) => same_text(word.context.as_str(), window),
            None => false,
        };
        let mut context: Option<Vec<u32>> = None;
        if !known {
            let (ids, lead) = heal(tokenizer, window, prefix);
            context = Some(ids);
            self.word = Some(Word { context: window.to_owned(), lead });
        }
        let mut target = match &self.word {
            Some(word) => word.lead.as_str().to_owned(),
            None => String::new(),
        };
        target.append(prefix);
        Some(Prepared { head, context, target })
    }

    /// Starts over after a failure of the model: the head and the context are
    /// asked for again with the next request.
    pub fn start_over(&mut self)
        requires
            old(self).wf(),
        ensures
            final(self).wf(),
            final(self).bos == old(self).bos,
            final(self).memory.prompts() == old(self).memory.prompts(),
            final(self).memory.dirty,
            final(self).word is None,
            final(self).shown == old(self).shown,
    {
        self.memory.dirty = true;
        self.word = None;
    }

    /// Learns from a submitted prompt, which only the memory does.
    pub fn observe(&mut self, prompt: &str)
        requires
            old(self).wf(),
        ensures
            final(self).wf(),
            final(self).bos == old(self).bos,
            final(self).memory.prompts() == remembered(old(self).memory.prompts(), prompt@),
            final(self).memory.dirty == (old(self).memory.dirty || typed_shape(prompt@, 1500)),
            final(self).shown == old(self).shown,
            final(self).word == old(self).word,
    {
        self.memory.remember(prompt);
    }
}

} // verus!
