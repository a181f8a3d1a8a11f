//! What every word-completion engine shares: the request, the names of the
//! engines, and what a suggestion needs to be shown.

use vstd::prelude::*;

use crate::smollm::ranking::{at_least, is_at_least, not_a_number};
use crate::unicode::{chars_of, same_text};

verus! {

/// What is asked of an engine.
#[derive(Clone, Copy, Debug)]
pub struct Query<'a> {
    /// The text before the word being typed.
    pub before: &'a str,
    /// The letters of the word typed so far.
    pub prefix: &'a str,
}

/// The engines.
#[derive(Clone, Copy, Debug, PartialEq, Eq, Structural)]
pub enum Method {
    /// Word counts with a web prior.
    Ngram,
    /// A pretrained language model.
    SmolLm,
    /// The dictionary of the system's spell checker.
    Apple,
}

/// The engine of a name.
pub open spec fn method_named(name: Seq<char>) -> Option<Method> {
    if name == "ngram"@ {
        Some(Method::Ngram)
    } else if name == "smollm"@ {
        Some(Method::SmolLm)
    } else if name == "apple"@ {
        Some(Method::Apple)
    } else {
        None
    }
}

impl Method {
    /// Reads the name of an engine; another name is given back.
    pub fn parse(name: &str) -> (r: Result<Method, String>)
        ensures
            match r {
                Ok(m) => method_named(name@) == Some(m),
                Err(other) => method_named(name@) is None && other@ == name@,
            },
    {
        if same_text(name, "ngram") {
            Ok(Method::Ngram)
        } else if same_text(name, "smollm") {
            Ok(Method::SmolLm)
        } else if same_text(name, "apple") {
            Ok(Method::Apple)
        } else {
            Err(name.to_owned())
        }
    }
}

/// The larger of two single-precision numbers, given as bit patterns; the other
/// one where one is no number.
pub open spec fn larger(a: u32, b: u32) -> u32 {
    if not_a_number(a) || (!not_a_number(b) && at_least(b, a, false)) {
        b
    } else {
        a
    }
}

/// The threshold that a suggestion has to reach: the engine's own, or the
/// caller's in its place, which cannot lower that of a single letter.
pub open spec fn gate_of(chosen: Option<u32>, threshold: u32, prefix: Seq<char>) -> u32 {
    match chosen {
        Some(gate) => if prefix.len() < 2 {
            larger(gate, threshold)
        } else {
            gate
        },
        None => threshold,
    }
}

/// Whether a suggestion of the given confidence shows. Numbers are single
/// precision bit patterns.
pub fn shows(confidence: u32, chosen: Option<u32>, threshold: u32, prefix: &str) -> (r: bool)
    ensures
        r == at_least(confidence, gate_of(chosen, threshold, prefix@), false),
{
    let chars = chars_of(prefix);
    let gate: u32 = match chosen {
        Some(gate) => {
            if chars.len() < 2 {
                let nan_gate = !is_at_least(gate, gate, false);
                let nan_own = !is_at_least(threshold, threshold, false);
                if nan_gate || (!nan_own && is_at_least(threshold, gate, false)) {
                    threshold
                } else {
                    gate
                }
            } else {
                gate
            }
        },
        None => threshold,
    };
    is_at_least(confidence, gate, false)
}

/// What shows at a single letter reaches the engine's own threshold, whatever
/// the caller chose.
pub proof fn law_single_letters_keep_their_floor(
    confidence: u32,
    chosen: Option<u32>,
    threshold: u32,
    prefix: Seq<char>,
)
    requires
        prefix.len() < 2,
        !not_a_number(threshold),
        at_least(confidence, gate_of(chosen, threshold, prefix), false),
    ensures
        at_least(confidence, threshold, false),
{
}

/// The caller's threshold takes the place of the engine's own from two letters
/// on; at a single letter the larger of the two counts, and without a choice of
/// the caller's always the engine's own.
pub proof fn law_the_threshold_is_the_callers(chosen: u32, threshold: u32, prefix: Seq<char>)
    ensures
        gate_of(None, threshold, prefix) == threshold,
        prefix.len() >= 2 ==> gate_of(Some(chosen), threshold, prefix) == chosen,
        prefix.len() < 2 && !not_a_number(chosen) && !not_a_number(threshold) ==> {
            let gate = gate_of(Some(chosen), threshold, prefix);
            &&& gate == chosen || gate == threshold
            &&& at_least(gate, chosen, false)
            &&& at_least(gate, threshold, false)
        },
{
}

} // verus!
