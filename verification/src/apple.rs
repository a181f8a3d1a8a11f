//! Completion and spelling over a system spell checker, which works outside:
//! the ranges it is asked about, and what is made of its answers.
//!
//! Ranges are in UTF-16 units.

use vstd::prelude::*;

use crate::ngram::order::{starts_with, text_starts};
use crate::unicode::{
    chars_of, lemma_byte_len_prefix, lower_text, lower_text_of, string_of, utf16_len, utf16_size,
};

verus! {

/// The fewest characters that are completed.
pub const MIN_PREFIX_CHARS: usize = 2;

/// The confidence of a completion for a prefix that is no word yet: one, as a
/// single-precision bit pattern.
pub const COMPLETION_CONFIDENCE: u32 = 0x3f80_0000;

/// The confidence of a completion for a prefix that already is a word: a
/// quarter, as a single-precision bit pattern.
pub const FINISHED_WORD_CONFIDENCE: u32 = 0x3e80_0000;

/// A misspelled span.
#[derive(Clone, Copy, Debug, PartialEq, Eq, Structural)]
pub struct SpellingRange {
    /// First unit.
    pub start: u32,
    /// Number of units.
    pub length: u32,
}

/// Why an answer cannot be used.
#[derive(Clone, Copy, Debug, PartialEq, Eq, Structural)]
pub enum RangeError {
    /// The line has too many units.
    Line,
    /// A span starts too far out.
    Start,
    /// A span is too long.
    Length,
}

/// One finding of the checker.
#[derive(Clone, Copy, Debug, PartialEq, Eq, Structural)]
pub struct Finding {
    /// It is about spelling, not about the language of the text.
    pub spelling: bool,
    pub location: u64,
    pub length: u64,
}

/// The location that stands for none.
pub const NOT_FOUND: u64 = 0x7fff_ffff_ffff_ffff;

/// The finding marks a word.
pub open spec fn marks(f: Finding) -> bool {
    f.spelling && f.length > 0 && f.location < NOT_FOUND
}

/// The misspelled spans among the first `k` findings.
pub open spec fn marked(findings: Seq<Finding>, k: int) -> Seq<SpellingRange>
    decreases k,
{
    if k <= 0 {
        Seq::empty()
    } else if marks(findings[k - 1]) {
        marked(findings, k - 1).push(
            SpellingRange {
                start: findings[k - 1].location as u32,
                length: findings[k - 1].length as u32,
            },
        )
    } else {
        marked(findings, k - 1)
    }
}

/// What is wrong with the first span, from `k` on, that does not fit its type.
pub open spec fn range_error(findings: Seq<Finding>, k: int) -> Option<RangeError>
    decreases findings.len() - k,
{
    if k < 0 || k >= findings.len() {
        None
    } else if marks(findings[k]) && findings[k].location > u32::MAX {
        Some(RangeError::Start)
    } else if marks(findings[k]) && findings[k].length > u32::MAX {
        Some(RangeError::Length)
    } else {
        range_error(findings, k + 1)
    }
}

/// The misspelled spans among the findings of a check.
pub fn check(findings: &Vec<Finding>) -> (r: Result<Vec<SpellingRange>, RangeError>)
    ensures
        match r {
            Ok(ranges) => {
                &&& range_error(findings@, 0) is None
                &&& ranges@ == marked(findings@, findings@.len() as int)
            },
            Err(e) => range_error(findings@, 0) == Some(e),
        },
{
    let mut ranges: Vec<SpellingRange> = Vec::new();
    let mut i: usize = 0;
    while i < findings.len()
        invariant
            i <= findings@.len(),
            range_error(findings@, 0) == range_error(findings@, i as int),
            ranges@ == marked(findings@, i as int),
        decreases findings@.len() - i,
    {
        let f: Finding = findings[i];
        if f.spelling && f.length > 0 && f.location < NOT_FOUND {
            if f.location > u32::MAX as u64 {
                return Err(RangeError::Start);
            }
            if f.length > u32::MAX as u64 {
                return Err(RangeError::Length);
            }
            ranges.push(SpellingRange { start: f.location as u32, length: f.length as u32 });
        }
        i = i + 1;
    }
    Ok(ranges)
}

/// Whether a word is spelled correctly, by the misspelled span that the checker
/// found in it.
pub fn is_known_word(location: u64, length: u64) -> (r: bool)
    ensures
        r == (length == 0 || location >= NOT_FOUND),
{
    length == 0 || location >= NOT_FOUND
}

/// Where the last line of the first `k` characters starts.
pub open spec fn line_start(before: Seq<char>, k: int) -> int
    decreases k,
{
    if k <= 0 || before[k - 1] == '\n' {
        k
    } else {
        line_start(before, k - 1)
    }
}

/// What the checker is asked about: the current line and the word in it.
pub struct LineQuery {
    pub line: String,
    pub start: u32,
    pub length: u32,
}

/// The question for completing `prefix` behind `before`: the current line alone,
/// with the word at its end.
pub fn line_query(before: &str, prefix: &str) -> (r: Result<LineQuery, RangeError>)
    ensures
        ({
            let lead = before@.skip(line_start(before@, before@.len() as int));
            match r {
                Ok(q) => {
                    &&& q.line@ == lead + prefix@
                    &&& q.start == utf16_len(lead)
                    &&& q.length == utf16_len(prefix@)
                },
                Err(e) => {
                    &&& e == RangeError::Line
                    &&& utf16_len(lead) > u32::MAX || utf16_len(prefix@) > u32::MAX
                },
            }
        }),
{
    let chars = chars_of(before);
    let mut k: usize = chars.len();
    while k > 0 && chars[k - 1] != '\n'
        invariant
            chars@ == before@,
            k <= chars@.len(),
            line_start(before@, before@.len() as int) == line_start(before@, k as int),
        decreases k,
    {
        k = k - 1;
    }
    let lead: &[char] = &chars[k..chars.len()];
    proof {
        assert(lead@ =~= before@.skip(k as int));
        lemma_byte_len_prefix(before@, k as int);
    }
    let start: usize = utf16_size(lead);
    let word = chars_of(prefix);
    let length: usize = utf16_size(word.as_slice());
    if start as u64 > u32::MAX as u64 || length as u64 > u32::MAX as u64 {
        return Err(RangeError::Line);
    }
    let mut line = string_of(lead);
    line.append(prefix);
    Ok(LineQuery { line, start: start as u32, length: length as u32 })
}

/// The candidate is longer than the prefix and extends it but for case.
pub open spec fn extends_prefix(candidate: Seq<char>, prefix: Seq<char>) -> bool {
    candidate.len() > prefix.len() && starts_with(lower_text(candidate), lower_text(prefix))
}

/// The first candidate at or after `i` that extends the prefix.
pub open spec fn extension_at(candidates: Seq<String>, prefix: Seq<char>, i: int) -> Option<int>
    decreases candidates.len() - i,
{
    if i < 0 || i >= candidates.len() {
        None
    } else if extends_prefix(candidates[i]@, prefix) {
        Some(i)
    } else {
        extension_at(candidates, prefix, i + 1)
    }
}

/// The rest of the first candidate that is longer than the prefix and extends
/// it, whatever its case.
pub fn first_extension(candidates: &Vec<String>, prefix: &str) -> (suffix: Option<String>)
    ensures
        match suffix {
            Some(s) => {
                &&& extension_at(candidates@, prefix@, 0) matches Some(i)
                &&& s@ == candidates@[i]@.skip(prefix@.len() as int)
                &&& s@.len() > 0
            },
            None => extension_at(candidates@, prefix@, 0) is None,
        },
{
    let lower = lower_text_of(prefix);
    let word = chars_of(prefix);
    let mut i: usize = 0;
    while i < candidates.len()
        invariant
            lower@ == lower_text(prefix@),
            word@ == prefix@,
            i <= candidates@.len(),
            extension_at(candidates@, prefix@, 0) == extension_at(candidates@, prefix@, i as int),
        decreases candidates@.len() - i,
    {
        let candidate = candidates[i].as_str();
        let chars = chars_of(candidate);
        let folded = lower_text_of(candidate);
        if chars.len() > word.len() && text_starts(folded.as_str(), lower.as_str()) {
            let rest = string_of(&chars[word.len()..chars.len()]);
            assert(rest@ =~= candidates@[i as int]@.skip(prefix@.len() as int));
            return Some(rest);
        }
        i = i + 1;
    }
    None
}

/// Whether a prefix is long enough to be completed.
pub fn completes(prefix: &str) -> (r: bool)
    ensures
        r == (prefix@.len() >= MIN_PREFIX_CHARS),
{
    let chars = chars_of(prefix);
    chars.len() >= MIN_PREFIX_CHARS
}

/// The confidence of a completion, lower where the prefix is a word already.
pub fn confidence(finished: bool) -> (bits: u32)
    ensures
        bits == (if finished {
            FINISHED_WORD_CONFIDENCE
        } else {
            COMPLETION_CONFIDENCE
        }),
{
    if finished {
        FINISHED_WORD_CONFIDENCE
    } else {
        COMPLETION_CONFIDENCE
    }
}

/// The finding is a misspelled word of the text.
pub open spec fn is_misspelling(f: Finding) -> bool {
    f.spelling && f.length > 0 && f.location < 0x7fff_ffff_ffff_ffff
}

/// Every misspelling among the findings becomes a span, in order, and nothing
/// else does.
pub proof fn law_misspellings_become_spans(findings: Seq<Finding>, k: int)
    requires
        0 <= k < findings.len(),
    ensures
        is_misspelling(findings[k]) && findings[k].location <= u32::MAX && findings[k].length
            <= u32::MAX ==> marked(findings, k + 1).len() == marked(findings, k).len() + 1
            && marked(findings, k + 1).last().start == findings[k].location && marked(
            findings,
            k + 1,
        ).last().length == findings[k].length && marked(findings, k + 1).drop_last() == marked(
            findings,
            k,
        ),
        !is_misspelling(findings[k]) ==> marked(findings, k + 1) == marked(findings, k),
{
    if is_misspelling(findings[k]) {
        let span = SpellingRange {
            start: findings[k].location as u32,
            length: findings[k].length as u32,
        };
        assert(marked(findings, k + 1) == marked(findings, k).push(span));
        assert(marked(findings, k).push(span).drop_last() =~= marked(findings, k));
    }
}

/// The line asked about is the last one: it starts the text or stands behind a
/// line end, and no line end is in it.
pub proof fn law_the_last_line_is_asked_about(before: Seq<char>, k: int)
    requires
        0 <= k <= before.len(),
    ensures
        0 <= line_start(before, k) <= k,
        line_start(before, k) > 0 ==> before[line_start(before, k) - 1] == '\n',
        forall|i: int| line_start(before, k) <= i < k ==> #[trigger] before[i] != '\n',
    decreases k,
{
    if k > 0 && before[k - 1] != '\n' {
        law_the_last_line_is_asked_about(before, k - 1);
    }
}

/// The candidate taken is the first that is longer than the prefix and starts
/// with it but for case.
pub proof fn law_the_first_extension_is_taken(candidates: Seq<String>, prefix: Seq<char>, i: int)
    requires
        0 <= i <= candidates.len(),
    ensures
        match extension_at(candidates, prefix, i) {
            Some(k) => {
                &&& i <= k < candidates.len()
                &&& candidates[k]@.len() > prefix.len()
                &&& starts_with(lower_text(candidates[k]@), lower_text(prefix))
                &&& forall|j: int|
                    i <= j < k ==> !((#[trigger] candidates[j])@.len() > prefix.len()
                        && starts_with(lower_text(candidates[j]@), lower_text(prefix)))
            },
            None => forall|j: int|
                i <= j < candidates.len() ==> !((#[trigger] candidates[j])@.len() > prefix.len()
                    && starts_with(lower_text(candidates[j]@), lower_text(prefix))),
        },
    decreases candidates.len() - i,
{
    if i < candidates.len() && !extends_prefix(candidates[i]@, prefix) {
        law_the_first_extension_is_taken(candidates, prefix, i + 1);
    }
}

} // verus!
