//! Regular expressions of the `regex` crate.

use regex::Regex;
use vstd::prelude::*;

use crate::unicode::{at_boundary, byte_len};

verus! {

/// The pattern that cuts a piece of text into pre-tokens: contractions, then
/// runs of letters, numbers or other ink with an optional space before them,
/// then runs of space.
pub const SPLIT: &'static str = r"'s|'t|'re|'ve|'m|'ll|'d| ?\p{L}+| ?\p{N}+| ?[^\s\p{L}\p{N}]+|\s+";

/// The pattern of a letter or combining mark.
pub const LETTER: &'static str = r"[\p{L}\p{M}]";

/// A compiled regular expression of the `regex` crate.
#[verifier::external_type_specification]
#[verifier::external_body]
pub struct ExRegex(Regex);

/// Whether `Regex::new` accepts the pattern.
pub uninterp spec fn compiles(pattern: Seq<char>) -> bool;

/// The pattern that a regular expression was compiled from, which
/// `Regex::as_str` gives back.
pub uninterp spec fn source(re: Regex) -> Seq<char>;

/// The byte span that `Regex::find_at` reports for a pattern, a text and a
/// byte offset to start from.
pub uninterp spec fn found(pattern: Seq<char>, text: Seq<char>, at: int) -> Option<(int, int)>;

/// `Regex::new`: whether a pattern is accepted depends on the pattern alone,
/// and the result keeps its pattern. [`LETTER`] is a class of two general
/// categories, which the crate's syntax has.
#[verifier::external_body]
pub(crate) fn compile(pattern: &str) -> (re: Option<Regex>)
    ensures
        match re {
            Some(r) => compiles(pattern@) && source(r) == pattern@,
            None => !compiles(pattern@),
        },
        pattern@ == LETTER@ ==> re is Some,
{
    Regex::new(pattern).ok()
}

/// A letter of the Latin-1 range.
pub open spec fn latin_letter(c: char) -> bool {
    ||| 'a' <= c <= 'z'
    ||| 'A' <= c <= 'Z'
    ||| c == '\u{AA}'
    ||| c == '\u{B5}'
    ||| c == '\u{BA}'
    ||| '\u{C0}' <= c <= '\u{D6}'
    ||| '\u{D8}' <= c <= '\u{F6}'
    ||| '\u{F8}' <= c <= '\u{FF}'
}

/// What the general categories say of some characters: which of Latin-1 are
/// letters, that combining diacritical marks are marks, and that Roman numerals
/// are numbers.
pub open spec fn in_category(c: char, inside: bool) -> bool {
    &&& c <= '\u{FF}' ==> inside == latin_letter(c)
    &&& '\u{300}' <= c <= '\u{36F}' ==> inside
    &&& '\u{2160}' <= c <= '\u{2182}' ==> !inside
}

/// `Regex::find_at`: the leftmost match that starts at or after `at`, as byte
/// offsets on character boundaries. The span depends on the pattern, the text
/// and the offset alone. Every character is a letter, a number, a space or
/// none of the three, so with [`SPLIT`] a match starts right at `at` and takes
/// at least one character. With [`LETTER`] and a single character there is a
/// match exactly where the character is of the two categories.
#[verifier::external_body]
pub(crate) fn find_at(re: &Regex, text: &str, at: usize) -> (span: Option<(usize, usize)>)
    requires
        at_boundary(text@, at as int),
    ensures
        match span {
            Some((s, e)) => {
                &&& found(source(*re), text@, at as int) == Some((s as int, e as int))
                &&& at <= s <= e <= byte_len(text@)
                &&& at_boundary(text@, s as int)
                &&& at_boundary(text@, e as int)
            },
            None => found(source(*re), text@, at as int) is None,
        },
        (source(*re) == SPLIT@ && byte_len(text@) > at) ==> (match span {
            Some(p) => p.0 == at && p.1 > at,
            None => false,
        }),
        (source(*re) == LETTER@ && text@.len() == 1 && at == 0) ==> in_category(
            text@[0],
            span is Some,
        ),
{
    match re.find_at(text, at) {
        Some(m) => Some((m.start(), m.end())),
        None => None,
    }
}

} // verus!
