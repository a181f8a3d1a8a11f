//! Searching, cutting and reading texts given as characters.

use vstd::prelude::*;

use crate::unicode::{ascii_lower, to_ascii_lower, whitespace};

verus! {

/// `part` stands in `text` at `i`.
pub open spec fn stands_at(text: Seq<char>, part: Seq<char>, i: int) -> bool {
    0 <= i && i + part.len() <= text.len() && text.subrange(i, i + part.len()) == part
}

/// `part` stands somewhere in `text`.
pub open spec fn contains_text(text: Seq<char>, part: Seq<char>) -> bool {
    exists|i: int| #[trigger] stands_at(text, part, i)
}

/// Whether `part` stands in `text` at `i`.
pub fn is_at(text: &[char], part: &[char], i: usize) -> (r: bool)
    ensures
        r == stands_at(text@, part@, i as int),
{
    let n: usize = text.len();
    if i > n || part.len() > n - i {
        return false;
    }
    let mut k: usize = 0;
    while k < part.len()
        invariant
            n == text@.len(),
            i <= text@.len(),
            i + part@.len() <= text@.len(),
            k <= part@.len(),
            forall|j: int| 0 <= j < k ==> text@[i + j] == part@[j],
        decreases part@.len() - k,
    {
        if text[i + k] != part[k] {
            assert(text@.subrange(i as int, i + part@.len())[k as int] != part@[k as int]);
            return false;
        }
        k = k + 1;
    }
    assert(text@.subrange(i as int, i + part@.len()) =~= part@);
    true
}

/// Whether `part` stands somewhere in `text`.
pub fn contains(text: &[char], part: &[char]) -> (r: bool)
    ensures
        r == contains_text(text@, part@),
{
    let n: usize = text.len();
    let mut i: usize = 0;
    while i < n
        invariant
            n == text@.len(),
            i <= n,
            forall|k: int| 0 <= k < i ==> !#[trigger] stands_at(text@, part@, k),
        decreases n - i,
    {
        if is_at(text, part, i) {
            return true;
        }
        i = i + 1;
    }
    if is_at(text, part, n) {
        return true;
    }
    assert forall|k: int| !#[trigger] stands_at(text@, part@, k) by {
        if stands_at(text@, part@, k) {
            assert(0 <= k <= n);
        }
    }
    false
}

/// The two texts are the same but for the case of ASCII letters.
pub open spec fn same_but_ascii_case(a: Seq<char>, b: Seq<char>) -> bool {
    a.len() == b.len() && forall|i: int|
        0 <= i < a.len() ==> ascii_lower(#[trigger] a[i]) == ascii_lower(b[i])
}

/// Whether two texts are the same but for the case of ASCII letters.
pub fn eq_ignore_ascii_case(a: &[char], b: &[char]) -> (r: bool)
    ensures
        r == same_but_ascii_case(a@, b@),
{
    if a.len() != b.len() {
        return false;
    }
    let mut i: usize = 0;
    while i < a.len()
        invariant
            a@.len() == b@.len(),
            i <= a@.len(),
            forall|k: int| 0 <= k < i ==> ascii_lower(#[trigger] a@[k]) == ascii_lower(b@[k]),
        decreases a@.len() - i,
    {
        if to_ascii_lower(a[i]) != to_ascii_lower(b[i]) {
            return false;
        }
        i = i + 1;
    }
    true
}

// ---------------------------------------------------------------------------
// Cutting
// ---------------------------------------------------------------------------
/// The first position at or after `i` that holds one of `seps`, or the end.
pub open spec fn next_sep(text: Seq<char>, seps: Seq<char>, i: int) -> int
    decreases text.len() - i,
{
    if i < 0 || i >= text.len() || seps.contains(text[i]) {
        i
    } else {
        next_sep(text, seps, i + 1)
    }
}

/// The next separator is where it should be.
pub proof fn lemma_next_sep(text: Seq<char>, seps: Seq<char>, i: int)
    requires
        0 <= i <= text.len(),
    ensures
        i <= next_sep(text, seps, i) <= text.len(),
        next_sep(text, seps, i) < text.len() ==> seps.contains(text[next_sep(text, seps, i)]),
        forall|k: int| i <= k < next_sep(text, seps, i) ==> !seps.contains(#[trigger] text[k]),
    decreases text.len() - i,
{
    if i < text.len() && !seps.contains(text[i]) {
        lemma_next_sep(text, seps, i + 1);
    }
}

/// The parts of `text` from `i` on, cut at every separator.
pub open spec fn parts_from(text: Seq<char>, seps: Seq<char>, i: int) -> Seq<Seq<char>>
    decreases text.len() - i,
    when 0 <= i <= text.len()
    via parts_from_decreases
{
    let end = next_sep(text, seps, i);
    if end < text.len() {
        seq![text.subrange(i, end)] + parts_from(text, seps, end + 1)
    } else {
        seq![text.subrange(i, text.len() as int)]
    }
}

#[via_fn]
proof fn parts_from_decreases(text: Seq<char>, seps: Seq<char>, i: int) {
    lemma_next_sep(text, seps, i);
}

/// The parts of a text between separators.
pub open spec fn parts(text: Seq<char>, seps: Seq<char>) -> Seq<Seq<char>> {
    parts_from(text, seps, 0)
}

/// The views of some parts.
pub open spec fn part_views(list: Seq<Vec<char>>) -> Seq<Seq<char>> {
    list.map_values(|p: Vec<char>| p@)
}

fn copied(chars: &[char]) -> (out: Vec<char>)
    ensures
        out@ == chars@,
{
    let mut out: Vec<char> = Vec::new();
    let mut i: usize = 0;
    while i < chars.len()
        invariant
            i <= chars@.len(),
            out@ == chars@.take(i as int),
        decreases chars@.len() - i,
    {
        out.push(chars[i]);
        assert(chars@.take(i as int).push(chars@[i as int]) =~= chars@.take(i + 1));
        i = i + 1;
    }
    assert(chars@.take(i as int) =~= chars@);
    out
}

fn holds_char(seps: &[char], c: char) -> (r: bool)
    ensures
        r == seps@.contains(c),
{
    let mut i: usize = 0;
    while i < seps.len()
        invariant
            i <= seps@.len(),
            forall|k: int| 0 <= k < i ==> seps@[k] != c,
        decreases seps@.len() - i,
    {
        if seps[i] == c {
            assert(seps@[i as int] == c);
            return true;
        }
        i = i + 1;
    }
    false
}

/// The parts of a text between separators.
pub fn split(text: &[char], seps: &[char]) -> (out: Vec<Vec<char>>)
    ensures
        part_views(out@) == parts(text@, seps@),
{
    let mut out: Vec<Vec<char>> = Vec::new();
    let n: usize = text.len();
    let mut from: usize = 0;
    let mut i: usize = 0;
    assert(part_views(out@) + parts_from(text@, seps@, 0) =~= parts(text@, seps@));
    while i < n
        invariant
            n == text@.len(),
            from <= i <= n,
            next_sep(text@, seps@, from as int) == next_sep(text@, seps@, i as int),
            part_views(out@) + parts_from(text@, seps@, from as int) == parts(text@, seps@),
        decreases n - i,
    {
        if holds_char(seps, text[i]) {
            let ghost before = part_views(out@);
            let part = copied(&text[from..i]);
            let ghost rest = parts_from(text@, seps@, i + 1);
            out.push(part);
            proof {
                assert(part_views(out@) =~= before.push(text@.subrange(from as int, i as int)));
                assert(before + (seq![text@.subrange(from as int, i as int)] + rest)
                    =~= part_views(out@) + rest);
            }
            from = i + 1;
        }
        i = i + 1;
    }
    let ghost before = part_views(out@);
    let part = copied(&text[from..n]);
    out.push(part);
    proof {
        assert(part_views(out@) =~= before + seq![text@.subrange(from as int, n as int)]);
    }
    out
}

/// Where the text starts behind leading white space, from `i` on.
pub open spec fn trim_start(text: Seq<char>, i: int) -> int
    decreases text.len() - i,
{
    if 0 <= i < text.len() && whitespace(text[i]) {
        trim_start(text, i + 1)
    } else {
        i
    }
}

/// Where the text ends before trailing white space, from `i` back to `low`.
pub open spec fn trim_end(text: Seq<char>, low: int, i: int) -> int
    decreases i,
{
    if low < i <= text.len() && 0 <= low && whitespace(text[i - 1]) {
        trim_end(text, low, i - 1)
    } else {
        i
    }
}

/// The text without white space around it.
pub open spec fn trimmed(text: Seq<char>) -> Seq<char> {
    let from = trim_start(text, 0);
    text.subrange(from, trim_end(text, from, text.len() as int))
}

/// The text without white space around it.
pub fn trim(text: &[char]) -> (out: Vec<char>)
    ensures
        out@ == trimmed(text@),
{
    let n: usize = text.len();
    let mut from: usize = 0;
    while from < n && text[from].is_whitespace()
        invariant
            n == text@.len(),
            from <= n,
            trim_start(text@, 0) == trim_start(text@, from as int),
        decreases n - from,
    {
        from = from + 1;
    }
    let mut to: usize = n;
    while to > from && text[to - 1].is_whitespace()
        invariant
            n == text@.len(),
            from <= to <= n,
            trim_end(text@, from as int, n as int) == trim_end(text@, from as int, to as int),
        decreases to,
    {
        to = to - 1;
    }
    copied(&text[from..to])
}

/// The words of a text from `i` on: its runs without white space.
pub open spec fn words_from(text: Seq<char>, i: int) -> Seq<Seq<char>>
    decreases text.len() - i,
    when 0 <= i <= text.len()
    via words_from_decreases
{
    let start = trim_start(text, i);
    if start >= text.len() {
        Seq::empty()
    } else {
        let end = ink_end(text, start);
        seq![text.subrange(start, end)] + words_from(text, end)
    }
}

/// Where the run without white space that holds `i` ends.
pub open spec fn ink_end(text: Seq<char>, i: int) -> int
    decreases text.len() - i,
{
    if 0 <= i < text.len() && !whitespace(text[i]) {
        ink_end(text, i + 1)
    } else {
        i
    }
}

proof fn lemma_word_bounds(text: Seq<char>, i: int)
    requires
        0 <= i <= text.len(),
    ensures
        i <= trim_start(text, i) <= text.len(),
        i <= ink_end(text, i) <= text.len(),
        i < text.len() && !whitespace(text[i]) ==> i < ink_end(text, i),
        trim_start(text, i) < text.len() ==> !whitespace(text[trim_start(text, i)]),
    decreases text.len() - i,
{
    if i < text.len() {
        lemma_word_bounds(text, i + 1);
    }
}

#[via_fn]
proof fn words_from_decreases(text: Seq<char>, i: int) {
    lemma_word_bounds(text, i);
    if trim_start(text, i) < text.len() {
        lemma_word_bounds(text, trim_start(text, i));
    }
}

/// The words of a text: its runs without white space.
pub fn words(text: &[char]) -> (out: Vec<Vec<char>>)
    ensures
        part_views(out@) == words_from(text@, 0),
{
    let mut out: Vec<Vec<char>> = Vec::new();
    let n: usize = text.len();
    let mut i: usize = 0;
    assert(part_views(out@) + words_from(text@, 0) =~= words_from(text@, 0));
    while i < n
        invariant
            n == text@.len(),
            i <= n,
            part_views(out@) + words_from(text@, i as int) == words_from(text@, 0),
        decreases n - i,
    {
        let mut start: usize = i;
        while start < n && text[start].is_whitespace()
            invariant
                n == text@.len(),
                i <= start <= n,
                trim_start(text@, i as int) == trim_start(text@, start as int),
            decreases n - start,
        {
            start = start + 1;
        }
        if start == n {
            assert(words_from(text@, i as int) =~= Seq::<Seq<char>>::empty());
            assert(part_views(out@) + words_from(text@, i as int) =~= part_views(out@));
            return out;
        }
        let mut end: usize = start;
        while end < n && !text[end].is_whitespace()
            invariant
                n == text@.len(),
                start <= end <= n,
                ink_end(text@, start as int) == ink_end(text@, end as int),
            decreases n - end,
        {
            end = end + 1;
        }
        proof {
            lemma_word_bounds(text@, start as int);
        }
        let ghost before = part_views(out@);
        let ghost rest = words_from(text@, end as int);
        let word = copied(&text[start..end]);
        out.push(word);
        proof {
            assert(part_views(out@) =~= before.push(text@.subrange(start as int, end as int)));
            assert(before + (seq![text@.subrange(start as int, end as int)] + rest)
                =~= part_views(out@) + rest);
        }
        i = end;
    }
    assert(words_from(text@, n as int) =~= Seq::<Seq<char>>::empty());
    assert(part_views(out@) + words_from(text@, n as int) =~= part_views(out@));
    out
}

// ---------------------------------------------------------------------------
// Numbers
// ---------------------------------------------------------------------------
/// The value of a digit.
pub open spec fn digit(c: char, radix: int) -> Option<int> {
    let v = if '0' <= c && c <= '9' {
        c as int - '0' as int
    } else if 'a' <= c && c <= 'z' {
        c as int - 'a' as int + 10
    } else if 'A' <= c && c <= 'Z' {
        c as int - 'A' as int + 10
    } else {
        99
    };
    if v < radix {
        Some(v)
    } else {
        None
    }
}

/// The number that the digits of `text` spell.
pub open spec fn digits_value(text: Seq<char>, radix: int) -> Option<int>
    decreases text.len(),
{
    if text.len() == 0 {
        Some(0)
    } else {
        match (digits_value(text.drop_last(), radix), digit(text.last(), radix)) {
            (Some(head), Some(d)) => Some(head * radix + d),
            _ => None,
        }
    }
}

/// The number of at most `max` that a text spells: digits, with an optional plus
/// before them.
pub open spec fn number(text: Seq<char>, radix: int, max: int) -> Option<int> {
    let digits = if text.len() > 0 && text[0] == '+' {
        text.skip(1)
    } else {
        text
    };
    match digits_value(digits, radix) {
        Some(v) if digits.len() > 0 && v <= max => Some(v),
        _ => None,
    }
}

fn digit_of(c: char, radix: u64) -> (d: Option<u64>)
    requires
        2 <= radix <= 36,
    ensures
        match d {
            Some(v) => digit(c, radix as int) == Some(v as int) && v < radix,
            None => digit(c, radix as int) is None,
        },
{
    let code: u64 = c as u64;
    let v: u64 = if '0' <= c && c <= '9' {
        code - 48
    } else if 'a' <= c && c <= 'z' {
        code - 97 + 10
    } else if 'A' <= c && c <= 'Z' {
        code - 65 + 10
    } else {
        99
    };
    if v < radix {
        Some(v)
    } else {
        None
    }
}

proof fn lemma_value_grows(text: Seq<char>, radix: int, k: int)
    requires
        0 <= k <= text.len(),
        2 <= radix,
        digits_value(text, radix) is Some,
    ensures
        digits_value(text.take(k), radix) is Some,
        0 <= digits_value(text.take(k), radix)->0 <= digits_value(text, radix)->0,
    decreases text.len(),
{
    if k < text.len() {
        lemma_value_grows(text.drop_last(), radix, k);
        assert(text.drop_last().take(k) =~= text.take(k));
        let head = digits_value(text.drop_last(), radix)->0;
        let d = digit(text.last(), radix)->0;
        assert(0 <= head);
        assert(head <= head * radix) by (nonlinear_arith)
            requires
                0 <= head,
                2 <= radix,
        {}
    } else {
        assert(text.take(k) =~= text);
        if text.len() > 0 {
            lemma_value_grows(text.drop_last(), radix, text.len() - 1);
            assert(text.drop_last().take(text.len() - 1) =~= text.drop_last());
            let head = digits_value(text.drop_last(), radix)->0;
            assert(0 <= head * radix) by (nonlinear_arith)
                requires
                    0 <= head,
                    2 <= radix,
            {}
        }
    }
}

proof fn lemma_value_unspelled(text: Seq<char>, radix: int, k: int)
    requires
        0 <= k <= text.len(),
        digits_value(text.take(k), radix) is None,
    ensures
        digits_value(text, radix) is None,
    decreases text.len() - k,
{
    if k < text.len() {
        assert(text.take(k + 1).drop_last() =~= text.take(k));
        lemma_value_unspelled(text, radix, k + 1);
    } else {
        assert(text.take(k) =~= text);
    }
}

/// Reads a number of at most `max`.
pub fn parse(text: &[char], radix: u64, max: u64) -> (r: Option<u64>)
    requires
        2 <= radix <= 36,
    ensures
        match r {
            Some(v) => number(text@, radix as int, max as int) == Some(v as int),
            None => number(text@, radix as int, max as int) is None,
        },
{
    let start: usize = if text.len() > 0 && text[0] == '+' {
        1
    } else {
        0
    };
    let digits: &[char] = &text[start..text.len()];
    proof {
        if start == 1 {
            assert(digits@ =~= text@.skip(1));
        } else {
            assert(digits@ =~= text@);
        }
    }
    if digits.len() == 0 {
        return None;
    }
    let mut value: u64 = 0;
    let mut i: usize = 0;
    assert(digits@.take(0) =~= Seq::<char>::empty());
    while i < digits.len()
        invariant
            2 <= radix <= 36,
            i <= digits@.len(),
            digits@.len() > 0,
            value <= max,
            digits_value(digits@.take(i as int), radix as int) == Some(value as int),
            digits@ == (if text@.len() > 0 && text@[0] == '+' {
                text@.skip(1)
            } else {
                text@
            }),
        decreases digits@.len() - i,
    {
        proof {
            assert(digits@.take(i + 1).drop_last() =~= digits@.take(i as int));
            assert(digits@.take(i + 1).last() == digits@[i as int]);
        }
        match digit_of(digits[i], radix) {
            None => {
                proof {
                    lemma_value_unspelled(digits@, radix as int, i + 1);
                }
                return None;
            },
            Some(d) => {
                let ghost whole = value * radix + d;
                assert(digits_value(digits@.take(i + 1), radix as int) == Some(whole));
                if d > max || value > (max - d) / radix {
                    proof {
                        if digits_value(digits@, radix as int) is Some {
                            lemma_value_grows(digits@, radix as int, i + 1);
                            lemma_too_large(value as int, radix as int, d as int, max as int);
                        }
                    }
                    return None;
                }
                proof {
                    lemma_small_enough(value as int, radix as int, d as int, max as int);
                }
                value = value * radix + d;
            },
        }
        i = i + 1;
    }
    assert(digits@.take(i as int) =~= digits@);
    Some(value)
}

proof fn lemma_too_large(value: int, radix: int, d: int, max: int)
    requires
        2 <= radix,
        0 <= value,
        0 <= d,
        d > max || value > (max - d) / radix,
    ensures
        value * radix + d > max,
{
    if d > max {
        assert(value * radix >= 0) by (nonlinear_arith)
            requires
                0 <= value,
                2 <= radix,
        {}
    } else {
        let q = (max - d) / radix;
        assert(value * radix > max - d) by (nonlinear_arith)
            requires
                2 <= radix,
                0 <= max - d,
                q == (max - d) / radix,
                value >= q + 1,
        {}
    }
}

proof fn lemma_small_enough(value: int, radix: int, d: int, max: int)
    requires
        2 <= radix,
        0 <= value,
        0 <= d <= max,
        value <= (max - d) / radix,
    ensures
        value * radix + d <= max,
        0 <= value * radix,
{
    let q = (max - d) / radix;
    assert(value * radix <= max - d && 0 <= value * radix) by (nonlinear_arith)
        requires
            2 <= radix,
            0 <= max - d,
            q == (max - d) / radix,
            0 <= value <= q,
    {}
}

/// The hexadecimal digit of a value.
pub open spec fn hex_digit(v: int) -> char {
    if v < 10 {
        ((48 + v) as u32) as char
    } else {
        ((87 + v) as u32) as char
    }
}

/// A number in hexadecimal, without leading zeros.
pub open spec fn hex(n: int) -> Seq<char>
    decreases n,
{
    if n < 16 {
        seq![hex_digit(n)]
    } else {
        hex(n / 16).push(hex_digit(n % 16))
    }
}

/// A number in hexadecimal, of at least `width` digits.
pub open spec fn hex_padded(n: int, width: int) -> Seq<char> {
    let digits = hex(n);
    if digits.len() < width {
        Seq::new((width - digits.len()) as nat, |i: int| '0') + digits
    } else {
        digits
    }
}

fn hex_char(v: u64) -> (c: char)
    requires
        v < 16,
    ensures
        c == hex_digit(v as int),
{
    match v {
        0 => '0',
        1 => '1',
        2 => '2',
        3 => '3',
        4 => '4',
        5 => '5',
        6 => '6',
        7 => '7',
        8 => '8',
        9 => '9',
        10 => 'a',
        11 => 'b',
        12 => 'c',
        13 => 'd',
        14 => 'e',
        _ => 'f',
    }
}

/// A number in hexadecimal, of at least `width` digits.
pub fn to_hex(n: u64, width: usize) -> (out: Vec<char>)
    requires
        width <= 32,
    ensures
        out@ == hex_padded(n as int, width as int),
{
    let mut out: Vec<char> = Vec::new();
    let mut rest: u64 = n;
    let ghost goal = hex(n as int);
    assert(hex(rest as int) + out@ =~= goal);
    while rest >= 16
        invariant
            hex(rest as int) + out@ == goal,
        decreases rest,
    {
        let ghost before = out@;
        let c = hex_char(rest % 16);
        out.insert(0, c);
        proof {
            let head = hex((rest / 16) as int);
            assert(hex(rest as int) == head.push(c));
            assert(head + out@ =~= head.push(c) + before);
        }
        rest = rest / 16;
    }
    let c = hex_char(rest);
    let ghost before = out@;
    out.insert(0, c);
    assert(out@ =~= seq![c] + before);
    let ghost digits = out@;
    while out.len() < width
        invariant
            width <= 32,
            digits == goal,
            out@.len() >= digits.len(),
            out@.len() <= width || out@ == digits,
            out@ == Seq::new((out@.len() - digits.len()) as nat, |i: int| '0') + digits,
        decreases width - out@.len(),
    {
        let ghost held = out@;
        out.insert(0, '0');
        assert(out@ =~= Seq::new((out@.len() - digits.len()) as nat, |i: int| '0') + digits);
    }
    assert(out@ =~= hex_padded(n as int, width as int));
    out
}

proof fn lemma_hex_digit(v: int)
    requires
        0 <= v < 16,
    ensures
        digit(hex_digit(v), 16) == Some(v),
        hex_digit(v) != '.',
        hex_digit(v) != '+',
        hex_digit(v) != ' ',
{
}

/// Hexadecimal digits are read back as their number, and hold no dot, plus or
/// space.
pub proof fn law_hex_reads_back(n: int)
    requires
        0 <= n,
    ensures
        digits_value(hex(n), 16) == Some(n),
        hex(n).len() > 0,
        forall|i: int|
            0 <= i < hex(n).len() ==> #[trigger] hex(n)[i] != '.' && hex(n)[i] != '+' && hex(n)[i]
                != ' ',
    decreases n,
{
    reveal_with_fuel(digits_value, 2);
    if n < 16 {
        lemma_hex_digit(n);
        assert(seq![hex_digit(n)].drop_last() =~= Seq::<char>::empty());
    } else {
        law_hex_reads_back(n / 16);
        lemma_hex_digit(n % 16);
        let head = hex(n / 16);
        assert(hex(n).drop_last() =~= head);
        assert(n == (n / 16) * 16 + n % 16);
        assert forall|i: int| 0 <= i < hex(n).len() implies #[trigger] hex(n)[i] != '.' && hex(n)[i]
            != '+' && hex(n)[i] != ' ' by {
            if i < head.len() {
                assert(hex(n)[i] == head[i]);
            }
        }
    }
}

/// Leading zeros do not change the number.
pub proof fn law_padded_hex_reads_back(n: int, width: int)
    requires
        0 <= n,
    ensures
        digits_value(hex_padded(n, width), 16) == Some(n),
        hex_padded(n, width).len() > 0,
        forall|i: int|
            0 <= i < hex_padded(n, width).len() ==> #[trigger] hex_padded(n, width)[i] != '.'
                && hex_padded(n, width)[i] != '+' && hex_padded(n, width)[i] != ' ',
{
    law_hex_reads_back(n);
    let digits = hex(n);
    if digits.len() < width {
        let zeros = Seq::new((width - digits.len()) as nat, |i: int| '0');
        lemma_zeros(zeros.len(), digits);
        assert(zeros =~= Seq::new(zeros.len(), |i: int| '0'));
    }
}

proof fn lemma_zeros(k: nat, digits: Seq<char>)
    requires
        digits_value(digits, 16) is Some,
    ensures
        digits_value(Seq::new(k, |i: int| '0') + digits, 16) == digits_value(digits, 16),
    decreases digits.len(), k,
{
    let zeros = Seq::new(k, |i: int| '0');
    if digits.len() == 0 {
        assert(zeros + digits =~= zeros);
        if k > 0 {
            lemma_zeros((k - 1) as nat, digits);
            let fewer = Seq::new((k - 1) as nat, |i: int| '0');
            assert(fewer + digits =~= fewer);
            assert(zeros.drop_last() =~= fewer);
        } else {
            assert(zeros =~= digits);
        }
    } else {
        lemma_zeros(k, digits.drop_last());
        assert((zeros + digits).drop_last() =~= zeros + digits.drop_last());
    }
}

} // verus!
