//! Characters, their UTF-8 and UTF-16 sizes, and conversions between `&str`
//! and character sequences.

use vstd::prelude::*;
use vstd::utf8::*;

verus! {

broadcast use vstd::string::group_string_axioms;

/// What `char::is_alphabetic` answers outside ASCII: the Unicode `Alphabetic`
/// property.
pub uninterp spec fn alphabetic_property(c: char) -> bool;

/// What `char::is_lowercase` answers outside ASCII: the Unicode `Lowercase`
/// property.
pub uninterp spec fn lowercase_property(c: char) -> bool;

/// What `char::is_uppercase` answers outside ASCII: the Unicode `Uppercase`
/// property.
pub uninterp spec fn uppercase_property(c: char) -> bool;

/// What `char::is_numeric` answers outside ASCII: one of the Unicode number
/// categories.
pub uninterp spec fn number_category(c: char) -> bool;

/// What `char::to_lowercase` yields outside ASCII: the lower-case form, one or
/// more characters.
pub uninterp spec fn lower_mapping(c: char) -> Seq<char>;

/// What `str::to_lowercase` yields for a text that is not all ASCII.
pub uninterp spec fn lower_text_mapping(s: Seq<char>) -> Seq<char>;

/// What `str::to_uppercase` yields for a text that is not all ASCII.
pub uninterp spec fn upper_text_mapping(s: Seq<char>) -> Seq<char>;

/// An ASCII character.
pub open spec fn ascii(c: char) -> bool {
    (c as u32) < 0x80
}

/// A text of ASCII characters.
pub open spec fn all_ascii(s: Seq<char>) -> bool {
    forall|i: int| 0 <= i < s.len() ==> ascii(#[trigger] s[i])
}

/// The character has the Unicode `Alphabetic` property.
pub open spec fn alphabetic(c: char) -> bool {
    if ascii(c) {
        'a' <= c <= 'z' || 'A' <= c <= 'Z'
    } else {
        alphabetic_property(c)
    }
}

/// The character has the Unicode `Lowercase` property.
pub open spec fn lowercase(c: char) -> bool {
    if ascii(c) {
        'a' <= c <= 'z'
    } else {
        lowercase_property(c)
    }
}

/// The character has the Unicode `Uppercase` property.
pub open spec fn uppercase(c: char) -> bool {
    if ascii(c) {
        'A' <= c <= 'Z'
    } else {
        uppercase_property(c)
    }
}

/// The character is of one of the Unicode number categories.
pub open spec fn numeric(c: char) -> bool {
    if ascii(c) {
        '0' <= c <= '9'
    } else {
        number_category(c)
    }
}

/// The character has the Unicode `White_Space` property.
pub open spec fn whitespace(c: char) -> bool {
    ||| '\t' <= c <= '\r'
    ||| c == ' '
    ||| c == '\u{85}'
    ||| c == '\u{A0}'
    ||| c == '\u{1680}'
    ||| '\u{2000}' <= c <= '\u{200A}'
    ||| c == '\u{2028}'
    ||| c == '\u{2029}'
    ||| c == '\u{202F}'
    ||| c == '\u{205F}'
    ||| c == '\u{3000}'
}

/// The lower-case form of a character.
pub open spec fn lower_form(c: char) -> Seq<char> {
    if ascii(c) {
        seq![ascii_lower(c)]
    } else {
        lower_mapping(c)
    }
}

/// A text in lower case.
pub open spec fn lower_text(s: Seq<char>) -> Seq<char> {
    if all_ascii(s) {
        ascii_lower_all(s)
    } else {
        lower_text_mapping(s)
    }
}

/// A text in upper case.
pub open spec fn upper_text(s: Seq<char>) -> Seq<char> {
    if all_ascii(s) {
        ascii_upper_all(s)
    } else {
        upper_text_mapping(s)
    }
}

/// `char::is_alphabetic`: the letters of ASCII, and elsewhere what depends on
/// the character alone.
pub assume_specification[ char::is_alphabetic ](c: char) -> (r: bool)
    ensures
        ascii(c) ==> r == ('a' <= c <= 'z' || 'A' <= c <= 'Z'),
        !ascii(c) ==> r == alphabetic_property(c),
;

/// `char::is_lowercase`: the small letters of ASCII, and elsewhere what depends
/// on the character alone.
pub assume_specification[ char::is_lowercase ](c: char) -> (r: bool)
    ensures
        ascii(c) ==> r == ('a' <= c <= 'z'),
        !ascii(c) ==> r == lowercase_property(c),
;

/// `char::is_uppercase`: the capital letters of ASCII, and elsewhere what depends
/// on the character alone.
pub assume_specification[ char::is_uppercase ](c: char) -> (r: bool)
    ensures
        ascii(c) ==> r == ('A' <= c <= 'Z'),
        !ascii(c) ==> r == uppercase_property(c),
;

/// `char::is_numeric`: the digits of ASCII, and elsewhere what depends on the
/// character alone.
pub assume_specification[ char::is_numeric ](c: char) -> (r: bool)
    ensures
        ascii(c) ==> r == ('0' <= c <= '9'),
        !ascii(c) ==> r == number_category(c),
;

/// `char::is_whitespace`: the Unicode `White_Space` property.
pub assume_specification[ char::is_whitespace ](c: char) -> (r: bool)
    ensures
        r == whitespace(c),
;

/// A Unicode scalar value: a code point that is not a surrogate.
pub open spec fn scalar_value(code: u32) -> bool {
    code < 0xD800 || 0xE000 <= code <= 0x10FFFF
}

/// `char::from_u32` yields the character of every Unicode scalar value, and
/// nothing for any other number.
pub assume_specification[ char::from_u32 ](code: u32) -> (c: Option<char>)
    ensures
        match c {
            Some(c) => scalar_value(code) && c as u32 == code,
            None => !scalar_value(code),
        },
;

/// `String::push` appends one character.
pub assume_specification[ String::push ](s: &mut String, c: char)
    ensures
        final(s)@ == old(s)@.push(c),
;

/// The bytes that the UTF-8 encoding of `c` takes.
pub open spec fn utf8_len(c: char) -> nat {
    encode_scalar(c as u32).len()
}

/// The bytes that the UTF-8 encoding of `s` takes.
pub open spec fn byte_len(s: Seq<char>) -> nat {
    encode_utf8(s).len()
}

/// The UTF-16 units that `c` takes.
pub open spec fn utf16_units(c: char) -> nat {
    if (c as u32) < 0x10000 {
        1
    } else {
        2
    }
}

/// The UTF-16 units that `s` takes.
pub open spec fn utf16_len(s: Seq<char>) -> nat
    decreases s.len(),
{
    if s.len() == 0 {
        0
    } else {
        utf16_len(s.drop_last()) + utf16_units(s.last())
    }
}

/// Encoding distributes over concatenation.
pub proof fn lemma_encode_concat(a: Seq<char>, b: Seq<char>)
    ensures
        encode_utf8(a + b) == encode_utf8(a) + encode_utf8(b),
    decreases a.len(),
{
    if a.len() == 0 {
        assert(a + b =~= b);
        assert(encode_utf8(a) + encode_utf8(b) =~= encode_utf8(b));
    } else {
        lemma_encode_concat(a.drop_first(), b);
        assert((a + b).drop_first() =~= a.drop_first() + b);
        assert((a + b)[0] == a[0]);
        assert(encode_utf8(a + b) =~= encode_scalar(a[0] as u32) + (encode_utf8(a.drop_first())
            + encode_utf8(b)));
        assert(encode_utf8(a) + encode_utf8(b) =~= encode_scalar(a[0] as u32) + (encode_utf8(
            a.drop_first(),
        ) + encode_utf8(b)));
    }
}

/// One more character adds its own bytes.
pub proof fn lemma_encode_push(a: Seq<char>, c: char)
    ensures
        encode_utf8(a.push(c)) == encode_utf8(a) + encode_scalar(c as u32),
        byte_len(a.push(c)) == byte_len(a) + utf8_len(c),
        1 <= utf8_len(c) <= 4,
{
    reveal_with_fuel(encode_utf8, 2);
    assert(a.push(c) =~= a + seq![c]);
    lemma_encode_concat(a, seq![c]);
    assert(seq![c].drop_first() =~= Seq::<char>::empty());
    assert(encode_utf8(seq![c]) =~= encode_scalar(c as u32));
}

/// A prefix takes no more bytes than the whole, and strictly fewer when it is
/// shorter.
pub proof fn lemma_byte_len_prefix(s: Seq<char>, k: int)
    requires
        0 <= k <= s.len(),
    ensures
        byte_len(s.take(k)) + byte_len(s.skip(k)) == byte_len(s),
        k <= byte_len(s.take(k)),
        byte_len(s.take(k)) <= byte_len(s),
    decreases k,
{
    assert(s.take(k) + s.skip(k) =~= s);
    lemma_encode_concat(s.take(k), s.skip(k));
    if k > 0 {
        lemma_byte_len_prefix(s, k - 1);
        lemma_encode_push(s.take(k - 1), s[k - 1]);
        assert(s.take(k - 1).push(s[k - 1]) =~= s.take(k));
    }
}

/// Byte offsets grow strictly with character positions.
pub proof fn lemma_byte_len_monotone(s: Seq<char>, j: int, k: int)
    requires
        0 <= j < k <= s.len(),
    ensures
        byte_len(s.take(j)) < byte_len(s.take(k)),
    decreases k - j,
{
    lemma_encode_push(s.take(k - 1), s[k - 1]);
    assert(s.take(k - 1).push(s[k - 1]) =~= s.take(k));
    if j < k - 1 {
        lemma_byte_len_monotone(s, j, k - 1);
    }
}

/// Two texts with the same bytes are the same text.
pub proof fn lemma_encode_injective(a: Seq<char>, b: Seq<char>)
    requires
        encode_utf8(a) == encode_utf8(b),
    ensures
        a == b,
{
    encode_utf8_decode_utf8(a);
    encode_utf8_decode_utf8(b);
}

/// UTF-16 sizes add up.
pub proof fn lemma_utf16_push(s: Seq<char>, c: char)
    ensures
        utf16_len(s.push(c)) == utf16_len(s) + utf16_units(c),
{
    assert(s.push(c).drop_last() =~= s);
}

/// A text takes at most two UTF-16 units per character, and at least one.
pub proof fn lemma_utf16_bound(s: Seq<char>)
    ensures
        s.len() <= utf16_len(s) <= 2 * s.len(),
    decreases s.len(),
{
    if s.len() > 0 {
        lemma_utf16_bound(s.drop_last());
    }
}

/// A text takes no more UTF-16 units than bytes.
pub proof fn lemma_utf16_within_bytes(s: Seq<char>)
    ensures
        utf16_len(s) <= byte_len(s),
    decreases s.len(),
{
    if s.len() > 0 {
        lemma_utf16_within_bytes(s.drop_last());
        lemma_encode_push(s.drop_last(), s.last());
        assert(s.drop_last().push(s.last()) =~= s);
    }
}

/// The UTF-8 size of a character.
pub fn char_utf8_len(c: char) -> (n: usize)
    ensures
        n == utf8_len(c),
        1 <= n <= 4,
{
    let v: u32 = c as u32;
    if v < 0x80 {
        1
    } else if v < 0x800 {
        2
    } else if v < 0x10000 {
        3
    } else {
        4
    }
}

/// The UTF-16 size of a character.
pub fn char_utf16_len(c: char) -> (n: usize)
    ensures
        n == utf16_units(c),
        1 <= n <= 2,
{
    if (c as u32) < 0x10000 {
        1
    } else {
        2
    }
}

/// The characters of a text.
pub fn chars_of(text: &str) -> (chars: Vec<char>)
    ensures
        chars@ == text@,
        byte_len(chars@) <= usize::MAX,
{
    let bytes = text.as_bytes();
    let total: usize = bytes.len();
    assert(total == byte_len(text@));
    let mut chars: Vec<char> = Vec::new();
    for c in it: text.chars()
        invariant
            it.seq() == text@,
            chars@ == text@.take(it.index() as int),
    {
        chars.push(c);
        assert(text@.take(it.index() as int).push(c) =~= text@.take(it.index() + 1));
    }
    assert(text@.take(text@.len() as int) =~= text@);
    chars
}

/// The text made of `chars`.
pub fn string_of(chars: &[char]) -> (text: String)
    ensures
        text@ == chars@,
{
    let mut text = String::new();
    let mut i: usize = 0;
    while i < chars.len()
        invariant
            i <= chars@.len(),
            text@ == chars@.take(i as int),
        decreases chars@.len() - i,
    {
        text.push(chars[i]);
        assert(chars@.take(i as int).push(chars@[i as int]) =~= chars@.take(i + 1));
        i = i + 1;
    }
    assert(chars@.take(i as int) =~= chars@);
    text
}

/// Byte offset of every character position of `chars`, the end included.
pub fn byte_offsets(chars: &[char]) -> (offsets: Vec<usize>)
    requires
        byte_len(chars@) <= usize::MAX,
    ensures
        offsets@.len() == chars@.len() + 1,
        forall|k: int|
            0 <= k <= chars@.len() ==> #[trigger] offsets@[k] == byte_len(chars@.take(k)),
{
    let mut offsets: Vec<usize> = Vec::new();
    let mut at: usize = 0;
    let mut i: usize = 0;
    assert(chars@.take(0) =~= Seq::<char>::empty());
    offsets.push(0);
    while i < chars.len()
        invariant
            i <= chars@.len(),
            byte_len(chars@) <= usize::MAX,
            at == byte_len(chars@.take(i as int)),
            offsets@.len() == i + 1,
            forall|k: int| 0 <= k <= i ==> #[trigger] offsets@[k] == byte_len(chars@.take(k)),
        decreases chars@.len() - i,
    {
        proof {
            lemma_byte_len_prefix(chars@, i + 1);
            lemma_encode_push(chars@.take(i as int), chars@[i as int]);
            assert(chars@.take(i as int).push(chars@[i as int]) =~= chars@.take(i + 1));
        }
        at = at + char_utf8_len(chars[i]);
        offsets.push(at);
        i = i + 1;
    }
    offsets
}

/// Whether two texts are the same.
pub fn same_text(a: &str, b: &str) -> (r: bool)
    ensures
        r == (a@ == b@),
{
    let x = a.as_bytes();
    let y = b.as_bytes();
    if x.len() != y.len() {
        return false;
    }
    let mut i: usize = 0;
    while i < x.len()
        invariant
            x@ == encode_utf8(a@),
            y@ == encode_utf8(b@),
            x@.len() == y@.len(),
            i <= x@.len(),
            x@.take(i as int) == y@.take(i as int),
        decreases x@.len() - i,
    {
        if x[i] != y[i] {
            return false;
        }
        assert(x@.take(i + 1) =~= x@.take(i as int).push(x@[i as int]));
        assert(y@.take(i + 1) =~= y@.take(i as int).push(y@[i as int]));
        i = i + 1;
    }
    proof {
        assert(x@.take(i as int) =~= x@);
        assert(y@.take(i as int) =~= y@);
        lemma_encode_injective(a@, b@);
    }
    true
}

/// Whether two character sequences are the same.
pub fn same_chars(a: &[char], b: &[char]) -> (r: bool)
    ensures
        r == (a@ == b@),
{
    if a.len() != b.len() {
        return false;
    }
    let mut i: usize = 0;
    while i < a.len()
        invariant
            a@.len() == b@.len(),
            i <= a@.len(),
            forall|k: int| 0 <= k < i ==> a@[k] == b@[k],
        decreases a@.len() - i,
    {
        if a[i] != b[i] {
            return false;
        }
        i = i + 1;
    }
    assert(a@ =~= b@);
    true
}

/// The UTF-16 size of `chars`.
pub fn utf16_size(chars: &[char]) -> (n: usize)
    requires
        byte_len(chars@) <= usize::MAX,
    ensures
        n == utf16_len(chars@),
{
    let mut n: usize = 0;
    let mut i: usize = 0;
    assert(chars@.take(0) =~= Seq::<char>::empty());
    while i < chars.len()
        invariant
            i <= chars@.len(),
            byte_len(chars@) <= usize::MAX,
            n == utf16_len(chars@.take(i as int)),
        decreases chars@.len() - i,
    {
        proof {
            lemma_byte_len_prefix(chars@, i + 1);
            lemma_utf16_within_bytes(chars@.take(i + 1));
            lemma_utf16_push(chars@.take(i as int), chars@[i as int]);
            assert(chars@.take(i as int).push(chars@[i as int]) =~= chars@.take(i + 1));
        }
        n = n + char_utf16_len(chars[i]);
        i = i + 1;
    }
    assert(chars@.take(i as int) =~= chars@);
    n
}

/// The lower-case form of an ASCII letter; any other character as it is.
pub open spec fn ascii_lower(c: char) -> char {
    if 'A' <= c && c <= 'Z' {
        ((c as u32 + 32) as u32) as char
    } else {
        c
    }
}

/// ASCII lower-casing of one character.
pub fn to_ascii_lower(c: char) -> (r: char)
    ensures
        r == ascii_lower(c),
{
    if 'A' <= c && c <= 'Z' {
        let b: u8 = c as u8;
        (b + 32) as char
    } else {
        c
    }
}

/// Every ASCII letter of `s` in lower case.
pub open spec fn ascii_lower_all(s: Seq<char>) -> Seq<char> {
    s.map_values(|c: char| ascii_lower(c))
}

/// The upper-case form of an ASCII letter; any other character as it is.
pub open spec fn ascii_upper(c: char) -> char {
    if 'a' <= c && c <= 'z' {
        ((c as u32 - 32) as u32) as char
    } else {
        c
    }
}

/// Every ASCII letter of `s` in upper case.
pub open spec fn ascii_upper_all(s: Seq<char>) -> Seq<char> {
    s.map_values(|c: char| ascii_upper(c))
}

/// ASCII lower-casing of a text.
pub fn lower_chars(chars: &[char]) -> (r: Vec<char>)
    ensures
        r@ == ascii_lower_all(chars@),
{
    let mut r: Vec<char> = Vec::new();
    let mut i: usize = 0;
    while i < chars.len()
        invariant
            i <= chars@.len(),
            r@.len() == i,
            forall|k: int| 0 <= k < i ==> r@[k] == ascii_lower(chars@[k]),
        decreases chars@.len() - i,
    {
        r.push(to_ascii_lower(chars[i]));
        i = i + 1;
    }
    assert(r@ =~= ascii_lower_all(chars@));
    r
}

/// `String::from_utf8`: a text made of the bytes when they are valid UTF-8, and
/// nothing otherwise.
#[verifier::external_body]
pub(crate) fn text_from_utf8(bytes: Vec<u8>) -> (text: Option<String>)
    ensures
        match text {
            Some(s) => encode_utf8(s@) == bytes@,
            None => !valid_utf8(bytes@),
        },
{
    String::from_utf8(bytes).ok()
}

/// `std::str::from_utf8`: the text that the bytes encode when they are valid
/// UTF-8, and nothing otherwise.
#[verifier::external_body]
pub(crate) fn str_from_utf8(bytes: &[u8]) -> (text: Option<&str>)
    ensures
        match text {
            Some(s) => encode_utf8(s@) == bytes@,
            None => !valid_utf8(bytes@),
        },
{
    std::str::from_utf8(bytes).ok()
}

/// `char::to_lowercase`, collected: ASCII lower case, and elsewhere a form that
/// depends on the character alone.
#[verifier::external_body]
pub(crate) fn lower_form_of(c: char) -> (form: Vec<char>)
    ensures
        ascii(c) ==> form@ == seq![ascii_lower(c)],
        !ascii(c) ==> form@ == lower_mapping(c),
{
    c.to_lowercase().collect()
}

/// `str::to_lowercase`: ASCII lower case for an ASCII text, and otherwise what
/// depends on the text alone.
#[verifier::external_body]
pub(crate) fn lower_text_of(text: &str) -> (lower: String)
    ensures
        all_ascii(text@) ==> lower@ == ascii_lower_all(text@),
        !all_ascii(text@) ==> lower@ == lower_text_mapping(text@),
{
    text.to_lowercase()
}

/// `str::to_uppercase`: ASCII upper case for an ASCII text, and otherwise what
/// depends on the text alone.
#[verifier::external_body]
pub(crate) fn upper_text_of(text: &str) -> (upper: String)
    ensures
        all_ascii(text@) ==> upper@ == ascii_upper_all(text@),
        !all_ascii(text@) ==> upper@ == upper_text_mapping(text@),
{
    text.to_uppercase()
}

/// The lower-case forms of the characters of `s`, one after the other.
pub open spec fn lower_chars_text(s: Seq<char>) -> Seq<char>
    decreases s.len(),
{
    if s.len() == 0 {
        Seq::empty()
    } else {
        lower_chars_text(s.drop_last()) + lower_form(s.last())
    }
}

/// Every character of `chars` in lower case.
pub fn lower_all(chars: &[char]) -> (out: Vec<char>)
    ensures
        out@ == lower_chars_text(chars@),
{
    let mut out: Vec<char> = Vec::new();
    let mut i: usize = 0;
    assert(chars@.take(0) =~= Seq::<char>::empty());
    while i < chars.len()
        invariant
            i <= chars@.len(),
            out@ == lower_chars_text(chars@.take(i as int)),
        decreases chars@.len() - i,
    {
        let mut form = lower_form_of(chars[i]);
        proof {
            assert(chars@.take(i + 1).drop_last() =~= chars@.take(i as int));
            assert(chars@.take(i + 1).last() == chars@[i as int]);
        }
        out.append(&mut form);
        i = i + 1;
    }
    assert(chars@.take(i as int) =~= chars@);
    out
}

/// `offset` is where some character of `text` starts, or its end.
pub open spec fn at_boundary(text: Seq<char>, offset: int) -> bool {
    exists|k: int| 0 <= k <= text.len() && byte_len(#[trigger] text.take(k)) == offset
}

/// The number of characters before the byte offset `offset`.
pub open spec fn chars_before(text: Seq<char>, offset: int) -> int {
    choose|k: int| 0 <= k <= text.len() && byte_len(#[trigger] text.take(k)) == offset
}

/// A byte offset belongs to one character position.
pub proof fn lemma_chars_before(text: Seq<char>, offset: int, k: int)
    requires
        0 <= k <= text.len(),
        byte_len(text.take(k)) == offset,
    ensures
        at_boundary(text, offset),
        chars_before(text, offset) == k,
{
    let j = chars_before(text, offset);
    if j < k {
        lemma_byte_len_monotone(text, j, k);
    } else if k < j {
        lemma_byte_len_monotone(text, k, j);
    }
}

/// The number of characters before the byte offset `offset`.
pub fn char_position(chars: &[char], offset: usize) -> (k: usize)
    requires
        at_boundary(chars@, offset as int),
    ensures
        k == chars_before(chars@, offset as int),
        k <= chars@.len(),
        byte_len(chars@.take(k as int)) == offset,
{
    let ghost goal = chars_before(chars@, offset as int);
    let mut at: usize = 0;
    let mut k: usize = 0;
    assert(chars@.take(0) =~= Seq::<char>::empty());
    while at < offset
        invariant
            0 <= goal <= chars@.len(),
            byte_len(chars@.take(goal)) == offset,
            k <= goal,
            at == byte_len(chars@.take(k as int)),
        decreases goal - k,
    {
        proof {
            assert(k < goal);
            lemma_encode_push(chars@.take(k as int), chars@[k as int]);
            assert(chars@.take(k as int).push(chars@[k as int]) =~= chars@.take(k + 1));
            if k + 1 < goal {
                lemma_byte_len_monotone(chars@, k + 1, goal);
            }
        }
        at = at + char_utf8_len(chars[k]);
        k = k + 1;
    }
    proof {
        if k < goal {
            lemma_byte_len_monotone(chars@, k as int, goal);
        }
    }
    k
}

} // verus!
