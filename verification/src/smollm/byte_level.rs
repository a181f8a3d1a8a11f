//! The byte-level alphabet: every byte stands for one printable character.

use vstd::prelude::*;

verus! {

/// A byte that stands for the character of the same number.
pub open spec fn printable(b: int) -> bool {
    0x21 <= b <= 0x7e || 0xa1 <= b <= 0xac || 0xae <= b <= 0xff
}

/// How many bytes below `b` are not printable.
pub open spec fn hidden_below(b: int) -> int
    decreases b,
{
    if b <= 0 {
        0
    } else if printable(b - 1) {
        hidden_below(b - 1)
    } else {
        hidden_below(b - 1) + 1
    }
}

/// The number of the character that stands for `b`: its own for a printable
/// byte, the next one from 256 on for any other.
pub open spec fn byte_code(b: int) -> int {
    if printable(b) {
        b
    } else {
        256 + hidden_below(b)
    }
}

/// The character that stands for `b`.
pub open spec fn byte_char(b: u8) -> char {
    (byte_code(b as int) as u32) as char
}

/// The byte that `c` stands for.
pub open spec fn char_byte(c: char) -> Option<u8> {
    if exists|b: u8| #[trigger] byte_char(b) == c {
        Some(choose|b: u8| #[trigger] byte_char(b) == c)
    } else {
        None
    }
}

/// The bytes that the characters of `text` stand for, if each stands for one.
pub open spec fn bytes_spelled(text: Seq<char>) -> Option<Seq<u8>>
    decreases text.len(),
{
    if text.len() == 0 {
        Some(Seq::empty())
    } else {
        match (bytes_spelled(text.drop_last()), char_byte(text.last())) {
            (Some(head), Some(b)) => Some(head.push(b)),
            _ => None,
        }
    }
}

proof fn lemma_char_code(c: char)
    ensures
        (c as u32) as char == c,
{
}

proof fn lemma_hidden_step(a: int, b: int)
    requires
        0 <= a <= b,
    ensures
        0 <= hidden_below(a) <= hidden_below(b) <= hidden_below(a) + (b - a),
        a < b && !printable(a) ==> hidden_below(a) < hidden_below(b),
    decreases b,
{
    if a < b {
        lemma_hidden_step(a, b - 1);
    } else if a > 0 {
        lemma_hidden_step(a - 1, a - 1);
    }
}

/// The alphabet gives two different bytes two different characters.
pub proof fn law_byte_chars_are_distinct(a: u8, b: u8)
    ensures
        byte_char(a) == byte_char(b) <==> a == b,
        byte_char(a) as u32 == byte_code(a as int),
        byte_char(a) as u32 <= 511,
        char_byte(byte_char(a)) == Some(a),
{
    lemma_hidden_step(0, a as int);
    lemma_hidden_step(0, b as int);
    lemma_hidden_step(0, 255);
    if a < b {
        lemma_hidden_step(a as int, b as int);
    } else if b < a {
        lemma_hidden_step(b as int, a as int);
    }
    assert(byte_char(a) == byte_char(b) <==> a == b);
    let other = char_byte(byte_char(a));
    assert(other is Some);
    let c = other->0;
    assert(byte_char(c) == byte_char(a));
    lemma_hidden_step(0, c as int);
    if a < c {
        lemma_hidden_step(a as int, c as int);
    } else if c < a {
        lemma_hidden_step(c as int, a as int);
    }
}

/// Reading back what bytes are written as gives the bytes.
pub proof fn law_bytes_read_back(bytes: Seq<u8>, text: Seq<char>)
    requires
        text == bytes.map_values(|b: u8| byte_char(b)),
    ensures
        bytes_spelled(text) == Some(bytes),
    decreases bytes.len(),
{
    if bytes.len() > 0 {
        let head = bytes.drop_last();
        assert(text.drop_last() =~= head.map_values(|b: u8| byte_char(b)));
        law_bytes_read_back(head, text.drop_last());
        law_byte_chars_are_distinct(bytes.last(), bytes.last());
        assert(head.push(bytes.last()) =~= bytes);
    }
}

/// The alphabet and its inverse.
pub struct Alphabet {
    /// The character of every byte.
    pub chars: Vec<char>,
    /// The byte of every character below 512, where there is one.
    pub bytes: Vec<Option<u8>>,
}

impl Alphabet {
    /// Both tables are complete.
    pub open spec fn wf(&self) -> bool {
        &&& self.chars@.len() == 256
        &&& self.bytes@.len() == 512
        &&& forall|b: int| 0 <= b < 256 ==> #[trigger] self.chars@[b] == byte_char(b as u8)
        &&& forall|k: int|
            0 <= k < 512 ==> #[trigger] self.bytes@[k] == char_byte((k as u32) as char)
    }

    /// The byte-level alphabet.
    pub fn new() -> (a: Alphabet)
        ensures
            a.wf(),
    {
        let chars = byte_chars();
        let mut bytes: Vec<Option<u8>> = Vec::new();
        let mut k: u32 = 0;
        while k < 512
            invariant
                k <= 512,
                bytes@.len() == k,
                chars@.len() == 256,
                forall|b: int| 0 <= b < 256 ==> #[trigger] chars@[b] == byte_char(b as u8),
                forall|j: int| 0 <= j < k ==> #[trigger] bytes@[j] == char_byte((j as u32) as char),
            decreases 512 - k,
        {
            let found = position(&chars, k);
            bytes.push(found);
            k = k + 1;
        }
        Alphabet { chars, bytes }
    }

    /// The bytes that the characters of `text` stand for, if each stands for
    /// one.
    pub fn spelled(&self, text: &[char]) -> (bytes: Option<Vec<u8>>)
        requires
            self.wf(),
        ensures
            match bytes {
                Some(v) => bytes_spelled(text@) == Some(v@),
                None => bytes_spelled(text@) is None,
            },
    {
        let mut out: Vec<u8> = Vec::new();
        let mut i: usize = 0;
        assert(text@.take(0) =~= Seq::<char>::empty());
        assert(out@ =~= Seq::<u8>::empty());
        while i < text.len()
            invariant
                self.wf(),
                i <= text@.len(),
                bytes_spelled(text@.take(i as int)) == Some(out@),
            decreases text@.len() - i,
        {
            let c: char = text[i];
            let code: u32 = c as u32;
            proof {
                assert(text@.take(i + 1).drop_last() =~= text@.take(i as int));
                assert(text@.take(i + 1).last() == text@[i as int]);
                lemma_no_high_byte(text@[i as int]);
            }
            let found = if code < 512 {
                self.bytes[code as usize]
            } else {
                None
            };
            assert(found == char_byte(text@[i as int])) by {
                lemma_char_code(c);
            }
            match found {
                Some(b) => {
                    out.push(b);
                },
                None => {
                    proof {
                        lemma_unspelled_prefix(text@, i + 1);
                    }
                    return None;
                },
            }
            i = i + 1;
        }
        assert(text@.take(i as int) =~= text@);
        Some(out)
    }
}

proof fn lemma_no_high_byte(c: char)
    ensures
        c as u32 >= 512 ==> char_byte(c) is None,
{
    if char_byte(c) is Some {
        let b = char_byte(c)->0;
        assert(byte_char(b) == c);
        law_byte_chars_are_distinct(b, b);
    }
}

proof fn lemma_unspelled_prefix(text: Seq<char>, k: int)
    requires
        0 <= k <= text.len(),
        bytes_spelled(text.take(k)) is None,
    ensures
        bytes_spelled(text) is None,
    decreases text.len() - k,
{
    if k < text.len() {
        assert(text.take(k + 1).drop_last() =~= text.take(k));
        lemma_unspelled_prefix(text, k + 1);
    } else {
        assert(text.take(k) =~= text);
    }
}

/// The byte whose character has the number `code`.
fn position(chars: &Vec<char>, code: u32) -> (found: Option<u8>)
    requires
        code < 512,
        chars@.len() == 256,
        forall|b: int| 0 <= b < 256 ==> #[trigger] chars@[b] == byte_char(b as u8),
    ensures
        found == char_byte(code as char),
{
    let mut i: usize = 0;
    while i < 256
        invariant
            i <= 256,
            code < 512,
            chars@.len() == 256,
            forall|b: int| 0 <= b < 256 ==> #[trigger] chars@[b] == byte_char(b as u8),
            forall|b: int| 0 <= b < i ==> #[trigger] chars@[b] != code as char,
        decreases 256 - i,
    {
        if chars[i] as u32 == code {
            proof {
                law_byte_chars_are_distinct(i as u8, i as u8);
                assert(byte_char(i as u8) == code as char);
            }
            return Some(i as u8);
        }
        i = i + 1;
    }
    proof {
        if exists|b: u8| #[trigger] byte_char(b) == code as char {
            let b = choose|b: u8| #[trigger] byte_char(b) == code as char;
            assert(chars@[b as int] == byte_char((b as int) as u8));
        }
    }
    None
}

/// The character numbered `code`.
fn char_of(code: u32) -> (c: char)
    requires
        code < 512,
    ensures
        c == code as char,
{
    match char::from_u32(code) {
        Some(c) => {
            proof {
                lemma_char_code(c);
            }
            c
        },
        None => '\0',
    }
}

/// The character of every byte: a printable byte keeps its own, the others
/// take the characters from 256 on, in order.
pub fn byte_chars() -> (table: Vec<char>)
    ensures
        table@.len() == 256,
        forall|b: int| 0 <= b < 256 ==> #[trigger] table@[b] == byte_char(b as u8),
{
    let mut table: Vec<char> = Vec::new();
    let mut next: u32 = 256;
    let mut byte: u32 = 0;
    while byte < 256
        invariant
            byte <= 256,
            table@.len() == byte,
            next == 256 + hidden_below(byte as int),
            next <= 256 + byte,
            forall|b: int| 0 <= b < byte ==> #[trigger] table@[b] == byte_char(b as u8),
        decreases 256 - byte,
    {
        let shown = (0x21 <= byte && byte <= 0x7e) || (0xa1 <= byte && byte <= 0xac) || (0xae
            <= byte && byte <= 0xff);
        let code: u32 = if shown {
            byte
        } else {
            next
        };
        if !shown {
            next = next + 1;
        }
        let c = char_of(code);
        assert(c == byte_char(byte as u8)) by {
            assert(byte_code((byte as u8) as int) == code);
        }
        table.push(c);
        byte = byte + 1;
    }
    table
}

} // verus!
