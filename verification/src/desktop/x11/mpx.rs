//! The virtual pointer and keyboard pair: whose it is, whether its owner is
//! gone, the steps of a drag, and what the server's reports confirm.

use vstd::prelude::*;
use vstd::utf8::*;

use crate::strings::{
    hex, hex_padded, law_hex_reads_back, law_padded_hex_reads_back, next_sep, lemma_next_sep,
    number, parse, part_views, parts, parts_from, split, stands_at, is_at, to_hex, trim, trimmed,
    words, words_from,
};
use crate::unicode::{chars_of, same_chars, string_of};

verus! {

// ---------------------------------------------------------------------------
// Owners
// ---------------------------------------------------------------------------
/// What `xxh64` yields for some bytes and a seed.
pub uninterp spec fn xxh64_of(bytes: Seq<u8>, seed: u64) -> u64;

/// `xxhash_rust::xxh64::xxh64`: the hash depends on the bytes and the seed alone.
#[verifier::external_body]
fn hash64(bytes: &[u8], seed: u64) -> (h: u64)
    ensures
        h == xxh64_of(bytes@, seed),
{
    xxhash_rust::xxh64::xxh64(bytes, seed)
}

/// The bytes that tell one machine, process namespace and user from others.
pub open spec fn domain_seed(boot: Seq<char>, namespace: Seq<u8>, user: u32) -> Seq<u8> {
    encode_utf8(trimmed(boot)) + seq![0u8] + namespace + seq![0u8] + seq![
        ((user / 0x100_0000) % 0x100) as u8,
        ((user / 0x1_0000) % 0x100) as u8,
        ((user / 0x100) % 0x100) as u8,
        (user % 0x100) as u8,
    ]
}

/// The identity of one machine, process namespace and user.
pub fn domain(boot: &str, namespace: &Vec<u8>, user: u32) -> (d: u64)
    ensures
        d == xxh64_of(domain_seed(boot@, namespace@, user), 0),
{
    let chars = chars_of(boot);
    let text = string_of(trim(chars.as_slice()).as_slice());
    let bytes = text.as_str().as_bytes();
    let mut seed: Vec<u8> = Vec::new();
    push_all(bytes, &mut seed);
    seed.push(0);
    push_all(namespace.as_slice(), &mut seed);
    seed.push(0);
    seed.push(((user / 0x100_0000) % 0x100) as u8);
    seed.push(((user / 0x1_0000) % 0x100) as u8);
    seed.push(((user / 0x100) % 0x100) as u8);
    seed.push((user % 0x100) as u8);
    assert(seed@ =~= domain_seed(boot@, namespace@, user));
    hash64(seed.as_slice(), 0)
}

fn push_all(bytes: &[u8], out: &mut Vec<u8>)
    ensures
        final(out)@ == old(out)@ + bytes@,
{
    let ghost before = out@;
    let mut i: usize = 0;
    assert(before + bytes@.take(0) =~= before);
    while i < bytes.len()
        invariant
            i <= bytes@.len(),
            out@ == before + bytes@.take(i as int),
        decreases bytes@.len() - i,
    {
        out.push(bytes[i]);
        assert(out@ =~= before + bytes@.take(i + 1));
        i = i + 1;
    }
    assert(bytes@.take(i as int) =~= bytes@);
}

/// One run of a process: where it runs, its number, and when it started.
#[derive(Clone, Copy, Debug, PartialEq, Eq, Structural)]
pub struct Owner {
    pub domain: u64,
    pub pid: u32,
    pub start: u64,
}

/// What is known of when a process started.
#[derive(Clone, Copy, Debug, PartialEq, Eq, Structural)]
pub enum StartOf {
    At(u64),
    /// There is no such process.
    Gone,
    /// It cannot be told.
    Unknown,
}

/// What every owner's name begins with.
pub open spec fn owner_prefix() -> Seq<char> {
    "OMP MPX v1."@
}

/// What the name of a pointer ends with.
pub open spec fn pointer_suffix() -> Seq<char> {
    " pointer"@
}

/// The numbers of a name.
pub open spec fn owner_numbers(owner: Owner, nonce: u16) -> Seq<char> {
    hex_padded(owner.domain as int, 16) + seq!['.'] + (hex(owner.pid as int) + seq!['.'] + (hex(
        owner.start as int,
    ) + seq!['.'] + hex(nonce as int)))
}

/// The name of an owner's masters.
pub open spec fn owner_name(owner: Owner, nonce: u16) -> Seq<char> {
    owner_prefix() + owner_numbers(owner, nonce)
}

/// The owner that four parts of a name give.
pub open spec fn owner_of_parts(list: Seq<Seq<char>>) -> Option<Owner> {
    if list.len() != 4 {
        None
    } else {
        match (
            number(list[0], 16, u64::MAX as int),
            number(list[1], 16, u32::MAX as int),
            number(list[2], 16, u64::MAX as int),
            number(list[3], 16, u16::MAX as int),
        ) {
            (Some(domain), Some(pid), Some(start), Some(_)) => if pid != 0 {
                Some(Owner { domain: domain as u64, pid: pid as u32, start: start as u64 })
            } else {
                None
            },
            _ => None,
        }
    }
}

/// The owner that a pointer's name gives.
pub open spec fn owner_named(name: Seq<char>) -> Option<Owner> {
    let n = owner_prefix().len() as int;
    let rest = name.skip(n);
    let m = pointer_suffix().len() as int;
    if !stands_at(name, owner_prefix(), 0) || rest.len() < m || rest.skip(rest.len() - m)
        != pointer_suffix() {
        None
    } else {
        owner_of_parts(parts(rest.take(rest.len() - m), seq!['.']))
    }
}

fn literal(text: &str) -> (chars: Vec<char>)
    ensures
        chars@ == text@,
{
    chars_of(text)
}

/// An owner is provably gone, seen from `current`.
pub open spec fn stale(owner: Owner, current: Owner, start_of: StartOf) -> bool {
    if owner.domain != current.domain {
        false
    } else if owner.pid == current.pid {
        owner.start != current.start
    } else {
        match start_of {
            StartOf::At(start) => start != owner.start,
            StartOf::Gone => true,
            StartOf::Unknown => false,
        }
    }
}

impl Owner {
    /// The name of this owner's masters.
    pub fn master_name(&self, nonce: u16) -> (name: String)
        ensures
            name@ == owner_name(*self, nonce),
    {
        let mut out = literal("OMP MPX v1.");
        let mut a = to_hex(self.domain, 16);
        let mut b = to_hex(self.pid as u64, 0);
        let mut c = to_hex(self.start, 0);
        let mut d = to_hex(nonce as u64, 0);
        proof {
            law_hex_reads_back(self.pid as int);
            law_hex_reads_back(self.start as int);
            law_hex_reads_back(nonce as int);
        }
        out.append(&mut a);
        out.push('.');
        out.append(&mut b);
        out.push('.');
        out.append(&mut c);
        out.push('.');
        out.append(&mut d);
        assert(out@ =~= owner_name(*self, nonce));
        string_of(out.as_slice())
    }

    /// Reads an owner out of the name of a pointer.
    pub fn from_pointer_name(name: &str) -> (owner: Option<Owner>)
        ensures
            owner == owner_named(name@),
    {
        let chars = chars_of(name);
        let prefix = literal("OMP MPX v1.");
        let suffix = literal(" pointer");
        if !is_at(chars.as_slice(), prefix.as_slice(), 0) {
            return None;
        }
        let rest: &[char] = &chars[prefix.len()..chars.len()];
        assert(rest@ =~= name@.skip(prefix@.len() as int));
        if rest.len() < suffix.len() {
            return None;
        }
        let cut: usize = rest.len() - suffix.len();
        let tail: &[char] = &rest[cut..rest.len()];
        assert(tail@ =~= rest@.skip(cut as int));
        if !same_chars(tail, suffix.as_slice()) {
            return None;
        }
        let middle: &[char] = &rest[0..cut];
        assert(middle@ =~= rest@.take(cut as int));
        let mut dots: Vec<char> = Vec::new();
        dots.push('.');
        assert(dots@ =~= seq!['.']);
        let list = split(middle, dots.as_slice());
        let ghost views = part_views(list@);
        if list.len() != 4 {
            return None;
        }
        assert(views[0] == list@[0]@ && views[1] == list@[1]@ && views[2] == list@[2]@ && views[3]
            == list@[3]@);
        let domain = match parse(list[0].as_slice(), 16, u64::MAX) {
            Some(v) => v,
            None => {
                return None;
            },
        };
        let pid = match parse(list[1].as_slice(), 16, u32::MAX as u64) {
            Some(v) => v,
            None => {
                return None;
            },
        };
        let start = match parse(list[2].as_slice(), 16, u64::MAX) {
            Some(v) => v,
            None => {
                return None;
            },
        };
        match parse(list[3].as_slice(), 16, u16::MAX as u64) {
            Some(_) => {},
            None => {
                return None;
            },
        }
        if pid == 0 {
            return None;
        }
        Some(Owner { domain, pid: pid as u32, start })
    }

    /// Whether this owner is provably gone, seen from `current`. Owners of other
    /// machines, and processes that cannot be read, are kept.
    pub fn is_stale_for(&self, current: &Owner, start_of: StartOf) -> (r: bool)
        ensures
            r == stale(*self, *current, start_of),
    {
        if self.domain != current.domain {
            return false;
        }
        if self.pid == current.pid {
            return self.start != current.start;
        }
        match start_of {
            StartOf::At(start) => start != self.start,
            StartOf::Gone => true,
            StartOf::Unknown => false,
        }
    }
}

proof fn lemma_sep_after(a: Seq<char>, rest: Seq<char>, i: int)
    requires
        0 <= i <= a.len(),
        forall|k: int| 0 <= k < a.len() ==> #[trigger] a[k] != '.',
    ensures
        next_sep(a + seq!['.'] + rest, seq!['.'], i) == a.len(),
    decreases a.len() - i,
{
    let s = a + seq!['.'] + rest;
    let dots = seq!['.'];
    if i < a.len() {
        assert(s[i] == a[i]);
        assert(!dots.contains(s[i])) by {
            if dots.contains(s[i]) {
                let k = choose|k: int| 0 <= k < dots.len() && dots[k] == s[i];
            }
        }
        lemma_sep_after(a, rest, i + 1);
    } else {
        assert(s[i] == '.');
        assert(dots[0] == '.');
        assert(dots.contains(s[i]));
    }
}

proof fn lemma_sep_shift(head: Seq<char>, t: Seq<char>, seps: Seq<char>, i: int)
    requires
        0 <= i <= t.len(),
    ensures
        next_sep(head + t, seps, head.len() + i) == head.len() + next_sep(t, seps, i),
    decreases t.len() - i,
{
    if i < t.len() {
        assert((head + t)[head.len() + i] == t[i]);
        if !seps.contains(t[i]) {
            lemma_sep_shift(head, t, seps, i + 1);
        }
    }
}

proof fn lemma_parts_shift(head: Seq<char>, t: Seq<char>, seps: Seq<char>, i: int)
    requires
        0 <= i <= t.len(),
    ensures
        parts_from(head + t, seps, head.len() + i) == parts_from(t, seps, i),
    decreases t.len() - i,
{
    let s = head + t;
    lemma_sep_shift(head, t, seps, i);
    lemma_next_sep(t, seps, i);
    let end = next_sep(t, seps, i);
    assert(s.subrange(head.len() + i, head.len() + end) =~= t.subrange(i, end));
    if end < t.len() {
        lemma_parts_shift(head, t, seps, end + 1);
    } else {
        assert(s.subrange(head.len() + i, s.len() as int) =~= t.subrange(i, t.len() as int));
    }
}

proof fn lemma_parts_head(a: Seq<char>, rest: Seq<char>)
    requires
        forall|k: int| 0 <= k < a.len() ==> #[trigger] a[k] != '.',
    ensures
        parts(a + seq!['.'] + rest, seq!['.']) == seq![a] + parts(rest, seq!['.']),
{
    let s = a + seq!['.'] + rest;
    lemma_sep_after(a, rest, 0);
    lemma_parts_shift(a + seq!['.'], rest, seq!['.'], 0);
    assert(s.subrange(0, a.len() as int) =~= a);
}

proof fn lemma_parts_last(a: Seq<char>)
    requires
        forall|k: int| 0 <= k < a.len() ==> #[trigger] a[k] != '.',
    ensures
        parts(a, seq!['.']) == seq![a],
{
    lemma_next_sep(a, seq!['.'], 0);
    let end = next_sep(a, seq!['.'], 0);
    if end < a.len() {
        let dots = seq!['.'];
        let k = choose|k: int| 0 <= k < dots.len() && dots[k] == a[end];
    }
    assert(a.subrange(0, a.len() as int) =~= a);
}

proof fn lemma_number_of_hex(text: Seq<char>, n: int, max: int)
    requires
        crate::strings::digits_value(text, 16) == Some(n),
        text.len() > 0,
        forall|i: int| 0 <= i < text.len() ==> #[trigger] text[i] != '+',
        n <= max,
    ensures
        number(text, 16, max) == Some(n),
{
    assert(text[0] != '+');
}

/// The name of an owner's pointer is read back as that owner.
pub proof fn law_owner_names_read_back(owner: Owner, nonce: u16)
    requires
        owner.pid != 0,
    ensures
        owner_named(owner_name(owner, nonce) + pointer_suffix()) == Some(owner),
{
    let name = owner_name(owner, nonce) + pointer_suffix();
    let prefix = owner_prefix();
    let numbers = owner_numbers(owner, nonce);
    let suffix = pointer_suffix();
    let rest = name.skip(prefix.len() as int);
    assert(name.subrange(0, prefix.len() as int) =~= prefix);
    assert(rest =~= numbers + suffix);
    assert(rest.skip(rest.len() - suffix.len()) =~= suffix);
    assert(rest.take(rest.len() - suffix.len()) =~= numbers);
    let a = hex_padded(owner.domain as int, 16);
    let b = hex(owner.pid as int);
    let c = hex(owner.start as int);
    let d = hex(nonce as int);
    law_padded_hex_reads_back(owner.domain as int, 16);
    law_hex_reads_back(owner.pid as int);
    law_hex_reads_back(owner.start as int);
    law_hex_reads_back(nonce as int);
    lemma_parts_last(d);
    lemma_parts_head(c, d);
    lemma_parts_head(b, c + seq!['.'] + d);
    lemma_parts_head(a, b + seq!['.'] + (c + seq!['.'] + d));
    let list = parts(numbers, seq!['.']);
    assert(list =~= seq![a, b, c, d]);
    lemma_number_of_hex(a, owner.domain as int, u64::MAX as int);
    lemma_number_of_hex(b, owner.pid as int, u32::MAX as int);
    lemma_number_of_hex(c, owner.start as int, u64::MAX as int);
    lemma_number_of_hex(d, nonce as int, u16::MAX as int);
}

// ---------------------------------------------------------------------------
// Process status
// ---------------------------------------------------------------------------
/// Behind the last closing parenthesis of the first `k` characters.
pub open spec fn after_paren(text: Seq<char>, k: int) -> Option<int>
    decreases k,
{
    if k <= 0 {
        None
    } else if text[k - 1] == ')' {
        Some(k)
    } else {
        after_paren(text, k - 1)
    }
}

/// The fields of a status line from the third on: the command name before them
/// may hold spaces and parentheses.
pub open spec fn status_fields(stat: Seq<char>) -> Option<Seq<Seq<char>>> {
    match after_paren(stat, stat.len() as int) {
        Some(at) => Some(words_from(stat.skip(at), 0)),
        None => None,
    }
}

/// When the process of a status line started, in ticks.
pub open spec fn ticks_of(stat: Seq<char>) -> Option<u64> {
    match status_fields(stat) {
        Some(fields) => if fields.len() > 19 {
            match number(fields[19], 10, u64::MAX as int) {
                Some(v) => Some(v as u64),
                None => None,
            }
        } else {
            None
        },
        None => None,
    }
}

/// The fields of a status line from the third on.
pub fn stat_fields(stat: &str) -> (fields: Option<Vec<Vec<char>>>)
    ensures
        match fields {
            Some(list) => status_fields(stat@) == Some(part_views(list@)),
            None => status_fields(stat@) is None,
        },
{
    let chars = chars_of(stat);
    let mut k: usize = chars.len();
    while k > 0 && chars[k - 1] != ')'
        invariant
            chars@ == stat@,
            k <= chars@.len(),
            after_paren(stat@, stat@.len() as int) == after_paren(stat@, k as int),
        decreases k,
    {
        k = k - 1;
    }
    if k == 0 {
        return None;
    }
    let rest: &[char] = &chars[k..chars.len()];
    assert(rest@ =~= stat@.skip(k as int));
    Some(words(rest))
}

/// When the process of a status line started, in ticks.
pub fn start_ticks(stat: &str) -> (ticks: Option<u64>)
    ensures
        ticks == ticks_of(stat@),
{
    match stat_fields(stat) {
        None => None,
        Some(list) => {
            if list.len() <= 19 {
                return None;
            }
            assert(part_views(list@)[19] == list@[19]@);
            parse(list[19].as_slice(), 10, u64::MAX)
        },
    }
}

/// The process of a status line has ended: nothing is left of it but its entry.
pub open spec fn ended(stat: Seq<char>) -> bool {
    status_fields(stat) matches Some(fields) && fields.len() > 0 && (fields[0] == "Z"@ || fields[0]
        == "X"@)
}

/// What a status line says of when its process started. An ended process counts
/// as gone.
pub fn process_start(stat: &str) -> (r: StartOf)
    ensures
        r == (if ended(stat@) {
            StartOf::Gone
        } else {
            match ticks_of(stat@) {
                Some(start) => StartOf::At(start),
                None => StartOf::Unknown,
            }
        }),
{
    match stat_fields(stat) {
        Some(list) => {
            if list.len() > 0 {
                assert(part_views(list@)[0] == list@[0]@);
                let z = literal("Z");
                let x = literal("X");
                if same_chars(list[0].as_slice(), z.as_slice()) || same_chars(
                    list[0].as_slice(),
                    x.as_slice(),
                ) {
                    return StartOf::Gone;
                }
            }
        },
        None => {},
    }
    match start_ticks(stat) {
        Some(start) => StartOf::At(start),
        None => StartOf::Unknown,
    }
}

/// The first word of a status line is the process number.
pub open spec fn is_status_of(stat: Seq<char>, pid: u32) -> bool {
    let list = words_from(stat, 0);
    list.len() > 0 && number(list[0], 10, u32::MAX as int) == Some(pid as int)
}

impl Owner {
    /// This run of this process, from its own status line, when it is said to
    /// have started, and where it runs. Nothing where these do not agree.
    pub fn current(
        pid: u32,
        stat: &str,
        seen: StartOf,
        boot: &str,
        namespace: &Vec<u8>,
        user: u32,
    ) -> (owner: Option<Owner>)
        ensures
            owner == (match ticks_of(stat@) {
                Some(start) => if is_status_of(stat@, pid) && seen == StartOf::At(start) {
                    Some(
                        Owner {
                            domain: xxh64_of(domain_seed(boot@, namespace@, user), 0),
                            pid,
                            start,
                        },
                    )
                } else {
                    None
                },
                None => None,
            }),
    {
        let chars = chars_of(stat);
        let list = words(chars.as_slice());
        if list.len() == 0 {
            return None;
        }
        assert(part_views(list@)[0] == list@[0]@);
        match parse(list[0].as_slice(), 10, u32::MAX as u64) {
            Some(first) => {
                if first != pid as u64 {
                    return None;
                }
            },
            None => {
                return None;
            },
        }
        match start_ticks(stat) {
            Some(start) => {
                if seen != StartOf::At(start) {
                    return None;
                }
                Some(Owner { domain: domain(boot, namespace, user), pid, start })
            },
            None => None,
        }
    }
}

// ---------------------------------------------------------------------------
// Drags
// ---------------------------------------------------------------------------
/// The longest motion of one step, in pixels.
pub const DRAG_STEP_MAX_PX: i64 = 16;

/// The nearest integer to `n / d`, away from zero in the middle.
pub open spec fn rounded(n: int, d: int) -> int {
    if n >= 0 {
        (2 * n + d) / (2 * d)
    } else {
        -((-2 * n + d) / (2 * d))
    }
}

/// The least number of steps, from `c` on, that covers a segment of squared
/// length `square`.
pub open spec fn glide_steps(square: int, c: int) -> int
    decreases square - c,
{
    if c < 1 || 256 * (c * c) >= square || c >= square {
        c
    } else {
        glide_steps(square, c + 1)
    }
}

/// Where the step `index` of `count` between two coordinates lies.
pub open spec fn glide(from: int, to: int, index: int, count: int) -> int {
    rounded(from * count + (to - from) * index, count)
}

/// The squared length of a segment.
pub open spec fn square_length(a: (i16, i16), b: (i16, i16)) -> int {
    (b.0 - a.0) * (b.0 - a.0) + (b.1 - a.1) * (b.1 - a.1)
}

/// The points of the first `n` steps of a segment.
pub open spec fn segment_points(a: (i16, i16), b: (i16, i16), count: int, n: int) -> Seq<(int, int)> {
    Seq::new(
        n as nat,
        |i: int|
            (
                glide(a.0 as int, b.0 as int, i + 1, count),
                glide(a.1 as int, b.1 as int, i + 1, count),
            ),
    )
}

/// The points of the first `k` segments of a path.
pub open spec fn path_points(path: Seq<(i16, i16)>, k: int) -> Seq<(int, int)>
    decreases k,
{
    if k <= 0 {
        Seq::empty()
    } else {
        let a = path[k - 1];
        let b = path[k];
        let count = glide_steps(square_length(a, b), 1);
        path_points(path, k - 1) + segment_points(a, b, count, count)
    }
}

/// The motions from point to point, from `last` on; a point that is reached
/// already gives none.
pub open spec fn deltas(last: (int, int), points: Seq<(int, int)>) -> Seq<(int, int)>
    decreases points.len(),
{
    if points.len() == 0 {
        Seq::empty()
    } else {
        let head = deltas(last, points.drop_last());
        let before = reached(last, points.drop_last());
        let here = points.last();
        if here == before {
            head
        } else {
            head.push((here.0 - before.0, here.1 - before.1))
        }
    }
}

/// The point that is reached after some points.
pub open spec fn reached(last: (int, int), points: Seq<(int, int)>) -> (int, int) {
    if points.len() == 0 {
        last
    } else {
        points.last()
    }
}

/// The motions of a drag along a path, from its first point on.
pub open spec fn drag_steps(path: Seq<(i16, i16)>) -> Seq<(int, int)> {
    if path.len() == 0 {
        Seq::empty()
    } else {
        deltas(
            (path[0].0 as int, path[0].1 as int),
            path_points(path, path.len() - 1),
        )
    }
}

/// The views of some motions.
pub open spec fn step_views(steps: Seq<(i32, i32)>) -> Seq<(int, int)> {
    steps.map_values(|s: (i32, i32)| (s.0 as int, s.1 as int))
}

/// Where some motions lead from a point.
pub open spec fn walked(from: (int, int), steps: Seq<(int, int)>) -> (int, int)
    decreases steps.len(),
{
    if steps.len() == 0 {
        from
    } else {
        let before = walked(from, steps.drop_last());
        (before.0 + steps.last().0, before.1 + steps.last().1)
    }
}

proof fn lemma_deltas_walk(last: (int, int), points: Seq<(int, int)>)
    ensures
        walked(last, deltas(last, points)) == reached(last, points),
        forall|i: int|
            0 <= i < deltas(last, points).len() ==> #[trigger] deltas(last, points)[i] != (
            0int,
            0int,
        ),
    decreases points.len(),
{
    if points.len() > 0 {
        lemma_deltas_walk(last, points.drop_last());
        let head = deltas(last, points.drop_last());
        let all = deltas(last, points);
        if all != head {
            assert(all.drop_last() =~= head);
        }
        assert forall|i: int| 0 <= i < all.len() implies #[trigger] all[i] != (0int, 0int) by {
            if i < head.len() {
                assert(all[i] == head[i]);
            }
        }
    }
}

proof fn lemma_glide_steps(square: int, c: int)
    requires
        1 <= c,
    ensures
        c <= glide_steps(square, c),
    decreases square - c,
{
    if !(256 * (c * c) >= square || c >= square) {
        lemma_glide_steps(square, c + 1);
    }
}

proof fn lemma_glide_end(from: int, to: int, count: int)
    requires
        1 <= count,
    ensures
        glide(from, to, count, count) == to,
{
    let n = from * count + (to - from) * count;
    assert(n == to * count) by (nonlinear_arith)
        requires
            n == from * count + (to - from) * count,
    {}
    lemma_rounded_whole(to, count);
}

proof fn lemma_rounded_whole(v: int, d: int)
    requires
        1 <= d,
    ensures
        rounded(v * d, d) == v,
{
    if v >= 0 {
        assert((2 * (v * d) + d) / (2 * d) == v && v * d >= 0) by (nonlinear_arith)
            requires
                1 <= d,
                0 <= v,
        {}
    } else {
        let u = -v;
        assert(-2 * (v * d) == 2 * (u * d)) by (nonlinear_arith)
            requires
                u == -v,
        {}
        assert((2 * (u * d) + d) / (2 * d) == u && v * d < 0) by (nonlinear_arith)
            requires
                1 <= d,
                u == -v,
                u >= 1,
        {}
    }
}

proof fn lemma_path_end(path: Seq<(i16, i16)>, k: int)
    requires
        0 <= k < path.len(),
    ensures
        reached((path[0].0 as int, path[0].1 as int), path_points(path, k)) == (
            path[k].0 as int,
            path[k].1 as int,
        ),
    decreases k,
{
    if k > 0 {
        lemma_path_end(path, k - 1);
        let a = path[k - 1];
        let b = path[k];
        let count = glide_steps(square_length(a, b), 1);
        lemma_glide_steps(square_length(a, b), 1);
        lemma_glide_end(a.0 as int, b.0 as int, count);
        lemma_glide_end(a.1 as int, b.1 as int, count);
        let more = segment_points(a, b, count, count);
        assert(path_points(path, k).last() == more[count - 1]);
    }
}

/// The motions of a drag lead exactly to the end of its path, and none of them
/// stands still.
pub proof fn law_drag_lands_on_the_end(path: Seq<(i16, i16)>)
    requires
        path.len() > 0,
    ensures
        walked((path[0].0 as int, path[0].1 as int), drag_steps(path)) == (
            path.last().0 as int,
            path.last().1 as int,
        ),
        forall|i: int|
            0 <= i < drag_steps(path).len() ==> #[trigger] drag_steps(path)[i] != (0int, 0int),
{
    let start = (path[0].0 as int, path[0].1 as int);
    lemma_deltas_walk(start, path_points(path, path.len() - 1));
    lemma_path_end(path, path.len() - 1);
}

fn round_to(n: i64, d: i64) -> (r: i64)
    requires
        1 <= d <= 10_000_000_000,
        -1_000_000_000_000_000 <= n <= 1_000_000_000_000_000,
    ensures
        r == rounded(n as int, d as int),
{
    if n >= 0 {
        (2 * n + d) / (2 * d)
    } else {
        let m: i64 = 0 - n;
        let r: i64 = (2 * m + d) / (2 * d);
        0 - r
    }
}

/// A drag passes every corner of its path, in steps of at most sixteen pixels
/// and of no more than that takes.
pub proof fn law_drag_passes_every_corner(path: Seq<(i16, i16)>, n: int, k: int)
    requires
        0 < k <= n < path.len(),
    ensures
        path_points(path, n).contains((path[k].0 as int, path[k].1 as int)),
        ({
            let square = square_length(path[k - 1], path[k]);
            let count = path_points(path, k).len() - path_points(path, k - 1).len();
            &&& 1 <= count
            &&& square <= (16 * count) * (16 * count)
            &&& count == 1 || (16 * (count - 1)) * (16 * (count - 1)) < square
        }),
    decreases n,
{
    let a = path[k - 1];
    let b = path[k];
    let square = square_length(a, b);
    let count = glide_steps(square, 1);
    lemma_steps_fit(square, 1);
    assert(path_points(path, k) == path_points(path, k - 1) + segment_points(a, b, count, count));
    assert((16 * count) * (16 * count) == 256 * (count * count)) by (nonlinear_arith);
    let less = count - 1;
    assert((16 * less) * (16 * less) == 256 * (less * less)) by (nonlinear_arith);
    if k == n {
        lemma_path_end(path, n);
        let all = path_points(path, n);
        assert(all.len() > 0);
        assert(all[all.len() - 1] == (path[k].0 as int, path[k].1 as int));
    } else {
        law_drag_passes_every_corner(path, n - 1, k);
        let before = path_points(path, n - 1);
        let all = path_points(path, n);
        let i = choose|i: int|
            0 <= i < before.len() && before[i] == (path[k].0 as int, path[k].1 as int);
        assert(all[i] == before[i]);
    }
}

proof fn lemma_steps_fit(square: int, c: int)
    requires
        1 <= c,
        c == 1 || 256 * ((c - 1) * (c - 1)) < square,
    ensures
        c <= glide_steps(square, c),
        square <= 256 * (glide_steps(square, c) * glide_steps(square, c)),
        glide_steps(square, c) == 1 || 256 * ((glide_steps(square, c) - 1) * (glide_steps(
            square,
            c,
        ) - 1)) < square,
    decreases square - c,
{
    if 256 * (c * c) >= square || c >= square {
        assert(256 * (c * c) >= c) by (nonlinear_arith)
            requires
                1 <= c,
        ;
    } else {
        assert((c + 1 - 1) * (c + 1 - 1) == c * c);
        lemma_steps_fit(square, c + 1);
    }
}

proof fn lemma_glide_within(from: int, to: int, index: int, count: int)
    requires
        -32768 <= from <= 32767,
        -32768 <= to <= 32767,
        1 <= index <= count,
    ensures
        -32768 * count <= from * count + (to - from) * index <= 32767 * count,
        -32768 <= glide(from, to, index, count) <= 32767,
{
    let n = from * count + (to - from) * index;
    assert(-32768 * count <= n <= 32767 * count) by (nonlinear_arith)
        requires
            n == from * count + (to - from) * index,
            -32768 <= from <= 32767,
            -32768 <= to <= 32767,
            1 <= index <= count,
    {}
    if n >= 0 {
        let r = (2 * n + count) / (2 * count);
        assert(0 <= r <= 32767) by (nonlinear_arith)
            requires
                0 <= n <= 32767 * count,
                1 <= count,
                r == (2 * n + count) / (2 * count),
        {}
    } else {
        let r = (-2 * n + count) / (2 * count);
        assert(0 <= r <= 32768) by (nonlinear_arith)
            requires
                0 < -n <= 32768 * count,
                1 <= count,
                r == (-2 * n + count) / (2 * count),
        {}
    }
}

/// The relative motions that walk a path from its first point, each segment in
/// steps of about [`DRAG_STEP_MAX_PX`]. They are taken between rounded points, so
/// that they add up to the path's end.
pub fn relative_steps(path: &Vec<(i16, i16)>) -> (steps: Vec<(i32, i32)>)
    ensures
        step_views(steps@) == drag_steps(path@),
{
    let mut steps: Vec<(i32, i32)> = Vec::new();
    assert(step_views(steps@) =~= Seq::<(int, int)>::empty());
    if path.len() == 0 {
        return steps;
    }
    let ghost start = (path@[0].0 as int, path@[0].1 as int);
    let mut last_x: i64 = path[0].0 as i64;
    let mut last_y: i64 = path[0].1 as i64;
    let mut k: usize = 1;
    while k < path.len()
        invariant
            1 <= k <= path@.len(),
            start == (path@[0].0 as int, path@[0].1 as int),
            step_views(steps@) == deltas(start, path_points(path@, k - 1)),
            (last_x as int, last_y as int) == reached(start, path_points(path@, k - 1)),
            -32768 <= last_x <= 32767,
            -32768 <= last_y <= 32767,
        decreases path@.len() - k,
    {
        let a = path[k - 1];
        let b = path[k];
        let dx: i64 = b.0 as i64 - a.0 as i64;
        let dy: i64 = b.1 as i64 - a.1 as i64;
        proof {
            assert(0 <= dx * dx <= 65535 * 65535) by (nonlinear_arith)
                requires
                    -65535 <= dx <= 65535,
            {}
            assert(0 <= dy * dy <= 65535 * 65535) by (nonlinear_arith)
                requires
                    -65535 <= dy <= 65535,
            {}
        }
        let square: i64 = dx * dx + dy * dy;
        let mut count: i64 = 1;
        while !(256 * (count * count) >= square || count >= square)
            invariant
                0 <= square <= 2 * 65535 * 65535,
                1 <= count <= 6000,
                1 <= count * count <= 36_000_000,
                glide_steps(square as int, 1) == glide_steps(square as int, count as int),
            decreases square - count,
        {
            assert(count < 6000) by (nonlinear_arith)
                requires
                    256 * (count * count) < 2 * 65535 * 65535,
                    1 <= count,
            {}
            count = count + 1;
            assert(1 <= count * count <= 36_000_000) by (nonlinear_arith)
                requires
                    1 <= count <= 6000,
            {}
        }
        let ghost base = path_points(path@, k - 1);
        let ghost whole = segment_points(a, b, count as int, count as int);
        let mut index: i64 = 1;
        assert(base + whole.take(0) =~= base);
        while index <= count
            invariant
                1 <= index <= count + 1,
                1 <= count <= 6000,
                whole == segment_points(a, b, count as int, count as int),
                dx == b.0 - a.0,
                dy == b.1 - a.1,
                step_views(steps@) == deltas(start, base + whole.take(index - 1)),
                (last_x as int, last_y as int) == reached(start, base + whole.take(index - 1)),
                -32768 <= last_x <= 32767,
                -32768 <= last_y <= 32767,
            decreases count + 1 - index,
        {
            proof {
                lemma_glide_within(a.0 as int, b.0 as int, index as int, count as int);
                lemma_glide_within(a.1 as int, b.1 as int, index as int, count as int);
                assert(-32768 * 6000 <= a.0 * count <= 32768 * 6000) by (nonlinear_arith)
                    requires
                        -32768 <= a.0 <= 32767,
                        1 <= count <= 6000,
                {}
                assert(-32768 * 6000 <= a.1 * count <= 32768 * 6000) by (nonlinear_arith)
                    requires
                        -32768 <= a.1 <= 32767,
                        1 <= count <= 6000,
                {}
                assert(-65535 * 6000 <= dx * index <= 65535 * 6000) by (nonlinear_arith)
                    requires
                        -65535 <= dx <= 65535,
                        1 <= index <= 6000,
                {}
                assert(-65535 * 6000 <= dy * index <= 65535 * 6000) by (nonlinear_arith)
                    requires
                        -65535 <= dy <= 65535,
                        1 <= index <= 6000,
                {}
            }
            let x: i64 = round_to(a.0 as i64 * count + dx * index, count);
            let y: i64 = round_to(a.1 as i64 * count + dy * index, count);
            let ghost before = base + whole.take(index - 1);
            let ghost after = base + whole.take(index as int);
            proof {
                assert(whole[index - 1] == (x as int, y as int));
                assert(after =~= before.push((x as int, y as int)));
                assert(after.drop_last() =~= before);
            }
            if x != last_x || y != last_y {
                let ghost held = steps@;
                steps.push(((x - last_x) as i32, (y - last_y) as i32));
                assert(step_views(steps@) =~= step_views(held).push(
                    ((x - last_x) as int, (y - last_y) as int),
                ));
                last_x = x;
                last_y = y;
            }
            index = index + 1;
        }
        proof {
            assert(whole.take(count as int) =~= whole);
        }
        k = k + 1;
    }
    steps
}

// ---------------------------------------------------------------------------
// Reports
// ---------------------------------------------------------------------------
/// An event that the server reports once it has processed it.
#[derive(Clone, Copy, Debug, PartialEq, Eq, Structural)]
pub enum Raw {
    ButtonPress(u8),
    ButtonRelease(u8),
    Motion,
    /// A detent of the wheel: a motion, or one of the wheel's buttons.
    Wheel,
    KeyPress(u8),
    KeyRelease(u8),
}

/// The kind of a report.
#[derive(Clone, Copy, Debug, PartialEq, Eq, Structural)]
pub enum ReportKind {
    ButtonPress,
    ButtonRelease,
    Motion,
    KeyPress,
    KeyRelease,
    Other,
}

/// A report: its kind, its devices and what it is about.
#[derive(Clone, Copy, Debug, PartialEq, Eq, Structural)]
pub struct Report {
    pub kind: ReportKind,
    pub device: u16,
    pub source: u16,
    pub detail: u32,
}

/// The report is of the device and confirms the event.
pub open spec fn confirms(report: Report, device: u16, raw: Raw) -> bool {
    (report.device == device || report.source == device) && match raw {
        Raw::ButtonPress(button) => report.kind == ReportKind::ButtonPress && report.detail
            == button,
        Raw::ButtonRelease(button) => report.kind == ReportKind::ButtonRelease && report.detail
            == button,
        Raw::Motion => report.kind == ReportKind::Motion,
        Raw::Wheel => report.kind == ReportKind::Motion || (report.kind == ReportKind::ButtonPress
            && 4 <= report.detail <= 7),
        Raw::KeyPress(code) => report.kind == ReportKind::KeyPress && report.detail == code,
        Raw::KeyRelease(code) => report.kind == ReportKind::KeyRelease && report.detail == code,
    }
}

/// Whether a report is of the device and confirms the event.
pub fn raw_matches(report: Report, device: u16, raw: Raw) -> (r: bool)
    ensures
        r == confirms(report, device, raw),
{
    let ours = report.device == device || report.source == device;
    let fits = match raw {
        Raw::ButtonPress(button) => report.kind == ReportKind::ButtonPress && report.detail
            == button as u32,
        Raw::ButtonRelease(button) => report.kind == ReportKind::ButtonRelease && report.detail
            == button as u32,
        Raw::Motion => report.kind == ReportKind::Motion,
        Raw::Wheel => report.kind == ReportKind::Motion || (report.kind == ReportKind::ButtonPress
            && 4 <= report.detail && report.detail <= 7),
        Raw::KeyPress(code) => report.kind == ReportKind::KeyPress && report.detail == code as u32,
        Raw::KeyRelease(code) => report.kind == ReportKind::KeyRelease && report.detail
            == code as u32,
    };
    ours && fits
}

/// How long the server may take to confirm an event, in milliseconds.
pub open spec fn confirm_timeout(raw: Raw) -> u64 {
    if raw is KeyPress || raw is KeyRelease {
        1500
    } else {
        1000
    }
}

/// What the wait for a confirmation comes to.
#[derive(Clone, Copy, Debug, PartialEq, Eq, Structural)]
pub enum Wait {
    Confirmed,
    /// The time is up.
    GaveUp,
    GoOn,
}

/// The wait until the server has reported an event of a device so often.
#[derive(Clone, Copy, Debug, PartialEq, Eq, Structural)]
pub struct Confirmation {
    pub device: u16,
    pub raw: Raw,
    /// How many reports are missing.
    pub missing: usize,
}

impl Confirmation {
    /// Starts to wait for so many reports.
    pub fn new(device: u16, raw: Raw, count: usize) -> (c: Confirmation)
        ensures
            c == (Confirmation { device, raw, missing: count }),
    {
        Confirmation { device, raw, missing: count }
    }

    /// Takes note of a report.
    pub fn saw(&mut self, report: Report)
        ensures
            *final(self) == (Confirmation {
                missing: if old(self).missing > 0 && confirms(
                    report,
                    old(self).device,
                    old(self).raw,
                ) {
                    (old(self).missing - 1) as usize
                } else {
                    old(self).missing
                },
                ..*old(self)
            }),
    {
        if self.missing > 0 && raw_matches(report, self.device, self.raw) {
            self.missing = self.missing - 1;
        }
    }

    /// What the wait comes to after so many milliseconds. What was reported counts
    /// even where the time is up.
    pub fn verdict(&self, elapsed: u64) -> (w: Wait)
        ensures
            w == (if self.missing == 0 {
                Wait::Confirmed
            } else if elapsed >= confirm_timeout(self.raw) {
                Wait::GaveUp
            } else {
                Wait::GoOn
            }),
    {
        let timeout: u64 = match self.raw {
            Raw::KeyPress(_) => 1500,
            Raw::KeyRelease(_) => 1500,
            _ => 1000,
        };
        if self.missing == 0 {
            Wait::Confirmed
        } else if elapsed >= timeout {
            Wait::GaveUp
        } else {
            Wait::GoOn
        }
    }
}

/// What came of a gesture's own part.
#[derive(Clone, Copy, Debug, PartialEq, Eq, Structural)]
pub enum Body {
    /// All was sent, and the server confirmed it.
    Confirmed,
    /// All was sent, and the server did not confirm it.
    Unconfirmed,
    /// Something could not be sent.
    Failed,
}

/// How a gesture ends.
#[derive(Clone, Copy, Debug, PartialEq, Eq, Structural)]
pub enum Outcome {
    /// Delivered.
    Done,
    /// The server did not confirm it: it may or may not have been delivered.
    Uncertain,
    /// It failed while sending.
    Failed,
}

/// What follows from a gesture: how it ends, whether the pair may still be aimed
/// at another window, and whether the cursor goes back to its corner.
#[derive(Clone, Copy, Debug, PartialEq, Eq, Structural)]
pub struct Settled {
    pub outcome: Outcome,
    /// The pair must not be used again.
    pub uncertain: bool,
    pub park: bool,
}

/// What follows from a gesture. The cursor moves away only when all of it is
/// confirmed: an event in flight would land where the cursor is then.
pub fn settle(body: Body, button_released: bool, keys_released: bool, park_after: bool) -> (s: Settled)
    ensures
        s.outcome == (match body {
            Body::Failed => Outcome::Failed,
            _ => if !button_released {
                Outcome::Failed
            } else if body == Body::Confirmed && keys_released {
                Outcome::Done
            } else {
                Outcome::Uncertain
            },
        }),
        s.uncertain == (s.outcome != Outcome::Done),
        s.park == (s.outcome == Outcome::Done && park_after),
{
    let outcome = match body {
        Body::Failed => Outcome::Failed,
        Body::Confirmed => if !button_released {
            Outcome::Failed
        } else if keys_released {
            Outcome::Done
        } else {
            Outcome::Uncertain
        },
        Body::Unconfirmed => if !button_released {
            Outcome::Failed
        } else {
            Outcome::Uncertain
        },
    };
    let done = outcome == Outcome::Done;
    Settled { outcome, uncertain: !done, park: done && park_after }
}

/// A device of the server.
pub struct DeviceInfo {
    pub id: u16,
    pub kind: DeviceKind,
    pub name: Vec<char>,
}

/// The kind of a device.
#[derive(Clone, Copy, Debug, PartialEq, Eq, Structural)]
pub enum DeviceKind {
    MasterPointer,
    MasterKeyboard,
    SlavePointer,
    SlaveKeyboard,
    FloatingSlave,
    Other,
}

/// The device is of the kind, or floats where that is accepted, and has the name.
pub open spec fn device_fits(d: DeviceInfo, name: Seq<char>, kind: DeviceKind, floating: bool) -> bool {
    d.name@ == name && (d.kind == kind || (floating && d.kind == DeviceKind::FloatingSlave))
}

/// The first fitting device at or after `i`.
pub open spec fn device_at(
    devices: Seq<DeviceInfo>,
    name: Seq<char>,
    kind: DeviceKind,
    floating: bool,
    i: int,
) -> Option<u16>
    decreases devices.len() - i,
{
    if i < 0 || i >= devices.len() {
        None
    } else if device_fits(devices[i], name, kind, floating) {
        Some(devices[i].id)
    } else {
        device_at(devices, name, kind, floating, i + 1)
    }
}

/// The first device of a name and a kind; a floating one too where that is
/// accepted.
pub fn find_device(devices: &Vec<DeviceInfo>, name: &[char], kind: DeviceKind, floating: bool) -> (r:
    Option<u16>)
    ensures
        r == device_at(devices@, name@, kind, floating, 0),
{
    let mut i: usize = 0;
    while i < devices.len()
        invariant
            i <= devices@.len(),
            device_at(devices@, name@, kind, floating, 0) == device_at(
                devices@,
                name@,
                kind,
                floating,
                i as int,
            ),
        decreases devices@.len() - i,
    {
        let d = &devices[i];
        if same_chars(d.name.as_slice(), name) && (d.kind == kind || (floating && d.kind
            == DeviceKind::FloatingSlave)) {
            return Some(d.id);
        }
        i = i + 1;
    }
    None
}

/// The device is the pointer of an owner that is provably gone.
pub open spec fn is_orphan(d: DeviceInfo, start_of: StartOf, current: Owner) -> bool {
    d.kind == DeviceKind::MasterPointer && (owner_named(d.name@) matches Some(owner) && stale(
        owner,
        current,
        start_of,
    ))
}

/// The pointers of gone owners among the first `n` devices.
pub open spec fn orphans_of(
    devices: Seq<DeviceInfo>,
    starts: Seq<StartOf>,
    current: Owner,
    n: int,
) -> Seq<u16>
    decreases n,
{
    if n <= 0 {
        Seq::empty()
    } else {
        let earlier = orphans_of(devices, starts, current, n - 1);
        if is_orphan(devices[n - 1], starts[n - 1], current) {
            earlier.push(devices[n - 1].id)
        } else {
            earlier
        }
    }
}

/// The pointers that killed processes left behind. `starts` says of each device
/// when the process in its name started.
pub fn orphans(devices: &Vec<DeviceInfo>, starts: &Vec<StartOf>, current: &Owner) -> (out: Vec<u16>)
    requires
        devices@.len() == starts@.len(),
    ensures
        out@ == orphans_of(devices@, starts@, *current, devices@.len() as int),
{
    let mut out: Vec<u16> = Vec::new();
    let mut i: usize = 0;
    while i < devices.len()
        invariant
            i <= devices@.len(),
            devices@.len() == starts@.len(),
            out@ == orphans_of(devices@, starts@, *current, i as int),
        decreases devices@.len() - i,
    {
        let d = &devices[i];
        if d.kind == DeviceKind::MasterPointer {
            let name = string_of(d.name.as_slice());
            if let Some(owner) = Owner::from_pointer_name(name.as_str()) {
                if owner.is_stale_for(current, starts[i]) {
                    out.push(d.id);
                }
            }
        }
        i = i + 1;
    }
    out
}

/// A process leaves its own pair, and those of running processes, in place.
pub proof fn law_running_owners_are_kept(d: DeviceInfo, owner: Owner, current: Owner)
    requires
        owner_named(d.name@) == Some(owner),
    ensures
        owner == current ==> forall|s: StartOf| !(#[trigger] is_orphan(d, s, current)),
        owner.pid != current.pid ==> !is_orphan(d, StartOf::At(owner.start), current),
        owner.domain != current.domain ==> forall|s: StartOf| !(#[trigger] is_orphan(d, s, current)),
{
}

/// What looking for a fresh pair of masters gives.
#[derive(Clone, Copy, Debug, PartialEq, Eq, Structural)]
pub enum Masters {
    Pair { pointer: u16, keyboard: u16 },
    /// Only the pointer is there, which has to be removed.
    PointerAlone { pointer: u16 },
    Missing,
}

/// The name of a master: that of the pair, a space and its part.
pub open spec fn part_name(name: Seq<char>, part: Seq<char>) -> Seq<char> {
    name + seq![' '] + part
}

fn name_of_part(name: &str, part: &str) -> (out: Vec<char>)
    ensures
        out@ == part_name(name@, part@),
{
    let mut out = literal(name);
    out.push(' ');
    let mut more = literal(part);
    out.append(&mut more);
    assert(out@ =~= part_name(name@, part@));
    out
}

/// The two masters of a name.
pub fn find_masters(devices: &Vec<DeviceInfo>, name: &str) -> (r: Masters)
    ensures
        ({
            let pointer = device_at(
                devices@,
                part_name(name@, "pointer"@),
                DeviceKind::MasterPointer,
                false,
                0,
            );
            let keyboard = device_at(
                devices@,
                part_name(name@, "keyboard"@),
                DeviceKind::MasterKeyboard,
                false,
                0,
            );
            r == match (pointer, keyboard) {
                (Some(pointer), Some(keyboard)) => Masters::Pair { pointer, keyboard },
                (Some(pointer), None) => Masters::PointerAlone { pointer },
                _ => Masters::Missing,
            }
        }),
{
    let pointer_name = name_of_part(name, "pointer");
    let keyboard_name = name_of_part(name, "keyboard");
    let pointer = find_device(
        devices,
        pointer_name.as_slice(),
        DeviceKind::MasterPointer,
        false,
    );
    let keyboard = find_device(
        devices,
        keyboard_name.as_slice(),
        DeviceKind::MasterKeyboard,
        false,
    );
    match (pointer, keyboard) {
        (Some(pointer), Some(keyboard)) => Masters::Pair { pointer, keyboard },
        (Some(pointer), None) => Masters::PointerAlone { pointer },
        _ => Masters::Missing,
    }
}

/// A step of creating the pair.
#[derive(Clone, Copy, Debug, PartialEq, Eq, Structural)]
pub enum Stage {
    /// Ask for the version of the input extension.
    Version,
    /// Create the kernel's pointer device, before anything on the server.
    Device,
    /// Add the masters.
    AddMasters,
    /// Look for them.
    FindMasters,
    /// Wait for the pointer device to become a slave.
    WaitForSlave,
    /// Attach it to the master pointer.
    Attach,
    /// Select its reports.
    Select,
    /// The pair can be used.
    Ready,
}

/// What to do after a step.
#[derive(Clone, Copy, Debug, PartialEq, Eq, Structural)]
pub enum Next {
    Go(Stage),
    /// Give up; nothing is left behind.
    GiveUp,
    /// Remove the master pointer, then give up.
    RemoveMaster,
}

/// The step behind one that succeeded.
pub open spec fn stage_after(stage: Stage) -> Stage {
    match stage {
        Stage::Version => Stage::Device,
        Stage::Device => Stage::AddMasters,
        Stage::AddMasters => Stage::FindMasters,
        Stage::FindMasters => Stage::WaitForSlave,
        Stage::WaitForSlave => Stage::Attach,
        Stage::Attach => Stage::Select,
        Stage::Select => Stage::Ready,
        Stage::Ready => Stage::Ready,
    }
}

/// A failure at this step leaves known masters behind.
pub open spec fn masters_known(stage: Stage) -> bool {
    stage == Stage::WaitForSlave || stage == Stage::Attach || stage == Stage::Select
}

/// Creates the pair step by step: what to do when a step succeeded or failed.
pub fn create_next(stage: Stage, succeeded: bool) -> (next: Next)
    ensures
        next == (if succeeded {
            Next::Go(stage_after(stage))
        } else if masters_known(stage) {
            Next::RemoveMaster
        } else {
            Next::GiveUp
        }),
{
    if succeeded {
        return Next::Go(
            match stage {
                Stage::Version => Stage::Device,
                Stage::Device => Stage::AddMasters,
                Stage::AddMasters => Stage::FindMasters,
                Stage::FindMasters => Stage::WaitForSlave,
                Stage::WaitForSlave => Stage::Attach,
                Stage::Attach => Stage::Select,
                Stage::Select => Stage::Ready,
                Stage::Ready => Stage::Ready,
            },
        );
    }
    match stage {
        Stage::WaitForSlave => Next::RemoveMaster,
        Stage::Attach => Next::RemoveMaster,
        Stage::Select => Next::RemoveMaster,
        _ => Next::GiveUp,
    }
}

/// Whether the server's input extension is recent enough: version 2.2.
pub fn version_suffices(major: u16, minor: u16) -> (r: bool)
    ensures
        r == (major > 2 || (major == 2 && minor >= 2)),
{
    major > 2 || (major == 2 && minor >= 2)
}

/// The last pixel of a screen side, as far as the protocol can say it.
pub fn corner(size: u16) -> (c: i16)
    ensures
        c == (if size == 0 {
            0
        } else if size - 1 > 32767 {
            32767
        } else {
            size - 1
        }),
{
    if size == 0 {
        0
    } else if size - 1 > 32767 {
        32767
    } else {
        (size - 1) as i16
    }
}

/// The side step from which a hover moves onto its point.
pub fn hover_from(x: i16) -> (r: (i16, i16))
    ensures
        r.1 == (if x > 0 {
            1i16
        } else {
            -1i16
        }),
        r.0 == x - r.1,
{
    let step: i16 = if x > 0 {
        1
    } else {
        -1
    };
    (x - step, step)
}

/// The length field of a hierarchy change with so many bytes of payload, in
/// words.
pub fn hierarchy_len(payload_bytes: usize) -> (words: u16)
    requires
        payload_bytes <= usize::MAX - 8,
    ensures
        words == (if (payload_bytes + 7) / 4 > 65535 {
            65535
        } else {
            (payload_bytes + 7) / 4
        }),
{
    let n: usize = (payload_bytes + 7) / 4;
    if n > 65535 {
        65535
    } else {
        n as u16
    }
}

} // verus!
