//! Little-endian numbers and a cursor over bytes.

use vstd::prelude::*;
use vstd::slice::slice_to_vec;

verus! {

/// The two bytes of `x`, low byte first.
pub open spec fn le16(x: u16) -> Seq<u8> {
    seq![(x % 256) as u8, (x / 256) as u8]
}

/// The four bytes of `x`, low byte first.
pub open spec fn le32(x: u32) -> Seq<u8> {
    seq![
        (x % 256) as u8,
        (x / 256 % 256) as u8,
        (x / 65536 % 256) as u8,
        (x / 16777216) as u8,
    ]
}

/// The eight bytes of `x`, low byte first.
pub open spec fn le64(x: u64) -> Seq<u8> {
    le32((x % 0x1_0000_0000) as u32) + le32((x / 0x1_0000_0000) as u32)
}

/// The number in two bytes at `at`.
pub open spec fn u16_at(b: Seq<u8>, at: int) -> int {
    b[at] + 256 * b[at + 1]
}

/// The number in four bytes at `at`.
pub open spec fn u32_at(b: Seq<u8>, at: int) -> int {
    b[at] + 256 * b[at + 1] + 65536 * b[at + 2] + 16777216 * b[at + 3]
}

/// The number in eight bytes at `at`.
pub open spec fn u64_at(b: Seq<u8>, at: int) -> int {
    u32_at(b, at) + 0x1_0000_0000 * u32_at(b, at + 4)
}

/// `count` numbers of four bytes each from `at` on.
pub open spec fn u32s_at(b: Seq<u8>, at: int, count: nat) -> Seq<u32> {
    Seq::new(count, |k: int| u32_at(b, at + 4 * k) as u32)
}

/// Reading two bytes gives back the number that was written.
pub proof fn lemma_le16(x: u16)
    ensures
        le16(x).len() == 2,
        u16_at(le16(x), 0) == x,
{
}

/// Reading four bytes gives back the number that was written.
pub proof fn lemma_le32(x: u32)
    ensures
        le32(x).len() == 4,
        u32_at(le32(x), 0) == x,
{
    let a = x as int;
    assert(a == a % 256 + 256 * (a / 256));
    assert(a / 65536 == (a / 256) / 256);
    assert(a / 16777216 == (a / 65536) / 256);
}

/// Reading eight bytes gives back the number that was written.
pub proof fn lemma_le64(x: u64)
    ensures
        le64(x).len() == 8,
        u64_at(le64(x), 0) == x,
{
    let lo = (x % 0x1_0000_0000) as u32;
    let hi = (x / 0x1_0000_0000) as u32;
    lemma_le32(lo);
    lemma_le32(hi);
    let b = le64(x);
    assert(b[4] == le32(hi)[0] && b[5] == le32(hi)[1] && b[6] == le32(hi)[2] && b[7] == le32(
        hi,
    )[3]);
    assert(u32_at(b, 4) == u32_at(le32(hi), 0));
    assert(u32_at(b, 0) == u32_at(le32(lo), 0));
}

/// Appends two bytes.
pub fn put_u16(out: &mut Vec<u8>, x: u16)
    ensures
        final(out)@ == old(out)@ + le16(x),
{
    let ghost before = out@;
    out.push((x % 256) as u8);
    out.push((x / 256) as u8);
    assert(out@ =~= before + le16(x));
}

/// Appends four bytes.
pub fn put_u32(out: &mut Vec<u8>, x: u32)
    ensures
        final(out)@ == old(out)@ + le32(x),
{
    let ghost before = out@;
    out.push((x % 256) as u8);
    out.push((x / 256 % 256) as u8);
    out.push((x / 65536 % 256) as u8);
    out.push((x / 16777216) as u8);
    assert(out@ =~= before + le32(x));
}

/// Appends eight bytes.
pub fn put_u64(out: &mut Vec<u8>, x: u64)
    ensures
        final(out)@ == old(out)@ + le64(x),
{
    let ghost before = out@;
    put_u32(out, (x % 0x1_0000_0000) as u32);
    put_u32(out, (x / 0x1_0000_0000) as u32);
    assert(out@ =~= before + le64(x));
}

/// Appends bytes as they are.
pub fn put_bytes(out: &mut Vec<u8>, bytes: &[u8])
    ensures
        final(out)@ == old(out)@ + bytes@,
{
    let ghost before = out@;
    let mut i: usize = 0;
    assert(before + bytes@.take(0) =~= before);
    while i < bytes.len()
        invariant
            i <= bytes@.len(),
            out@ == before + bytes@.take(i as int),
        decreases bytes@.len() - i,
    {
        out.push(bytes[i]);
        assert(before + bytes@.take(i + 1) =~= (before + bytes@.take(i as int)).push(
            bytes@[i as int],
        ));
        i = i + 1;
    }
    assert(bytes@.take(i as int) =~= bytes@);
}

/// The number in four bytes at `at`.
pub fn get_u32(b: &[u8], at: usize) -> (x: u32)
    requires
        at + 4 <= b@.len(),
    ensures
        x == u32_at(b@, at as int),
{
    let total: usize = b.len();
    b[at] as u32 + 256 * (b[at + 1] as u32) + 65536 * (b[at + 2] as u32) + 16777216 * (b[at
        + 3] as u32)
}

/// A cursor over bytes.
pub struct Reader<'a> {
    pub bytes: &'a [u8],
    pub at: usize,
}

impl<'a> Reader<'a> {
    /// The cursor is within the bytes.
    pub open spec fn wf(&self) -> bool {
        self.at <= self.bytes@.len()
    }

    /// A cursor at the start.
    pub fn new(bytes: &'a [u8]) -> (r: Reader<'a>)
        ensures
            r.wf(),
            r.bytes@ == bytes@,
            r.at == 0,
    {
        Reader { bytes, at: 0 }
    }

    /// The next `len` bytes, or nothing when fewer are left.
    pub fn take(&mut self, len: usize) -> (r: Option<&'a [u8]>)
        requires
            old(self).wf(),
        ensures
            final(self).wf(),
            final(self).bytes == old(self).bytes,
            match r {
                Some(part) => {
                    &&& old(self).at + len <= old(self).bytes@.len()
                    &&& final(self).at == old(self).at + len
                    &&& part@ == old(self).bytes@.subrange(old(self).at as int, final(self).at as int)
                },
                None => old(self).at + len > old(self).bytes@.len() && final(self).at == old(
                    self,
                ).at,
            },
    {
        if len > self.bytes.len() - self.at {
            return None;
        }
        let start: usize = self.at;
        self.at = start + len;
        Some(&self.bytes[start..start + len])
    }

    /// The next two bytes as a number.
    pub fn u16(&mut self) -> (r: Option<u16>)
        requires
            old(self).wf(),
        ensures
            final(self).wf(),
            final(self).bytes == old(self).bytes,
            match r {
                Some(x) => {
                    &&& old(self).at + 2 <= old(self).bytes@.len()
                    &&& final(self).at == old(self).at + 2
                    &&& x == u16_at(old(self).bytes@, old(self).at as int)
                },
                None => old(self).at + 2 > old(self).bytes@.len() && final(self).at == old(self).at,
            },
    {
        if self.bytes.len() - self.at < 2 {
            return None;
        }
        let at: usize = self.at;
        self.at = at + 2;
        Some(self.bytes[at] as u16 + 256 * (self.bytes[at + 1] as u16))
    }

    /// The next four bytes as a number.
    pub fn u32(&mut self) -> (r: Option<u32>)
        requires
            old(self).wf(),
        ensures
            final(self).wf(),
            final(self).bytes == old(self).bytes,
            match r {
                Some(x) => {
                    &&& old(self).at + 4 <= old(self).bytes@.len()
                    &&& final(self).at == old(self).at + 4
                    &&& x == u32_at(old(self).bytes@, old(self).at as int)
                },
                None => old(self).at + 4 > old(self).bytes@.len() && final(self).at == old(self).at,
            },
    {
        if self.bytes.len() - self.at < 4 {
            return None;
        }
        let at: usize = self.at;
        self.at = at + 4;
        Some(get_u32(self.bytes, at))
    }

    /// The next eight bytes as a number.
    pub fn u64(&mut self) -> (r: Option<u64>)
        requires
            old(self).wf(),
        ensures
            final(self).wf(),
            final(self).bytes == old(self).bytes,
            match r {
                Some(x) => {
                    &&& old(self).at + 8 <= old(self).bytes@.len()
                    &&& final(self).at == old(self).at + 8
                    &&& x == u64_at(old(self).bytes@, old(self).at as int)
                },
                None => old(self).at + 8 > old(self).bytes@.len() && final(self).at == old(self).at,
            },
    {
        if self.bytes.len() - self.at < 8 {
            return None;
        }
        let at: usize = self.at;
        self.at = at + 8;
        Some(get_u32(self.bytes, at) as u64 + 0x1_0000_0000 * (get_u32(self.bytes, at + 4) as u64))
    }

    /// The next `n` four-byte numbers.
    pub fn u32s(&mut self, n: usize) -> (r: Option<Vec<u32>>)
        requires
            old(self).wf(),
        ensures
            final(self).wf(),
            final(self).bytes == old(self).bytes,
            match r {
                Some(list) => {
                    &&& old(self).at + 4 * n <= old(self).bytes@.len()
                    &&& final(self).at == old(self).at + 4 * n
                    &&& list@ == u32s_at(old(self).bytes@, old(self).at as int, n as nat)
                },
                None => old(self).at + 4 * n > old(self).bytes@.len() && final(self).at == old(
                    self,
                ).at,
            },
    {
        if n > (self.bytes.len() - self.at) / 4 {
            return None;
        }
        let start: usize = self.at;
        let mut list: Vec<u32> = Vec::new();
        let mut i: usize = 0;
        while i < n
            invariant
                i <= n,
                start + 4 * n <= self.bytes@.len(),
                self.bytes == old(self).bytes,
                self.at == start,
                list@.len() == i,
                forall|k: int|
                    0 <= k < i ==> #[trigger] list@[k] == u32_at(self.bytes@, start + 4 * k) as u32,
            decreases n - i,
        {
            let total: usize = self.bytes.len();
            list.push(get_u32(self.bytes, start + 4 * i));
            i = i + 1;
        }
        self.at = start + 4 * n;
        assert(list@ =~= u32s_at(old(self).bytes@, old(self).at as int, n as nat));
        Some(list)
    }
}

/// A copy of bytes.
pub fn copy_bytes(bytes: &[u8]) -> (out: Vec<u8>)
    ensures
        out@ == bytes@,
{
    slice_to_vec(bytes)
}

} // verus!
