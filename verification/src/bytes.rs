//! Byte strings: big-endian integers, fixed-size fields and slices.

use vstd::prelude::*;

verus! {

/// Big-endian bytes of a 16-bit integer.
pub open spec fn be16(v: u16) -> Seq<u8> {
    seq![(v / 256) as u8, (v % 256) as u8]
}

/// Big-endian bytes of a 32-bit integer.
pub open spec fn be32(v: u32) -> Seq<u8> {
    seq![
        (v / 0x100_0000) as u8,
        ((v / 0x1_0000) % 256) as u8,
        ((v / 256) % 256) as u8,
        (v % 256) as u8,
    ]
}

/// Big-endian bytes of a 64-bit integer.
pub open spec fn be64(v: u64) -> Seq<u8> {
    be32((v / 0x1_0000_0000) as u32) + be32((v % 0x1_0000_0000) as u32)
}

/// The 16-bit integer whose big-endian bytes stand at `off`.
pub open spec fn be16_at(s: Seq<u8>, off: int) -> u16 {
    (s[off] * 256 + s[off + 1]) as u16
}

/// The 32-bit integer whose big-endian bytes stand at `off`.
pub open spec fn be32_at(s: Seq<u8>, off: int) -> u32 {
    (s[off] * 0x100_0000 + s[off + 1] * 0x1_0000 + s[off + 2] * 256 + s[off + 3]) as u32
}

/// The 64-bit integer whose big-endian bytes stand at `off`.
pub open spec fn be64_at(s: Seq<u8>, off: int) -> u64 {
    (be32_at(s, off) * 0x1_0000_0000 + be32_at(s, off + 4)) as u64
}

/// Reading back a 16-bit integer that was written big-endian.
pub proof fn lemma_be16(v: u16)
    ensures
        be16(v).len() == 2,
        be16_at(be16(v), 0) == v,
{
}

/// Reading back a 32-bit integer that was written big-endian.
pub proof fn lemma_be32(v: u32)
    ensures
        be32(v).len() == 4,
        be32_at(be32(v), 0) == v,
{
}

/// Writing a 32-bit integer that was read gives the bytes that were there.
#[verifier::spinoff_prover]
pub proof fn lemma_be32_at(s: Seq<u8>, off: int)
    requires
        0 <= off,
        off + 4 <= s.len(),
    ensures
        be32(be32_at(s, off)) == s.subrange(off, off + 4),
{
    let (a, b, c, d) = (s[off] as int, s[off + 1] as int, s[off + 2] as int, s[off + 3] as int);
    lemma_digits(a, b, c, d);
    let t = be32(be32_at(s, off));
    let part = s.subrange(off, off + 4);
    assert(t[0] == part[0]);
    assert(t[1] == part[1]);
    assert(t[2] == part[2]);
    assert(t[3] == part[3]);
    assert(t =~= part);
}

/// The digits of a number to the base 256.
#[verifier::spinoff_prover]
proof fn lemma_digits(a: int, b: int, c: int, d: int)
    requires
        0 <= a < 256,
        0 <= b < 256,
        0 <= c < 256,
        0 <= d < 256,
    ensures
        ({
            let v = a * 0x100_0000 + b * 0x1_0000 + c * 256 + d;
            &&& 0 <= v <= u32::MAX
            &&& v / 0x100_0000 == a
            &&& (v / 0x1_0000) % 256 == b
            &&& (v / 256) % 256 == c
            &&& v % 256 == d
        }),
{
    let v = a * 0x100_0000 + b * 0x1_0000 + c * 256 + d;
    assert(v / 0x100_0000 == a);
    assert(v / 0x1_0000 == a * 256 + b);
    assert(v / 256 == a * 0x1_0000 + b * 256 + c);
}

/// Writing a 64-bit integer that was read gives the bytes that were there.
pub proof fn lemma_be64_at(s: Seq<u8>, off: int)
    requires
        0 <= off,
        off + 8 <= s.len(),
    ensures
        be64(be64_at(s, off)) == s.subrange(off, off + 8),
{
    let hi = be32_at(s, off);
    let lo = be32_at(s, off + 4);
    let v = be64_at(s, off);
    assert(v == hi * 0x1_0000_0000 + lo);
    assert((v / 0x1_0000_0000) as u32 == hi);
    assert((v % 0x1_0000_0000) as u32 == lo);
    lemma_be32_at(s, off);
    lemma_be32_at(s, off + 4);
    assert(s.subrange(off, off + 4) + s.subrange(off + 4, off + 8) =~= s.subrange(off, off + 8));
}

/// Reading back a 64-bit integer that was written big-endian.
pub proof fn lemma_be64(v: u64)
    ensures
        be64(v).len() == 8,
        be64_at(be64(v), 0) == v,
{
    let hi = (v / 0x1_0000_0000) as u32;
    let lo = (v % 0x1_0000_0000) as u32;
    lemma_be32(hi);
    lemma_be32(lo);
    assert(be32_at(be64(v), 0) == be32_at(be32(hi), 0));
    assert(be32_at(be64(v), 4) == be32_at(be32(lo), 0));
}

/// What stands at an offset depends only on the bytes there.
pub proof fn lemma_be_at_slice(s: Seq<u8>, off: int)
    ensures
        0 <= off && off + 2 <= s.len() ==> be16_at(s, off) == be16_at(s.subrange(off, off + 2), 0),
        0 <= off && off + 4 <= s.len() ==> be32_at(s, off) == be32_at(s.subrange(off, off + 4), 0),
        0 <= off && off + 8 <= s.len() ==> be64_at(s, off) == be64_at(s.subrange(off, off + 8), 0),
{
}

pub fn push_be16(out: &mut Vec<u8>, v: u16)
    ensures
        final(out)@ == old(out)@ + be16(v),
{
    out.push((v / 256) as u8);
    out.push((v % 256) as u8);
    assert(out@ =~= old(out)@ + be16(v));
}

pub fn push_be32(out: &mut Vec<u8>, v: u32)
    ensures
        final(out)@ == old(out)@ + be32(v),
{
    out.push((v / 0x100_0000) as u8);
    out.push(((v / 0x1_0000) % 256) as u8);
    out.push(((v / 256) % 256) as u8);
    out.push((v % 256) as u8);
    assert(out@ =~= old(out)@ + be32(v));
}

pub fn push_be64(out: &mut Vec<u8>, v: u64)
    ensures
        final(out)@ == old(out)@ + be64(v),
{
    push_be32(out, (v / 0x1_0000_0000) as u32);
    push_be32(out, (v % 0x1_0000_0000) as u32);
    assert(out@ =~= old(out)@ + be64(v));
}

pub fn get_be16(buf: &[u8], off: usize) -> (v: u16)
    requires
        off + 2 <= buf@.len(),
    ensures
        v == be16_at(buf@, off as int),
{
    buf[off] as u16 * 256 + buf[off + 1] as u16
}

pub fn get_be32(buf: &[u8], off: usize) -> (v: u32)
    requires
        off + 4 <= buf@.len(),
    ensures
        v == be32_at(buf@, off as int),
{
    buf[off] as u32 * 0x100_0000 + buf[off + 1] as u32 * 0x1_0000 + buf[off + 2] as u32 * 256
        + buf[off + 3] as u32
}

pub fn get_be64(buf: &[u8], off: usize) -> (v: u64)
    requires
        off + 8 <= buf@.len(),
    ensures
        v == be64_at(buf@, off as int),
{
    assert(buf.len() <= usize::MAX);
    get_be32(buf, off) as u64 * 0x1_0000_0000 + get_be32(buf, off + 4) as u64
}

/// Appends `s` to `out`.
pub fn append(out: &mut Vec<u8>, s: &[u8])
    ensures
        final(out)@ == old(out)@ + s@,
{
    out.extend_from_slice(s);
    assert(out@ =~= old(out)@ + s@);
}

/// The bytes `from..to` of `buf`, copied.
pub fn cut(buf: &[u8], from: usize, to: usize) -> (r: Vec<u8>)
    requires
        from <= to <= buf@.len(),
    ensures
        r@ == buf@.subrange(from as int, to as int),
{
    let mut r: Vec<u8> = Vec::new();
    r.extend_from_slice(&buf[from..to]);
    assert(r@ =~= buf@.subrange(from as int, to as int));
    r
}

/// A copy of a byte string.
pub fn copy_of(b: &[u8]) -> (r: Vec<u8>)
    ensures
        r@ == b@,
{
    let mut r: Vec<u8> = Vec::new();
    r.extend_from_slice(b);
    assert(r@ =~= b@);
    r
}

/// The `N` bytes of `buf` that start at `off`.
pub fn array_at<const N: usize>(buf: &[u8], off: usize) -> (r: [u8; N])
    requires
        off + N <= buf@.len(),
    ensures
        r@ == buf@.subrange(off as int, off + N),
{
    let mut r: [u8; N] = [0u8;N];
    let mut i: usize = 0;
    while i < N
        invariant
            i <= N,
            off + N <= buf@.len(),
            forall|j: int| 0 <= j < i ==> r@[j] == buf@[off + j],
        decreases N - i,
    {
        assert(buf.len() <= usize::MAX);
        r[i] = buf[off + i];
        i = i + 1;
    }
    assert(r@ =~= buf@.subrange(off as int, off + N));
    r
}

/// Whether two byte strings are equal.
pub fn same_bytes(a: &[u8], b: &[u8]) -> (r: bool)
    ensures
        r == (a@ == b@),
{
    if a.len() != b.len() {
        return false;
    }
    let mut i: usize = 0;
    while i < a.len()
        invariant
            i <= a@.len(),
            a@.len() == b@.len(),
            forall|j: int| 0 <= j < i ==> a@[j] == b@[j],
        decreases a@.len() - i,
    {
        if a[i] != b[i] {
            assert(a@[i as int] != b@[i as int]);
            return false;
        }
        i = i + 1;
    }
    assert(a@ =~= b@);
    true
}

/// Whether two arrays are equal.
pub fn same_array<const N: usize>(a: &[u8; N], b: &[u8; N]) -> (r: bool)
    ensures
        r == (a == b),
        r == (a@ == b@),
{
    let r = same_bytes(a, b);
    proof {
        lemma_array_eq(*a, *b);
    }
    r
}

/// Arrays are equal when their contents are.
pub proof fn lemma_array_eq<const N: usize>(a: [u8; N], b: [u8; N])
    ensures
        (a == b) == (a@ == b@),
{
    if a@ == b@ {
        assert forall|i: int| 0 <= i < N implies a[i] == b[i] by {
            assert(a@[i] == b@[i]);
        }
        assert(a =~= b);
    }
}

} // verus!
