//! Little-endian byte helpers shared by the page formats.
use vstd::bytes::*;
use vstd::prelude::*;
use vstd::slice::*;

verus! {

/// `n` zero bytes.
pub open spec fn zero_bytes(n: nat) -> Seq<u8> {
    Seq::new(n, |i: int| 0u8)
}

/// Two little-endian bytes holding `n` (truncated to 16 bits).
pub open spec fn le16(n: nat) -> Seq<u8> {
    spec_u16_to_le_bytes(n as u16)
}

/// Four little-endian bytes holding `x`.
pub open spec fn le32(x: u32) -> Seq<u8> {
    spec_u32_to_le_bytes(x)
}

/// The 32-bit little-endian value stored at `pos` in `b`.
pub open spec fn u32_at(b: Seq<u8>, pos: int) -> u32 {
    spec_u32_from_le_bytes(b.subrange(pos, pos + 4))
}

pub proof fn lemma_le32_roundtrip(x: u32)
    ensures
        le32(x).len() == 4,
        spec_u32_from_le_bytes(le32(x)) == x,
{
    lemma_auto_spec_u32_to_from_le_bytes();
    assert(spec_u32_to_le_bytes(x).len() == 4);
}

/// Appends `x` as four little-endian bytes.
pub fn push_u32(buf: &mut Vec<u8>, x: u32)
    ensures
        final(buf)@ == old(buf)@ + le32(x),
{
    let b = u32_to_le_bytes(x);
    push_slice(buf, b.as_slice());
}

/// Reads the 32-bit little-endian value at `pos`.
pub fn read_u32(b: &[u8], pos: usize) -> (x: u32)
    requires
        pos + 4 <= b@.len(),
    ensures
        x == u32_at(b@, pos as int),
{
    let _n = b.len();
    u32_from_le_bytes(slice_subrange(b, pos, pos + 4))
}

/// Eight little-endian bytes holding `x`.
pub open spec fn le64(x: u64) -> Seq<u8> {
    spec_u64_to_le_bytes(x)
}

/// The 16-bit little-endian value stored at `pos` in `b`.
pub open spec fn u16_at(b: Seq<u8>, pos: int) -> u16 {
    spec_u16_from_le_bytes(b.subrange(pos, pos + 2))
}

/// The 64-bit little-endian value stored at `pos` in `b`.
pub open spec fn u64_at(b: Seq<u8>, pos: int) -> u64 {
    spec_u64_from_le_bytes(b.subrange(pos, pos + 8))
}

pub proof fn lemma_le16_roundtrip(n: nat)
    requires
        n <= u16::MAX,
    ensures
        le16(n).len() == 2,
        spec_u16_from_le_bytes(le16(n)) == n,
{
    lemma_auto_spec_u16_to_from_le_bytes();
    assert(spec_u16_to_le_bytes(n as u16).len() == 2);
}

pub proof fn lemma_le64_roundtrip(x: u64)
    ensures
        le64(x).len() == 8,
        spec_u64_from_le_bytes(le64(x)) == x,
{
    lemma_auto_spec_u64_to_from_le_bytes();
    assert(spec_u64_to_le_bytes(x).len() == 8);
}

/// Appends the bytes of `src` to `buf`.
pub fn push_slice(buf: &mut Vec<u8>, src: &[u8])
    ensures
        final(buf)@ == old(buf)@ + src@,
{
    let n = src.len();
    let mut i: usize = 0;
    while i < n
        invariant
            n == src@.len(),
            i <= n,
            buf@ == old(buf)@ + src@.subrange(0, i as int),
        decreases n - i,
    {
        buf.push(src[i]);
        i = i + 1;
        assert(src@.subrange(0, i as int) == src@.subrange(0, i - 1).push(src@[i - 1]));
    }
    assert(src@.subrange(0, n as int) == src@);
}

/// Appends `x` as two little-endian bytes.
pub fn push_u16(buf: &mut Vec<u8>, x: u16)
    ensures
        final(buf)@ == old(buf)@ + spec_u16_to_le_bytes(x),
{
    let b = u16_to_le_bytes(x);
    push_slice(buf, b.as_slice());
}

/// Appends `x` as eight little-endian bytes.
pub fn push_u64(buf: &mut Vec<u8>, x: u64)
    ensures
        final(buf)@ == old(buf)@ + le64(x),
{
    let b = u64_to_le_bytes(x);
    push_slice(buf, b.as_slice());
}

/// Appends `n` zero bytes.
pub fn push_zeros(buf: &mut Vec<u8>, n: usize)
    ensures
        final(buf)@ == old(buf)@ + zero_bytes(n as nat),
{
    let mut i: usize = 0;
    while i < n
        invariant
            i <= n,
            buf@ == old(buf)@ + zero_bytes(i as nat),
        decreases n - i,
    {
        buf.push(0u8);
        i = i + 1;
        assert(zero_bytes(i as nat) == zero_bytes((i - 1) as nat).push(0u8));
    }
}

/// Reads the 16-bit little-endian value at `pos`.
pub fn read_u16(b: &[u8], pos: usize) -> (x: u16)
    requires
        pos + 2 <= b@.len(),
    ensures
        x == u16_at(b@, pos as int),
{
    let _n = b.len();
    u16_from_le_bytes(slice_subrange(b, pos, pos + 2))
}

/// Reads the 64-bit little-endian value at `pos`.
pub fn read_u64(b: &[u8], pos: usize) -> (x: u64)
    requires
        pos + 8 <= b@.len(),
    ensures
        x == u64_at(b@, pos as int),
{
    let _n = b.len();
    u64_from_le_bytes(slice_subrange(b, pos, pos + 8))
}

/// A fresh vector holding the bytes of `src`.
pub fn to_vec(src: &[u8]) -> (v: Vec<u8>)
    ensures
        v@ == src@,
{
    let mut v: Vec<u8> = Vec::new();
    push_slice(&mut v, src);
    v
}

/// Whether two byte strings are equal.
pub fn bytes_eq(a: &[u8], b: &[u8]) -> (r: bool)
    ensures
        r == (a@ == b@),
{
    if a.len() != b.len() {
        return false;
    }
    let n = a.len();
    let mut i: usize = 0;
    while i < n
        invariant
            n == a@.len(),
            n == b@.len(),
            i <= n,
            forall|j: int| 0 <= j < i ==> a@[j] == b@[j],
        decreases n - i,
    {
        if a[i] != b[i] {
            return false;
        }
        i = i + 1;
    }
    assert(a@ =~= b@);
    true
}

} // verus!
