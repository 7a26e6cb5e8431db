//! Fixed-width integers as they travel between client and server: little-endian,
//! four bytes for an `i32`, eight bytes for the bit pattern of a double.
//!
//! The byte order is little-endian on every machine. A peer that copies integers in its
//! machine's native order agrees with this on little-endian machines (x86, most ARM setups)
//! and differs on big-endian ones.
use vstd::prelude::*;

verus! {

/// The four bytes of `v`, least significant first.
pub open spec fn u32_le(v: u32) -> Seq<u8> {
    seq![
        (v & 0xff) as u8,
        ((v >> 8) & 0xff) as u8,
        ((v >> 16) & 0xff) as u8,
        ((v >> 24) & 0xff) as u8,
    ]
}

/// The four bytes of the two's complement form of `v`, least significant first.
pub open spec fn i32_le(v: i32) -> Seq<u8> {
    u32_le(v as u32)
}

/// The eight bytes of `v`, least significant first.
pub open spec fn u64_le(v: u64) -> Seq<u8> {
    seq![
        (v & 0xff) as u8,
        ((v >> 8) & 0xff) as u8,
        ((v >> 16) & 0xff) as u8,
        ((v >> 24) & 0xff) as u8,
        ((v >> 32) & 0xff) as u8,
        ((v >> 40) & 0xff) as u8,
        ((v >> 48) & 0xff) as u8,
        ((v >> 56) & 0xff) as u8,
    ]
}

/// The `u32` whose little-endian bytes stand in `b` from `off` on.
pub open spec fn u32_at(b: Seq<u8>, off: int) -> u32 {
    (b[off] as u32) | ((b[off + 1] as u32) << 8) | ((b[off + 2] as u32) << 16) | ((b[off + 3] as u32)
        << 24)
}

/// The `i32` whose little-endian bytes stand in `b` from `off` on.
pub open spec fn i32_at(b: Seq<u8>, off: int) -> i32 {
    u32_at(b, off) as i32
}

/// The `u64` whose little-endian bytes stand in `b` from `off` on.
pub open spec fn u64_at(b: Seq<u8>, off: int) -> u64 {
    (b[off] as u64) | ((b[off + 1] as u64) << 8) | ((b[off + 2] as u64) << 16) | ((b[off + 3] as u64)
        << 24) | ((b[off + 4] as u64) << 32) | ((b[off + 5] as u64) << 40) | ((b[off + 6] as u64)
        << 48) | ((b[off + 7] as u64) << 56)
}

/// `s` with the bytes from `off` on replaced by `b`; its length stays that of `s`.
pub open spec fn splice(s: Seq<u8>, off: int, b: Seq<u8>) -> Seq<u8> {
    Seq::new(s.len(), |j: int| if off <= j < off + b.len() { b[j - off] } else { s[j] })
}

/// Encodes `i` as the four bytes that carry an `i32` on the wire.
pub fn ti(i: i32) -> (buff: [u8; 4])
    ensures
        buff@ == i32_le(i),
{
    let u: u32 = i as u32;
    let buff: [u8; 4] = [
        (u & 0xff) as u8,
        ((u >> 8) & 0xff) as u8,
        ((u >> 16) & 0xff) as u8,
        ((u >> 24) & 0xff) as u8,
    ];
    assert(buff@ =~= i32_le(i));
    buff
}

/// Writes the four bytes of `val` into `arr` from `offset` on.
pub fn ctoi(arr: &mut [u8; 24], val: i32, offset: usize)
    requires
        offset + 4 <= 24,
    ensures
        final(arr)@ == splice(old(arr)@, offset as int, i32_le(val)),
{
    let bytes = ti(val);
    arr[offset] = bytes[0];
    arr[offset + 1] = bytes[1];
    arr[offset + 2] = bytes[2];
    arr[offset + 3] = bytes[3];
    assert(arr@ =~= splice(old(arr)@, offset as int, i32_le(val)));
}

/// Reads the `i32` whose four bytes stand in `arr` from `offset` on.
pub fn ciot(arr: &[u8], offset: usize) -> (val: i32)
    requires
        offset + 4 <= arr@.len(),
    ensures
        val == i32_at(arr@, offset as int),
{
    let u: u32 = (arr[offset] as u32) | ((arr[offset + 1] as u32) << 8) | ((arr[offset + 2] as u32)
        << 16) | ((arr[offset + 3] as u32) << 24);
    u as i32
}

/// Reads the bit pattern of the double whose eight bytes stand in `arr` from `offset` on.
pub fn cdot(arr: &[u8], offset: usize) -> (val: u64)
    requires
        offset + 8 <= arr@.len(),
    ensures
        val == u64_at(arr@, offset as int),
{
    (arr[offset] as u64) | ((arr[offset + 1] as u64) << 8) | ((arr[offset + 2] as u64) << 16) | ((
    arr[offset + 3] as u64) << 24) | ((arr[offset + 4] as u64) << 32) | ((arr[offset + 5] as u64)
        << 40) | ((arr[offset + 6] as u64) << 48) | ((arr[offset + 7] as u64) << 56)
}

/// Writes the eight bytes of the double bit pattern `val` into `arr` from `offset` on.
pub fn ctod(arr: &mut [u8; 24], val: u64, offset: usize)
    requires
        offset + 8 <= 24,
    ensures
        final(arr)@ == splice(old(arr)@, offset as int, u64_le(val)),
{
    arr[offset] = (val & 0xff) as u8;
    arr[offset + 1] = ((val >> 8) & 0xff) as u8;
    arr[offset + 2] = ((val >> 16) & 0xff) as u8;
    arr[offset + 3] = ((val >> 24) & 0xff) as u8;
    arr[offset + 4] = ((val >> 32) & 0xff) as u8;
    arr[offset + 5] = ((val >> 40) & 0xff) as u8;
    arr[offset + 6] = ((val >> 48) & 0xff) as u8;
    arr[offset + 7] = ((val >> 56) & 0xff) as u8;
    assert(arr@ =~= splice(old(arr)@, offset as int, u64_le(val)));
}

/// Reading back the four bytes of an `i32` gives that `i32`.
pub proof fn lemma_i32_le_roundtrip(v: i32)
    ensures
        i32_at(i32_le(v), 0) == v,
        i32_le(v).len() == 4,
{
    let u = v as u32;
    assert(((((u & 0xff) as u8) as u32) | ((((u >> 8) & 0xff) as u8) as u32) << 8 | ((((u >> 16)
        & 0xff) as u8) as u32) << 16 | ((((u >> 24) & 0xff) as u8) as u32) << 24) == u)
        by (bit_vector);
    assert((v as u32) as i32 == v) by (bit_vector);
}

/// Reading back the eight bytes of a `u64` gives that `u64`.
pub proof fn lemma_u64_le_roundtrip(v: u64)
    ensures
        u64_at(u64_le(v), 0) == v,
        u64_le(v).len() == 8,
{
    assert(((((v & 0xff) as u8) as u64) | ((((v >> 8) & 0xff) as u8) as u64) << 8 | ((((v >> 16)
        & 0xff) as u8) as u64) << 16 | ((((v >> 24) & 0xff) as u8) as u64) << 24 | ((((v >> 32)
        & 0xff) as u8) as u64) << 32 | ((((v >> 40) & 0xff) as u8) as u64) << 40 | ((((v >> 48)
        & 0xff) as u8) as u64) << 48 | ((((v >> 56) & 0xff) as u8) as u64) << 56) == v)
        by (bit_vector);
}

/// An `i32` read depends only on the four bytes it covers.
pub proof fn lemma_i32_at_same_bytes(a: Seq<u8>, o1: int, b: Seq<u8>, o2: int)
    requires
        0 <= o1,
        o1 + 4 <= a.len(),
        0 <= o2,
        o2 + 4 <= b.len(),
        a.subrange(o1, o1 + 4) == b.subrange(o2, o2 + 4),
    ensures
        i32_at(a, o1) == i32_at(b, o2),
{
    assert(a[o1 + 0] == a.subrange(o1, o1 + 4)[0]);
    assert(a[o1 + 1] == a.subrange(o1, o1 + 4)[1]);
    assert(a[o1 + 2] == a.subrange(o1, o1 + 4)[2]);
    assert(a[o1 + 3] == a.subrange(o1, o1 + 4)[3]);
    assert(b[o2 + 0] == b.subrange(o2, o2 + 4)[0]);
    assert(b[o2 + 1] == b.subrange(o2, o2 + 4)[1]);
    assert(b[o2 + 2] == b.subrange(o2, o2 + 4)[2]);
    assert(b[o2 + 3] == b.subrange(o2, o2 + 4)[3]);
    assert(a[o1 + 0] == b[o2 + 0]);
    assert(a[o1 + 1] == b[o2 + 1]);
    assert(a[o1 + 2] == b[o2 + 2]);
    assert(a[o1 + 3] == b[o2 + 3]);
}

/// A `u64` read depends only on the eight bytes it covers.
pub proof fn lemma_u64_at_same_bytes(a: Seq<u8>, o1: int, b: Seq<u8>, o2: int)
    requires
        0 <= o1,
        o1 + 8 <= a.len(),
        0 <= o2,
        o2 + 8 <= b.len(),
        a.subrange(o1, o1 + 8) == b.subrange(o2, o2 + 8),
    ensures
        u64_at(a, o1) == u64_at(b, o2),
{
    let sa = a.subrange(o1, o1 + 8);
    let sb = b.subrange(o2, o2 + 8);
    assert(a[o1 + 0] == sa[0] && b[o2 + 0] == sb[0]);
    assert(a[o1 + 1] == sa[1] && b[o2 + 1] == sb[1]);
    assert(a[o1 + 2] == sa[2] && b[o2 + 2] == sb[2]);
    assert(a[o1 + 3] == sa[3] && b[o2 + 3] == sb[3]);
    assert(a[o1 + 4] == sa[4] && b[o2 + 4] == sb[4]);
    assert(a[o1 + 5] == sa[5] && b[o2 + 5] == sb[5]);
    assert(a[o1 + 6] == sa[6] && b[o2 + 6] == sb[6]);
    assert(a[o1 + 7] == sa[7] && b[o2 + 7] == sb[7]);
    assert(a[o1 + 0] == b[o2 + 0]);
    assert(a[o1 + 1] == b[o2 + 1]);
    assert(a[o1 + 2] == b[o2 + 2]);
    assert(a[o1 + 3] == b[o2 + 3]);
    assert(a[o1 + 4] == b[o2 + 4]);
    assert(a[o1 + 5] == b[o2 + 5]);
    assert(a[o1 + 6] == b[o2 + 6]);
    assert(a[o1 + 7] == b[o2 + 7]);
}

/// After writing an `i32` at `off`, reading at `off` gives it back.
pub proof fn lemma_i32_at_splice(s: Seq<u8>, off: int, v: i32)
    requires
        0 <= off,
        off + 4 <= s.len(),
    ensures
        i32_at(splice(s, off, i32_le(v)), off) == v,
{
    lemma_i32_le_roundtrip(v);
    assert(splice(s, off, i32_le(v)).subrange(off, off + 4) =~= i32_le(v).subrange(0, 4));
    lemma_i32_at_same_bytes(splice(s, off, i32_le(v)), off, i32_le(v), 0);
}

/// After writing a `u64` at `off`, reading at `off` gives it back.
pub proof fn lemma_u64_at_splice(s: Seq<u8>, off: int, v: u64)
    requires
        0 <= off,
        off + 8 <= s.len(),
    ensures
        u64_at(splice(s, off, u64_le(v)), off) == v,
{
    lemma_u64_le_roundtrip(v);
    assert(splice(s, off, u64_le(v)).subrange(off, off + 8) =~= u64_le(v).subrange(0, 8));
    lemma_u64_at_same_bytes(splice(s, off, u64_le(v)), off, u64_le(v), 0);
}

/// Writing bytes elsewhere leaves an `i32` read unchanged.
pub proof fn lemma_i32_at_splice_other(s: Seq<u8>, off: int, b: Seq<u8>, o2: int)
    requires
        0 <= o2,
        o2 + 4 <= s.len(),
        o2 + 4 <= off || off + b.len() <= o2,
    ensures
        i32_at(splice(s, off, b), o2) == i32_at(s, o2),
{
    assert(splice(s, off, b).subrange(o2, o2 + 4) =~= s.subrange(o2, o2 + 4));
    lemma_i32_at_same_bytes(splice(s, off, b), o2, s, o2);
}

} // verus!
