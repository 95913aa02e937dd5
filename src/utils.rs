//! Byte-order helpers.
use vstd::prelude::*;

verus! {

/// Swaps the two bytes of a 16-bit value.
pub open spec fn swap16(x: u16) -> u16 {
    (((x & 0xff) << 8) | (x >> 8)) as u16
}

/// Reverses the four bytes of a 32-bit value.
pub open spec fn swap32(x: u32) -> u32 {
    (((x & 0xff) << 24) | (((x >> 8) & 0xff) << 16) | (((x >> 16) & 0xff) << 8) | (x >> 24)) as u32
}

/// Converts a value to the opposite byte order.
pub fn bytes_order_u16(x: u16) -> (r: u16)
    ensures
        r == swap16(x),
{
    let lo: u16 = x & 0xff;
    let hi: u16 = x >> 8;
    assert(lo << 8 | hi == ((x & 0xff) << 8) | (x >> 8)) by (bit_vector)
        requires lo == x & 0xff, hi == x >> 8;
    (lo << 8) | hi
}

/// Converts a value to the opposite byte order.
pub fn bytes_order_u32(x: u32) -> (r: u32)
    ensures
        r == swap32(x),
{
    let b0: u32 = x & 0xff;
    let b1: u32 = (x >> 8) & 0xff;
    let b2: u32 = (x >> 16) & 0xff;
    let b3: u32 = x >> 24;
    (b0 << 24) | (b1 << 16) | (b2 << 8) | b3
}

/// Copies a slice of exactly `N` bytes into an array.
pub fn clone_into_array<const N: usize>(slice: &[u8]) -> (r: [u8; N])
    requires
        slice@.len() == N,
    ensures
        r@ == slice@,
{
    let mut a: [u8; N] = [0u8; N];
    let mut i: usize = 0;
    while i < N
        invariant
            i <= N,
            slice@.len() == N,
            a@.len() == N,
            forall|j: int| 0 <= j < i ==> a@[j] == slice@[j],
        decreases N - i,
    {
        a[i] = slice[i];
        i += 1;
    }
    assert(a@ =~= slice@);
    a
}

} // verus!

verus! {

/// The little-endian 16-bit value stored at `b[i..i+2]`.
pub open spec fn u16_at(b: Seq<u8>, i: int) -> u16 {
    (b[i] as int + 256 * b[i + 1] as int) as u16
}

/// The little-endian 32-bit value stored at `b[i..i+4]`.
pub open spec fn u32_at(b: Seq<u8>, i: int) -> u32 {
    (b[i] as int + 256 * b[i + 1] as int + 65536 * b[i + 2] as int + 16777216 * b[i
        + 3] as int) as u32
}

/// The two little-endian bytes of `v`.
pub open spec fn le16(v: u16) -> Seq<u8> {
    seq![(v % 256) as u8, (v / 256) as u8]
}

/// The four little-endian bytes of `v`.
pub open spec fn le32(v: u32) -> Seq<u8> {
    seq![(v % 256) as u8, (v / 256 % 256) as u8, (v / 65536 % 256) as u8, (v / 16777216) as u8]
}

/// `b` with the bytes from `i` on replaced by `s`.
pub open spec fn splice(b: Seq<u8>, i: int, s: Seq<u8>) -> Seq<u8> {
    b.subrange(0, i) + s + b.subrange(i + s.len(), b.len() as int)
}

/// Reads a little-endian 16-bit value.
pub fn read_u16_le(b: &[u8], i: usize) -> (r: u16)
    requires
        i + 2 <= b@.len(),
    ensures
        r == u16_at(b@, i as int),
{
    b[i] as u16 + (b[i + 1] as u16) * 256
}

/// Reads a little-endian 32-bit value.
pub fn read_u32_le(b: &[u8], i: usize) -> (r: u32)
    requires
        i + 4 <= b@.len(),
    ensures
        r == u32_at(b@, i as int),
{
    b[i] as u32 + (b[i + 1] as u32) * 256 + (b[i + 2] as u32) * 65536 + (b[i + 3] as u32)
        * 16777216
}

/// Appends the little-endian bytes of a 16-bit value.
pub fn push_u16_le(out: &mut Vec<u8>, v: u16)
    ensures
        final(out)@ == old(out)@ + le16(v),
{
    out.push((v % 256) as u8);
    out.push((v / 256) as u8);
    assert(final(out)@ =~= old(out)@ + le16(v));
}

/// Appends the little-endian bytes of a 32-bit value.
pub fn push_u32_le(out: &mut Vec<u8>, v: u32)
    ensures
        final(out)@ == old(out)@ + le32(v),
{
    out.push((v % 256) as u8);
    out.push((v / 256 % 256) as u8);
    out.push((v / 65536 % 256) as u8);
    out.push((v / 16777216) as u8);
    assert(final(out)@ =~= old(out)@ + le32(v));
}

/// Writes the little-endian bytes of a 32-bit value at `i`.
pub fn write_u32_le(b: &mut Vec<u8>, i: usize, v: u32)
    requires
        i + 4 <= old(b)@.len(),
    ensures
        final(b)@ == splice(old(b)@, i as int, le32(v)),
{
    let n = b.len();
    assert(i + 4 <= n);
    b.set(i, (v % 256) as u8);
    b.set(i + 1, (v / 256 % 256) as u8);
    b.set(i + 2, (v / 65536 % 256) as u8);
    b.set(i + 3, (v / 16777216) as u8);
    assert(final(b)@ =~= splice(old(b)@, i as int, le32(v)));
}

/// Decoding what was encoded gives the value back.
pub proof fn lemma_u16_round_trip(v: u16)
    ensures
        u16_at(le16(v), 0) == v,
{
}

/// Decoding what was encoded gives the value back.
pub proof fn lemma_u32_round_trip(v: u32)
    ensures
        u32_at(le32(v), 0) == v,
{
}

/// A value written at `i` reads back at `i`.
pub proof fn lemma_u32_at_splice(b: Seq<u8>, i: int, v: u32)
    requires
        0 <= i,
        i + 4 <= b.len(),
    ensures
        u32_at(splice(b, i, le32(v)), i) == v,
        splice(b, i, le32(v)).len() == b.len(),
{
    let s = splice(b, i, le32(v));
    assert(s[i] == le32(v)[0]);
    assert(s[i + 1] == le32(v)[1]);
    assert(s[i + 2] == le32(v)[2]);
    assert(s[i + 3] == le32(v)[3]);
    lemma_u32_round_trip(v);
}

} // verus!
