//! Little-endian integers and byte ranges, as the directory region stores them.

use vstd::prelude::*;

verus! {

/// The value of a two-byte little-endian field.
pub open spec fn le16(s: Seq<u8>) -> nat
    recommends
        s.len() == 2,
{
    (s[0] as nat) + 256 * (s[1] as nat)
}

/// The value of a four-byte little-endian field.
pub open spec fn le32(s: Seq<u8>) -> nat
    recommends
        s.len() == 4,
{
    (s[0] as nat) + 256 * (s[1] as nat) + 65536 * (s[2] as nat) + 16777216 * (s[3] as nat)
}

/// The two bytes that store `x`, least significant first.
pub open spec fn le16_bytes(x: nat) -> Seq<u8>
    recommends
        x <= u16::MAX,
{
    seq![(x % 256) as u8, ((x / 256) % 256) as u8]
}

/// The four bytes that store `x`, least significant first.
pub open spec fn le32_bytes(x: nat) -> Seq<u8>
    recommends
        x <= u32::MAX,
{
    seq![
        (x % 256) as u8,
        ((x / 256) % 256) as u8,
        ((x / 65536) % 256) as u8,
        ((x / 16777216) % 256) as u8,
    ]
}

/// `base` with the bytes from `at` on replaced by `patch`. Positions of
/// `patch` that fall outside `base` are dropped.
pub open spec fn splice(base: Seq<u8>, at: int, patch: Seq<u8>) -> Seq<u8> {
    Seq::new(
        base.len(),
        |i: int|
            if at <= i < at + patch.len() {
                patch[i - at]
            } else {
                base[i]
            },
    )
}

/// `n` zero bytes.
pub open spec fn zeros(n: nat) -> Seq<u8> {
    Seq::new(n, |i: int| 0u8)
}

/// Decoding what was encoded gives the value back.
pub proof fn lemma_le16_roundtrip(x: nat)
    requires
        x <= u16::MAX,
    ensures
        le16_bytes(x).len() == 2,
        le16(le16_bytes(x)) == x,
{
}

/// Decoding what was encoded gives the value back.
pub proof fn lemma_le32_roundtrip(x: nat)
    requires
        x <= u32::MAX,
    ensures
        le32_bytes(x).len() == 4,
        le32(le32_bytes(x)) == x,
{
}

/// Every two-byte field holds a value that fits sixteen bits, and every
/// four-byte field one that fits thirty-two.
pub proof fn lemma_le_bounds(s: Seq<u8>)
    ensures
        le16(s) <= u16::MAX,
        le32(s) <= u32::MAX,
{
}

/// Reads the two-byte field at `off`.
pub fn read_u16(data: &[u8], off: usize) -> (r: u16)
    requires
        off + 2 <= data@.len(),
    ensures
        r == le16(data@.subrange(off as int, off + 2)),
{
    let lo: u16 = data[off] as u16;
    let hi: u16 = data[off + 1] as u16;
    lo + 256 * hi
}

/// Reads the four-byte field at `off`.
pub fn read_u32(data: &[u8], off: usize) -> (r: u32)
    requires
        off + 4 <= data@.len(),
    ensures
        r == le32(data@.subrange(off as int, off + 4)),
{
    let b0: u32 = data[off] as u32;
    let b1: u32 = data[off + 1] as u32;
    let b2: u32 = data[off + 2] as u32;
    let b3: u32 = data[off + 3] as u32;
    b0 + 256 * b1 + 65536 * b2 + 16777216 * b3
}

/// Appends the two bytes of `x` to `out`.
pub fn push_u16(out: &mut Vec<u8>, x: u16)
    ensures
        final(out)@ == old(out)@ + le16_bytes(x as nat),
{
    out.push((x % 256) as u8);
    out.push((x / 256) as u8);
    assert(out@ =~= old(out)@ + le16_bytes(x as nat));
}

/// Appends the four bytes of `x` to `out`.
pub fn push_u32(out: &mut Vec<u8>, x: u32)
    ensures
        final(out)@ == old(out)@ + le32_bytes(x as nat),
{
    out.push((x % 256) as u8);
    out.push(((x / 256) % 256) as u8);
    out.push(((x / 65536) % 256) as u8);
    out.push((x / 16777216) as u8);
    assert(out@ =~= old(out)@ + le32_bytes(x as nat));
}

/// Appends all of `src` to `out`.
pub fn push_bytes(out: &mut Vec<u8>, src: &[u8])
    ensures
        final(out)@ == old(out)@ + src@,
{
    let n: usize = src.len();
    let mut i: usize = 0;
    while i < n
        invariant
            i <= n,
            n == src@.len(),
            out@ == old(out)@ + src@.subrange(0, i as int),
        decreases n - i,
    {
        out.push(src[i]);
        i += 1;
        assert(out@ =~= old(out)@ + src@.subrange(0, i as int));
    }
    assert(src@.subrange(0, n as int) =~= src@);
}

/// Overwrites `dst` from `at` on with all of `src`.
pub fn copy_into(dst: &mut [u8], at: usize, src: &[u8])
    requires
        at + src@.len() <= old(dst)@.len(),
    ensures
        final(dst)@ == splice(old(dst)@, at as int, src@),
{
    let n: usize = src.len();
    let m: usize = dst.len();
    let mut i: usize = 0;
    while i < n
        invariant
            i <= n,
            n == src@.len(),
            m == dst@.len(),
            at + n <= m,
            dst@ == splice(old(dst)@, at as int, src@.subrange(0, i as int)),
        decreases n - i,
    {
        dst[at + i] = src[i];
        i += 1;
        assert(dst@ =~= splice(old(dst)@, at as int, src@.subrange(0, i as int)));
    }
    assert(src@.subrange(0, n as int) =~= src@);
}

/// Whether two byte strings hold the same bytes.
pub fn bytes_eq(a: &[u8], b: &[u8]) -> (r: bool)
    ensures
        r == (a@ == b@),
{
    if a.len() != b.len() {
        return false;
    }
    let mut i: usize = 0;
    while i < a.len()
        invariant
            i <= a@.len(),
            a@.len() == b@.len(),
            forall|j: int| 0 <= j < i ==> a@[j] == b@[j],
        decreases a@.len() - i,
    {
        if a[i] != b[i] {
            return false;
        }
        i += 1;
    }
    assert(a@ =~= b@);
    true
}

} // verus!
