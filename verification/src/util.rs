//! Little-endian fields and byte-string helpers shared by the whole kernel.

use vstd::prelude::*;

verus! {

/// The 16-bit little-endian number at `off`.
pub open spec fn le16(s: Seq<u8>, off: int) -> u16 {
    (s[off] + 0x100 * s[off + 1]) as u16
}

/// The 32-bit little-endian number at `off`.
pub open spec fn le32(s: Seq<u8>, off: int) -> u32 {
    (s[off] + 0x100 * s[off + 1] + 0x1_0000 * s[off + 2] + 0x100_0000 * s[off + 3]) as u32
}

/// The 64-bit little-endian number at `off`.
pub open spec fn le64(s: Seq<u8>, off: int) -> u64 {
    (le32(s, off) + 0x1_0000_0000 * le32(s, off + 4)) as u64
}

/// The 16-bit big-endian number at `off`.
pub open spec fn be16(s: Seq<u8>, off: int) -> u16 {
    (0x100 * s[off] + s[off + 1]) as u16
}

/// The two bytes of `x`, low byte first.
pub open spec fn enc16(x: u16) -> Seq<u8> {
    seq![(x % 0x100) as u8, (x / 0x100) as u8]
}

/// The four bytes of `x`, low byte first.
pub open spec fn enc32(x: u32) -> Seq<u8> {
    seq![
        (x % 0x100) as u8,
        (x / 0x100 % 0x100) as u8,
        (x / 0x1_0000 % 0x100) as u8,
        (x / 0x100_0000) as u8,
    ]
}

/// The eight bytes of `x`, low byte first.
pub open spec fn enc64(x: u64) -> Seq<u8> {
    enc32((x % 0x1_0000_0000) as u32) + enc32((x / 0x1_0000_0000) as u32)
}

/// `s` with the bytes from `off` on replaced by `b`.
pub open spec fn splice(s: Seq<u8>, off: int, b: Seq<u8>) -> Seq<u8> {
    Seq::new(s.len(), |i: int| if off <= i < off + b.len() { b[i - off] } else { s[i] })
}

/// The smaller of two sizes.
pub open spec fn min_nat(a: nat, b: nat) -> nat {
    if a <= b { a } else { b }
}

/// A number survives being written as four bytes and read back.
pub proof fn lemma_le32_enc32(x: u32)
    ensures
        enc32(x).len() == 4,
        le32(enc32(x), 0) == x,
{
}

/// A number survives being written as two bytes and read back.
pub proof fn lemma_le16_enc16(x: u16)
    ensures
        enc16(x).len() == 2,
        le16(enc16(x), 0) == x,
{
}

/// A number survives being written as eight bytes and read back.
pub proof fn lemma_le64_enc64(x: u64)
    ensures
        enc64(x).len() == 8,
        le64(enc64(x), 0) == x,
{
    let lo = (x % 0x1_0000_0000) as u32;
    let hi = (x / 0x1_0000_0000) as u32;
    let s = enc64(x);
    lemma_le32_enc32(lo);
    lemma_le32_enc32(hi);
    assert(forall|j: int| 0 <= j < 4 ==> s[j] == enc32(lo)[j]);
    assert(s[4] == enc32(hi)[0] && s[5] == enc32(hi)[1] && s[6] == enc32(hi)[2] && s[7] == enc32(
        hi,
    )[3]);
    assert(le32(s, 0) == le32(enc32(lo), 0));
    assert(le32(s, 4) == le32(enc32(hi), 0));
}

/// Reads the 16-bit little-endian number at `off`.
pub fn get_u16(buf: &[u8], off: usize) -> (x: u16)
    requires
        off + 2 <= buf@.len(),
    ensures
        x == le16(buf@, off as int),
{
    buf[off] as u16 + 0x100 * (buf[off + 1] as u16)
}

/// Reads the 32-bit little-endian number at `off`.
pub fn get_u32(buf: &[u8], off: usize) -> (x: u32)
    requires
        off + 4 <= buf@.len(),
    ensures
        x == le32(buf@, off as int),
{
    buf[off] as u32 + 0x100 * (buf[off + 1] as u32) + 0x1_0000 * (buf[off + 2] as u32) + 0x100_0000
        * (buf[off + 3] as u32)
}

/// Reads the 64-bit little-endian number at `off`.
pub fn get_u64(buf: &[u8], off: usize) -> (x: u64)
    requires
        off + 8 <= buf@.len(),
    ensures
        x == le64(buf@, off as int),
{
    assert(off + 8 <= buf.len());
    get_u32(buf, off) as u64 + 0x1_0000_0000 * (get_u32(buf, off + 4) as u64)
}

/// Reads the 16-bit big-endian number at `off`.
pub fn get_be16(buf: &[u8], off: usize) -> (x: u16)
    requires
        off + 2 <= buf@.len(),
    ensures
        x == be16(buf@, off as int),
{
    0x100 * (buf[off] as u16) + buf[off + 1] as u16
}

/// Copies `src` over the bytes of `dst` from `off` on.
pub fn copy_into(dst: &mut [u8], off: usize, src: &[u8])
    requires
        off + src@.len() <= old(dst)@.len(),
    ensures
        final(dst)@ == splice(old(dst)@, off as int, src@),
{
    let ghost before = dst@;
    assert(off + src.len() <= dst.len());
    let mut i: usize = 0;
    while i < src.len()
        invariant
            i <= src@.len(),
            dst@.len() == before.len(),
            off + src@.len() <= before.len(),
            before.len() <= usize::MAX,
            dst@ =~= splice(before, off as int, src@.take(i as int)),
        decreases src@.len() - i,
    {
        dst[off + i] = src[i];
        i += 1;
    }
    proof {
        assert(src@.take(i as int) =~= src@);
    }
}

/// Writes `x` at `off`, low byte first.
pub fn put_u16(dst: &mut [u8], off: usize, x: u16)
    requires
        off + 2 <= old(dst)@.len(),
    ensures
        final(dst)@ == splice(old(dst)@, off as int, enc16(x)),
{
    let b = [(x % 0x100) as u8, (x / 0x100) as u8];
    assert(b@ =~= enc16(x));
    copy_into(dst, off, &b);
}

/// Writes `x` at `off`, low byte first.
pub fn put_u32(dst: &mut [u8], off: usize, x: u32)
    requires
        off + 4 <= old(dst)@.len(),
    ensures
        final(dst)@ == splice(old(dst)@, off as int, enc32(x)),
{
    let b = [
        (x % 0x100) as u8,
        (x / 0x100 % 0x100) as u8,
        (x / 0x1_0000 % 0x100) as u8,
        (x / 0x100_0000) as u8,
    ];
    assert(b@ =~= enc32(x));
    copy_into(dst, off, &b);
}

/// Writes `x` at `off`, low byte first.
pub fn put_u64(dst: &mut [u8], off: usize, x: u64)
    requires
        off + 8 <= old(dst)@.len(),
    ensures
        final(dst)@ == splice(old(dst)@, off as int, enc64(x)),
{
    let ghost before = dst@;
    assert(off + 8 <= dst.len());
    let lo = (x % 0x1_0000_0000) as u32;
    let hi = (x / 0x1_0000_0000) as u32;
    put_u32(dst, off, lo);
    put_u32(dst, off + 4, hi);
    assert(dst@ =~= splice(before, off as int, enc64(x)));
}

/// A copy of the bytes of `s` from `from` up to `to`.
pub fn slice_to_vec(s: &[u8], from: usize, to: usize) -> (v: Vec<u8>)
    requires
        from <= to <= s@.len(),
    ensures
        v@ == s@.subrange(from as int, to as int),
{
    let mut v: Vec<u8> = Vec::new();
    let mut i: usize = from;
    while i < to
        invariant
            from <= i <= to <= s@.len(),
            v@ =~= s@.subrange(from as int, i as int),
        decreases to - i,
    {
        v.push(s[i]);
        i += 1;
    }
    v
}

} // verus!
