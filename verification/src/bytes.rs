//! Fixed-width integers as bytes, in little- and big-endian order.
use vstd::prelude::*;

verus! {

/// The four bytes of `n`, least significant first.
pub open spec fn le32(n: u32) -> Seq<u8> {
    seq![n as u8, (n >> 8u32) as u8, (n >> 16u32) as u8, (n >> 24u32) as u8]
}

/// The number that four bytes give, least significant first.
pub open spec fn le32_value(b0: u8, b1: u8, b2: u8, b3: u8) -> u32 {
    (b0 as u32) | ((b1 as u32) << 8u32) | ((b2 as u32) << 16u32) | ((b3 as u32) << 24u32)
}

/// The number that the four bytes of `s` at `off` give, least significant first.
pub open spec fn le32_at(s: Seq<u8>, off: int) -> u32 {
    le32_value(s[off], s[off + 1], s[off + 2], s[off + 3])
}

/// The two bytes of `n`, least significant first.
pub open spec fn le16(n: u16) -> Seq<u8> {
    seq![n as u8, (n >> 8u16) as u8]
}

/// The number that the two bytes of `s` at `off` give, least significant first.
pub open spec fn le16_at(s: Seq<u8>, off: int) -> u16 {
    (s[off] as u16) | ((s[off + 1] as u16) << 8u16)
}

/// Appends the two bytes of `n`, least significant first.
pub fn push_u16_le(out: &mut Vec<u8>, n: u16)
    ensures
        final(out)@ == old(out)@ + le16(n),
{
    out.push((n & 0xff) as u8);
    out.push(((n >> 8u16) & 0xff) as u8);
    proof {
        assert((n & 0xff) as u8 == n as u8) by (bit_vector);
        assert(((n >> 8u16) & 0xff) as u8 == (n >> 8u16) as u8) by (bit_vector);
        assert(final(out)@ =~= old(out)@ + le16(n));
    }
}

/// The number that the two bytes of `b` at `off` give, least significant first.
pub fn read_u16_le(b: &[u8], off: usize) -> (r: u16)
    requires
        off + 2 <= b@.len(),
    ensures
        r == le16_at(b@, off as int),
{
    (b[off] as u16) | ((b[off + 1] as u16) << 8u16)
}

/// `le16(n)` placed at `off` in `s` reads back as `n`.
pub proof fn lemma_le16_at(s: Seq<u8>, off: int, n: u16)
    requires
        0 <= off,
        off + 2 <= s.len(),
        s.subrange(off, off + 2) == le16(n),
    ensures
        le16_at(s, off) == n,
{
    assert(s[off] == s.subrange(off, off + 2)[0]);
    assert(s[off + 1] == s.subrange(off, off + 2)[1]);
    assert((n as u8 as u16) | (((n >> 8u16) as u8 as u16) << 8u16) == n) by (bit_vector);
}

/// The four bytes of `n`, most significant first.
pub open spec fn be32(n: u32) -> Seq<u8> {
    seq![(n >> 24u32) as u8, (n >> 16u32) as u8, (n >> 8u32) as u8, n as u8]
}

/// The number that the four bytes of `s` at `off` give, most significant first.
pub open spec fn be32_at(s: Seq<u8>, off: int) -> u32 {
    ((s[off] as u32) << 24u32) | ((s[off + 1] as u32) << 16u32) | ((s[off + 2] as u32) << 8u32) | (s[off + 3] as u32)
}

/// The eight bytes of `n`, least significant first.
pub open spec fn le64(n: u64) -> Seq<u8> {
    seq![
        n as u8, (n >> 8u64) as u8, (n >> 16u64) as u8, (n >> 24u64) as u8,
        (n >> 32u64) as u8, (n >> 40u64) as u8, (n >> 48u64) as u8, (n >> 56u64) as u8,
    ]
}

/// The number that eight bytes give, least significant first.
pub open spec fn le64_value(b0: u8, b1: u8, b2: u8, b3: u8, b4: u8, b5: u8, b6: u8, b7: u8) -> u64 {
    (b0 as u64) | ((b1 as u64) << 8u64) | ((b2 as u64) << 16u64) | ((b3 as u64) << 24u64)
        | ((b4 as u64) << 32u64) | ((b5 as u64) << 40u64) | ((b6 as u64) << 48u64) | ((b7 as u64) << 56u64)
}

/// The number that the eight bytes of `s` at `off` give, least significant first.
pub open spec fn le64_at(s: Seq<u8>, off: int) -> u64 {
    le64_value(s[off], s[off + 1], s[off + 2], s[off + 3], s[off + 4], s[off + 5], s[off + 6], s[off + 7])
}

/// Four bytes written least significant first read back as the same number.
pub proof fn lemma_le32_roundtrip(n: u32)
    ensures
        le32_value(n as u8, (n >> 8u32) as u8, (n >> 16u32) as u8, (n >> 24u32) as u8) == n,
{
    assert((n as u8 as u32) | (((n >> 8u32) as u8 as u32) << 8u32) | (((n >> 16u32) as u8 as u32) << 16u32)
        | (((n >> 24u32) as u8 as u32) << 24u32) == n) by (bit_vector);
}

/// Four bytes written most significant first read back as the same number.
pub proof fn lemma_be32_roundtrip(n: u32)
    ensures
        be32_at(be32(n), 0) == n,
{
    let s = be32(n);
    assert(s[0] == (n >> 24u32) as u8 && s[1] == (n >> 16u32) as u8 && s[2] == (n >> 8u32) as u8 && s[3] == n as u8);
    assert((((n >> 24u32) as u8 as u32) << 24u32) | (((n >> 16u32) as u8 as u32) << 16u32)
        | (((n >> 8u32) as u8 as u32) << 8u32) | (n as u8 as u32) == n) by (bit_vector);
}

/// Eight bytes written least significant first read back as the same number.
pub proof fn lemma_le64_roundtrip(n: u64)
    ensures
        le64_value(
            n as u8, (n >> 8u64) as u8, (n >> 16u64) as u8, (n >> 24u64) as u8,
            (n >> 32u64) as u8, (n >> 40u64) as u8, (n >> 48u64) as u8, (n >> 56u64) as u8,
        ) == n,
{
    assert((n as u8 as u64) | (((n >> 8u64) as u8 as u64) << 8u64) | (((n >> 16u64) as u8 as u64) << 16u64)
        | (((n >> 24u64) as u8 as u64) << 24u64) | (((n >> 32u64) as u8 as u64) << 32u64)
        | (((n >> 40u64) as u8 as u64) << 40u64) | (((n >> 48u64) as u8 as u64) << 48u64)
        | (((n >> 56u64) as u8 as u64) << 56u64) == n) by (bit_vector);
}

/// Appends the four bytes of `n`, least significant first.
pub fn push_u32_le(out: &mut Vec<u8>, n: u32)
    ensures
        final(out)@ == old(out)@ + le32(n),
{
    out.push((n & 0xff) as u8);
    out.push(((n >> 8u32) & 0xff) as u8);
    out.push(((n >> 16u32) & 0xff) as u8);
    out.push(((n >> 24u32) & 0xff) as u8);
    proof {
        assert((n & 0xff) as u8 == n as u8) by (bit_vector);
        assert(((n >> 8u32) & 0xff) as u8 == (n >> 8u32) as u8) by (bit_vector);
        assert(((n >> 16u32) & 0xff) as u8 == (n >> 16u32) as u8) by (bit_vector);
        assert(((n >> 24u32) & 0xff) as u8 == (n >> 24u32) as u8) by (bit_vector);
        assert(final(out)@ =~= old(out)@ + le32(n));
    }
}

/// Appends the four bytes of `n`, most significant first.
pub fn push_u32_be(out: &mut Vec<u8>, n: u32)
    ensures
        final(out)@ == old(out)@ + be32(n),
{
    out.push(((n >> 24u32) & 0xff) as u8);
    out.push(((n >> 16u32) & 0xff) as u8);
    out.push(((n >> 8u32) & 0xff) as u8);
    out.push((n & 0xff) as u8);
    proof {
        assert((n & 0xff) as u8 == n as u8) by (bit_vector);
        assert(((n >> 8u32) & 0xff) as u8 == (n >> 8u32) as u8) by (bit_vector);
        assert(((n >> 16u32) & 0xff) as u8 == (n >> 16u32) as u8) by (bit_vector);
        assert(((n >> 24u32) & 0xff) as u8 == (n >> 24u32) as u8) by (bit_vector);
        assert(final(out)@ =~= old(out)@ + be32(n));
    }
}

/// Appends the eight bytes of `n`, least significant first.
pub fn push_u64_le(out: &mut Vec<u8>, n: u64)
    ensures
        final(out)@ == old(out)@ + le64(n),
{
    out.push((n & 0xff) as u8);
    out.push(((n >> 8u64) & 0xff) as u8);
    out.push(((n >> 16u64) & 0xff) as u8);
    out.push(((n >> 24u64) & 0xff) as u8);
    out.push(((n >> 32u64) & 0xff) as u8);
    out.push(((n >> 40u64) & 0xff) as u8);
    out.push(((n >> 48u64) & 0xff) as u8);
    out.push(((n >> 56u64) & 0xff) as u8);
    proof {
        assert((n & 0xff) as u8 == n as u8) by (bit_vector);
        assert(((n >> 8u64) & 0xff) as u8 == (n >> 8u64) as u8) by (bit_vector);
        assert(((n >> 16u64) & 0xff) as u8 == (n >> 16u64) as u8) by (bit_vector);
        assert(((n >> 24u64) & 0xff) as u8 == (n >> 24u64) as u8) by (bit_vector);
        assert(((n >> 32u64) & 0xff) as u8 == (n >> 32u64) as u8) by (bit_vector);
        assert(((n >> 40u64) & 0xff) as u8 == (n >> 40u64) as u8) by (bit_vector);
        assert(((n >> 48u64) & 0xff) as u8 == (n >> 48u64) as u8) by (bit_vector);
        assert(((n >> 56u64) & 0xff) as u8 == (n >> 56u64) as u8) by (bit_vector);
        assert(final(out)@ =~= old(out)@ + le64(n));
    }
}

/// The number that the four bytes of `b` at `off` give, least significant first.
pub fn read_u32_le(b: &[u8], off: usize) -> (r: u32)
    requires
        off + 4 <= b@.len(),
    ensures
        r == le32_at(b@, off as int),
{
    (b[off] as u32) | ((b[off + 1] as u32) << 8u32) | ((b[off + 2] as u32) << 16u32) | ((b[off + 3] as u32) << 24u32)
}

/// The number that the four bytes of `b` at `off` give, most significant first.
pub fn read_u32_be(b: &[u8], off: usize) -> (r: u32)
    requires
        off + 4 <= b@.len(),
    ensures
        r == be32_at(b@, off as int),
{
    ((b[off] as u32) << 24u32) | ((b[off + 1] as u32) << 16u32) | ((b[off + 2] as u32) << 8u32) | (b[off + 3] as u32)
}

/// The number that the eight bytes of `b` at `off` give, least significant first.
pub fn read_u64_le(b: &[u8], off: usize) -> (r: u64)
    requires
        off + 8 <= b@.len(),
    ensures
        r == le64_at(b@, off as int),
{
    (b[off] as u64) | ((b[off + 1] as u64) << 8u64) | ((b[off + 2] as u64) << 16u64) | ((b[off + 3] as u64) << 24u64)
        | ((b[off + 4] as u64) << 32u64) | ((b[off + 5] as u64) << 40u64) | ((b[off + 6] as u64) << 48u64)
        | ((b[off + 7] as u64) << 56u64)
}

/// Appends the bytes of `b` to `out`.
pub fn extend_bytes(out: &mut Vec<u8>, b: &[u8])
    ensures
        final(out)@ == old(out)@ + b@,
{
    let ghost start = out@;
    let mut i: usize = 0;
    while i < b.len()
        invariant
            0 <= i <= b@.len(),
            out@ == start + b@.subrange(0, i as int),
        decreases b@.len() - i,
    {
        out.push(b[i]);
        i = i + 1;
        proof { assert(out@ =~= start + b@.subrange(0, i as int)); }
    }
    proof { assert(b@.subrange(0, b@.len() as int) =~= b@); }
}

/// A copy of the bytes of `b` from `from` up to `to`.
pub fn copy_range(b: &[u8], from: usize, to: usize) -> (r: Vec<u8>)
    requires
        from <= to <= b@.len(),
    ensures
        r@ == b@.subrange(from as int, to as int),
{
    let mut r: Vec<u8> = Vec::new();
    let mut i: usize = from;
    while i < to
        invariant
            from <= i <= to,
            to <= b@.len(),
            r@ == b@.subrange(from as int, i as int),
        decreases to - i,
    {
        r.push(b[i]);
        i = i + 1;
        proof { assert(r@ =~= b@.subrange(from as int, i as int)); }
    }
    r
}

/// `le32(n)` placed at `off` in `s` reads back as `n`.
pub proof fn lemma_le32_at(s: Seq<u8>, off: int, n: u32)
    requires
        0 <= off,
        off + 4 <= s.len(),
        s.subrange(off, off + 4) == le32(n),
    ensures
        le32_at(s, off) == n,
{
    assert(s[off] == s.subrange(off, off + 4)[0]);
    assert(s[off + 1] == s.subrange(off, off + 4)[1]);
    assert(s[off + 2] == s.subrange(off, off + 4)[2]);
    assert(s[off + 3] == s.subrange(off, off + 4)[3]);
    lemma_le32_roundtrip(n);
}

/// `le64(n)` placed at `off` in `s` reads back as `n`.
pub proof fn lemma_le64_at(s: Seq<u8>, off: int, n: u64)
    requires
        0 <= off,
        off + 8 <= s.len(),
        s.subrange(off, off + 8) == le64(n),
    ensures
        le64_at(s, off) == n,
{
    let t = s.subrange(off, off + 8);
    assert(s[off] == t[0] && s[off + 1] == t[1] && s[off + 2] == t[2] && s[off + 3] == t[3]);
    assert(s[off + 4] == t[4] && s[off + 5] == t[5] && s[off + 6] == t[6] && s[off + 7] == t[7]);
    lemma_le64_roundtrip(n);
}

} // verus!
