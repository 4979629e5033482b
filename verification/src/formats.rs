//! The index's binary file formats, as encoders and decoders on bytes, and the pieces they
//! share: headers, padding and pools of concatenated strings.
use vstd::prelude::*;
use crate::bytes::{le32, le32_at, push_u32_le, extend_bytes, lemma_le32_at};

pub mod sentence_ids;
pub mod mwt;
pub mod spans_flat;
pub mod forward_flat;
pub mod spacing;



verus! {

/// The byte-order mark the formats carry, as written on a little-endian machine.
pub const BYTE_ORDER_MARK: u32 = 0x01020304;

/// A failure to read an index.
#[derive(Debug)]
pub enum IndexError {
    Io(String),
    Format(String),
    NotFound(String),
    LayerNotFound(String),
    VersionMismatch { expected: u32, found: u32 },
}

/// `n` rounded up to a multiple of eight.
pub open spec fn align8(n: nat) -> nat {
    ((n + 7) / 8 * 8) as nat
}

/// `n` rounded up to a multiple of eight.
pub fn align_to_8(n: usize) -> (r: usize)
    requires
        n <= usize::MAX - 7,
    ensures
        r == align8(n as nat),
        n <= r < n + 8,
{
    (n + 7) / 8 * 8
}

/// `n` zero bytes.
pub open spec fn zeros(n: nat) -> Seq<u8> {
    Seq::new(n, |i: int| 0u8)
}

/// Appends `n` zero bytes.
pub fn push_zeros(out: &mut Vec<u8>, n: usize)
    ensures
        final(out)@ == old(out)@ + zeros(n as nat),
{
    let ghost start = out@;
    let mut i: usize = 0;
    while i < n
        invariant
            0 <= i <= n,
            out@ == start + zeros(i as nat),
        decreases n - i,
    {
        out.push(0u8);
        i = i + 1;
        proof { assert(out@ =~= start + zeros(i as nat)); }
    }
}

/// The pieces one after another.
pub open spec fn pool_of(parts: Seq<Seq<u8>>) -> Seq<u8>
    decreases parts.len(),
{
    if parts.len() == 0 {
        Seq::empty()
    } else {
        pool_of(parts.drop_last()) + parts.last()
    }
}

/// Where piece `k` starts in the pool.
pub open spec fn offset_of(parts: Seq<Seq<u8>>, k: int) -> nat {
    pool_of(parts.take(k)).len()
}

/// The offsets of the first `m` pieces, four bytes each, least significant first.
pub open spec fn offsets_bytes(parts: Seq<Seq<u8>>, m: nat) -> Seq<u8>
    decreases m,
{
    if m == 0 {
        Seq::empty()
    } else {
        offsets_bytes(parts, (m - 1) as nat) + le32(offset_of(parts, m - 1) as u32)
    }
}

/// The pool of the first `k` pieces starts the pool of all of them.
pub proof fn lemma_pool_prefix(parts: Seq<Seq<u8>>, k: int)
    requires
        0 <= k <= parts.len(),
    ensures
        pool_of(parts.take(k)).len() <= pool_of(parts).len(),
        pool_of(parts).subrange(0, pool_of(parts.take(k)).len() as int) == pool_of(parts.take(k)),
    decreases parts.len() - k,
{
    if k == parts.len() {
        assert(parts.take(k) =~= parts);
        assert(pool_of(parts).subrange(0, pool_of(parts).len() as int) =~= pool_of(parts));
    } else {
        lemma_pool_prefix(parts, k + 1);
        let t = parts.take(k + 1);
        assert(t.drop_last() =~= parts.take(k));
        let a = pool_of(parts.take(k));
        let b = pool_of(t);
        assert(b == a + parts[k]);
        assert(pool_of(parts).subrange(0, a.len() as int) =~= b.subrange(0, a.len() as int));
        assert(b.subrange(0, a.len() as int) =~= a);
    }
}

/// Piece `i` lies in the pool between its offset and the next one.
pub proof fn lemma_pool_piece(parts: Seq<Seq<u8>>, i: int)
    requires
        0 <= i < parts.len(),
    ensures
        offset_of(parts, i) + parts[i].len() == offset_of(parts, i + 1),
        offset_of(parts, i + 1) <= pool_of(parts).len(),
        pool_of(parts).subrange(offset_of(parts, i) as int, offset_of(parts, i + 1) as int) == parts[i],
{
    lemma_pool_prefix(parts, i + 1);
    let t = parts.take(i + 1);
    assert(t.drop_last() =~= parts.take(i));
    let a = pool_of(parts.take(i));
    let b = pool_of(t);
    assert(b == a + parts[i]);
    assert(pool_of(parts).subrange(a.len() as int, b.len() as int) =~= b.subrange(a.len() as int, b.len() as int));
    assert(b.subrange(a.len() as int, b.len() as int) =~= parts[i]);
}

/// The offsets are non-decreasing and at most the pool's length.
pub proof fn lemma_offset_bounds(parts: Seq<Seq<u8>>, k: int)
    requires
        0 <= k <= parts.len(),
    ensures
        offset_of(parts, k) <= pool_of(parts).len(),
{
    lemma_pool_prefix(parts, k);
}

/// The offset bytes have four bytes per offset, and offset `k` reads back from them.
pub proof fn lemma_offsets_bytes(parts: Seq<Seq<u8>>, m: nat, k: int)
    requires
        0 <= k < m,
        forall|j: int| 0 <= j < m ==> offset_of(parts, j) <= u32::MAX,
    ensures
        offsets_bytes(parts, m).len() == 4 * m,
        offsets_bytes(parts, m).subrange(4 * k, 4 * k + 4) == le32(offset_of(parts, k) as u32),
        le32_at(offsets_bytes(parts, m), 4 * k) == offset_of(parts, k),
    decreases m,
{
    lemma_offsets_len(parts, m);
    let prev = offsets_bytes(parts, (m - 1) as nat);
    lemma_offsets_len(parts, (m - 1) as nat);
    if k == m - 1 {
        assert(offsets_bytes(parts, m).subrange(4 * k, 4 * k + 4) =~= le32(offset_of(parts, k) as u32));
    } else {
        lemma_offsets_bytes(parts, (m - 1) as nat, k);
        assert(offsets_bytes(parts, m).subrange(4 * k, 4 * k + 4) =~= prev.subrange(4 * k, 4 * k + 4));
    }
    lemma_le32_at(offsets_bytes(parts, m), 4 * k, offset_of(parts, k) as u32);
}

pub proof fn lemma_offsets_len(parts: Seq<Seq<u8>>, m: nat)
    ensures
        offsets_bytes(parts, m).len() == 4 * m,
    decreases m,
{
    if m > 0 {
        lemma_offsets_len(parts, (m - 1) as nat);
    }
}

/// Appends the pieces one after another.
pub fn push_pool(out: &mut Vec<u8>, parts: &Vec<Vec<u8>>)
    ensures
        final(out)@ == old(out)@ + pool_of(parts@.map_values(|p: Vec<u8>| p@)),
{
    let ghost pv = parts@.map_values(|p: Vec<u8>| p@);
    let ghost start = out@;
    let mut i: usize = 0;
    proof { assert(pv.take(0) =~= Seq::<Seq<u8>>::empty()); }
    while i < parts.len()
        invariant
            0 <= i <= parts@.len(),
            pv == parts@.map_values(|p: Vec<u8>| p@),
            out@ == start + pool_of(pv.take(i as int)),
        decreases parts@.len() - i,
    {
        extend_bytes(out, parts[i].as_slice());
        proof {
            let t = pv.take(i + 1);
            assert(t.drop_last() =~= pv.take(i as int));
            assert(t.last() == parts@[i as int]@);
            assert(out@ =~= start + pool_of(pv.take(i + 1)));
        }
        i = i + 1;
    }
    proof { assert(pv.take(parts@.len() as int) =~= pv); }
}

/// Appends the offsets of all pieces and the offset of the pool's end.
pub fn push_offsets(out: &mut Vec<u8>, parts: &Vec<Vec<u8>>)
    requires
        pool_of(parts@.map_values(|p: Vec<u8>| p@)).len() <= u32::MAX,
    ensures
        final(out)@ == old(out)@ + offsets_bytes(parts@.map_values(|p: Vec<u8>| p@), (parts@.len() + 1) as nat),
{
    let ghost pv = parts@.map_values(|p: Vec<u8>| p@);
    let ghost start = out@;
    let mut off: u32 = 0;
    let mut i: usize = 0;
    proof { assert(pv.take(0) =~= Seq::<Seq<u8>>::empty()); }
    while i < parts.len()
        invariant
            0 <= i <= parts@.len(),
            pv == parts@.map_values(|p: Vec<u8>| p@),
            pool_of(pv).len() <= u32::MAX,
            off == offset_of(pv, i as int),
            out@ == start + offsets_bytes(pv, i as nat),
        decreases parts@.len() - i,
    {
        push_u32_le(out, off);
        proof {
            lemma_pool_piece(pv, i as int);
            assert(pv[i as int] == parts@[i as int]@);
        }
        off = off + parts[i].len() as u32;
        i = i + 1;
        proof {
            assert(out@ =~= start + offsets_bytes(pv, i as nat));
        }
    }
    push_u32_le(out, off);
    proof {
        assert(out@ =~= start + offsets_bytes(pv, (i + 1) as nat));
    }
}

} // verus!
