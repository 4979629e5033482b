//! The spacing file: `MSPC`, a version, then a Roaring bitmap of the positions followed by no
//! space.
use vstd::prelude::*;
use roaring::RoaringBitmap;
use crate::bitmap::{bitmap_bytes, bitmap_set, bitmap_contains, bitmap_len, bitmap_serialize, bitmap_deserialize};
use crate::bytes::{le32, le32_at, push_u32_le, read_u32_le, extend_bytes, copy_range, lemma_le32_at};
use super::IndexError;

verus! {

/// The magic bytes `MSPC`.
pub open spec fn spacing_magic() -> Seq<u8> {
    seq![0x4du8, 0x53u8, 0x50u8, 0x43u8]
}

/// The spacing file that holds bitmap `b`.
pub open spec fn spacing_file(b: RoaringBitmap) -> Seq<u8> {
    spacing_magic() + le32(1) + bitmap_bytes(b)
}

/// The header is whole and carries the magic and version 1.
pub open spec fn spacing_header_ok(b: Seq<u8>) -> bool {
    &&& b.len() >= 8
    &&& b.subrange(0, 4) == spacing_magic()
    &&& le32_at(b, 4) == 1
}

/// The positions after which no space follows.
pub struct SpacingIndex {
    bitmap: RoaringBitmap,
}

impl SpacingIndex {
    /// The positions held.
    pub closed spec fn positions(&self) -> Set<u32> {
        bitmap_set(self.bitmap)
    }

    /// Reads a spacing file. Refused when the header is short or wrong or the bitmap cannot be
    /// read; bytes that some bitmap is written as are always read back as that bitmap.
    pub fn decode(b: &[u8]) -> (r: Result<SpacingIndex, IndexError>)
        ensures
            r is Ok ==> spacing_header_ok(b@),
            !spacing_header_ok(b@) ==> r is Err,
            forall|bm: RoaringBitmap| spacing_header_ok(b@) && b@.subrange(8, b@.len() as int) == bitmap_bytes(bm)
                ==> (r matches Ok(s) && s.positions() == bitmap_set(bm)),
    {
        if b.len() < 8 {
            return Err(IndexError::Format("spacing file too small".to_owned()));
        }
        if !(b[0] == 0x4d && b[1] == 0x53 && b[2] == 0x50 && b[3] == 0x43) {
            proof {
                if b@.subrange(0, 4) == spacing_magic() {
                    assert(b@.subrange(0, 4)[0] == b@[0] && b@.subrange(0, 4)[1] == b@[1]);
                    assert(b@.subrange(0, 4)[2] == b@[2] && b@.subrange(0, 4)[3] == b@[3]);
                }
            }
            return Err(IndexError::Format("invalid spacing magic".to_owned()));
        }
        proof { assert(b@.subrange(0, 4) =~= spacing_magic()); }
        if read_u32_le(b, 4) != 1 {
            return Err(IndexError::Format("spacing format version mismatch".to_owned()));
        }
        let rest = copy_range(b, 8, b.len());
        match bitmap_deserialize(rest.as_slice()) {
            Some(bitmap) => Ok(SpacingIndex { bitmap }),
            None => Err(IndexError::Format("spacing bitmap could not be read".to_owned())),
        }
    }

    /// Whether no space follows the token at `position` (cut to 32 bits).
    pub fn has_no_space_after(&self, position: u64) -> (r: bool)
        ensures
            r == self.positions().contains(position as u32),
    {
        bitmap_contains(&self.bitmap, position as u32)
    }

    /// The number of positions held.
    pub fn len(&self) -> (n: u64)
        ensures
            n == self.positions().len(),
    {
        bitmap_len(&self.bitmap)
    }

    pub fn is_empty(&self) -> (r: bool)
        ensures
            r == (self.positions().len() == 0),
    {
        bitmap_len(&self.bitmap) == 0
    }
}

/// The bytes of the spacing file that holds `bitmap`.
pub fn encode_spacing(bitmap: &RoaringBitmap) -> (r: Vec<u8>)
    ensures
        r@ == spacing_file(*bitmap),
{
    let mut out: Vec<u8> = Vec::new();
    out.push(0x4d);
    out.push(0x53);
    out.push(0x50);
    out.push(0x43);
    push_u32_le(&mut out, 1);
    let body = bitmap_serialize(bitmap);
    extend_bytes(&mut out, body.as_slice());
    proof { assert(out@ =~= spacing_file(*bitmap)); }
    out
}

/// A spacing file written for a bitmap reads back as the same positions.
pub proof fn lemma_spacing_roundtrip(bm: RoaringBitmap)
    ensures
        spacing_header_ok(spacing_file(bm)),
        spacing_file(bm).subrange(8, spacing_file(bm).len() as int) == bitmap_bytes(bm),
{
    let f = spacing_file(bm);
    assert(f.subrange(0, 4) =~= spacing_magic());
    assert(f.subrange(4, 8) =~= le32(1));
    lemma_le32_at(f, 4, 1);
    assert(f.subrange(8, f.len() as int) =~= bitmap_bytes(bm));
}

} // verus!
