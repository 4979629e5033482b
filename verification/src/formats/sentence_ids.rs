//! The sentence-id file: a header (`MSID`, version, byte-order mark, count), one offset per id
//! and one for the end, padding to eight bytes, then the ids' UTF-8 bytes one after another.
use vstd::prelude::*;
use vstd::utf8::*;
use crate::bytes::{le32, le32_at, push_u32_le, read_u32_le, extend_bytes, copy_range, lemma_le32_at};
use crate::text::{utf8_bytes, utf8_to_string};
use super::{
    align8, align_to_8, zeros, push_zeros, pool_of, offset_of, offsets_bytes, push_pool, push_offsets,
    lemma_pool_piece, lemma_offsets_bytes, lemma_offsets_len, lemma_offset_bounds, IndexError, BYTE_ORDER_MARK,
};

verus! {

broadcast use group_utf8_lib;

/// The magic bytes `MSID`.
pub open spec fn sid_magic() -> Seq<u8> {
    seq![0x4du8, 0x53u8, 0x49u8, 0x44u8]
}

/// The header of a file of `count` ids.
pub open spec fn sid_header(count: u32) -> Seq<u8> {
    sid_magic() + le32(1) + le32(BYTE_ORDER_MARK) + le32(count)
}

/// The UTF-8 bytes of each id.
pub open spec fn encoded_ids(ids: Seq<Seq<char>>) -> Seq<Seq<u8>> {
    ids.map_values(|s: Seq<char>| encode_utf8(s))
}

/// Where the pool starts in a file of `count` ids.
pub open spec fn sid_pool_start(count: nat) -> nat {
    align8(16 + (count + 1) * 4)
}

/// The file that holds `ids`.
pub open spec fn sid_file(ids: Seq<Seq<char>>) -> Seq<u8> {
    let parts = encoded_ids(ids);
    let n = ids.len();
    let head = sid_header(n as u32) + offsets_bytes(parts, n + 1);
    head + zeros((sid_pool_start(n) - head.len()) as nat) + pool_of(parts)
}

/// The number of ids a file announces.
pub open spec fn sid_count(b: Seq<u8>) -> u32 {
    le32_at(b, 12)
}

/// The header is whole, carries the magic, version 1 and the byte-order mark, and the offset
/// table fits in the file.
pub open spec fn sid_header_ok(b: Seq<u8>) -> bool {
    &&& b.len() >= 16
    &&& b.subrange(0, 4) == sid_magic()
    &&& le32_at(b, 4) == 1
    &&& le32_at(b, 8) == BYTE_ORDER_MARK
    &&& sid_pool_start(sid_count(b) as nat) <= b.len()
}

/// Id `i` of a file: the text between its offset and the next, when that lies in the file and
/// is valid UTF-8.
pub open spec fn sid_entry(b: Seq<u8>, i: int) -> Option<Seq<char>> {
    let ps = sid_pool_start(sid_count(b) as nat);
    let s = le32_at(b, 16 + 4 * i);
    let e = le32_at(b, 16 + 4 * (i + 1));
    if s <= e && ps + e <= b.len() && valid_utf8(b.subrange(ps + s, ps + e)) {
        Some(decode_utf8(b.subrange(ps + s, ps + e)))
    } else {
        None
    }
}

/// The sentence ids of a corpus, read from their file.
pub struct MappedSentenceIds {
    ids: Vec<Option<String>>,
}

impl View for MappedSentenceIds {
    type V = Seq<Option<Seq<char>>>;

    closed spec fn view(&self) -> Seq<Option<Seq<char>>> {
        self.ids@.map_values(|o: Option<String>| match o {
            Some(s) => Some(s@),
            None => None,
        })
    }
}

impl MappedSentenceIds {
    /// Reads the ids of a sentence-id file. Refused when the header is short or wrong or the
    /// offset table does not fit; an id whose bytes are out of range or not UTF-8 reads as absent.
    pub fn decode(b: &[u8]) -> (r: Result<MappedSentenceIds, IndexError>)
        ensures
            r is Ok <==> sid_header_ok(b@),
            r matches Ok(m) ==> m@.len() == sid_count(b@)
                && forall|i: int| 0 <= i < m@.len() ==> #[trigger] m@[i] == sid_entry(b@, i),
    {
        if b.len() < 16 {
            return Err(IndexError::Format("sentence_ids file too small".to_owned()));
        }
        if !(b[0] == 0x4d && b[1] == 0x53 && b[2] == 0x49 && b[3] == 0x44) {
            proof {
                if b@.subrange(0, 4) == sid_magic() {
                    assert(b@.subrange(0, 4)[0] == b@[0] && b@.subrange(0, 4)[1] == b@[1]);
                    assert(b@.subrange(0, 4)[2] == b@[2] && b@.subrange(0, 4)[3] == b@[3]);
                }
            }
            return Err(IndexError::Format("invalid sentence_ids magic".to_owned()));
        }
        proof { assert(b@.subrange(0, 4) =~= sid_magic()); }
        let version = read_u32_le(b, 4);
        if version != 1 {
            return Err(IndexError::Format("sentence_ids format version mismatch".to_owned()));
        }
        let bom = read_u32_le(b, 8);
        if bom != BYTE_ORDER_MARK {
            return Err(IndexError::Format("sentence_ids endianness mismatch".to_owned()));
        }
        let count = read_u32_le(b, 12);
        let ps64: u64 = (16 + (count as u64 + 1) * 4 + 7) / 8 * 8;
        if ps64 > b.len() as u64 {
            return Err(IndexError::Format("sentence_ids truncated offset table".to_owned()));
        }
        let c = count as usize;
        let pool_start = ps64 as usize;
        proof {
            assert(pool_start >= 16 + (c + 1) * 4) by (nonlinear_arith)
                requires pool_start == (16 + (c + 1) * 4 + 7) / 8 * 8;
        }
        let mut ids: Vec<Option<String>> = Vec::new();
        let mut i: usize = 0;
        while i < c
            invariant
                0 <= i <= c,
                c == sid_count(b@),
                pool_start == sid_pool_start(c as nat),
                pool_start <= b@.len(),
                16 + (c + 1) * 4 <= pool_start,
                ids@.len() == i,
                forall|k: int| 0 <= k < i ==> #[trigger] opt_str(ids@[k]) == sid_entry(b@, k),
            decreases c - i,
        {
            let s = read_u32_le(b, 16 + 4 * i) as usize;
            let e = read_u32_le(b, 16 + 4 * (i + 1)) as usize;
            let entry = if s <= e && e <= b.len() - pool_start {
                let bytes = copy_range(b, pool_start + s, pool_start + e);
                utf8_to_string(bytes.as_slice())
            } else {
                None
            };
            proof {
                if entry is Some {
                    let x = entry.unwrap();
                    assert(decode_utf8(encode_utf8(x@)) == x@);
                }
            }
            ids.push(entry);
            i = i + 1;
        }
        let m = MappedSentenceIds { ids };
        proof {
            assert forall|k: int| 0 <= k < m@.len() implies #[trigger] m@[k] == sid_entry(b@, k) by {
                assert(m@[k] == opt_str(m.ids@[k]));
            }
        }
        Ok(m)
    }

    /// The number of ids.
    pub fn len(&self) -> (n: usize)
        ensures
            n == self@.len(),
    {
        self.ids.len()
    }

    pub fn is_empty(&self) -> (b: bool)
        ensures
            b == (self@.len() == 0),
    {
        self.ids.len() == 0
    }

    /// Id `index`, absent past the end or where it could not be read.
    pub fn get(&self, index: usize) -> (r: Option<&str>)
        ensures
            index >= self@.len() ==> r is None,
            index < self@.len() ==> match r {
                Some(s) => self@[index as int] == Some(s@),
                None => self@[index as int] is None,
            },
    {
        if index >= self.ids.len() {
            return None;
        }
        match &self.ids[index] {
            Some(s) => Some(s.as_str()),
            None => None,
        }
    }
}

pub open spec fn opt_str(o: Option<String>) -> Option<Seq<char>> {
    match o {
        Some(s) => Some(s@),
        None => None,
    }
}

/// The bytes of the sentence-id file that holds `ids`.
pub fn encode_sentence_ids(ids: &[String]) -> (r: Vec<u8>)
    requires
        pool_of(encoded_ids(ids@.map_values(|s: String| s@))).len() + 4 * ids@.len() + 32 <= u32::MAX,
    ensures
        r@ == sid_file(ids@.map_values(|s: String| s@)),
{
    let ghost iv = ids@.map_values(|s: String| s@);
    let mut parts: Vec<Vec<u8>> = Vec::new();
    let mut i: usize = 0;
    while i < ids.len()
        invariant
            0 <= i <= ids@.len(),
            iv == ids@.map_values(|s: String| s@),
            parts@.map_values(|p: Vec<u8>| p@) == encoded_ids(iv).take(i as int),
        decreases ids@.len() - i,
    {
        let ghost before = parts@.map_values(|p: Vec<u8>| p@);
        let p = utf8_bytes(ids[i].as_str());
        parts.push(p);
        i = i + 1;
        proof {
            assert(parts@.map_values(|p: Vec<u8>| p@) =~= before.push(encode_utf8(iv[i - 1])));
            assert(encoded_ids(iv).take(i as int) =~= encoded_ids(iv).take(i - 1).push(encode_utf8(iv[i - 1])));
        }
    }
    let ghost pv = parts@.map_values(|p: Vec<u8>| p@);
    proof { assert(pv =~= encoded_ids(iv)); }
    let n = ids.len();
    let mut out: Vec<u8> = Vec::new();
    out.push(0x4d);
    out.push(0x53);
    out.push(0x49);
    out.push(0x44);
    push_u32_le(&mut out, 1);
    push_u32_le(&mut out, BYTE_ORDER_MARK);
    push_u32_le(&mut out, n as u32);
    proof { assert(out@ =~= sid_header(n as u32)); }
    push_offsets(&mut out, &parts);
    proof { lemma_offsets_len(pv, (n + 1) as nat); }
    let head_len = out.len();
    let pool_start = align_to_8(head_len);
    push_zeros(&mut out, pool_start - head_len);
    push_pool(&mut out, &parts);
    out
}

/// Id `i` of a file written for `ids` reads back as `ids[i]`.
#[verifier::rlimit(40)]
proof fn lemma_sid_entry(ids: Seq<Seq<char>>, i: int)
    requires
        pool_of(encoded_ids(ids)).len() + 4 * ids.len() + 32 <= u32::MAX,
        0 <= i < ids.len(),
        sid_count(sid_file(ids)) == ids.len(),
    ensures
        sid_entry(sid_file(ids), i) == Some(ids[i]),
{
    let parts = encoded_ids(ids);
    let n = ids.len();
    let b = sid_file(ids);
    let offs = offsets_bytes(parts, n + 1);
    lemma_offsets_len(parts, n + 1);
    let ps = sid_pool_start(n);
    assert forall|j: int| 0 <= j < n + 1 implies offset_of(parts, j) <= u32::MAX by {
        lemma_offset_bounds(parts, j);
    }
    lemma_offsets_bytes(parts, n + 1, i);
    lemma_offsets_bytes(parts, n + 1, i + 1);
    assert(b.subrange(16 + 4 * i, 16 + 4 * i + 4) =~= offs.subrange(4 * i, 4 * i + 4));
    assert(b.subrange(16 + 4 * (i + 1), 16 + 4 * (i + 1) + 4) =~= offs.subrange(4 * (i + 1), 4 * (i + 1) + 4));
    lemma_le32_at(b, 16 + 4 * i, offset_of(parts, i) as u32);
    lemma_le32_at(b, 16 + 4 * (i + 1), offset_of(parts, i + 1) as u32);
    lemma_pool_piece(parts, i);
    let s = offset_of(parts, i);
    let e = offset_of(parts, i + 1);
    assert(b.subrange((ps + s) as int, (ps + e) as int) =~= pool_of(parts).subrange(s as int, e as int));
    assert(parts[i] == encode_utf8(ids[i]));
}

/// A file written for `ids` reads back as `ids`: its header is sound, it announces as many ids
/// as there are, and each id reads back whole.
pub proof fn lemma_sentence_ids_roundtrip(ids: Seq<Seq<char>>)
    requires
        pool_of(encoded_ids(ids)).len() + 4 * ids.len() + 32 <= u32::MAX,
    ensures
        sid_header_ok(sid_file(ids)),
        sid_count(sid_file(ids)) == ids.len(),
        forall|i: int| 0 <= i < ids.len() ==> #[trigger] sid_entry(sid_file(ids), i) == Some(ids[i]),
{
    let parts = encoded_ids(ids);
    let n = ids.len();
    let b = sid_file(ids);
    lemma_offsets_len(parts, n + 1);
    assert(b.subrange(0, 4) =~= sid_magic());
    assert(b.subrange(4, 8) =~= le32(1));
    assert(b.subrange(8, 12) =~= le32(BYTE_ORDER_MARK));
    assert(b.subrange(12, 16) =~= le32(n as u32));
    lemma_le32_at(b, 4, 1);
    lemma_le32_at(b, 8, BYTE_ORDER_MARK);
    lemma_le32_at(b, 12, n as u32);
    assert forall|i: int| 0 <= i < ids.len() implies #[trigger] sid_entry(sid_file(ids), i) == Some(ids[i]) by {
        lemma_sid_entry(ids, i);
    }
}

} // verus!
