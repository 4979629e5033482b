//! The multi-word-token file: a header (`MMWT`, version, byte-order mark, count), one 24-byte
//! record per token (start, end, form offset, form length, flags, padding), padding to eight
//! bytes, then the forms' UTF-8 bytes one after another.
use vstd::prelude::*;
use vstd::utf8::*;
use crate::bytes::{
    le16, le16_at, le32, le32_at, le64, le64_at, push_u16_le, push_u32_le, push_u64_le, read_u16_le, read_u32_le,
    read_u64_le, copy_range, lemma_le16_at, lemma_le32_at, lemma_le64_at,
};
use crate::text::{utf8_bytes, utf8_to_string};
use super::{
    align8, align_to_8, zeros, push_zeros, pool_of, offset_of, push_pool, lemma_pool_piece, lemma_offset_bounds,
    IndexError, BYTE_ORDER_MARK,
};

verus! {

broadcast use group_utf8_lib;

/// A multi-word token: the positions `[start, end)` it covers and its surface form.
#[derive(Debug)]
pub struct MWTEntry {
    pub start: u64,
    pub end: u64,
    pub form: String,
    pub no_space_after: bool,
}

/// A multi-word token as plain values.
pub struct MwtV {
    pub start: u64,
    pub end: u64,
    pub form: Seq<char>,
    pub no_space_after: bool,
}

pub open spec fn mwt_v(e: MWTEntry) -> MwtV {
    MwtV { start: e.start, end: e.end, form: e.form@, no_space_after: e.no_space_after }
}

impl Clone for MWTEntry {
    fn clone(&self) -> (r: Self)
        ensures
            mwt_v(r) == mwt_v(*self),
    {
        MWTEntry { start: self.start, end: self.end, form: self.form.clone(), no_space_after: self.no_space_after }
    }
}

/// The magic bytes `MMWT`.
pub open spec fn mwt_magic() -> Seq<u8> {
    seq![0x4du8, 0x4du8, 0x57u8, 0x54u8]
}

/// The UTF-8 bytes of each form.
pub open spec fn mwt_forms(es: Seq<MwtV>) -> Seq<Seq<u8>> {
    es.map_values(|e: MwtV| encode_utf8(e.form))
}

/// The record of entry `e` whose form starts at `off` in the pool.
pub open spec fn mwt_record(e: MwtV, off: nat) -> Seq<u8> {
    le64(e.start) + le64(e.end) + le32(off as u32) + le16(encode_utf8(e.form).len() as u16)
        + seq![if e.no_space_after { 1u8 } else { 0u8 }, 0u8]
}

/// The records of the first `m` entries.
pub open spec fn mwt_records(es: Seq<MwtV>, m: nat) -> Seq<u8>
    decreases m,
{
    if m == 0 {
        Seq::empty()
    } else {
        mwt_records(es, (m - 1) as nat) + mwt_record(es[m - 1], offset_of(mwt_forms(es), m - 1))
    }
}

/// Where the pool starts in a file of `count` entries.
pub open spec fn mwt_pool_start(count: nat) -> nat {
    align8(16 + count * 24)
}

/// The file that holds `es`.
pub open spec fn mwt_file(es: Seq<MwtV>) -> Seq<u8> {
    let n = es.len();
    let head = mwt_magic() + le32(1) + le32(BYTE_ORDER_MARK) + le32(n as u32) + mwt_records(es, n);
    head + zeros((mwt_pool_start(n) - head.len()) as nat) + pool_of(mwt_forms(es))
}

/// The number of entries a file announces.
pub open spec fn mwt_count(b: Seq<u8>) -> u32 {
    le32_at(b, 12)
}

/// The header is whole, carries the magic, version 1 and the byte-order mark, and the records
/// fit in the file.
pub open spec fn mwt_header_ok(b: Seq<u8>) -> bool {
    &&& b.len() >= 16
    &&& b.subrange(0, 4) == mwt_magic()
    &&& le32_at(b, 4) == 1
    &&& le32_at(b, 8) == BYTE_ORDER_MARK
    &&& mwt_pool_start(mwt_count(b) as nat) <= b.len()
}

/// Entry `i` of a file, when its form lies in the file and is valid UTF-8.
pub open spec fn mwt_entry(b: Seq<u8>, i: int) -> Option<MwtV> {
    let off = 16 + 24 * i;
    let s = mwt_pool_start(mwt_count(b) as nat) + le32_at(b, off + 16);
    let e = s + le16_at(b, off + 20);
    if e <= b.len() && valid_utf8(b.subrange(s as int, e as int)) {
        Some(MwtV {
            start: le64_at(b, off),
            end: le64_at(b, off + 8),
            form: decode_utf8(b.subrange(s as int, e as int)),
            no_space_after: b[off + 22] & 1u8 != 0u8,
        })
    } else {
        None
    }
}

pub open spec fn opt_mwt(o: Option<MWTEntry>) -> Option<MwtV> {
    match o {
        Some(e) => Some(mwt_v(e)),
        None => None,
    }
}

/// The plain values of a list of entries.
pub open spec fn mwt_views(v: Seq<MWTEntry>) -> Seq<MwtV> {
    v.map_values(|e: MWTEntry| mwt_v(e))
}

/// The readable entries from index `from` on, up to the first that starts at or after `end` or
/// cannot be read.
pub open spec fn mwt_run(v: Seq<Option<MwtV>>, from: int, end: u64) -> Seq<MwtV>
    decreases v.len() - from,
{
    if from < 0 || from >= v.len() {
        Seq::empty()
    } else {
        match v[from] {
            Some(e) => if e.start < end { seq![e] + mwt_run(v, from + 1, end) } else { Seq::empty() },
            None => Seq::empty(),
        }
    }
}

/// The number of entries that end at or before `position`: in sorted ends, the index of the
/// first one that ends after it.
pub open spec fn first_ending_after(ends: Seq<u64>, position: u64) -> int
    decreases ends.len(),
{
    if ends.len() == 0 {
        0
    } else {
        first_ending_after(ends.drop_last(), position) + if ends.last() <= position { 1int } else { 0int }
    }
}

/// In sorted ends, an index before which all end at or before `position` and from which all end
/// after it is the count of those that end at or before it.
pub proof fn lemma_first_ending_after(ends: Seq<u64>, position: u64, i: int)
    requires
        sorted_u64(ends),
        0 <= i <= ends.len(),
        forall|k: int| 0 <= k < i ==> ends[k] <= position,
        forall|k: int| i <= k < ends.len() ==> ends[k] > position,
    ensures
        first_ending_after(ends, position) == i,
    decreases ends.len(),
{
    if ends.len() > 0 {
        let d = ends.drop_last();
        if i == ends.len() {
            lemma_first_ending_after(d, position, i - 1);
        } else {
            lemma_first_ending_after(d, position, i);
        }
    }
}

/// The multi-word tokens of a corpus, read from their file.
pub struct MappedMWTs {
    entries: Vec<Option<MWTEntry>>,
    bounds: Vec<(u64, u64)>,
}

impl View for MappedMWTs {
    type V = Seq<Option<MwtV>>;

    closed spec fn view(&self) -> Seq<Option<MwtV>> {
        self.entries@.map_values(|o: Option<MWTEntry>| opt_mwt(o))
    }
}

/// The numbers are in non-decreasing order.
pub open spec fn sorted_u64(v: Seq<u64>) -> bool {
    forall|i: int, j: int| 0 <= i <= j < v.len() ==> v[i] <= v[j]
}

impl MappedMWTs {
    /// The start of each record, whether or not its form could be read.
    pub closed spec fn starts(&self) -> Seq<u64> {
        self.bounds@.map_values(|p: (u64, u64)| p.0)
    }

    /// The end of each record, whether or not its form could be read.
    pub closed spec fn ends(&self) -> Seq<u64> {
        self.bounds@.map_values(|p: (u64, u64)| p.1)
    }

    /// There is one start and one end per record, and a readable record has them.
    pub closed spec fn wf(&self) -> bool {
        &&& self.bounds@.len() == self.entries@.len()
        &&& forall|i: int| 0 <= i < self.entries@.len() && (#[trigger] self.entries@[i]) is Some
            ==> self.entries@[i].unwrap().start == self.bounds@[i].0 && self.entries@[i].unwrap().end == self.bounds@[i].1
    }

    /// Reads the entries of a multi-word-token file. Refused when the header is short or wrong
    /// or the records do not fit; an entry whose form is out of range or not UTF-8 reads as
    /// absent.
    pub fn decode(b: &[u8]) -> (r: Result<MappedMWTs, IndexError>)
        ensures
            r is Ok <==> mwt_header_ok(b@),
            r matches Ok(m) ==> m.wf() && m@.len() == mwt_count(b@)
                && (forall|i: int| 0 <= i < m@.len() ==> #[trigger] m@[i] == mwt_entry(b@, i))
                && (forall|i: int| 0 <= i < m@.len() ==> #[trigger] m.starts()[i] == le64_at(b@, 16 + 24 * i)
                    && m.ends()[i] == le64_at(b@, 16 + 24 * i + 8)),
    {
        if b.len() < 16 {
            return Err(IndexError::Format("mwt file too small".to_owned()));
        }
        if !(b[0] == 0x4d && b[1] == 0x4d && b[2] == 0x57 && b[3] == 0x54) {
            proof {
                if b@.subrange(0, 4) == mwt_magic() {
                    assert(b@.subrange(0, 4)[0] == b@[0] && b@.subrange(0, 4)[1] == b@[1]);
                    assert(b@.subrange(0, 4)[2] == b@[2] && b@.subrange(0, 4)[3] == b@[3]);
                }
            }
            return Err(IndexError::Format("invalid mwt magic".to_owned()));
        }
        proof { assert(b@.subrange(0, 4) =~= mwt_magic()); }
        if read_u32_le(b, 4) != 1 {
            return Err(IndexError::Format("mwt format version mismatch".to_owned()));
        }
        if read_u32_le(b, 8) != BYTE_ORDER_MARK {
            return Err(IndexError::Format("mwt endianness mismatch".to_owned()));
        }
        let count = read_u32_le(b, 12);
        let ps64: u64 = (16 + (count as u64) * 24 + 7) / 8 * 8;
        if ps64 > b.len() as u64 {
            return Err(IndexError::Format("mwt file truncated".to_owned()));
        }
        let c = count as usize;
        let pool_start = ps64 as usize;
        proof {
            assert(pool_start >= 16 + c * 24) by (nonlinear_arith)
                requires pool_start == (16 + c * 24 + 7) / 8 * 8;
        }
        let mut entries: Vec<Option<MWTEntry>> = Vec::new();
        let mut bounds: Vec<(u64, u64)> = Vec::new();
        let mut i: usize = 0;
        while i < c
            invariant
                0 <= i <= c,
                bounds@.len() == i,
                forall|k: int| 0 <= k < i ==> (#[trigger] bounds@[k]).0 == le64_at(b@, 16 + 24 * k)
                    && bounds@[k].1 == le64_at(b@, 16 + 24 * k + 8),
                forall|k: int| 0 <= k < i && (#[trigger] entries@[k]) is Some
                    ==> entries@[k].unwrap().start == bounds@[k].0 && entries@[k].unwrap().end == bounds@[k].1,
                c == mwt_count(b@),
                pool_start == mwt_pool_start(c as nat),
                pool_start <= b@.len(),
                16 + c * 24 <= pool_start,
                entries@.len() == i,
                forall|k: int| 0 <= k < i ==> #[trigger] opt_mwt(entries@[k]) == mwt_entry(b@, k),
            decreases c - i,
        {
            let off = 16 + 24 * i;
            let start = read_u64_le(b, off);
            let end = read_u64_le(b, off + 8);
            let fo = read_u32_le(b, off + 16) as usize;
            let fl = read_u16_le(b, off + 20) as usize;
            let flags = b[off + 22];
            let entry = if fo <= b.len() - pool_start && fl <= b.len() - pool_start - fo {
                let bytes = copy_range(b, pool_start + fo, pool_start + fo + fl);
                match utf8_to_string(bytes.as_slice()) {
                    Some(form) => {
                        proof { assert(decode_utf8(encode_utf8(form@)) == form@); }
                        Some(MWTEntry { start, end, form, no_space_after: flags & 1 != 0 })
                    },
                    None => None,
                }
            } else {
                None
            };
            entries.push(entry);
            bounds.push((start, end));
            i = i + 1;
        }
        let m = MappedMWTs { entries, bounds };
        proof {
            assert forall|k: int| 0 <= k < m@.len() implies #[trigger] m@[k] == mwt_entry(b@, k) by {
                assert(m@[k] == opt_mwt(m.entries@[k]));
            }
        }
        Ok(m)
    }

    /// The records are in order of start and of end, and each ends after it starts.
    pub closed spec fn ordered(&self) -> bool {
        &&& self.wf()
        &&& sorted_u64(self.starts())
        &&& sorted_u64(self.ends())
        &&& forall|i: int| 0 <= i < self@.len() ==> #[trigger] self.starts()[i] < self.ends()[i]
    }

    /// What being in order gives.
    pub proof fn lemma_ordered(&self)
        requires
            self.ordered(),
        ensures
            self.wf(),
            sorted_u64(self.starts()),
            sorted_u64(self.ends()),
            self.starts().len() == self@.len(),
            self.ends().len() == self@.len(),
            forall|i: int| 0 <= i < self@.len() ==> #[trigger] self.starts()[i] < self.ends()[i],
    {
    }

    /// Whether the records are in order of start and of end, each ending after it starts.
    pub fn is_ordered(&self) -> (b: bool)
        ensures
            b == self.ordered(),
    {
        if self.bounds.len() != self.entries.len() {
            return false;
        }
        let n = self.bounds.len();
        let mut i: usize = 0;
        while i < n
            invariant
                0 <= i <= n,
                n == self.bounds@.len(),
                n == self.entries@.len(),
                self.starts().len() == n && self.ends().len() == n,
                forall|a: int, b: int| 0 <= a <= b < i ==> self.starts()[a] <= self.starts()[b],
                forall|a: int, b: int| 0 <= a <= b < i ==> self.ends()[a] <= self.ends()[b],
                forall|a: int| 0 <= a < i ==> #[trigger] self.starts()[a] < self.ends()[a],
                forall|a: int| 0 <= a < i && (#[trigger] self.entries@[a]) is Some
                    ==> self.entries@[a].unwrap().start == self.bounds@[a].0 && self.entries@[a].unwrap().end == self.bounds@[a].1,
            decreases n - i,
        {
            match &self.entries[i] {
                Some(e) => {
                    if e.start != self.bounds[i].0 || e.end != self.bounds[i].1 {
                        return false;
                    }
                },
                None => {},
            }
            proof {
                assert(self.starts()[i as int] == self.bounds@[i as int].0);
                assert(self.ends()[i as int] == self.bounds@[i as int].1);
            }
            if self.bounds[i].0 >= self.bounds[i].1 {
                return false;
            }
            if i > 0 {
                proof {
                    assert(self.starts()[i - 1] == self.bounds@[i - 1].0);
                    assert(self.ends()[i - 1] == self.bounds@[i - 1].1);
                }
                if self.bounds[i - 1].0 > self.bounds[i].0 || self.bounds[i - 1].1 > self.bounds[i].1 {
                    return false;
                }
            }
            i = i + 1;
        }
        proof { assert(self@.len() == n); }
        true
    }

    /// The number of entries.
    pub fn len(&self) -> (n: usize)
        ensures
            n == self@.len(),
    {
        self.entries.len()
    }

    pub fn is_empty(&self) -> (b: bool)
        ensures
            b == (self@.len() == 0),
    {
        self.entries.len() == 0
    }

    /// The last record that starts at or before `position`, found by bisection; when the
    /// starts are sorted it is the last such record of all.
    fn search(&self, position: u64) -> (r: Option<usize>)
        requires
            self.wf(),
        ensures
            r matches Some(i) ==> i < self@.len() && self.starts()[i as int] <= position,
            sorted_u64(self.starts()) ==> (r matches Some(i) ==> forall|k: int| i < k < self@.len() ==> self.starts()[k] > position),
            sorted_u64(self.starts()) ==> (r is None ==> forall|k: int| 0 <= k < self@.len() ==> self.starts()[k] > position),
    {
        let n = self.bounds.len();
        if n == 0 {
            return None;
        }
        let mut lo: usize = 0;
        let mut hi: usize = n;
        while lo < hi
            invariant
                0 <= lo <= hi <= n,
                n == self.bounds@.len(),
                lo > 0 ==> self.starts()[lo - 1] <= position,
                sorted_u64(self.starts()) ==> forall|k: int| hi <= k < n ==> self.starts()[k] > position,
                sorted_u64(self.starts()) ==> forall|k: int| 0 <= k < lo ==> self.starts()[k] <= position,
            decreases hi - lo,
        {
            let mid = lo + (hi - lo) / 2;
            proof { assert(self.starts()[mid as int] == self.bounds@[mid as int].0); }
            if self.bounds[mid].0 <= position {
                lo = mid + 1;
            } else {
                hi = mid;
            }
        }
        if lo > 0 { Some(lo - 1) } else { None }
    }

    /// The first record that ends after `position`, found by bisection; when the ends are sorted
    /// it is the first such record of all.
    fn lower_bound(&self, position: u64) -> (r: Option<usize>)
        requires
            self.wf(),
        ensures
            r matches Some(i) ==> i < self@.len() && self.ends()[i as int] > position,
            sorted_u64(self.ends()) ==> (r matches Some(i) ==> forall|k: int| 0 <= k < i ==> self.ends()[k] <= position),
            sorted_u64(self.ends()) ==> (r is None ==> forall|k: int| 0 <= k < self@.len() ==> self.ends()[k] <= position),
    {
        let n = self.bounds.len();
        if n == 0 {
            return None;
        }
        let mut lo: usize = 0;
        let mut hi: usize = n;
        while lo < hi
            invariant
                0 <= lo <= hi <= n,
                n == self.bounds@.len(),
                hi < n ==> self.ends()[hi as int] > position,
                sorted_u64(self.ends()) ==> forall|k: int| 0 <= k < lo ==> self.ends()[k] <= position,
                sorted_u64(self.ends()) ==> forall|k: int| hi <= k < n ==> self.ends()[k] > position,
            decreases hi - lo,
        {
            let mid = lo + (hi - lo) / 2;
            proof { assert(self.ends()[mid as int] == self.bounds@[mid as int].1); }
            if self.bounds[mid].1 <= position {
                lo = mid + 1;
            } else {
                hi = mid;
            }
        }
        if lo < n { Some(lo) } else { None }
    }

    /// The multi-word token that covers `position`: the last one starting at or before it, when
    /// it can be read and ends after it.
    pub fn covering(&self, position: u64) -> (r: Option<MWTEntry>)
        requires
            self.wf(),
        ensures
            r matches Some(e) ==> e.start <= position < e.end
                && exists|i: int| 0 <= i < self@.len() && self@[i] == Some(mwt_v(e)),
            sorted_u64(self.starts()) ==> (r matches Some(e) ==> forall|k: int| 0 <= k < self@.len() && self.starts()[k] <= position
                ==> self.starts()[k] <= e.start),
            sorted_u64(self.starts()) && (forall|k: int| 0 <= k < self@.len() ==> #[trigger] self@[k] is Some) ==> (r is None
                ==> forall|k: int| 0 <= k < self@.len() && #[trigger] self.starts()[k] <= position
                    && (forall|j: int| k < j < self@.len() ==> self.starts()[j] > position) ==> self.ends()[k] <= position),
    {
        let idx = match self.search(position) {
            Some(i) => i,
            None => return None,
        };
        let entry = match self.get(idx) {
            Some(e) => e,
            None => return None,
        };
        proof {
            assert(self@[idx as int] == opt_mwt(self.entries@[idx as int]));
            assert(self.starts()[idx as int] == self.bounds@[idx as int].0);
        }
        if position >= entry.start && position < entry.end {
            proof {
                assert forall|k: int| 0 <= k < self@.len() && self.starts()[k] <= position && sorted_u64(self.starts())
                    implies self.starts()[k] <= entry.start by {
                    if k > idx {
                        assert(self.starts()[k] > position);
                    }
                }
            }
            Some(entry)
        } else {
            proof {
                assert(self.ends()[idx as int] == self.bounds@[idx as int].1);
            }
            None
        }
    }

    /// The readable multi-word tokens from the first one that ends after `start`, in order, up
    /// to the first that starts at or after `end` or cannot be read.
    pub fn in_range(&self, start: u64, end: u64) -> (r: Vec<MWTEntry>)
        requires
            self.wf(),
        ensures
            forall|k: int| 0 <= k < r@.len() ==> (#[trigger] r@[k]).start < end
                && exists|i: int| 0 <= i < self@.len() && self@[i] == Some(mwt_v(r@[k])),
            sorted_u64(self.ends()) ==> mwt_views(r@) == mwt_run(self@, first_ending_after(self.ends(), start), end),
    {
        let first = match self.lower_bound(start) {
            Some(i) => i,
            None => {
                proof {
                    assert(self.ends().len() == self@.len());
                    if sorted_u64(self.ends()) {
                        lemma_first_ending_after(self.ends(), start, self@.len() as int);
                        assert(mwt_views(Seq::<MWTEntry>::empty()) =~= Seq::<MwtV>::empty());
                    }
                }
                return Vec::new();
            },
        };
        proof {
            assert(self.ends().len() == self@.len());
            if sorted_u64(self.ends()) {
                lemma_first_ending_after(self.ends(), start, first as int);
            }
        }
        let mut result: Vec<MWTEntry> = Vec::new();
        let mut i: usize = first;
        proof { assert(mwt_views(result@) =~= Seq::<MwtV>::empty()); }
        while i < self.entries.len()
            invariant
                first <= i <= self.entries@.len(),
                self.entries@.len() == self@.len(),
                forall|k: int| 0 <= k < result@.len() ==> (#[trigger] result@[k]).start < end
                    && exists|j: int| 0 <= j < self@.len() && self@[j] == Some(mwt_v(result@[k])),
                mwt_views(result@) + mwt_run(self@, i as int, end) == mwt_run(self@, first as int, end),
            ensures
                mwt_views(result@) == mwt_run(self@, first as int, end),
            decreases self.entries@.len() - i,
        {
            let entry = match self.get(i) {
                Some(e) => e,
                None => {
                    proof {
                        assert(mwt_run(self@, i as int, end) =~= Seq::<MwtV>::empty());
                        assert(mwt_views(result@) + Seq::<MwtV>::empty() =~= mwt_views(result@));
                    }
                    break;
                },
            };
            if entry.start >= end {
                proof {
                    assert(mwt_run(self@, i as int, end) =~= Seq::<MwtV>::empty());
                    assert(mwt_views(result@) + Seq::<MwtV>::empty() =~= mwt_views(result@));
                }
                break;
            }
            proof { assert(self@[i as int] == Some(mwt_v(entry))); }
            let ghost before = mwt_views(result@);
            result.push(entry);
            proof {
                assert(mwt_views(result@) =~= before.push(mwt_v(entry)));
                assert(mwt_run(self@, i as int, end) == seq![mwt_v(entry)] + mwt_run(self@, i + 1, end));
                assert(before.push(mwt_v(entry)) + mwt_run(self@, i + 1, end) =~= before + (seq![mwt_v(entry)] + mwt_run(self@, i + 1, end)));
            }
            i = i + 1;
        }
        result
    }

    /// Entry `index`, absent past the end or where it could not be read.
    pub fn get(&self, index: usize) -> (r: Option<MWTEntry>)
        ensures
            index >= self@.len() ==> r is None,
            index < self@.len() ==> opt_mwt(r) == self@[index as int],
    {
        if index >= self.entries.len() {
            return None;
        }
        match &self.entries[index] {
            Some(e) => Some(e.clone()),
            None => None,
        }
    }
}

/// The bytes of the multi-word-token file that holds `entries`.
pub fn encode_mwts(entries: &[MWTEntry]) -> (r: Vec<u8>)
    requires
        pool_of(mwt_forms(entries@.map_values(|e: MWTEntry| mwt_v(e)))).len() + 24 * entries@.len() + 32 <= u32::MAX,
        forall|i: int| 0 <= i < entries@.len() ==> encode_utf8((#[trigger] entries@[i]).form@).len() <= u16::MAX,
    ensures
        r@ == mwt_file(entries@.map_values(|e: MWTEntry| mwt_v(e))),
{
    let ghost ev = entries@.map_values(|e: MWTEntry| mwt_v(e));
    let mut parts: Vec<Vec<u8>> = Vec::new();
    let mut i: usize = 0;
    while i < entries.len()
        invariant
            0 <= i <= entries@.len(),
            ev == entries@.map_values(|e: MWTEntry| mwt_v(e)),
            parts@.map_values(|p: Vec<u8>| p@) == mwt_forms(ev).take(i as int),
        decreases entries@.len() - i,
    {
        let ghost before = parts@.map_values(|p: Vec<u8>| p@);
        let p = utf8_bytes(entries[i].form.as_str());
        parts.push(p);
        i = i + 1;
        proof {
            assert(parts@.map_values(|p: Vec<u8>| p@) =~= before.push(encode_utf8(ev[i - 1].form)));
            assert(mwt_forms(ev).take(i as int) =~= mwt_forms(ev).take(i - 1).push(encode_utf8(ev[i - 1].form)));
        }
    }
    let ghost pv = parts@.map_values(|p: Vec<u8>| p@);
    proof { assert(pv =~= mwt_forms(ev)); }
    let n = entries.len();
    let mut out: Vec<u8> = Vec::new();
    out.push(0x4d);
    out.push(0x4d);
    out.push(0x57);
    out.push(0x54);
    push_u32_le(&mut out, 1);
    push_u32_le(&mut out, BYTE_ORDER_MARK);
    push_u32_le(&mut out, n as u32);
    let ghost hdr = out@;
    let mut off: u32 = 0;
    let mut k: usize = 0;
    proof { assert(mwt_records(ev, 0) =~= Seq::<u8>::empty()); assert(out@ =~= hdr + mwt_records(ev, 0)); }
    while k < n
        invariant
            0 <= k <= n,
            n == entries@.len(),
            ev == entries@.map_values(|e: MWTEntry| mwt_v(e)),
            pv == mwt_forms(ev),
            pv == parts@.map_values(|p: Vec<u8>| p@),
            pool_of(pv).len() <= u32::MAX,
            forall|i: int| 0 <= i < entries@.len() ==> encode_utf8((#[trigger] entries@[i]).form@).len() <= u16::MAX,
            off == offset_of(pv, k as int),
            out@ == hdr + mwt_records(ev, k as nat),
        decreases n - k,
    {
        proof {
            lemma_pool_piece(pv, k as int);
            assert(pv[k as int] == parts@[k as int]@);
            assert(parts@[k as int]@ == encode_utf8(entries@[k as int].form@));
        }
        let len = parts[k].len();
        push_u64_le(&mut out, entries[k].start);
        push_u64_le(&mut out, entries[k].end);
        push_u32_le(&mut out, off);
        push_u16_le(&mut out, len as u16);
        out.push(if entries[k].no_space_after { 1u8 } else { 0u8 });
        out.push(0u8);
        proof {
            assert(out@ =~= hdr + mwt_records(ev, (k + 1) as nat));
        }
        off = off + len as u32;
        k = k + 1;
    }
    proof { lemma_mwt_records_len(ev, n as nat); }
    let head_len = out.len();
    proof {
        assert(out@ == mwt_magic() + le32(1) + le32(BYTE_ORDER_MARK) + le32(n as u32) + mwt_records(ev, n as nat));
    }
    let pool_start = align_to_8(head_len);
    push_zeros(&mut out, pool_start - head_len);
    push_pool(&mut out, &parts);
    proof { lemma_mwt_records_len(ev, n as nat); }
    out
}

pub proof fn lemma_mwt_records_len(es: Seq<MwtV>, m: nat)
    ensures
        mwt_records(es, m).len() == 24 * m,
    decreases m,
{
    if m > 0 {
        lemma_mwt_records_len(es, (m - 1) as nat);
    }
}

/// Record `k` of the first `m` records lies at `24 * k`.
proof fn lemma_mwt_record_at(es: Seq<MwtV>, m: nat, k: int)
    requires
        0 <= k < m,
    ensures
        mwt_records(es, m).subrange(24 * k, 24 * k + 24) == mwt_record(es[k], offset_of(mwt_forms(es), k)),
    decreases m,
{
    lemma_mwt_records_len(es, m);
    lemma_mwt_records_len(es, (m - 1) as nat);
    if k == m - 1 {
        assert(mwt_records(es, m).subrange(24 * k, 24 * k + 24) =~= mwt_record(es[k], offset_of(mwt_forms(es), k)));
    } else {
        lemma_mwt_record_at(es, (m - 1) as nat, k);
        assert(mwt_records(es, m).subrange(24 * k, 24 * k + 24) =~= mwt_records(es, (m - 1) as nat).subrange(24 * k, 24 * k + 24));
    }
}

/// Entry `i` of a file written for `es` reads back as `es[i]`.
#[verifier::rlimit(60)]
#[verifier::spinoff_prover]
proof fn lemma_mwt_entry(es: Seq<MwtV>, i: int)
    requires
        pool_of(mwt_forms(es)).len() + 24 * es.len() + 32 <= u32::MAX,
        forall|j: int| 0 <= j < es.len() ==> encode_utf8((#[trigger] es[j]).form).len() <= u16::MAX,
        0 <= i < es.len(),
        mwt_count(mwt_file(es)) == es.len(),
    ensures
        mwt_entry(mwt_file(es), i) == Some(es[i]),
{
    let parts = mwt_forms(es);
    let n = es.len();
    let b = mwt_file(es);
    lemma_mwt_records_len(es, n);
    lemma_mwt_record_at(es, n, i);
    let off = 16 + 24 * i;
    let fo = offset_of(parts, i);
    lemma_offset_bounds(parts, i);
    lemma_pool_piece(parts, i);
    let rec = mwt_record(es[i], fo);
    assert(b.subrange(off, off + 24) =~= rec);
    assert(rec.subrange(0, 8) =~= le64(es[i].start));
    assert(rec.subrange(8, 16) =~= le64(es[i].end));
    assert(rec.subrange(16, 20) =~= le32(fo as u32));
    assert(parts[i] == encode_utf8(es[i].form));
    assert(rec.subrange(20, 22) =~= le16(parts[i].len() as u16));
    assert(b.subrange(off, off + 8) =~= rec.subrange(0, 8));
    assert(b.subrange(off + 8, off + 16) =~= rec.subrange(8, 16));
    assert(b.subrange(off + 16, off + 20) =~= rec.subrange(16, 20));
    assert(b.subrange(off + 20, off + 22) =~= rec.subrange(20, 22));
    lemma_le64_at(b, off, es[i].start);
    lemma_le64_at(b, off + 8, es[i].end);
    lemma_le32_at(b, off + 16, fo as u32);
    lemma_le16_at(b, off + 20, parts[i].len() as u16);
    assert(b[off + 22] == rec[22]);
    assert((1u8 & 1u8) != 0u8 && (0u8 & 1u8) == 0u8) by (bit_vector);
    let ps = mwt_pool_start(n);
    assert(b.subrange((ps + fo) as int, (ps + fo + parts[i].len()) as int) =~= pool_of(parts).subrange(fo as int, (fo + parts[i].len()) as int));
}

/// A file written for `es` reads back as `es`: its header is sound, it announces as many
/// entries as there are, and each entry reads back whole.
pub proof fn lemma_mwt_roundtrip(es: Seq<MwtV>)
    requires
        pool_of(mwt_forms(es)).len() + 24 * es.len() + 32 <= u32::MAX,
        forall|j: int| 0 <= j < es.len() ==> encode_utf8((#[trigger] es[j]).form).len() <= u16::MAX,
    ensures
        mwt_header_ok(mwt_file(es)),
        mwt_count(mwt_file(es)) == es.len(),
        forall|i: int| 0 <= i < es.len() ==> #[trigger] mwt_entry(mwt_file(es), i) == Some(es[i]),
{
    let n = es.len();
    let b = mwt_file(es);
    lemma_mwt_records_len(es, n);
    assert(b.subrange(0, 4) =~= mwt_magic());
    assert(b.subrange(4, 8) =~= le32(1));
    assert(b.subrange(8, 12) =~= le32(BYTE_ORDER_MARK));
    assert(b.subrange(12, 16) =~= le32(n as u32));
    lemma_le32_at(b, 4, 1);
    lemma_le32_at(b, 8, BYTE_ORDER_MARK);
    lemma_le32_at(b, 12, n as u32);
    assert forall|i: int| 0 <= i < es.len() implies #[trigger] mwt_entry(mwt_file(es), i) == Some(es[i]) by {
        lemma_mwt_entry(es, i);
    }
}

} // verus!
