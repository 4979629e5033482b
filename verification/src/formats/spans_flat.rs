//! The span file: a header (`MSPN`, version, byte-order mark, layer count), one 32-byte
//! directory entry per layer (name offset and length, data offset, span count), the layer
//! names one after another padded to sixteen bytes, then each layer's spans as pairs of
//! eight-byte positions. Layers are written in name order.
use vstd::prelude::*;
use vstd::utf8::*;
use crate::bytes::{le32, le32_at, le64, le64_at, push_u32_le, push_u64_le, read_u32_le, read_u64_le, copy_range,
    lemma_le32_at, lemma_le64_at};
use crate::order::{sort_strings, sorted_text, str_views};
use crate::span::{Span, Position, span_containing, spans_disjoint_sorted, some_span_contains};
use crate::spans::InMemorySpans;
use crate::text::{utf8_bytes, utf8_to_string, find_name, string_views};
use super::{zeros, push_zeros, pool_of, offset_of, push_pool, lemma_pool_piece, lemma_offset_bounds, IndexError,
    BYTE_ORDER_MARK};

verus! {

broadcast use group_utf8_lib;

/// The magic bytes `MSPN`.
pub open spec fn spans_magic() -> Seq<u8> {
    seq![0x4du8, 0x53u8, 0x50u8, 0x4eu8]
}

/// The sixteen bytes of a span: start, then end.
pub open spec fn span_bytes(s: Span) -> Seq<u8> {
    le64(s.start) + le64(s.end)
}

/// The bytes of a list of spans.
pub open spec fn spans_bytes(v: Seq<Span>) -> Seq<u8>
    decreases v.len(),
{
    if v.len() == 0 {
        Seq::empty()
    } else {
        spans_bytes(v.drop_last()) + span_bytes(v.last())
    }
}

/// `n` rounded up to a multiple of sixteen.
pub open spec fn align16(n: nat) -> nat {
    ((n + 15) / 16 * 16) as nat
}

/// Where the span data starts in a file of `count` layers whose names take `names_len` bytes.
pub open spec fn spans_data_start(count: nat, names_len: nat) -> nat {
    16 + 32 * count + align16(names_len)
}

/// The directory entry of layer `k`.
pub open spec fn spans_dir_entry(names: Seq<Seq<u8>>, data: Seq<Seq<Span>>, k: int) -> Seq<u8> {
    let parts = data.map_values(|v: Seq<Span>| spans_bytes(v));
    let ds = spans_data_start(names.len(), pool_of(names).len());
    le64(offset_of(names, k) as u64) + le32(names[k].len() as u32) + le32(0)
        + le64((ds + offset_of(parts, k)) as u64) + le64(data[k].len() as u64)
}

/// The directory entries of the first `m` layers.
pub open spec fn spans_dir(names: Seq<Seq<u8>>, data: Seq<Seq<Span>>, m: nat) -> Seq<u8>
    decreases m,
{
    if m == 0 {
        Seq::empty()
    } else {
        spans_dir(names, data, (m - 1) as nat) + spans_dir_entry(names, data, m - 1)
    }
}

/// The file that holds layers named `names` (as UTF-8 bytes) with spans `data`.
pub open spec fn spans_file(names: Seq<Seq<u8>>, data: Seq<Seq<Span>>) -> Seq<u8> {
    let n = names.len();
    let np = pool_of(names);
    spans_magic() + le32(1) + le32(BYTE_ORDER_MARK) + le32(n as u32) + spans_dir(names, data, n) + np
        + zeros((align16(np.len()) - np.len()) as nat) + pool_of(data.map_values(|v: Seq<Span>| spans_bytes(v)))
}

/// The number of layers a file announces.
pub open spec fn spans_count(b: Seq<u8>) -> u32 {
    le32_at(b, 12)
}

/// The header is whole, carries the magic, version 1 and the byte-order mark, and the
/// directory fits in the file.
pub open spec fn spans_header_ok(b: Seq<u8>) -> bool {
    &&& b.len() >= 16
    &&& b.subrange(0, 4) == spans_magic()
    &&& le32_at(b, 4) == 1
    &&& le32_at(b, 8) == BYTE_ORDER_MARK
    &&& 16 + 32 * spans_count(b) <= b.len()
}

/// Where layer `i`'s name lies in the file.
pub open spec fn spans_name_range(b: Seq<u8>, i: int) -> (int, int) {
    let s = 16 + 32 * spans_count(b) + le64_at(b, 16 + 32 * i);
    (s, s + le32_at(b, 16 + 32 * i + 8))
}

/// Layer `i`'s directory entry points inside the file: its name is valid UTF-8, and its
/// eight-byte aligned span data fits.
pub open spec fn spans_layer_ok(b: Seq<u8>, i: int) -> bool {
    let (s, e) = spans_name_range(b, i);
    let d = le64_at(b, 16 + 32 * i + 16);
    let c = le64_at(b, 16 + 32 * i + 24);
    &&& e <= b.len()
    &&& valid_utf8(b.subrange(s, e))
    &&& d + 16 * c <= b.len()
    &&& d % 8 == 0
}

/// The name of layer `i`.
pub open spec fn spans_layer_name(b: Seq<u8>, i: int) -> Seq<char> {
    let (s, e) = spans_name_range(b, i);
    decode_utf8(b.subrange(s, e))
}

/// Span `j` of layer `i`.
pub open spec fn spans_layer_span(b: Seq<u8>, i: int, j: int) -> Span {
    let d = le64_at(b, 16 + 32 * i + 16);
    Span { start: le64_at(b, d + 16 * j), end: le64_at(b, d + 16 * j + 8) }
}

/// The number of spans of layer `i`.
pub open spec fn spans_layer_count(b: Seq<u8>, i: int) -> u64 {
    le64_at(b, 16 + 32 * i + 24)
}

/// The span layers of a corpus, read from their file.
pub struct MappedSpans {
    names: Vec<String>,
    data: Vec<Vec<Span>>,
}

impl MappedSpans {
    /// The layer names, in file order.
    pub closed spec fn names(&self) -> Seq<Seq<char>> {
        string_views(self.names@)
    }

    /// The spans of the layer at position `i`.
    pub closed spec fn layer(&self, i: int) -> Seq<Span> {
        self.data@[i]@
    }

    pub closed spec fn wf(&self) -> bool {
        self.names@.len() == self.data@.len()
    }

    /// Reads the layers of a span file. Refused when the header is short or wrong, or when a
    /// directory entry points outside the file, at a name that is not UTF-8 or at misaligned
    /// span data.
    pub fn decode(b: &[u8]) -> (r: Result<MappedSpans, IndexError>)
        ensures
            r is Ok <==> spans_header_ok(b@) && forall|i: int| 0 <= i < spans_count(b@) ==> #[trigger] spans_layer_ok(b@, i),
            r matches Ok(m) ==> {
                &&& m.wf()
                &&& m.names().len() == spans_count(b@)
                &&& forall|i: int| 0 <= i < m.names().len() ==> #[trigger] m.names()[i] == spans_layer_name(b@, i)
                &&& forall|i: int| 0 <= i < m.names().len() ==> #[trigger] m.layer(i).len() == spans_layer_count(b@, i)
                &&& forall|i: int, j: int| 0 <= i < m.names().len() && 0 <= j < m.layer(i).len()
                    ==> #[trigger] m.layer(i)[j] == spans_layer_span(b@, i, j)
            },
    {
        if b.len() < 16 {
            return Err(IndexError::Format("spans file too small".to_owned()));
        }
        if !(b[0] == 0x4d && b[1] == 0x53 && b[2] == 0x50 && b[3] == 0x4e) {
            proof {
                if b@.subrange(0, 4) == spans_magic() {
                    assert(b@.subrange(0, 4)[0] == b@[0] && b@.subrange(0, 4)[1] == b@[1]);
                    assert(b@.subrange(0, 4)[2] == b@[2] && b@.subrange(0, 4)[3] == b@[3]);
                }
            }
            return Err(IndexError::Format("invalid spans magic".to_owned()));
        }
        proof { assert(b@.subrange(0, 4) =~= spans_magic()); }
        if read_u32_le(b, 4) != 1 {
            return Err(IndexError::Format("spans format version mismatch".to_owned()));
        }
        if read_u32_le(b, 8) != BYTE_ORDER_MARK {
            return Err(IndexError::Format("endianness mismatch".to_owned()));
        }
        let count = read_u32_le(b, 12);
        if (count as u64) * 32 + 16 > b.len() as u64 {
            return Err(IndexError::Format("truncated layer directory".to_owned()));
        }
        let c = count as usize;
        let pool_start = 16 + 32 * c;
        let blen = b.len() as u64;
        proof { assert(b@.len() <= usize::MAX); }
        let mut names: Vec<String> = Vec::new();
        let mut data: Vec<Vec<Span>> = Vec::new();
        let mut i: usize = 0;
        while i < c
            invariant
                0 <= i <= c,
                c == spans_count(b@),
                pool_start == 16 + 32 * c,
                pool_start <= b@.len(),
                blen == b@.len(),
                b@.len() <= usize::MAX,
                names@.len() == i,
                data@.len() == i,
                forall|k: int| 0 <= k < i ==> #[trigger] spans_layer_ok(b@, k),
                forall|k: int| 0 <= k < i ==> #[trigger] names@[k]@ == spans_layer_name(b@, k),
                forall|k: int| 0 <= k < i ==> #[trigger] data@[k]@.len() == spans_layer_count(b@, k),
                forall|k: int, j: int| 0 <= k < i && 0 <= j < data@[k]@.len() ==> #[trigger] data@[k]@[j] == spans_layer_span(b@, k, j),
            decreases c - i,
        {
            let e = 16 + 32 * i;
            let name_offset = read_u64_le(b, e);
            let name_len = read_u32_le(b, e + 8) as u64;
            let data_offset = read_u64_le(b, e + 16);
            let span_count = read_u64_le(b, e + 24);
            proof {
                assert(e == 16 + 32 * i);
                assert(spans_name_range(b@, i as int) == ((pool_start + name_offset) as int, (pool_start + name_offset + name_len) as int));
            }
            if name_offset > blen - pool_start as u64 || name_len > blen - pool_start as u64 - name_offset {
                proof { assert(!spans_layer_ok(b@, i as int)); }
                return Err(IndexError::Format("truncated string pool".to_owned()));
            }
            let no: usize = name_offset as usize;
            let nl: usize = name_len as usize;
            proof {
                assert(b@.len() <= usize::MAX);
                assert(name_offset <= usize::MAX);
                assert(no == name_offset && nl == name_len);
            }
            let ns = pool_start + no;
            let ne = ns + nl;
            let name_bytes = copy_range(b, ns, ne);
            let name = match utf8_to_string(name_bytes.as_slice()) {
                Some(s) => s,
                None => {
                    proof { assert(!spans_layer_ok(b@, i as int)); }
                    return Err(IndexError::Format("invalid layer name".to_owned()));
                },
            };
            proof { assert(decode_utf8(encode_utf8(name@)) == name@); }
            if data_offset > blen || span_count > (blen - data_offset) / 16 {
                proof {
                    if data_offset <= blen {
                        assert(data_offset + 16 * span_count > blen) by (nonlinear_arith)
                            requires span_count > (blen - data_offset) / 16, data_offset <= blen;
                    }
                }
                proof { assert(!spans_layer_ok(b@, i as int)); }
                return Err(IndexError::Format("truncated span data".to_owned()));
            }
            proof {
                assert(data_offset + 16 * span_count <= blen) by (nonlinear_arith)
                    requires span_count <= (blen - data_offset) / 16, data_offset <= blen;
            }
            if data_offset % 8 != 0 {
                proof { assert(!spans_layer_ok(b@, i as int)); }
                return Err(IndexError::Format("misaligned span data".to_owned()));
            }
            let d: usize = data_offset as usize;
            let n: usize = span_count as usize;
            proof {
                assert(d == data_offset && n == span_count);
                assert(spans_layer_ok(b@, i as int));
            }
            let mut v: Vec<Span> = Vec::new();
            let mut j: usize = 0;
            while j < n
                invariant
                    0 <= j <= n,
                    d + 16 * n <= b@.len(),
                    b@.len() <= usize::MAX,
                    d == le64_at(b@, 16 + 32 * i + 16),
                    v@.len() == j,
                    forall|q: int| 0 <= q < j ==> #[trigger] v@[q] == spans_layer_span(b@, i as int, q),
                decreases n - j,
            {
                proof {
                    assert(16 * j + 16 <= 16 * n) by (nonlinear_arith) requires j < n;
                }
                let start = read_u64_le(b, d + 16 * j);
                let end = read_u64_le(b, d + 16 * j + 8);
                v.push(Span { start, end });
                j = j + 1;
            }
            names.push(name);
            data.push(v);
            i = i + 1;
        }
        let m = MappedSpans { names, data };
        proof {
            assert(m.wf());
            assert(m.names().len() == spans_count(b@));
            assert(spans_header_ok(b@));
            assert forall|k: int| 0 <= k < m.names().len() implies #[trigger] m.names()[k] == spans_layer_name(b@, k) by {
                assert(m.names()[k] == m.names@[k]@);
            }
            assert forall|k: int| 0 <= k < m.names().len() implies #[trigger] m.layer(k).len() == spans_layer_count(b@, k) by {
                assert(m.layer(k) == m.data@[k]@);
            }
            assert forall|k: int, j: int| 0 <= k < m.names().len() && 0 <= j < m.layer(k).len()
                implies #[trigger] m.layer(k)[j] == spans_layer_span(b@, k, j) by {
                assert(m.layer(k) == m.data@[k]@);
            }
        }
        Ok(m)
    }

    /// Whether there is one span list per layer name.
    pub fn is_consistent(&self) -> (b: bool)
        ensures
            b == self.wf(),
    {
        self.names.len() == self.data.len()
    }

    /// The spans of the first layer named `name`, when there is one.
    pub closed spec fn layer_named(&self, name: Seq<char>) -> Option<Seq<Span>> {
        let i = crate::forward::first_index_of(self.names(), name);
        if i >= 0 { Some(self.layer(i)) } else { None }
    }

    /// The spans of the first layer named `layer`.
    pub fn spans(&self, layer: &str) -> (r: Option<&[Span]>)
        requires
            self.wf(),
        ensures
            r is None <==> !self.names().contains(layer@),
            r is None <==> self.layer_named(layer@) is None,
            r matches Some(s) ==> Some(s@) == self.layer_named(layer@),
    {
        match find_name(&self.names, layer) {
            Some(i) => {
                proof {
                    assert(self.layer(i as int) == self.data@[i as int]@);
                    assert(self.names()[i as int] == layer@);
                    assert forall|k: int| 0 <= k < i implies self.names()[k] != layer@ by {
                        assert(self.names()[k] == self.names@[k]@);
                    }
                    crate::forward::lemma_first_index_of(self.names(), layer@, i as int);
                }
                Some(self.data[i].as_slice())
            },
            None => {
                proof {
                    assert forall|k: int| 0 <= k < self.names().len() implies self.names()[k] != layer@ by {
                        assert(self.names()[k] == self.names@[k]@);
                    }
                    crate::forward::lemma_first_index_absent(self.names(), layer@);
                }
                None
            },
        }
    }

    /// The span of the first layer named `layer` that holds `position`, with its index.
    pub fn containing_with_index(&self, layer: &str, position: Position) -> (r: Option<(usize, &Span)>)
        requires
            self.wf(),
        ensures
            self.layer_named(layer@) is None ==> r is None,
            r matches Some((i, sp)) ==> self.layer_named(layer@) is Some && i < self.layer_named(layer@).unwrap().len()
                && *sp == self.layer_named(layer@).unwrap()[i as int] && sp.spec_contains(position as int),
            self.layer_named(layer@) is Some && spans_disjoint_sorted(self.layer_named(layer@).unwrap()) ==> (r is None
                <==> !some_span_contains(self.layer_named(layer@).unwrap(), position as int)),
    {
        let spans = match self.spans(layer) {
            Some(sp) => sp,
            None => return None,
        };
        match span_containing(spans, position) {
            Some(i) => Some((i, &spans[i])),
            None => None,
        }
    }

    /// The span of the first layer named `layer` that holds `position`.
    pub fn containing(&self, layer: &str, position: Position) -> (r: Option<&Span>)
        requires
            self.wf(),
        ensures
            r matches Some(s) ==> s.start <= position < s.end,
            r is Some ==> self.names().contains(layer@),
            !self.names().contains(layer@) ==> r is None,
            r matches Some(s) ==> exists|i: int| 0 <= i < self.layer_named(layer@).unwrap().len()
                && self.layer_named(layer@).unwrap()[i] == *s,
            self.layer_named(layer@) is Some && spans_disjoint_sorted(self.layer_named(layer@).unwrap()) ==> (r is None
                <==> !some_span_contains(self.layer_named(layer@).unwrap(), position as int)),
    {
        let spans = match self.spans(layer) {
            Some(s) => s,
            None => return None,
        };
        match span_containing(spans, position) {
            Some(i) => {
                proof { assert(spans@[i as int] == self.layer_named(layer@).unwrap()[i as int]); }
                Some(&spans[i])
            },
            None => None,
        }
    }

    /// The layer names, in file order.
    pub fn layers(&self) -> (r: Vec<&str>)
        ensures
            r@.len() == self.names().len(),
            forall|i: int| 0 <= i < r@.len() ==> r@[i]@ == #[trigger] self.names()[i],
    {
        let mut r: Vec<&str> = Vec::new();
        let mut i: usize = 0;
        while i < self.names.len()
            invariant
                0 <= i <= self.names@.len(),
                r@.len() == i,
                forall|k: int| 0 <= k < i ==> r@[k]@ == #[trigger] self.names()[k],
            decreases self.names@.len() - i,
        {
            r.push(self.names[i].as_str());
            i = i + 1;
        }
        r
    }
}

/// A span file of these layers cannot be made: there are 2^32 layers or more, a name takes
/// 4 GiB or more, or the file would not fit in memory.
pub open spec fn spans_unwritable(names: Seq<Seq<char>>, data: Seq<Seq<Span>>) -> bool {
    ||| names.len() > u32::MAX
    ||| exists|k: int| 0 <= k < names.len() && #[trigger] encode_utf8(names[k]).len() > u32::MAX
    ||| spans_file_len(name_parts(names), data) > usize::MAX
}

/// Rounding up to sixteen bytes adds at most fifteen.
proof fn lemma_align16(n: nat)
    ensures
        n <= align16(n) <= n + 15,
{
    assert(n <= (n + 15) / 16 * 16 <= n + 15) by (nonlinear_arith);
}

/// The bytes of the span file that holds the layers of `spans`, in name order. Refused only
/// when the file would not fit in memory or a name is 4 GiB or longer.
pub fn encode_flat_spans(spans: &InMemorySpans) -> (r: Result<Vec<u8>, IndexError>)
    requires
        spans.wf(),
    ensures
        r matches Ok(v) ==> exists|names: Seq<Seq<char>>| {
            &&& sorted_text(names)
            &&& #[trigger] names.to_multiset() == spans.layer_order().to_multiset()
            &&& v@ == spans_file(name_parts(names), layer_data(spans@, names))
        },
        r matches Err(e) ==> e is Format && exists|names: Seq<Seq<char>>| {
            &&& sorted_text(names)
            &&& #[trigger] names.to_multiset() == spans.layer_order().to_multiset()
            &&& spans_unwritable(names, layer_data(spans@, names))
        },
{
    let layer_refs = spans.layers();
    let mut owned: Vec<String> = Vec::new();
    let mut i: usize = 0;
    while i < layer_refs.len()
        invariant
            0 <= i <= layer_refs@.len(),
            layer_refs@.len() == spans.layer_order().len(),
            forall|k: int| 0 <= k < layer_refs@.len() ==> layer_refs@[k]@ == #[trigger] spans.layer_order()[k],
            str_views(owned@) == spans.layer_order().subrange(0, i as int),
        decreases layer_refs@.len() - i,
    {
        let ghost o0 = str_views(owned@);
        owned.push(crate::text::to_owned_string(layer_refs[i]));
        i = i + 1;
        proof {
            assert(str_views(owned@) =~= o0.push(layer_refs@[i - 1]@));
            assert(str_views(owned@) =~= spans.layer_order().subrange(0, i as int));
        }
    }
    proof { assert(spans.layer_order().subrange(0, i as int) =~= spans.layer_order()); }
    let ghost ov = str_views(owned@);
    let sorted = sort_strings(owned);
    let ghost names = str_views(sorted@);
    proof {
        assert(ov == spans.layer_order());
        assert(names.to_multiset() == spans.layer_order().to_multiset());
        spans.lemma_order_is_domain();
        assert forall|k: int| 0 <= k < names.len() implies spans@.dom().contains(#[trigger] names[k]) by {
            names.to_multiset_ensures();
            spans.layer_order().to_multiset_ensures();
            assert(names.contains(names[k]));
            assert(names.to_multiset().count(names[k]) > 0);
            assert(spans.layer_order().to_multiset().count(names[k]) > 0);
            assert(spans.layer_order().contains(names[k]));
            assert(spans.layer_order().to_set().contains(names[k]));
        }
    }
    let n = sorted.len();
    if n > 0xffff_ffff {
        proof { assert(spans_unwritable(names, layer_data(spans@, names))); }
        return Err(IndexError::Format("too many span layers".to_owned()));
    }
    let mut name_bytes: Vec<Vec<u8>> = Vec::new();
    let mut layer_spans: Vec<&[Span]> = Vec::new();
    let mut k: usize = 0;
    while k < n
        invariant
            0 <= k <= n,
            n == sorted@.len(),
            names == str_views(sorted@),
            spans.wf(),
            forall|q: int| 0 <= q < names.len() ==> spans@.dom().contains(#[trigger] names[q]),
            name_bytes@.map_values(|p: Vec<u8>| p@) == name_parts(names).take(k as int),
            layer_spans@.len() == k,
            forall|q: int| 0 <= q < k ==> (#[trigger] layer_spans@[q])@ == spans@[names[q]],
        decreases n - k,
    {
        let ghost nb0 = name_bytes@.map_values(|p: Vec<u8>| p@);
        name_bytes.push(utf8_bytes(sorted[k].as_str()));
        proof {
            assert(names[k as int] == sorted@[k as int]@);
            assert(name_parts(names).take(k + 1) =~= name_parts(names).take(k as int).push(encode_utf8(names[k as int])));
            assert(name_bytes@.map_values(|p: Vec<u8>| p@) =~= nb0.push(encode_utf8(names[k as int])));
        }
        let sp = match spans.spans(sorted[k].as_str()) {
            Some(sp) => sp,
            None => return Err(IndexError::LayerNotFound(sorted[k].clone())),
        };
        layer_spans.push(sp);
        k = k + 1;
    }
    let ghost np = name_parts(names);
    let ghost data = layer_data(spans@, names);
    proof {
        assert(np.take(n as int) =~= np);
        assert(name_bytes@.map_values(|p: Vec<u8>| p@) =~= np);
    }
    // Sizes, checked against the machine's limits.
    let mut pool_len: u64 = 0;
    let mut span_total: u64 = 0;
    let mut q: usize = 0;
    while q < n
        invariant
            0 <= q <= n,
            n == name_bytes@.len(),
            n == layer_spans@.len(),
            name_bytes@.map_values(|p: Vec<u8>| p@) == np,
            data.len() == n,
            forall|t: int| 0 <= t < n ==> (#[trigger] layer_spans@[t])@ == data[t],
            pool_len == pool_of(np.take(q as int)).len(),
            span_total == pool_of(data.map_values(|v: Seq<Span>| spans_bytes(v)).take(q as int)).len(),
            forall|t: int| 0 <= t < q ==> (#[trigger] np[t]).len() <= u32::MAX,
            np == name_parts(names),
            names.len() == n,
            sorted_text(names),
            names.to_multiset() == spans.layer_order().to_multiset(),
            data == layer_data(spans@, names),
        decreases n - q,
    {
        let nl = name_bytes[q].len() as u64;
        let sl = layer_spans[q].len() as u64;
        if nl > 0xffff_ffff || nl > u64::MAX - pool_len || sl > (u64::MAX - span_total) / 16 {
            proof {
                let parts = data.map_values(|v: Seq<Span>| spans_bytes(v));
                assert(np[q as int] == name_bytes@[q as int]@);
                assert(np[q as int] == encode_utf8(names[q as int]));
                assert(data[q as int] == layer_spans@[q as int]@);
                lemma_spans_bytes_len(data[q as int]);
                lemma_pool_piece(np, q as int);
                lemma_pool_piece(parts, q as int);
                lemma_align16(pool_of(np).len());
                assert(np.take(q as int) =~= np.take(q as int));
                if !(nl > 0xffff_ffff) && !(nl > u64::MAX - pool_len) {
                    assert(sl * 16 > u64::MAX - span_total) by (nonlinear_arith)
                        requires sl > (u64::MAX - span_total) / 16, span_total <= u64::MAX;
                }
                assert(spans_unwritable(names, data));
            }
            return Err(IndexError::Format("span file too large".to_owned()));
        }
        proof {
            let parts = data.map_values(|v: Seq<Span>| spans_bytes(v));
            let t1 = np.take(q + 1);
            assert(t1.drop_last() =~= np.take(q as int));
            assert(np[q as int] == name_bytes@[q as int]@);
            let t2 = parts.take(q + 1);
            assert(t2.drop_last() =~= parts.take(q as int));
            lemma_spans_bytes_len(data[q as int]);
            assert(16 * sl <= u64::MAX - span_total) by (nonlinear_arith)
                requires sl <= (u64::MAX - span_total) / 16, span_total <= u64::MAX;
        }
        pool_len = pool_len + nl;
        span_total = span_total + 16 * sl;
        q = q + 1;
    }
    let ghost parts = data.map_values(|v: Seq<Span>| spans_bytes(v));
    proof {
        assert(np.take(n as int) =~= np);
        assert(parts.take(n as int) =~= parts);
    }
    proof { lemma_align16(pool_len as nat); }
    if pool_len > u64::MAX - 15 {
        proof { assert(spans_unwritable(names, data)); }
        return Err(IndexError::Format("span file too large".to_owned()));
    }
    let padded = (pool_len + 15) / 16 * 16;
    if 32 * (n as u64) + 16 > u64::MAX - padded
        || span_total > u64::MAX - (32 * (n as u64) + 16 + padded) {
        proof { assert(spans_unwritable(names, data)); }
        return Err(IndexError::Format("span file too large".to_owned()));
    }
    let total = 16 + 32 * (n as u64) + padded + span_total;
    if total > usize::MAX as u64 {
        proof { assert(spans_unwritable(names, data)); }
        return Err(IndexError::Format("span file too large".to_owned()));
    }
    let data_start = 16 + 32 * (n as u64) + padded;
    let mut out: Vec<u8> = Vec::new();
    out.push(0x4d);
    out.push(0x53);
    out.push(0x50);
    out.push(0x4e);
    push_u32_le(&mut out, 1);
    push_u32_le(&mut out, BYTE_ORDER_MARK);
    push_u32_le(&mut out, n as u32);
    let ghost hdr = out@;
    let mut noff: u64 = 0;
    let mut doff: u64 = 0;
    let mut e: usize = 0;
    proof { assert(out@ =~= hdr + spans_dir(np, data, 0)); }
    while e < n
        invariant
            0 <= e <= n,
            n == name_bytes@.len(),
            n == layer_spans@.len(),
            name_bytes@.map_values(|p: Vec<u8>| p@) == np,
            np.len() == n,
            data.len() == n,
            parts == data.map_values(|v: Seq<Span>| spans_bytes(v)),
            forall|t: int| 0 <= t < n ==> (#[trigger] layer_spans@[t])@ == data[t],
            pool_of(np).len() == pool_len,
            pool_of(parts).len() == span_total,
            forall|t: int| 0 <= t < n ==> (#[trigger] np[t]).len() <= u32::MAX,
            data_start == spans_data_start(n as nat, pool_len as nat),
            data_start + span_total <= u64::MAX,
            noff == offset_of(np, e as int),
            doff == offset_of(parts, e as int),
            out@ == hdr + spans_dir(np, data, e as nat),
        decreases n - e,
    {
        proof {
            lemma_pool_piece(np, e as int);
            lemma_pool_piece(parts, e as int);
            lemma_offset_bounds(np, e + 1);
            lemma_offset_bounds(parts, e + 1);
            assert(np[e as int] == name_bytes@[e as int]@);
            lemma_spans_bytes_len(data[e as int]);
            assert(parts[e as int] == spans_bytes(data[e as int]));
        }
        let nl = name_bytes[e].len();
        let sl = layer_spans[e].len();
        push_u64_le(&mut out, noff);
        push_u32_le(&mut out, nl as u32);
        push_u32_le(&mut out, 0);
        push_u64_le(&mut out, data_start + doff);
        push_u64_le(&mut out, sl as u64);
        proof {
            assert(out@ =~= hdr + spans_dir(np, data, (e + 1) as nat));
        }
        noff = noff + nl as u64;
        doff = doff + 16 * sl as u64;
        e = e + 1;
    }
    push_pool(&mut out, &name_bytes);
    push_zeros(&mut out, (padded - pool_len) as usize);
    let ghost before_spans = out@;
    let mut f: usize = 0;
    proof { assert(parts.take(0) =~= Seq::<Seq<u8>>::empty()); }
    while f < n
        invariant
            0 <= f <= n,
            n == layer_spans@.len(),
            parts == data.map_values(|v: Seq<Span>| spans_bytes(v)),
            data.len() == n,
            forall|t: int| 0 <= t < n ==> (#[trigger] layer_spans@[t])@ == data[t],
            out@ == before_spans + pool_of(parts.take(f as int)),
        decreases n - f,
    {
        push_spans(&mut out, layer_spans[f]);
        proof {
            let t = parts.take(f + 1);
            assert(t.drop_last() =~= parts.take(f as int));
            assert(out@ =~= before_spans + pool_of(parts.take(f + 1)));
        }
        f = f + 1;
    }
    proof {
        assert(parts.take(n as int) =~= parts);
        assert(padded == align16(pool_len as nat));
        assert(out@ =~= spans_file(np, data));
        assert(names.to_multiset() == spans.layer_order().to_multiset());
    }
    Ok(out)
}

/// The UTF-8 bytes of each name.
pub open spec fn name_parts(names: Seq<Seq<char>>) -> Seq<Seq<u8>> {
    names.map_values(|n: Seq<char>| encode_utf8(n))
}

/// The span lists of the named layers of `m`.
pub open spec fn layer_data(m: Map<Seq<char>, Seq<Span>>, names: Seq<Seq<char>>) -> Seq<Seq<Span>> {
    names.map_values(|n: Seq<char>| m[n])
}

/// The list of spans has sixteen bytes per span.
pub proof fn lemma_spans_bytes_len(v: Seq<Span>)
    ensures
        spans_bytes(v).len() == 16 * v.len(),
    decreases v.len(),
{
    if v.len() > 0 {
        lemma_spans_bytes_len(v.drop_last());
    }
}

/// Span `j` lies at `16 * j` in the bytes of a list of spans.
pub proof fn lemma_spans_bytes_at(v: Seq<Span>, j: int)
    requires
        0 <= j < v.len(),
    ensures
        spans_bytes(v).subrange(16 * j, 16 * j + 16) == span_bytes(v[j]),
    decreases v.len(),
{
    lemma_spans_bytes_len(v);
    lemma_spans_bytes_len(v.drop_last());
    if j == v.len() - 1 {
        assert(spans_bytes(v).subrange(16 * j, 16 * j + 16) =~= span_bytes(v[j]));
    } else {
        lemma_spans_bytes_at(v.drop_last(), j);
        assert(spans_bytes(v).subrange(16 * j, 16 * j + 16) =~= spans_bytes(v.drop_last()).subrange(16 * j, 16 * j + 16));
    }
}

/// Appends the bytes of a list of spans.
fn push_spans(out: &mut Vec<u8>, v: &[Span])
    ensures
        final(out)@ == old(out)@ + spans_bytes(v@),
{
    let ghost start = out@;
    let mut i: usize = 0;
    proof { assert(v@.subrange(0, 0) =~= Seq::<Span>::empty()); }
    while i < v.len()
        invariant
            0 <= i <= v@.len(),
            out@ == start + spans_bytes(v@.subrange(0, i as int)),
        decreases v@.len() - i,
    {
        push_u64_le(out, v[i].start);
        push_u64_le(out, v[i].end);
        proof {
            let t = v@.subrange(0, i + 1);
            assert(t.drop_last() =~= v@.subrange(0, i as int));
            assert(out@ =~= start + spans_bytes(t));
        }
        i = i + 1;
    }
    proof { assert(v@.subrange(0, v@.len() as int) =~= v@); }
}

pub proof fn lemma_spans_dir_len(names: Seq<Seq<u8>>, data: Seq<Seq<Span>>, m: nat)
    ensures
        spans_dir(names, data, m).len() == 32 * m,
    decreases m,
{
    if m > 0 {
        lemma_spans_dir_len(names, data, (m - 1) as nat);
    }
}

/// Directory entry `k` lies at `32 * k` in the directory.
proof fn lemma_spans_dir_at(names: Seq<Seq<u8>>, data: Seq<Seq<Span>>, m: nat, k: int)
    requires
        0 <= k < m,
    ensures
        spans_dir(names, data, m).subrange(32 * k, 32 * k + 32) == spans_dir_entry(names, data, k),
    decreases m,
{
    lemma_spans_dir_len(names, data, m);
    lemma_spans_dir_len(names, data, (m - 1) as nat);
    if k == m - 1 {
        assert(spans_dir(names, data, m).subrange(32 * k, 32 * k + 32) =~= spans_dir_entry(names, data, k));
    } else {
        lemma_spans_dir_at(names, data, (m - 1) as nat, k);
        assert(spans_dir(names, data, m).subrange(32 * k, 32 * k + 32)
            =~= spans_dir(names, data, (m - 1) as nat).subrange(32 * k, 32 * k + 32));
    }
}

/// The size of the file that holds layers `names` with spans `data`.
pub open spec fn spans_file_len(names: Seq<Seq<u8>>, data: Seq<Seq<Span>>) -> nat {
    spans_data_start(names.len(), pool_of(names).len()) + pool_of(data.map_values(|v: Seq<Span>| spans_bytes(v))).len()
}

/// The header of a span file reads back.
proof fn lemma_spans_header(names: Seq<Seq<char>>, data: Seq<Seq<Span>>)
    requires
        names.len() <= u32::MAX,
    ensures
        spans_file(name_parts(names), data).len() >= 16 + 32 * names.len(),
        spans_header_ok(spans_file(name_parts(names), data)),
        spans_count(spans_file(name_parts(names), data)) == names.len(),
{
    let np = name_parts(names);
    let n = names.len();
    let b = spans_file(np, data);
    lemma_spans_dir_len(np, data, n);
    assert(b.subrange(0, 4) =~= spans_magic());
    assert(b.subrange(4, 8) =~= le32(1));
    assert(b.subrange(8, 12) =~= le32(BYTE_ORDER_MARK));
    assert(b.subrange(12, 16) =~= le32(n as u32));
    lemma_le32_at(b, 4, 1);
    lemma_le32_at(b, 8, BYTE_ORDER_MARK);
    lemma_le32_at(b, 12, n as u32);
}

/// The fields of directory entry `i` read back.
#[verifier::rlimit(40)]
proof fn lemma_spans_entry(names: Seq<Seq<char>>, data: Seq<Seq<Span>>, i: int)
    requires
        names.len() == data.len(),
        names.len() <= u32::MAX,
        spans_file_len(name_parts(names), data) <= u64::MAX,
        forall|k: int| 0 <= k < names.len() ==> encode_utf8(#[trigger] names[k]).len() <= u32::MAX,
        0 <= i < names.len(),
    ensures
        ({
            let np = name_parts(names);
            let b = spans_file(np, data);
            let parts = data.map_values(|v: Seq<Span>| spans_bytes(v));
            &&& le64_at(b, 16 + 32 * i) == offset_of(np, i)
            &&& le32_at(b, 16 + 32 * i + 8) == np[i].len()
            &&& le64_at(b, 16 + 32 * i + 16) == spans_data_start(names.len(), pool_of(np).len()) + offset_of(parts, i)
            &&& le64_at(b, 16 + 32 * i + 24) == data[i].len()
        }),
{
    let np = name_parts(names);
    let n = names.len();
    let parts = data.map_values(|v: Seq<Span>| spans_bytes(v));
    let b = spans_file(np, data);
    let pool = pool_of(np);
    let ds = spans_data_start(n, pool.len());
    lemma_spans_dir_len(np, data, n);
    lemma_spans_dir_at(np, data, n, i);
    let e = 16 + 32 * i;
    let ent = spans_dir_entry(np, data, i);
    assert(b.subrange(e, e + 32) =~= ent);
    lemma_offset_bounds(np, i);
    lemma_pool_piece(np, i);
    lemma_offset_bounds(parts, i);
    lemma_pool_piece(parts, i);
    lemma_offset_bounds(parts, data.len() as int);
    assert(parts.take(data.len() as int) =~= parts);
    let no = offset_of(np, i);
    let doff = ds + offset_of(parts, i);
    assert(np[i] == encode_utf8(names[i]));
    assert(pool.len() <= spans_file_len(np, data));
    assert(no <= u64::MAX);
    assert(doff <= u64::MAX);
    lemma_spans_bytes_len(data[i]);
    assert(parts[i] == spans_bytes(data[i]));
    assert(data[i].len() <= u64::MAX);
    assert(ent.subrange(0, 8) =~= le64(no as u64));
    assert(ent.subrange(8, 12) =~= le32(np[i].len() as u32));
    assert(ent.subrange(16, 24) =~= le64(doff as u64));
    assert(ent.subrange(24, 32) =~= le64(data[i].len() as u64));
    assert(b.subrange(e, e + 8) =~= ent.subrange(0, 8));
    assert(b.subrange(e + 8, e + 12) =~= ent.subrange(8, 12));
    assert(b.subrange(e + 16, e + 24) =~= ent.subrange(16, 24));
    assert(b.subrange(e + 24, e + 32) =~= ent.subrange(24, 32));
    lemma_le64_at(b, e, no as u64);
    lemma_le32_at(b, e + 8, np[i].len() as u32);
    lemma_le64_at(b, e + 16, doff as u64);
    lemma_le64_at(b, e + 24, data[i].len() as u64);
}

/// A file written for layers `names` with spans `data` reads back as those layers: its header
/// and every directory entry are sound, and each layer's name and spans read back whole.
#[verifier::rlimit(60)]
#[verifier::spinoff_prover]
pub proof fn lemma_spans_roundtrip(names: Seq<Seq<char>>, data: Seq<Seq<Span>>, i: int)
    requires
        names.len() == data.len(),
        names.len() <= u32::MAX,
        spans_file_len(name_parts(names), data) <= u64::MAX,
        forall|k: int| 0 <= k < names.len() ==> encode_utf8(#[trigger] names[k]).len() <= u32::MAX,
        0 <= i < names.len(),
    ensures
        ({
            let b = spans_file(name_parts(names), data);
            &&& spans_header_ok(b)
            &&& spans_count(b) == names.len()
            &&& spans_layer_ok(b, i)
            &&& spans_layer_name(b, i) == names[i]
            &&& spans_layer_count(b, i) == data[i].len()
            &&& forall|j: int| 0 <= j < data[i].len() ==> #[trigger] spans_layer_span(b, i, j) == data[i][j]
        }),
{
    let np = name_parts(names);
    let n = names.len();
    let parts = data.map_values(|v: Seq<Span>| spans_bytes(v));
    let b = spans_file(np, data);
    let pool = pool_of(np);
    let ds = spans_data_start(n, pool.len());
    lemma_spans_header(names, data);
    lemma_spans_entry(names, data, i);
    lemma_spans_dir_len(np, data, n);
    lemma_pool_piece(np, i);
    lemma_pool_piece(parts, i);
    lemma_offset_bounds(parts, data.len() as int);
    assert(parts.take(data.len() as int) =~= parts);
    let no = offset_of(np, i);
    let doff = ds + offset_of(parts, i);
    let ps = 16 + 32 * n;
    assert(b.subrange((ps + no) as int, (ps + no + np[i].len()) as int) =~= pool.subrange(no as int, (no + np[i].len()) as int));
    assert(np[i] == encode_utf8(names[i]));
    lemma_spans_bytes_len(data[i]);
    assert(parts[i] == spans_bytes(data[i]));
    assert(ds % 8 == 0) by {
        assert(align16(pool.len()) % 16 == 0) by (nonlinear_arith)
            requires align16(pool.len()) == (pool.len() + 15) / 16 * 16;
    }
    assert(offset_of(parts, i) % 8 == 0) by {
        lemma_pool_aligned16(data, i);
    }
    assert forall|j: int| 0 <= j < data[i].len() implies #[trigger] spans_layer_span(b, i, j) == data[i][j] by {
        lemma_spans_span(names, data, i, j);
    }
}

/// Span `j` of layer `i` reads back.
#[verifier::rlimit(40)]
proof fn lemma_spans_span(names: Seq<Seq<char>>, data: Seq<Seq<Span>>, i: int, j: int)
    requires
        names.len() == data.len(),
        names.len() <= u32::MAX,
        spans_file_len(name_parts(names), data) <= u64::MAX,
        forall|k: int| 0 <= k < names.len() ==> encode_utf8(#[trigger] names[k]).len() <= u32::MAX,
        0 <= i < names.len(),
        0 <= j < data[i].len(),
    ensures
        spans_layer_span(spans_file(name_parts(names), data), i, j) == data[i][j],
{
    let np = name_parts(names);
    let n = names.len();
    let parts = data.map_values(|v: Seq<Span>| spans_bytes(v));
    let b = spans_file(np, data);
    let pool = pool_of(np);
    let ds = spans_data_start(n, pool.len());
    lemma_spans_entry(names, data, i);
    lemma_spans_dir_len(np, data, n);
    lemma_pool_piece(parts, i);
    let doff = ds + offset_of(parts, i);
    lemma_spans_bytes_len(data[i]);
    assert(parts[i] == spans_bytes(data[i]));
    lemma_spans_bytes_at(data[i], j);
    let at = doff + 16 * j;
    let head = spans_magic() + le32(1) + le32(BYTE_ORDER_MARK) + le32(n as u32) + spans_dir(np, data, n) + pool
        + zeros((align16(pool.len()) - pool.len()) as nat);
    assert(b == head + pool_of(parts));
    assert(head.len() == ds);
    let pp = pool_of(parts);
    let oi = offset_of(parts, i);
    lemma_subrange_concat(head, pp, oi + 16 * j, oi + 16 * j + 16);
    assert(pp.subrange(oi + 16 * j, oi + 16 * j + 16) =~= pp.subrange(oi as int, offset_of(parts, i + 1) as int).subrange(16 * j, 16 * j + 16));
    let w = b.subrange(at as int, at + 16);
    assert(w == span_bytes(data[i][j]));
    assert(b.subrange(at as int, at + 8) =~= w.subrange(0, 8));
    assert(b.subrange(at + 8, at + 16) =~= w.subrange(8, 16));
    assert(w.subrange(0, 8) =~= le64(data[i][j].start));
    assert(w.subrange(8, 16) =~= le64(data[i][j].end));
    lemma_le64_at(b, at as int, data[i][j].start);
    lemma_le64_at(b, at + 8, data[i][j].end);
}

/// A range of the second part of a concatenation.
proof fn lemma_subrange_concat(a: Seq<u8>, c: Seq<u8>, x: int, y: int)
    requires
        0 <= x <= y <= c.len(),
    ensures
        (a + c).subrange(a.len() + x, a.len() + y) == c.subrange(x, y),
{
    assert((a + c).subrange(a.len() + x, a.len() + y) =~= c.subrange(x, y));
}

/// Offsets in a pool of span lists are multiples of sixteen.
proof fn lemma_pool_aligned16(data: Seq<Seq<Span>>, k: int)
    requires
        0 <= k <= data.len(),
    ensures
        offset_of(data.map_values(|v: Seq<Span>| spans_bytes(v)), k) % 16 == 0,
    decreases k,
{
    let parts = data.map_values(|v: Seq<Span>| spans_bytes(v));
    if k == 0 {
        assert(parts.take(0) =~= Seq::<Seq<u8>>::empty());
    } else {
        lemma_pool_aligned16(data, k - 1);
        lemma_pool_piece(parts, k - 1);
        lemma_spans_bytes_len(data[k - 1]);
        assert(parts[k - 1] == spans_bytes(data[k - 1]));
        assert((offset_of(parts, k - 1) + 16 * data[k - 1].len()) % 16 == 0) by (nonlinear_arith)
            requires offset_of(parts, k - 1) % 16 == 0;
    }
}

} // verus!
