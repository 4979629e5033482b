//! The forward file: a header (`MFWD`, version, byte-order mark, layer count), one 64-byte
//! directory entry per layer, the layer names padded to eight bytes, then each layer's
//! sections, each padded to eight bytes. A text layer keeps its distinct terms (offsets and
//! bytes), a bitmap of the positions that carry a term, and one packed term id per such
//! position; an integer layer keeps one four-byte value per position.
use vstd::prelude::*;
use vstd::utf8::*;
use roaring::RoaringBitmap;
use crate::bitmap::{bitmap_bytes, bitmap_set, bitmap_new, bitmap_insert, bitmap_serialize};
use crate::bytes::{le16, le32, le32_at, le64, le64_at, push_u16_le, push_u32_le, push_u64_le, read_u32_le, read_u64_le,
    extend_bytes};
use crate::order::{seq_lt, sort_strings, sorted_text, str_views, str_lt, lemma_lt_total, lemma_lt_transitive,
    lemma_lt_irreflexive};
use crate::text::{utf8_bytes, str_eq};
use crate::value::{Value, ValueModel};
use crate::forward::value_views;
use super::{align8, pool_of, offset_of, offsets_bytes, push_pool, push_offsets, lemma_offsets_len, lemma_offset_bounds,
    lemma_pool_piece};

verus! {

broadcast use group_utf8_lib;

/// A text layer: distinct terms and packed ids.
pub const ENCODING_DICT: u8 = 1;

/// An integer layer: one value per position.
pub const ENCODING_DENSE_NUMERIC: u8 = 2;

/// A layer prepared for writing.
pub struct LayerBuild {
    pub name: String,
    pub encoding: u8,
    pub id_width: u8,
    pub vocab_count: u32,
    pub data_count: u64,
    pub term_offsets: Vec<u32>,
    pub term_strings: Vec<u8>,
    pub bitmap_bytes: Vec<u8>,
    pub data_bytes: Vec<u8>,
}

/// The non-empty strings of a layer, in position order.
pub open spec fn text_values(data: Seq<ValueModel>) -> Seq<Seq<char>>
    decreases data.len(),
{
    if data.len() == 0 {
        Seq::empty()
    } else {
        let prev = text_values(data.drop_last());
        match data.last() {
            ValueModel::Str(s) => if s.len() > 0 { prev.push(s) } else { prev },
            ValueModel::Int(_) => prev,
        }
    }
}

/// The value is a non-empty string.
pub open spec fn nonempty_text(v: ValueModel) -> bool {
    v matches ValueModel::Str(s) && s.len() > 0
}

/// The positions (cut to 32 bits) of a layer that hold a non-empty string.
pub open spec fn text_positions(data: Seq<ValueModel>) -> Set<u32> {
    Set::new(|p: u32| exists|i: int| 0 <= i < data.len() && i as u32 == p && #[trigger] nonempty_text(data[i]))
}

/// The texts are in strictly increasing order.
pub open spec fn strictly_sorted(v: Seq<Seq<char>>) -> bool {
    forall|i: int, j: int| 0 <= i < j < v.len() ==> seq_lt(v[i], v[j])
}

/// How many bytes a term id takes for a vocabulary of `n` terms.
pub open spec fn id_width_for(n: nat) -> u8 {
    if n <= 256 { 1 } else if n <= 65536 { 2 } else { 4 }
}

/// The bytes of term id `id` in `width` bytes, least significant first.
pub open spec fn packed_id(id: u32, width: u8) -> Seq<u8> {
    if width == 1 { seq![id as u8] } else if width == 2 { le16(id as u16) } else { le32(id) }
}

/// The packed ids of `vals`, each the position of the value in `terms`.
pub open spec fn packed_ids(vals: Seq<Seq<char>>, terms: Seq<Seq<char>>, width: u8) -> Seq<u8>
    decreases vals.len(),
{
    if vals.len() == 0 {
        Seq::empty()
    } else {
        packed_ids(vals.drop_last(), terms, width) + packed_id(terms.index_of(vals.last()) as u32, width)
    }
}

/// The UTF-8 bytes of each term.
pub open spec fn term_parts(terms: Seq<Seq<char>>) -> Seq<Seq<u8>> {
    terms.map_values(|t: Seq<char>| encode_utf8(t))
}

/// The offsets of the terms and of their end.
pub open spec fn term_offsets_of(terms: Seq<Seq<char>>) -> Seq<u32> {
    Seq::new(terms.len() + 1, |k: int| offset_of(term_parts(terms), k) as u32)
}

/// `lb` is the text layer `name` built from `data`, its vocabulary being `terms`.
pub open spec fn is_dict_layer(lb: LayerBuild, name: Seq<char>, data: Seq<ValueModel>, terms: Seq<Seq<char>>, b: RoaringBitmap) -> bool {
    let vals = text_values(data);
    &&& strictly_sorted(terms)
    &&& terms.to_set() == vals.to_set()
    &&& lb.name@ == name
    &&& lb.encoding == ENCODING_DICT
    &&& lb.vocab_count == terms.len()
    &&& lb.id_width == id_width_for(terms.len())
    &&& lb.data_count == vals.len()
    &&& lb.term_offsets@ == term_offsets_of(terms)
    &&& lb.term_strings@ == pool_of(term_parts(terms))
    &&& bitmap_set(b) == text_positions(data)
    &&& lb.bitmap_bytes@ == bitmap_bytes(b)
    &&& lb.data_bytes@ == packed_ids(vals, terms, id_width_for(terms.len()))
}

/// `lb` is the text layer `name` built from `data`, for some vocabulary and bitmap.
pub open spec fn dict_layer_of(lb: LayerBuild, name: Seq<char>, data: Seq<ValueModel>) -> bool {
    exists|terms: Seq<Seq<char>>, b: RoaringBitmap| #[trigger] is_dict_layer(lb, name, data, terms, b)
}

/// The value an integer layer stores for a slot: the integer cut to 32 bits, or zero.
pub open spec fn dense_value(data: Seq<ValueModel>, pos: int) -> u32 {
    if 0 <= pos < data.len() {
        match data[pos] {
            ValueModel::Int(n) => n as u32,
            ValueModel::Str(_) => 0,
        }
    } else {
        0
    }
}

/// The four-byte values of the first `n` positions of an integer layer.
pub open spec fn dense_bytes(data: Seq<ValueModel>, n: nat) -> Seq<u8>
    decreases n,
{
    if n == 0 {
        Seq::empty()
    } else {
        dense_bytes(data, (n - 1) as nat) + le32(dense_value(data, n - 1))
    }
}

/// Whether some value of a layer is an integer.
pub open spec fn has_int(data: Seq<ValueModel>) -> bool {
    exists|i: int| 0 <= i < data.len() && data[i] is Int
}

/// Whether some value of the layer is an integer; such a layer is written as integers.
pub fn is_numeric_layer(data: &[Value]) -> (r: bool)
    ensures
        r == has_int(value_views(data@)),
{
    let ghost dv = value_views(data@);
    let mut i: usize = 0;
    while i < data.len()
        invariant
            0 <= i <= data@.len(),
            dv == value_views(data@),
            forall|k: int| 0 <= k < i ==> !(dv[k] is Int),
        decreases data@.len() - i,
    {
        match &data[i] {
            Value::Int(_) => {
                proof { assert(dv[i as int] is Int); }
                return true;
            },
            Value::Str(_) => {},
        }
        i = i + 1;
    }
    false
}

/// The bytes a layer's term table takes: its offsets and its term bytes.
pub fn term_table_size(layer: &LayerBuild) -> (r: usize)
    requires
        layer.term_offsets@.len() * 4 + layer.term_strings@.len() <= usize::MAX,
    ensures
        r == layer.term_offsets@.len() * 4 + layer.term_strings@.len(),
{
    layer.term_offsets.len() * 4 + layer.term_strings.len()
}

/// Distinct texts appear once each.
proof fn lemma_strict_unique(v: Seq<Seq<char>>, i: int, j: int)
    requires
        strictly_sorted(v),
        0 <= i < v.len(),
        0 <= j < v.len(),
        v[i] == v[j],
    ensures
        i == j,
{
    if i < j {
        lemma_lt_irreflexive(v[i]);
    } else if j < i {
        lemma_lt_irreflexive(v[j]);
    }
}

/// Position of `t` among strictly increasing `terms`, found by bisection.
fn find_term(terms: &Vec<String>, t: &str) -> (r: usize)
    requires
        strictly_sorted(str_views(terms@)),
        str_views(terms@).contains(t@),
    ensures
        r < terms@.len(),
        terms@[r as int]@ == t@,
        str_views(terms@).index_of(t@) == r,
{
    let ghost tv = str_views(terms@);
    let ghost k = choose|k: int| 0 <= k < tv.len() && tv[k] == t@;
    let mut lo: usize = 0;
    let mut hi: usize = terms.len();
    while lo < hi
        invariant
            0 <= lo <= hi <= terms@.len(),
            tv == str_views(terms@),
            strictly_sorted(tv),
            0 <= k < tv.len() && tv[k] == t@,
            lo <= k < hi,
        decreases hi - lo,
    {
        let mid = lo + (hi - lo) / 2;
        proof { assert(tv[mid as int] == terms@[mid as int]@); }
        if str_eq(terms[mid].as_str(), t) {
            proof {
                lemma_strict_unique(tv, mid as int, k);
                assert(tv.index_of(t@) == mid) by {
                    let q = tv.index_of(t@);
                    assert(tv.contains(t@));
                    assert(tv[q] == t@);
                    lemma_strict_unique(tv, q, k);
                }
            }
            return mid;
        }
        if str_lt(terms[mid].as_str(), t) {
            proof {
                if k <= mid {
                    if k < mid {
                        assert(seq_lt(tv[k], tv[mid as int]));
                        lemma_lt_total(tv[k], tv[mid as int]);
                    }
                }
            }
            lo = mid + 1;
        } else {
            proof {
                if k > mid {
                    assert(seq_lt(tv[mid as int], tv[k]));
                }
            }
            hi = mid;
        }
    }
    proof { assert(false); }
    0
}

/// The packed id of `id` in `width` bytes, appended.
fn push_packed_id(out: &mut Vec<u8>, id: u32, width: u8)
    requires
        width == 1 ==> id < 256,
        width == 2 ==> id < 65536,
    ensures
        final(out)@ == old(out)@ + packed_id(id, width),
{
    if width == 1 {
        out.push(id as u8);
        proof { assert(final(out)@ =~= old(out)@ + seq![id as u8]); }
    } else if width == 2 {
        push_u16_le(out, id as u16);
    } else {
        push_u32_le(out, id);
    }
}

/// With `terms` the distinct text values of `data` in order, the layer cannot be written: the
/// terms' bytes take more than 4 GiB, or there are 2^32 or more of them.
pub open spec fn dict_overflows(data: Seq<ValueModel>, terms: Seq<Seq<char>>) -> bool {
    &&& strictly_sorted(terms)
    &&& terms.to_set() == text_values(data).to_set()
    &&& (pool_of(term_parts(terms)).len() > u32::MAX || terms.len() > u32::MAX)
}

/// The text layer `name` built from `data`: its distinct non-empty strings in order, a bitmap
/// of the positions that carry one, and the ids of the values in position order. Absent only
/// when the distinct strings take 4 GiB or more (or number 2^32 or more), which their 32-bit
/// offsets and count cannot address.
#[verifier::spinoff_prover]
#[verifier::rlimit(50)]
pub fn build_dict_encoded_layer(name: &str, data: &[Value]) -> (r: Option<LayerBuild>)
    ensures
        r matches Some(lb) ==> dict_layer_of(lb, name@, value_views(data@)),
        r is None ==> exists|terms: Seq<Seq<char>>| #[trigger] dict_overflows(value_views(data@), terms),
{
    let ghost dv = value_views(data@);
    let mut bitmap = bitmap_new();
    let mut raw: Vec<String> = Vec::new();
    let mut pos: usize = 0;
    proof {
        assert(dv.subrange(0, 0) =~= Seq::<ValueModel>::empty());
        assert(str_views(raw@) =~= Seq::<Seq<char>>::empty());
        assert(bitmap_set(bitmap) =~= text_positions(dv.subrange(0, 0)));
    }
    while pos < data.len()
        invariant
            0 <= pos <= data@.len(),
            dv == value_views(data@),
            str_views(raw@) == text_values(dv.subrange(0, pos as int)),
            bitmap_set(bitmap) == text_positions(dv.subrange(0, pos as int)),
        decreases data@.len() - pos,
    {
        let ghost pre = dv.subrange(0, pos as int);
        let ghost nxt = dv.subrange(0, pos + 1);
        proof {
            assert(nxt.drop_last() =~= pre);
            assert(nxt.last() == data@[pos as int]@);
        }
        match &data[pos] {
            Value::Str(s) => {
                if s.as_str().unicode_len() > 0 {
                    let ghost r0 = str_views(raw@);
                    bitmap_insert(&mut bitmap, pos as u32);
                    raw.push(s.clone());
                    proof {
                        assert(s@.len() > 0);
                        assert(str_views(raw@) =~= r0.push(s@));
                        assert(bitmap_set(bitmap) =~= text_positions(nxt)) by {
                            assert(nonempty_text(nxt[pos as int]));
                            assert forall|p: u32| text_positions(nxt).contains(p) implies bitmap_set(bitmap).contains(p) by {
                                let i = choose|i: int| 0 <= i < nxt.len() && i as u32 == p && #[trigger] nonempty_text(nxt[i]);
                                if i < pos {
                                    assert(nxt[i] == pre[i]);
                                    assert(text_positions(pre).contains(p));
                                }
                            }
                            assert forall|p: u32| bitmap_set(bitmap).contains(p) implies text_positions(nxt).contains(p) by {
                                if p != pos as u32 {
                                    assert(text_positions(pre).contains(p));
                                    let i = choose|i: int| 0 <= i < pre.len() && i as u32 == p && #[trigger] nonempty_text(pre[i]);
                                    assert(nxt[i] == pre[i]);
                                }
                            }
                        }
                    }
                } else {
                    proof {
                        assert(s@.len() == 0);
                        assert(bitmap_set(bitmap) =~= text_positions(nxt)) by {
                            assert forall|p: u32| text_positions(nxt).contains(p) implies bitmap_set(bitmap).contains(p) by {
                                let i = choose|i: int| 0 <= i < nxt.len() && i as u32 == p && #[trigger] nonempty_text(nxt[i]);
                                if i < pos {
                                    assert(nxt[i] == pre[i]);
                                    assert(text_positions(pre).contains(p));
                                }
                            }
                            assert forall|p: u32| bitmap_set(bitmap).contains(p) implies text_positions(nxt).contains(p) by {
                                let i = choose|i: int| 0 <= i < pre.len() && i as u32 == p && #[trigger] nonempty_text(pre[i]);
                                assert(nxt[i] == pre[i]);
                            }
                        }
                    }
                }
            },
            Value::Int(_) => {
                proof {
                    assert(bitmap_set(bitmap) =~= text_positions(nxt)) by {
                        assert forall|p: u32| text_positions(nxt).contains(p) implies bitmap_set(bitmap).contains(p) by {
                            let i = choose|i: int| 0 <= i < nxt.len() && i as u32 == p && #[trigger] nonempty_text(nxt[i]);
                            if i < pos {
                                assert(nxt[i] == pre[i]);
                                assert(text_positions(pre).contains(p));
                            }
                        }
                        assert forall|p: u32| bitmap_set(bitmap).contains(p) implies text_positions(nxt).contains(p) by {
                            let i = choose|i: int| 0 <= i < pre.len() && i as u32 == p && #[trigger] nonempty_text(pre[i]);
                            assert(nxt[i] == pre[i]);
                        }
                    }
                }
            },
        }
        pos = pos + 1;
    }
    proof { assert(dv.subrange(0, pos as int) =~= dv); }
    let ghost vals = str_views(raw@);
    // The distinct values, in order.
    let mut copies: Vec<String> = Vec::new();
    let mut c: usize = 0;
    while c < raw.len()
        invariant
            0 <= c <= raw@.len(),
            str_views(copies@) == str_views(raw@).subrange(0, c as int),
        decreases raw@.len() - c,
    {
        let ghost c0 = str_views(copies@);
        copies.push(raw[c].clone());
        c = c + 1;
        proof { assert(str_views(copies@) =~= c0.push(raw@[c - 1]@)); }
    }
    proof { assert(str_views(raw@).subrange(0, c as int) =~= str_views(raw@)); }
    let sorted = sort_strings(copies);
    let ghost sv = str_views(sorted@);
    let mut terms: Vec<String> = Vec::new();
    let mut d: usize = 0;
    proof {
        assert(str_views(terms@) =~= Seq::<Seq<char>>::empty());
    }
    while d < sorted.len()
        invariant
            0 <= d <= sorted@.len(),
            sv == str_views(sorted@),
            sorted_text(sv),
            strictly_sorted(str_views(terms@)),
            str_views(terms@).to_set() == sv.subrange(0, d as int).to_set(),
            d > 0 ==> terms@.len() > 0 && str_views(terms@).last() == sv[d - 1],
            d == 0 ==> terms@.len() == 0,
        decreases sorted@.len() - d,
    {
        let ghost t0 = str_views(terms@);
        proof {
            assert(sv.subrange(0, d + 1) =~= sv.subrange(0, d as int).push(sv[d as int]));
            sv.subrange(0, d as int).lemma_push_to_set_commute(sv[d as int]);
            assert(sv[d as int] == sorted@[d as int]@);
        }
        if terms.len() == 0 || !str_eq(terms[terms.len() - 1].as_str(), sorted[d].as_str()) {
            terms.push(sorted[d].clone());
            proof {
                assert(str_views(terms@) =~= t0.push(sv[d as int]));
                t0.lemma_push_to_set_commute(sv[d as int]);
                if d > 0 {
                    assert(t0.last() == sv[d - 1]);
                    assert(!seq_lt(sv[d as int], sv[d - 1]));
                    lemma_lt_total(sv[d - 1], sv[d as int]);
                    assert(seq_lt(sv[d - 1], sv[d as int]));
                }
                assert forall|i: int, j: int| 0 <= i < j < str_views(terms@).len()
                    implies seq_lt(str_views(terms@)[i], str_views(terms@)[j]) by {
                    if j == t0.len() && i < t0.len() - 1 {
                        lemma_lt_transitive(t0[i], t0.last(), sv[d as int]);
                    }
                }
            }
        } else {
            proof {
                assert(t0.last() == sv[d as int]);
                assert(t0.contains(sv[d as int]));
                assert(t0.to_set().insert(sv[d as int]) =~= t0.to_set());
            }
        }
        d = d + 1;
    }
    proof {
        assert(sv.subrange(0, d as int) =~= sv);
        assert(sv.to_set() == vals.to_set()) by {
            sv.to_multiset_ensures();
            vals.to_multiset_ensures();
            assert forall|x: Seq<char>| sv.to_set().contains(x) <==> vals.to_set().contains(x) by {
                assert(sv.contains(x) <==> sv.to_multiset().count(x) > 0);
                assert(vals.contains(x) <==> vals.to_multiset().count(x) > 0);
            }
        }
    }
    let ghost tv = str_views(terms@);
    // The term table.
    let mut parts: Vec<Vec<u8>> = Vec::new();
    let mut q: usize = 0;
    while q < terms.len()
        invariant
            0 <= q <= terms@.len(),
            tv == str_views(terms@),
            parts@.map_values(|p: Vec<u8>| p@) == term_parts(tv).take(q as int),
        decreases terms@.len() - q,
    {
        let ghost p0 = parts@.map_values(|p: Vec<u8>| p@);
        parts.push(utf8_bytes(terms[q].as_str()));
        q = q + 1;
        proof {
            assert(tv[q - 1] == terms@[q - 1]@);
            assert(term_parts(tv).take(q as int) =~= term_parts(tv).take(q - 1).push(encode_utf8(tv[q - 1])));
            assert(parts@.map_values(|p: Vec<u8>| p@) =~= p0.push(encode_utf8(tv[q - 1])));
        }
    }
    let ghost tp = term_parts(tv);
    proof { assert(tp.take(q as int) =~= tp); }
    proof {
        assert(str_views(raw@) == text_values(dv));
        assert(tv.to_set() == text_values(dv).to_set());
    }
    let mut total: u64 = 0;
    let mut z: usize = 0;
    while z < parts.len()
        invariant
            0 <= z <= parts@.len(),
            parts@.map_values(|p: Vec<u8>| p@) == tp,
            total == offset_of(tp, z as int),
            total <= u32::MAX,
            tp == term_parts(tv),
            strictly_sorted(tv),
            tv.to_set() == text_values(dv).to_set(),
            dv == value_views(data@),
        decreases parts@.len() - z,
    {
        proof {
            lemma_pool_piece(tp, z as int);
            assert(tp[z as int] == parts@[z as int]@);
        }
        let l = parts[z].len() as u64;
        if l > 0xffff_ffff - total {
            proof { assert(dict_overflows(dv, tv)); }
            return None;
        }
        total = total + l;
        z = z + 1;
    }
    proof {
        lemma_offset_bounds(tp, tp.len() as int);
        assert(tp.take(tp.len() as int) =~= tp);
    }
    let mut term_offsets: Vec<u32> = Vec::new();
    let mut off: u32 = 0;
    let mut w: usize = 0;
    while w < parts.len()
        invariant
            0 <= w <= parts@.len(),
            parts@.map_values(|p: Vec<u8>| p@) == tp,
            pool_of(tp).len() <= u32::MAX,
            off == offset_of(tp, w as int),
            term_offsets@ == term_offsets_of(tv).take(w as int),
            tp == term_parts(tv),
        decreases parts@.len() - w,
    {
        proof {
            lemma_pool_piece(tp, w as int);
            lemma_offset_bounds(tp, w + 1);
            assert(tp[w as int] == parts@[w as int]@);
        }
        term_offsets.push(off);
        proof { assert(term_offsets@ =~= term_offsets_of(tv).take(w + 1)); }
        off = off + parts[w].len() as u32;
        w = w + 1;
    }
    term_offsets.push(off);
    proof {
        assert(term_offsets@ =~= term_offsets_of(tv));
    }
    let mut term_strings: Vec<u8> = Vec::new();
    push_pool(&mut term_strings, &parts);
    proof { assert(term_strings@ =~= pool_of(tp)); }
    let vocab = terms.len();
    if vocab > 0xffff_ffff {
        proof {
            assert(tv.len() == vocab);
            assert(dict_overflows(dv, tv));
        }
        return None;
    }
    let width: u8 = if vocab <= 256 { 1 } else if vocab <= 65536 { 2 } else { 4 };
    let mut data_bytes: Vec<u8> = Vec::new();
    let mut e: usize = 0;
    proof { assert(vals.subrange(0, 0) =~= Seq::<Seq<char>>::empty()); }
    while e < raw.len()
        invariant
            0 <= e <= raw@.len(),
            vals == str_views(raw@),
            tv == str_views(terms@),
            strictly_sorted(tv),
            tv.to_set() == vals.to_set(),
            vocab == tv.len(),
            width == id_width_for(vocab as nat),
            data_bytes@ == packed_ids(vals.subrange(0, e as int), tv, width),
        decreases raw@.len() - e,
    {
        proof {
            assert(vals[e as int] == raw@[e as int]@);
            assert(vals.to_set().contains(vals[e as int]));
            assert(tv.to_set().contains(vals[e as int]));
        }
        let id = find_term(&terms, raw[e].as_str());
        push_packed_id(&mut data_bytes, id as u32, width);
        e = e + 1;
        proof {
            let t = vals.subrange(0, e as int);
            assert(t.drop_last() =~= vals.subrange(0, e - 1));
        }
    }
    proof { assert(vals.subrange(0, e as int) =~= vals); }
    let serialized = bitmap_serialize(&bitmap);
    let lb = LayerBuild {
        name: name.to_owned(),
        encoding: ENCODING_DICT,
        id_width: width,
        vocab_count: vocab as u32,
        data_count: raw.len() as u64,
        term_offsets,
        term_strings,
        bitmap_bytes: serialized,
        data_bytes,
    };
    proof {
        assert(lb.name@ == name@);
        assert(lb.vocab_count == tv.len());
        assert(lb.data_count == vals.len());
        assert(lb.term_offsets@ == term_offsets_of(tv));
        assert(lb.term_strings@ == pool_of(term_parts(tv)));
        assert(lb.bitmap_bytes@ == bitmap_bytes(bitmap));
        assert(lb.data_bytes@ == packed_ids(vals, tv, id_width_for(tv.len())));
        assert(bitmap_set(bitmap) == text_positions(dv));
        assert(is_dict_layer(lb, name@, dv, tv, bitmap));
        assert(dv == value_views(data@));
        assert(is_dict_layer(lb, name@, value_views(data@), tv, bitmap));
        assert(dict_layer_of(lb, name@, value_views(data@)));
    }
    let r = Some(lb);
    proof { assert(r matches Some(x) && dict_layer_of(x, name@, value_views(data@))); }
    r
}

/// The integer layer `name` over `token_count` positions.
pub fn build_dense_numeric_layer(name: &str, data: &[Value], token_count: u64) -> (lb: LayerBuild)
    requires
        token_count * 4 <= usize::MAX,
    ensures
        lb.name@ == name@,
        lb.encoding == ENCODING_DENSE_NUMERIC,
        lb.id_width == 0,
        lb.vocab_count == 0,
        lb.data_count == token_count,
        lb.term_offsets@.len() == 0,
        lb.term_strings@.len() == 0,
        lb.bitmap_bytes@.len() == 0,
        lb.data_bytes@ == dense_bytes(value_views(data@), token_count as nat),
{
    let ghost dv = value_views(data@);
    let mut out: Vec<u8> = Vec::new();
    let mut pos: u64 = 0;
    while pos < token_count
        invariant
            0 <= pos <= token_count,
            dv == value_views(data@),
            out@ == dense_bytes(dv, pos as nat),
            token_count * 4 <= usize::MAX,
        decreases token_count - pos,
    {
        let p: usize = pos as usize;
        proof { assert(p == pos); }
        let v: u32 = if p < data.len() {
            match &data[p] {
                Value::Int(n) => *n as u32,
                Value::Str(_) => 0,
            }
        } else {
            0
        };
        proof {
            if p < data@.len() {
                assert(dv[p as int] == data@[p as int]@);
            }
            assert(v == dense_value(dv, pos as int));
        }
        push_u32_le(&mut out, v);
        pos = pos + 1;
        proof {
            assert(dense_bytes(dv, pos as nat) == dense_bytes(dv, (pos - 1) as nat) + le32(dense_value(dv, pos - 1)));
        }
    }
    LayerBuild {
        name: name.to_owned(),
        encoding: ENCODING_DENSE_NUMERIC,
        id_width: 0,
        vocab_count: 0,
        data_count: token_count,
        term_offsets: Vec::new(),
        term_strings: Vec::new(),
        bitmap_bytes: Vec::new(),
        data_bytes: out,
    }
}

/// The bytes of a list of 32-bit numbers, least significant first.
pub open spec fn u32s_bytes(v: Seq<u32>) -> Seq<u8>
    decreases v.len(),
{
    if v.len() == 0 { Seq::empty() } else { u32s_bytes(v.drop_last()) + le32(v.last()) }
}

/// `b` followed by zeros up to a multiple of eight bytes.
pub open spec fn padded8(b: Seq<u8>) -> Seq<u8> {
    b + super::zeros((align8(b.len()) - b.len()) as nat)
}

/// A layer's term table: its offsets, then its term bytes.
pub open spec fn term_table(lb: LayerBuild) -> Seq<u8> {
    u32s_bytes(lb.term_offsets@) + lb.term_strings@
}

/// A layer's sections, each padded to eight bytes.
pub open spec fn sections(lb: LayerBuild) -> Seq<u8> {
    if lb.encoding == ENCODING_DICT {
        padded8(term_table(lb)) + padded8(lb.bitmap_bytes@) + padded8(lb.data_bytes@)
    } else {
        padded8(lb.data_bytes@)
    }
}

/// The sections of the first `k` layers.
pub open spec fn all_sections(ls: Seq<LayerBuild>, k: nat) -> Seq<u8>
    decreases k,
{
    if k == 0 { Seq::empty() } else { all_sections(ls, (k - 1) as nat) + sections(ls[k - 1]) }
}

/// The layer names' UTF-8 bytes.
pub open spec fn layer_names_parts(ls: Seq<LayerBuild>) -> Seq<Seq<u8>> {
    ls.map_values(|lb: LayerBuild| encode_utf8(lb.name@))
}

/// Where the sections start in a file of these layers.
pub open spec fn sections_start(ls: Seq<LayerBuild>) -> nat {
    16 + 64 * ls.len() + align8(pool_of(layer_names_parts(ls)).len())
}

/// The directory entry of layer `k`, whose sections start at `at`.
pub open spec fn ff_dir_entry(ls: Seq<LayerBuild>, k: int, at: nat) -> Seq<u8> {
    let lb = ls[k];
    let dict = lb.encoding == ENCODING_DICT;
    let vocab_at: nat = if dict { at } else { 0 };
    let bitmap_at: nat = if dict { at + align8(term_table(lb).len()) } else { 0 };
    let data_at: nat = if dict { at + align8(term_table(lb).len()) + align8(lb.bitmap_bytes@.len()) } else { at };
    le64(offset_of(layer_names_parts(ls), k) as u64) + le32(encode_utf8(lb.name@).len() as u32)
        + seq![lb.encoding, lb.id_width, 0u8, 0u8]
        + le64(vocab_at as u64) + le32(lb.vocab_count) + seq![0u8, 0u8, 0u8, 0u8]
        + le64(bitmap_at as u64) + le64(lb.bitmap_bytes@.len() as u64)
        + le64(data_at as u64) + le64(lb.data_count)
}

/// The directory entries of the first `k` layers.
pub open spec fn ff_dir(ls: Seq<LayerBuild>, k: nat) -> Seq<u8>
    decreases k,
{
    if k == 0 {
        Seq::empty()
    } else {
        ff_dir(ls, (k - 1) as nat) + ff_dir_entry(ls, k - 1, sections_start(ls) + all_sections(ls, (k - 1) as nat).len())
    }
}

/// The forward file that holds layers `ls`.
pub open spec fn ff_file(ls: Seq<LayerBuild>) -> Seq<u8> {
    let n = ls.len();
    let np = pool_of(layer_names_parts(ls));
    seq![0x4du8, 0x46u8, 0x57u8, 0x44u8] + le32(1) + le32(super::BYTE_ORDER_MARK) + le32(n as u32)
        + ff_dir(ls, n) + padded8(np) + all_sections(ls, n)
}

/// Appends `b` and zeros up to a multiple of eight bytes.
fn push_padded(out: &mut Vec<u8>, b: &[u8])
    requires
        b@.len() <= usize::MAX - 7,
    ensures
        final(out)@ == old(out)@ + padded8(b@),
{
    extend_bytes(out, b);
    let a = super::align_to_8(b.len());
    super::push_zeros(out, a - b.len());
}

/// Appends the bytes of a list of 32-bit numbers.
fn push_u32s(out: &mut Vec<u8>, v: &[u32])
    ensures
        final(out)@ == old(out)@ + u32s_bytes(v@),
{
    let ghost start = out@;
    let mut i: usize = 0;
    proof { assert(v@.subrange(0, 0) =~= Seq::<u32>::empty()); }
    while i < v.len()
        invariant
            0 <= i <= v@.len(),
            out@ == start + u32s_bytes(v@.subrange(0, i as int)),
        decreases v@.len() - i,
    {
        push_u32_le(out, v[i]);
        i = i + 1;
        proof {
            let t = v@.subrange(0, i as int);
            assert(t.drop_last() =~= v@.subrange(0, i - 1));
            assert(out@ =~= start + u32s_bytes(t));
        }
    }
    proof { assert(v@.subrange(0, v@.len() as int) =~= v@); }
}

proof fn lemma_u32s_len(v: Seq<u32>)
    ensures
        u32s_bytes(v).len() == 4 * v.len(),
    decreases v.len(),
{
    if v.len() > 0 {
        lemma_u32s_len(v.drop_last());
    }
}

/// The sizes of a layer's parts fit the machine, so its sections can be laid out.
pub open spec fn layer_fits(lb: LayerBuild) -> bool {
    &&& lb.term_offsets@.len() * 4 + lb.term_strings@.len() + 7 <= u32::MAX
    &&& lb.bitmap_bytes@.len() + 7 <= u32::MAX
    &&& lb.data_bytes@.len() + 7 <= u32::MAX
    &&& encode_utf8(lb.name@).len() <= u32::MAX
}

/// Appends the sections of one layer.
fn push_sections(out: &mut Vec<u8>, lb: &LayerBuild)
    requires
        layer_fits(*lb),
    ensures
        final(out)@ == old(out)@ + sections(*lb),
{
    if lb.encoding == ENCODING_DICT {
        let mut tt: Vec<u8> = Vec::new();
        push_u32s(&mut tt, lb.term_offsets.as_slice());
        extend_bytes(&mut tt, lb.term_strings.as_slice());
        proof { lemma_u32s_len(lb.term_offsets@); }
        push_padded(out, tt.as_slice());
        push_padded(out, lb.bitmap_bytes.as_slice());
        push_padded(out, lb.data_bytes.as_slice());
        proof { assert(final(out)@ =~= old(out)@ + sections(*lb)); }
    } else {
        push_padded(out, lb.data_bytes.as_slice());
    }
}

proof fn lemma_sections_len(lb: LayerBuild)
    requires
        layer_fits(lb),
    ensures
        sections(lb).len() == if lb.encoding == ENCODING_DICT {
            align8(term_table(lb).len()) + align8(lb.bitmap_bytes@.len()) + align8(lb.data_bytes@.len())
        } else {
            align8(lb.data_bytes@.len())
        },
{
    lemma_u32s_len(lb.term_offsets@);
}

/// `lb` is how the forward file writes layer `name` with values `data` over `token_count`
/// positions: as integers when some value is an integer, else as text.
pub open spec fn layer_written_as(lb: LayerBuild, name: Seq<char>, data: Seq<ValueModel>, token_count: u64) -> bool {
    if has_int(data) {
        &&& lb.name@ == name
        &&& lb.encoding == ENCODING_DENSE_NUMERIC
        &&& lb.id_width == 0
        &&& lb.vocab_count == 0
        &&& lb.data_count == token_count
        &&& lb.term_offsets@.len() == 0
        &&& lb.term_strings@.len() == 0
        &&& lb.bitmap_bytes@.len() == 0
        &&& lb.data_bytes@ == dense_bytes(data, token_count as nat)
    } else {
        dict_layer_of(lb, name, data)
    }
}

/// Layer `name` with values `data` cannot be written over `token_count` positions: an integer
/// layer would not fit in memory, the distinct strings of a text layer overflow their table, or
/// the layer as written is too large for the format's 32-bit section lengths.
pub open spec fn layer_overflows(name: Seq<char>, data: Seq<ValueModel>, token_count: u64) -> bool {
    ||| has_int(data) && token_count > usize::MAX / 4
    ||| !has_int(data) && exists|terms: Seq<Seq<char>>| #[trigger] dict_overflows(data, terms)
    ||| exists|lb: LayerBuild| #[trigger] layer_written_as(lb, name, data, token_count) && !layer_fits(lb)
}

/// The data of layer `k` of a forward index.
pub open spec fn layer_values(f: crate::forward::ForwardModel, k: int) -> Seq<ValueModel> {
    f.data[crate::forward::first_index_of(f.layers, f.layers[k])]
}

/// The bytes of the forward file of `forward`: each layer, in order, written as text or as
/// integers. Absent when a layer or the file is too large for the format's offsets.
pub fn encode_flat_forward(forward: &crate::forward::InMemoryForward) -> (r: Option<Vec<u8>>)
    requires
        forward.wf(),
    ensures
        r matches Some(v) ==> exists|ls: Seq<LayerBuild>| {
            &&& #[trigger] ls.len() == forward@.layers.len()
            &&& (forall|k: int| 0 <= k < ls.len() ==> #[trigger] layer_written_as(ls[k], forward@.layers[k],
                forward@.data[crate::forward::first_index_of(forward@.layers, forward@.layers[k])], forward@.token_count as u64))
            &&& v@ == ff_file(ls)
        },
        r is None ==> (exists|k: int| 0 <= k < forward@.layers.len()
            && #[trigger] layer_overflows(forward@.layers[k], layer_values(forward@, k), forward@.token_count as u64))
            || exists|ls: Seq<LayerBuild>| {
                &&& #[trigger] ls.len() == forward@.layers.len()
                &&& (forall|k: int| 0 <= k < ls.len() ==> #[trigger] layer_written_as(ls[k], forward@.layers[k],
                    layer_values(forward@, k), forward@.token_count as u64) && layer_fits(ls[k]))
                &&& (ls.len() > u32::MAX || ff_file(ls).len() > usize::MAX)
            },
{
    let token_count = forward.token_count();
    let names = forward.layer_names();
    let mut layers: Vec<LayerBuild> = Vec::new();
    let mut i: usize = 0;
    proof { forward.lemma_wf(); }
    while i < names.len()
        invariant
            0 <= i <= names@.len(),
            forward.wf(),
            crate::text::string_views(names@) == forward@.layers,
            token_count == forward@.token_count,
            layers@.len() == i,
            forall|k: int| 0 <= k < i ==> #[trigger] layer_written_as(layers@[k], forward@.layers[k],
                forward@.data[crate::forward::first_index_of(forward@.layers, forward@.layers[k])], token_count),
            forall|k: int| 0 <= k < i ==> #[trigger] layer_fits(layers@[k]),
        decreases names@.len() - i,
    {
        proof { assert(crate::text::string_views(names@)[i as int] == names@[i as int]@); }
        let data = match forward.layer_data(names[i].as_str()) {
            Some(d) => d,
            None => {
                proof {
                    assert(forward@.layers[i as int] == names@[i as int]@);
                    assert(crate::forward::first_index_of(forward@.layers, names@[i as int]@) >= 0) by {
                        if !(exists|q: int| 0 <= q < forward@.layers.len() && forward@.layers[q] == names@[i as int]@
                            && forall|j: int| 0 <= j < q ==> forward@.layers[j] != names@[i as int]@) {
                            crate::forward::lemma_first_exists(forward@.layers, names@[i as int]@, i as int);
                        }
                    }
                }
                return None;
            },
        };
        proof {
            assert(forward@.layers[i as int] == names@[i as int]@);
            assert(value_views(data@) == layer_values(forward@, i as int));
        }
        let lb = if is_numeric_layer(data) {
            if token_count > (usize::MAX / 4) as u64 {
                proof { assert(i < forward@.layers.len()); assert(layer_overflows(forward@.layers[i as int], layer_values(forward@, i as int), forward@.token_count as u64)); }
                return None;
            }
            build_dense_numeric_layer(names[i].as_str(), data, token_count)
        } else {
            match build_dict_encoded_layer(names[i].as_str(), data) {
                Some(lb) => lb,
                None => {
                    proof {
                        let t = choose|t: Seq<Seq<char>>| #[trigger] dict_overflows(value_views(data@), t);
                        assert(dict_overflows(layer_values(forward@, i as int), t));
                        assert(i < forward@.layers.len());
                        assert(layer_overflows(forward@.layers[i as int], layer_values(forward@, i as int), forward@.token_count as u64));
                    }
                    return None;
                },
            }
        };
        proof {
            assert(layer_written_as(lb, forward@.layers[i as int], layer_values(forward@, i as int), token_count));
        }
        let fits = lb.term_offsets.len() <= 0x3fff_fffe
            && (lb.term_strings.len() as u64) <= 0xffff_fff8 - 4 * (lb.term_offsets.len() as u64)
            && lb.bitmap_bytes.len() as u64 <= 0xffff_fff8 && lb.data_bytes.len() as u64 <= 0xffff_fff8;
        if !fits {
            proof {
                assert(!layer_fits(lb));
                assert(i < forward@.layers.len());
                assert(layer_overflows(forward@.layers[i as int], layer_values(forward@, i as int), forward@.token_count as u64));
            }
            return None;
        }
        let nb = utf8_bytes(lb.name.as_str());
        if nb.len() > 0xffff_ffff {
            proof {
                assert(!layer_fits(lb));
                assert(i < forward@.layers.len());
                assert(layer_overflows(forward@.layers[i as int], layer_values(forward@, i as int), forward@.token_count as u64));
            }
            return None;
        }
        proof {
            assert(forward@.layers[i as int] == names@[i as int]@);
            assert(value_views(data@) == forward@.data[crate::forward::first_index_of(forward@.layers, names@[i as int]@)]);
            assert(layer_fits(lb));
            assert(layer_written_as(lb, forward@.layers[i as int],
                forward@.data[crate::forward::first_index_of(forward@.layers, forward@.layers[i as int])], token_count));
        }
        layers.push(lb);
        i = i + 1;
    }
    let r = encode_layers(&layers);
    proof {
        if r is None {
            let ls = layers@;
            assert forall|k: int| 0 <= k < ls.len() implies #[trigger] layer_written_as(ls[k], forward@.layers[k],
                layer_values(forward@, k), forward@.token_count as u64) && layer_fits(ls[k]) by {
                assert(layer_fits(layers@[k]));
            }
            assert(ls.len() == forward@.layers.len());
        }
    }
    r
}

/// The directory has 64 bytes per layer.
proof fn lemma_ff_dir_len(ls: Seq<LayerBuild>, k: nat)
    ensures
        ff_dir(ls, k).len() == 64 * k,
    decreases k,
{
    if k > 0 {
        lemma_ff_dir_len(ls, (k - 1) as nat);
    }
}

/// Rounding up to eight bytes adds at most seven.
proof fn lemma_align8(n: nat)
    ensures
        n <= align8(n) <= n + 7,
{
    assert(n <= (n + 7) / 8 * 8 <= n + 7) by (nonlinear_arith);
}

/// A forward file is its header, directory and name pool, then its sections.
proof fn lemma_ff_file_len(ls: Seq<LayerBuild>)
    ensures
        ff_file(ls).len() == sections_start(ls) + all_sections(ls, ls.len()).len(),
{
    lemma_ff_dir_len(ls, ls.len());
    lemma_align8(pool_of(layer_names_parts(ls)).len());
}

/// The forward file that holds `layers`. Absent when it would be too large for the format's
/// 64-bit offsets or for memory.
pub fn encode_layers(layers: &Vec<LayerBuild>) -> (r: Option<Vec<u8>>)
    requires
        forall|k: int| 0 <= k < layers@.len() ==> #[trigger] layer_fits(layers@[k]),
    ensures
        r matches Some(v) ==> v@ == ff_file(layers@),
        r is None ==> layers@.len() > u32::MAX || ff_file(layers@).len() > usize::MAX,
{
    proof { lemma_ff_file_len(layers@); }
    let ghost ls = layers@;
    let n = layers.len();
    if n > 0xffff_ffff {
        return None;
    }
    let mut name_parts: Vec<Vec<u8>> = Vec::new();
    let mut k: usize = 0;
    while k < n
        invariant
            0 <= k <= n,
            n == layers@.len(),
            ls == layers@,
            name_parts@.map_values(|p: Vec<u8>| p@) == layer_names_parts(ls).take(k as int),
        decreases n - k,
    {
        let ghost p0 = name_parts@.map_values(|p: Vec<u8>| p@);
        name_parts.push(utf8_bytes(layers[k].name.as_str()));
        k = k + 1;
        proof {
            assert(layer_names_parts(ls).take(k as int) =~= layer_names_parts(ls).take(k - 1).push(encode_utf8(ls[k - 1].name@)));
            assert(name_parts@.map_values(|p: Vec<u8>| p@) =~= p0.push(encode_utf8(ls[k - 1].name@)));
        }
    }
    let ghost np = layer_names_parts(ls);
    proof { assert(np.take(n as int) =~= np); }
    // Total size, checked.
    let mut pool_len: u64 = 0;
    let mut q: usize = 0;
    while q < n
        invariant
            0 <= q <= n,
            n == name_parts@.len(),
            name_parts@.map_values(|p: Vec<u8>| p@) == np,
            pool_len == pool_of(np.take(q as int)).len(),
            pool_len <= u64::MAX - 8,
            ls == layers@,
            n == layers@.len(),
            np == layer_names_parts(ls),
        decreases n - q,
    {
        let l = name_parts[q].len() as u64;
        if l > u64::MAX - 8 - pool_len {
            proof {
                let t = np.take(q + 1);
                assert(t.drop_last() =~= np.take(q as int));
                assert(np[q as int] == name_parts@[q as int]@);
                lemma_offset_bounds(np, q + 1);
                lemma_align8(pool_of(np).len());
                lemma_ff_file_len(ls);
                assert(offset_of(np, q + 1) == pool_len + l);
            }
            return None;
        }
        proof { assert(pool_len + l <= u64::MAX - 8); }
        proof {
            let t = np.take(q + 1);
            assert(t.drop_last() =~= np.take(q as int));
            assert(np[q as int] == name_parts@[q as int]@);
        }
        pool_len = pool_len + l;
        q = q + 1;
    }
    proof { assert(np.take(n as int) =~= np); }
    let mut sec_total: u64 = 0;
    let mut z: usize = 0;
    while z < n
        invariant
            0 <= z <= n,
            n == layers@.len(),
            ls == layers@,
            forall|t: int| 0 <= t < layers@.len() ==> #[trigger] layer_fits(layers@[t]),
            sec_total == all_sections(ls, z as nat).len(),
        decreases n - z,
    {
        let lb = &layers[z];
        proof {
            assert(layer_fits(layers@[z as int]));
            lemma_sections_len(ls[z as int]);
            lemma_u32s_len(ls[z as int].term_offsets@);
        }
        let len: u64 = if lb.encoding == ENCODING_DICT {
            let tt = (lb.term_offsets.len() * 4 + lb.term_strings.len()) as u64;
            (tt + 7) / 8 * 8 + (lb.bitmap_bytes.len() as u64 + 7) / 8 * 8 + (lb.data_bytes.len() as u64 + 7) / 8 * 8
        } else {
            (lb.data_bytes.len() as u64 + 7) / 8 * 8
        };
        if len > u64::MAX - sec_total {
            proof {
                assert(all_sections(ls, (z + 1) as nat).len() == sec_total + len);
                lemma_all_sections_grow(ls, (z + 1) as nat, n as nat);
            }
            return None;
        }
        sec_total = sec_total + len;
        z = z + 1;
    }
    proof { assert(pool_len <= u64::MAX - 8); }
    let padded = (pool_len + 7) / 8 * 8;
    proof {
        assert(padded == align8(pool_of(np).len())) by {
            assert(np == layer_names_parts(ls));
        }
        assert(sec_total == all_sections(ls, n as nat).len());
    }
    if (n as u64) * 64 + 16 > u64::MAX - padded || sec_total > u64::MAX - ((n as u64) * 64 + 16 + padded) {
        return None;
    }
    let start = 16 + 64 * (n as u64) + padded;
    if start + sec_total > usize::MAX as u64 {
        return None;
    }
    let mut out: Vec<u8> = Vec::new();
    out.push(0x4d);
    out.push(0x46);
    out.push(0x57);
    out.push(0x44);
    push_u32_le(&mut out, 1);
    push_u32_le(&mut out, super::BYTE_ORDER_MARK);
    push_u32_le(&mut out, n as u32);
    let ghost hdr = out@;
    let mut at: u64 = start;
    let mut noff: u64 = 0;
    let mut e: usize = 0;
    proof { assert(out@ =~= hdr + ff_dir(ls, 0)); }
    while e < n
        invariant
            0 <= e <= n,
            n == layers@.len(),
            ls == layers@,
            np == layer_names_parts(ls),
            name_parts@.map_values(|p: Vec<u8>| p@) == np,
            forall|t: int| 0 <= t < layers@.len() ==> #[trigger] layer_fits(layers@[t]),
            pool_of(np).len() == pool_len,
            start == sections_start(ls),
            start + all_sections(ls, n as nat).len() <= u64::MAX,
            at == start + all_sections(ls, e as nat).len(),
            noff == offset_of(np, e as int),
            out@ == hdr + ff_dir(ls, e as nat),
        decreases n - e,
    {
        let lb = &layers[e];
        proof {
            assert(layer_fits(layers@[e as int]));
            lemma_sections_len(ls[e as int]);
            lemma_u32s_len(ls[e as int].term_offsets@);
            lemma_all_sections_grow(ls, (e + 1) as nat, n as nat);
            lemma_pool_piece(np, e as int);
            lemma_offset_bounds(np, e + 1);
            assert(np[e as int] == name_parts@[e as int]@);
            assert(np[e as int] == encode_utf8(ls[e as int].name@));
            assert(all_sections(ls, (e + 1) as nat) == all_sections(ls, e as nat) + sections(ls[e as int]));
        }
        let dict = lb.encoding == ENCODING_DICT;
        let tt = (lb.term_offsets.len() * 4 + lb.term_strings.len()) as u64;
        let tt_pad = (tt + 7) / 8 * 8;
        let bm_pad = (lb.bitmap_bytes.len() as u64 + 7) / 8 * 8;
        let data_pad = (lb.data_bytes.len() as u64 + 7) / 8 * 8;
        proof {
            assert(tt == term_table(ls[e as int]).len());
            assert(tt_pad == align8(tt as nat));
            assert(bm_pad == align8(ls[e as int].bitmap_bytes@.len()));
            assert(data_pad == align8(ls[e as int].data_bytes@.len()));
        }
        push_dir_entry(&mut out, lb, noff, name_parts[e].len() as u32, at, tt_pad, bm_pad);
        proof {
            assert(ff_dir_entry(ls, e as int, at as nat) == dir_entry_bytes(ls[e as int], noff, np[e as int].len() as u32, at, tt_pad, bm_pad));
            assert(out@ =~= hdr + ff_dir(ls, (e + 1) as nat));
        }
        at = at + if dict { tt_pad + bm_pad + data_pad } else { data_pad };
        noff = noff + name_parts[e].len() as u64;
        e = e + 1;
    }
    let mut pool: Vec<u8> = Vec::new();
    push_pool(&mut pool, &name_parts);
    push_padded(&mut out, pool.as_slice());
    let ghost before = out@;
    let mut f: usize = 0;
    proof { assert(out@ =~= before + all_sections(ls, 0)); }
    while f < n
        invariant
            0 <= f <= n,
            n == layers@.len(),
            ls == layers@,
            forall|t: int| 0 <= t < layers@.len() ==> #[trigger] layer_fits(layers@[t]),
            out@ == before + all_sections(ls, f as nat),
        decreases n - f,
    {
        push_sections(&mut out, &layers[f]);
        f = f + 1;
        proof { assert(out@ =~= before + all_sections(ls, f as nat)); }
    }
    proof {
        assert(out@ =~= ff_file(ls));
    }
    Some(out)
}

/// A directory entry, given the name's offset and length, where the sections start and the
/// padded sizes of the term table and bitmap.
pub open spec fn dir_entry_bytes(lb: LayerBuild, noff: u64, nlen: u32, at: u64, tt_pad: u64, bm_pad: u64) -> Seq<u8> {
    let dict = lb.encoding == ENCODING_DICT;
    let vocab_at: u64 = if dict { at } else { 0 };
    let bitmap_at: u64 = if dict { (at + tt_pad) as u64 } else { 0 };
    let data_at: u64 = if dict { (at + tt_pad + bm_pad) as u64 } else { at };
    le64(noff) + le32(nlen) + seq![lb.encoding, lb.id_width, 0u8, 0u8]
        + le64(vocab_at) + le32(lb.vocab_count) + seq![0u8, 0u8, 0u8, 0u8]
        + le64(bitmap_at) + le64(lb.bitmap_bytes@.len() as u64)
        + le64(data_at) + le64(lb.data_count)
}

fn push_dir_entry(out: &mut Vec<u8>, lb: &LayerBuild, noff: u64, nlen: u32, at: u64, tt_pad: u64, bm_pad: u64)
    requires
        lb.encoding == ENCODING_DICT ==> at + tt_pad + bm_pad <= u64::MAX,
    ensures
        final(out)@ == old(out)@ + dir_entry_bytes(*lb, noff, nlen, at, tt_pad, bm_pad),
{
    let dict = lb.encoding == ENCODING_DICT;
    let vocab_at: u64 = if dict { at } else { 0 };
    let bitmap_at: u64 = if dict { at + tt_pad } else { 0 };
    let data_at: u64 = if dict { at + tt_pad + bm_pad } else { at };
    push_u64_le(out, noff);
    push_u32_le(out, nlen);
    out.push(lb.encoding);
    out.push(lb.id_width);
    out.push(0u8);
    out.push(0u8);
    push_u64_le(out, vocab_at);
    push_u32_le(out, lb.vocab_count);
    out.push(0u8);
    out.push(0u8);
    out.push(0u8);
    out.push(0u8);
    push_u64_le(out, bitmap_at);
    push_u64_le(out, lb.bitmap_bytes.len() as u64);
    push_u64_le(out, data_at);
    push_u64_le(out, lb.data_count);
    proof { assert(final(out)@ =~= old(out)@ + dir_entry_bytes(*lb, noff, nlen, at, tt_pad, bm_pad)); }
}

/// The version and layer count of a forward file, when it has a whole header with the magic.
pub fn read_header(data: &[u8]) -> (r: Option<(u32, u32)>)
    ensures
        r is Some <==> data@.len() >= 16 && data@.subrange(0, 4) == seq![0x4du8, 0x46u8, 0x57u8, 0x44u8],
        r matches Some((v, n)) ==> v == le32_at(data@, 4) && n == le32_at(data@, 12),
{
    if data.len() < 16 {
        return None;
    }
    if !(data[0] == 0x4d && data[1] == 0x46 && data[2] == 0x57 && data[3] == 0x44) {
        proof {
            if data@.subrange(0, 4) == seq![0x4du8, 0x46u8, 0x57u8, 0x44u8] {
                assert(data@.subrange(0, 4)[0] == data@[0] && data@.subrange(0, 4)[1] == data@[1]);
                assert(data@.subrange(0, 4)[2] == data@[2] && data@.subrange(0, 4)[3] == data@[3]);
            }
        }
        return None;
    }
    proof { assert(data@.subrange(0, 4) =~= seq![0x4du8, 0x46u8, 0x57u8, 0x44u8]); }
    Some((read_u32_le(data, 4), read_u32_le(data, 12)))
}

/// A directory entry of a forward file.
#[derive(Debug)]
pub struct DirEntry {
    pub name_offset: u64,
    pub name_len: u32,
    pub encoding: u8,
    pub id_width: u8,
    pub vocab_offset: u64,
    pub vocab_count: u32,
    pub bitmap_offset: u64,
    pub bitmap_len: u64,
    pub data_offset: u64,
    pub data_count: u64,
}

/// Directory entry `index` of a forward file, when it lies within the bytes.
pub fn read_dir_entry(data: &[u8], index: usize) -> (r: Option<DirEntry>)
    ensures
        r is Some <==> 16 + 64 * index + 64 <= data@.len(),
        r matches Some(e) ==> {
            let s = 16 + 64 * index;
            &&& e.name_offset == le64_at(data@, s)
            &&& e.name_len == le32_at(data@, s + 8)
            &&& e.encoding == data@[s + 12]
            &&& e.id_width == data@[s + 13]
            &&& e.vocab_offset == le64_at(data@, s + 16)
            &&& e.vocab_count == le32_at(data@, s + 24)
            &&& e.bitmap_offset == le64_at(data@, s + 32)
            &&& e.bitmap_len == le64_at(data@, s + 40)
            &&& e.data_offset == le64_at(data@, s + 48)
            &&& e.data_count == le64_at(data@, s + 56)
        },
{
    if index > (data.len() / 64) || data.len() < 80 || index > (data.len() - 80) / 64 {
        proof {
            if data@.len() >= 80 && index <= (data@.len() - 80) / 64 {
                assert(false);
            }
            if 16 + 64 * index + 64 <= data@.len() {
                assert(index <= (data@.len() - 80) / 64) by (nonlinear_arith)
                    requires 16 + 64 * index + 64 <= data@.len();
            }
        }
        return None;
    }
    proof {
        assert(16 + 64 * index + 64 <= data@.len()) by (nonlinear_arith)
            requires index <= (data@.len() - 80) / 64, data@.len() >= 80;
    }
    let s = 16 + 64 * index;
    Some(DirEntry {
        name_offset: read_u64_le(data, s),
        name_len: read_u32_le(data, s + 8),
        encoding: data[s + 12],
        id_width: data[s + 13],
        vocab_offset: read_u64_le(data, s + 16),
        vocab_count: read_u32_le(data, s + 24),
        bitmap_offset: read_u64_le(data, s + 32),
        bitmap_len: read_u64_le(data, s + 40),
        data_offset: read_u64_le(data, s + 48),
        data_count: read_u64_le(data, s + 56),
    })
}

proof fn lemma_all_sections_grow(ls: Seq<LayerBuild>, a: nat, b: nat)
    requires
        a <= b <= ls.len(),
    ensures
        all_sections(ls, a).len() <= all_sections(ls, b).len(),
    decreases b - a,
{
    if a < b {
        lemma_all_sections_grow(ls, a, (b - 1) as nat);
    }
}

/// The directory of the first `n` layers holds entry `k` at `64 * k`.
proof fn lemma_ff_dir_entry_at(ls: Seq<LayerBuild>, n: nat, k: int)
    requires
        0 <= k < n,
    ensures
        ff_dir(ls, n).len() == 64 * n,
        ff_dir(ls, n).subrange(64 * k, 64 * k + 64)
            == ff_dir_entry(ls, k, sections_start(ls) + all_sections(ls, k as nat).len()),
    decreases n,
{
    lemma_ff_dir_len(ls, n);
    lemma_ff_dir_len(ls, (n - 1) as nat);
    let prev = ff_dir(ls, (n - 1) as nat);
    let e = ff_dir_entry(ls, n - 1, sections_start(ls) + all_sections(ls, (n - 1) as nat).len());
    assert(ff_dir(ls, n) == prev + e);
    if k == n - 1 {
        assert(ff_dir(ls, n).subrange(64 * k, 64 * k + 64) =~= e);
    } else {
        lemma_ff_dir_entry_at(ls, (n - 1) as nat, k);
        assert(ff_dir(ls, n).subrange(64 * k, 64 * k + 64) =~= prev.subrange(64 * k, 64 * k + 64));
    }
}

/// The sections of the first `n` layers hold those of layer `k` right after the sections of
/// the layers before it.
proof fn lemma_all_sections_at(ls: Seq<LayerBuild>, n: nat, k: int)
    requires
        0 <= k < n,
    ensures
        all_sections(ls, k as nat).len() + sections(ls[k]).len() <= all_sections(ls, n).len(),
        all_sections(ls, n).subrange(all_sections(ls, k as nat).len() as int,
            (all_sections(ls, k as nat).len() + sections(ls[k]).len()) as int) == sections(ls[k]),
    decreases n,
{
    let prev = all_sections(ls, (n - 1) as nat);
    assert(all_sections(ls, n) == prev + sections(ls[n - 1]));
    if k == n - 1 {
        assert(all_sections(ls, n).subrange(prev.len() as int, (prev.len() + sections(ls[k]).len()) as int) =~= sections(ls[k]));
    } else {
        lemma_all_sections_at(ls, (n - 1) as nat, k);
        let a = all_sections(ls, k as nat).len() as int;
        assert(all_sections(ls, n).subrange(a, a + sections(ls[k]).len())
            =~= prev.subrange(a, a + sections(ls[k]).len()));
    }
}

/// Where the sections of layer `k` start in the file of layers `ls`.
pub open spec fn layer_at(ls: Seq<LayerBuild>, k: int) -> int {
    (sections_start(ls) + all_sections(ls, k as nat).len()) as int
}

/// Where the values of layer `k` start in the file of layers `ls`: after its term table and
/// bitmap when it is dictionary-encoded, at the start of its sections otherwise.
pub open spec fn data_at(ls: Seq<LayerBuild>, k: int) -> int {
    if ls[k].encoding == ENCODING_DICT {
        layer_at(ls, k) + align8(term_table(ls[k]).len()) + align8(ls[k].bitmap_bytes@.len())
    } else {
        layer_at(ls, k)
    }
}

/// Sixty-four bytes at `s` laid out as a directory entry read back field by field.
#[verifier::spinoff_prover]
#[verifier::rlimit(60)]
proof fn lemma_entry_fields(f: Seq<u8>, s: int, noff: u64, nlen: u32, enc: u8, w: u8, vocab_at: u64, vocab_count: u32,
    bitmap_at: u64, bitmap_len: u64, d_at: u64, count: u64)
    requires
        0 <= s,
        s + 64 <= f.len(),
        f.subrange(s, s + 64) == le64(noff) + le32(nlen) + seq![enc, w, 0u8, 0u8] + le64(vocab_at) + le32(vocab_count)
            + seq![0u8, 0u8, 0u8, 0u8] + le64(bitmap_at) + le64(bitmap_len) + le64(d_at) + le64(count),
    ensures
        le64_at(f, s) == noff,
        le32_at(f, s + 8) == nlen,
        f[s + 12] == enc,
        f[s + 13] == w,
        le64_at(f, s + 16) == vocab_at,
        le32_at(f, s + 24) == vocab_count,
        le64_at(f, s + 32) == bitmap_at,
        le64_at(f, s + 40) == bitmap_len,
        le64_at(f, s + 48) == d_at,
        le64_at(f, s + 56) == count,
{
    let e = f.subrange(s, s + 64);
    assert(e.subrange(0, 8) =~= le64(noff));
    assert(f.subrange(s, s + 8) =~= e.subrange(0, 8));
    crate::bytes::lemma_le64_at(f, s, noff);
    assert(f[s + 12] == e[12]);
    assert(f[s + 13] == e[13]);
    assert(e.subrange(8, 12) =~= le32(nlen));
    assert(f.subrange(s + 8, s + 12) =~= e.subrange(8, 12));
    crate::bytes::lemma_le32_at(f, s + 8, nlen);
    assert(e.subrange(16, 24) =~= le64(vocab_at));
    assert(f.subrange(s + 16, s + 24) =~= e.subrange(16, 24));
    crate::bytes::lemma_le64_at(f, s + 16, vocab_at);
    assert(e.subrange(24, 28) =~= le32(vocab_count));
    assert(f.subrange(s + 24, s + 28) =~= e.subrange(24, 28));
    crate::bytes::lemma_le32_at(f, s + 24, vocab_count);
    assert(e.subrange(32, 40) =~= le64(bitmap_at));
    assert(f.subrange(s + 32, s + 40) =~= e.subrange(32, 40));
    crate::bytes::lemma_le64_at(f, s + 32, bitmap_at);
    assert(e.subrange(40, 48) =~= le64(bitmap_len));
    assert(f.subrange(s + 40, s + 48) =~= e.subrange(40, 48));
    crate::bytes::lemma_le64_at(f, s + 40, bitmap_len);
    assert(e.subrange(48, 56) =~= le64(d_at));
    assert(f.subrange(s + 48, s + 56) =~= e.subrange(48, 56));
    crate::bytes::lemma_le64_at(f, s + 48, d_at);
    assert(e.subrange(56, 64) =~= le64(count));
    assert(f.subrange(s + 56, s + 64) =~= e.subrange(56, 64));
    crate::bytes::lemma_le64_at(f, s + 56, count);
}

/// The parts of a forward file: header, directory, name pool, sections; and where layer `k`'s
/// entry and sections lie in it.
proof fn lemma_ff_file_parts(ls: Seq<LayerBuild>, k: int)
    requires
        0 <= k < ls.len(),
        ls.len() <= u32::MAX,
    ensures
        ff_file(ls).len() == sections_start(ls) + all_sections(ls, ls.len()).len(),
        ff_file(ls).subrange(0, 4) == seq![0x4du8, 0x46u8, 0x57u8, 0x44u8],
        le32_at(ff_file(ls), 4) == 1,
        le32_at(ff_file(ls), 12) == ls.len(),
        16 + 64 * k + 64 <= ff_file(ls).len(),
        ff_file(ls).subrange(16 + 64 * k, 16 + 64 * k + 64) == ff_dir_entry(ls, k, layer_at(ls, k) as nat),
        layer_at(ls, k) + sections(ls[k]).len() <= ff_file(ls).len(),
        ff_file(ls).subrange(layer_at(ls, k), layer_at(ls, k) + sections(ls[k]).len()) == sections(ls[k]),
        16 + 64 * ls.len() + pool_of(layer_names_parts(ls)).len() <= ff_file(ls).len(),
        ff_file(ls).subrange((16 + 64 * ls.len()) as int, (16 + 64 * ls.len() + pool_of(layer_names_parts(ls)).len()) as int)
            == pool_of(layer_names_parts(ls)),
{
    let f = ff_file(ls);
    let n = ls.len();
    let np = pool_of(layer_names_parts(ls));
    let head = seq![0x4du8, 0x46u8, 0x57u8, 0x44u8] + le32(1) + le32(super::BYTE_ORDER_MARK) + le32(n as u32);
    let dir = ff_dir(ls, n);
    let secs = all_sections(ls, n);
    lemma_ff_file_len(ls);
    lemma_ff_dir_entry_at(ls, n, k);
    lemma_all_sections_at(ls, n, k);
    lemma_align8(np.len());
    assert(f == head + dir + padded8(np) + secs);
    assert(f.subrange(0, 4) =~= seq![0x4du8, 0x46u8, 0x57u8, 0x44u8]);
    assert(f.subrange(4, 8) =~= le32(1));
    crate::bytes::lemma_le32_at(f, 4, 1);
    assert(f.subrange(12, 16) =~= le32(n as u32));
    crate::bytes::lemma_le32_at(f, 12, n as u32);
    assert(f.subrange(16 + 64 * k, 16 + 64 * k + 64) =~= dir.subrange(64 * k, 64 * k + 64));
    let a = all_sections(ls, k as nat).len() as int;
    let len = sections(ls[k]).len();
    assert(f.subrange(layer_at(ls, k), layer_at(ls, k) + len) =~= secs.subrange(a, a + len));
    let p0: int = (16 + 64 * n) as int;
    assert(f.subrange(p0, p0 + np.len() as int) =~= padded8(np).subrange(0, np.len() as int));
    assert(padded8(np).subrange(0, np.len() as int) =~= np);
}

/// A forward file written for layers `ls` reads back as them: its header has the magic, version
/// 1 and the layer count; directory entry `k` gives layer `k`'s encoding, id width, name length,
/// term count, bitmap length, value count and where its values are; and there lie the layer's
/// value bytes, with (for a dictionary-encoded layer) its term table and bitmap before them.
#[verifier::spinoff_prover]
#[verifier::rlimit(60)]
pub proof fn lemma_forward_file_reads_back(ls: Seq<LayerBuild>, k: int)
    requires
        forall|j: int| 0 <= j < ls.len() ==> #[trigger] layer_fits(ls[j]),
        ls.len() <= u32::MAX,
        ff_file(ls).len() <= usize::MAX,
        0 <= k < ls.len(),
    ensures
        ({
            let f = ff_file(ls);
            let s = 16 + 64 * k;
            let lb = ls[k];
            &&& f.len() >= 16
            &&& f.subrange(0, 4) == seq![0x4du8, 0x46u8, 0x57u8, 0x44u8]
            &&& le32_at(f, 4) == 1
            &&& le32_at(f, 12) == ls.len()
            &&& s + 64 <= f.len()
            &&& le32_at(f, s + 8) == encode_utf8(lb.name@).len() as u32
            &&& f[s + 12] == lb.encoding
            &&& f[s + 13] == lb.id_width
            &&& le32_at(f, s + 24) == lb.vocab_count
            &&& le64_at(f, s + 40) == lb.bitmap_bytes@.len()
            &&& le64_at(f, s + 48) == data_at(ls, k)
            &&& le64_at(f, s + 56) == lb.data_count
            &&& data_at(ls, k) + lb.data_bytes@.len() <= f.len()
            &&& f.subrange(data_at(ls, k), data_at(ls, k) + lb.data_bytes@.len()) == lb.data_bytes@
            &&& lb.encoding == ENCODING_DICT ==> {
                &&& le64_at(f, s + 16) == layer_at(ls, k)
                &&& le64_at(f, s + 32) == layer_at(ls, k) + align8(term_table(lb).len())
                &&& f.subrange(layer_at(ls, k), layer_at(ls, k) + term_table(lb).len()) == term_table(lb)
                &&& f.subrange(layer_at(ls, k) + align8(term_table(lb).len()),
                    layer_at(ls, k) + align8(term_table(lb).len()) + lb.bitmap_bytes@.len()) == lb.bitmap_bytes@
            }
        }),
{
    let f = ff_file(ls);
    let lb = ls[k];
    let s = 16 + 64 * k;
    let at: int = layer_at(ls, k);
    lemma_ff_file_parts(ls, k);
    lemma_layer_sections(f, at, lb);
    let dict = lb.encoding == ENCODING_DICT;
    let vocab_at: nat = if dict { at as nat } else { 0 };
    let bitmap_at: nat = if dict { at as nat + align8(term_table(lb).len()) } else { 0 };
    let d_at: nat = if dict { at as nat + align8(term_table(lb).len()) + align8(lb.bitmap_bytes@.len()) } else { at as nat };
    assert(d_at == data_at(ls, k));
    lemma_sections_len(lb);
    lemma_align8(term_table(lb).len());
    lemma_align8(lb.bitmap_bytes@.len());
    lemma_align8(lb.data_bytes@.len());
    assert(f.len() <= u64::MAX);
    assert(d_at + lb.data_bytes@.len() <= f.len());
    assert(bitmap_at <= f.len());
    assert(vocab_at <= f.len());
    assert(layer_fits(ls[k]));
    assert(lb.bitmap_bytes@.len() + 7 <= u32::MAX);
    assert(lb.bitmap_bytes@.len() as u64 == lb.bitmap_bytes@.len());
    lemma_entry_fields(f, s, offset_of(layer_names_parts(ls), k) as u64, encode_utf8(lb.name@).len() as u32,
        lb.encoding, lb.id_width, vocab_at as u64, lb.vocab_count, bitmap_at as u64, lb.bitmap_bytes@.len() as u64,
        d_at as u64, lb.data_count);
}

/// Rounding up to eight bytes gives a multiple of eight.
proof fn lemma_align8_mult8(n: nat)
    ensures
        align8(n) % 8 == 0,
{
    assert(((n + 7) / 8 * 8) % 8 == 0) by (nonlinear_arith);
}

/// The sections of the first `k` layers fill whole multiples of eight bytes.
proof fn lemma_all_sections_mult8(ls: Seq<LayerBuild>, k: nat)
    requires
        forall|j: int| 0 <= j < ls.len() ==> #[trigger] layer_fits(ls[j]),
        k <= ls.len(),
    ensures
        all_sections(ls, k).len() % 8 == 0,
    decreases k,
{
    if k > 0 {
        lemma_all_sections_mult8(ls, (k - 1) as nat);
        let lb = ls[k - 1];
        assert(layer_fits(lb));
        lemma_sections_len(lb);
        lemma_align8_mult8(term_table(lb).len());
        lemma_align8_mult8(lb.bitmap_bytes@.len());
        lemma_align8_mult8(lb.data_bytes@.len());
    }
}

/// The sections of a layer, found at `at` in `f`, hold its term table, bitmap and values where
/// the directory says.
#[verifier::spinoff_prover]
proof fn lemma_layer_sections(f: Seq<u8>, at: int, lb: LayerBuild)
    requires
        layer_fits(lb),
        0 <= at,
        at + sections(lb).len() <= f.len(),
        f.subrange(at, at + sections(lb).len()) == sections(lb),
    ensures
        ({
            let d_at = if lb.encoding == ENCODING_DICT {
                at + align8(term_table(lb).len()) + align8(lb.bitmap_bytes@.len())
            } else {
                at
            };
            &&& d_at + lb.data_bytes@.len() <= f.len()
            &&& f.subrange(d_at, d_at + lb.data_bytes@.len()) == lb.data_bytes@
            &&& lb.encoding == ENCODING_DICT ==> {
                &&& f.subrange(at, at + term_table(lb).len()) == term_table(lb)
                &&& f.subrange(at + align8(term_table(lb).len()), at + align8(term_table(lb).len()) + lb.bitmap_bytes@.len())
                    == lb.bitmap_bytes@
            }
        }),
{
    lemma_sections_len(lb);
    lemma_align8(term_table(lb).len());
    lemma_align8(lb.bitmap_bytes@.len());
    lemma_align8(lb.data_bytes@.len());
    let sec = sections(lb);
    if lb.encoding == ENCODING_DICT {
        let tt = padded8(term_table(lb));
        let bm = padded8(lb.bitmap_bytes@);
        let d_at = at + align8(term_table(lb).len()) + align8(lb.bitmap_bytes@.len());
        assert(sec == tt + bm + padded8(lb.data_bytes@));
        assert(f.subrange(d_at, d_at + lb.data_bytes@.len())
            =~= sec.subrange((tt.len() + bm.len()) as int, (tt.len() + bm.len() + lb.data_bytes@.len()) as int));
        assert(f.subrange(at, at + term_table(lb).len()) =~= sec.subrange(0, term_table(lb).len() as int));
        let b_at = at + align8(term_table(lb).len());
        assert(f.subrange(b_at, b_at + lb.bitmap_bytes@.len())
            =~= sec.subrange(tt.len() as int, (tt.len() + lb.bitmap_bytes@.len()) as int));
    } else {
        assert(f.subrange(at, at + lb.data_bytes@.len()) =~= sec.subrange(0, lb.data_bytes@.len() as int));
    }
}

/// Layer `k`'s name lies in the name pool after the directory.
proof fn lemma_ff_name_bytes(ls: Seq<LayerBuild>, k: int)
    requires
        ls.len() <= u32::MAX,
        0 <= k < ls.len(),
    ensures
        ({
            let f = ff_file(ls);
            let name = encode_utf8(ls[k].name@);
            let p: int = (16 + 64 * ls.len() + offset_of(layer_names_parts(ls), k)) as int;
            &&& offset_of(layer_names_parts(ls), k) <= f.len()
            &&& p + name.len() <= f.len()
            &&& f.subrange(p, p + name.len()) == name
        }),
{
    let f = ff_file(ls);
    lemma_ff_file_parts(ls, k);
    let parts = layer_names_parts(ls);
    let np = pool_of(parts);
    super::lemma_pool_piece(parts, k);
    assert(parts[k] == encode_utf8(ls[k].name@));
    let p0: int = (16 + 64 * ls.len()) as int;
    let noff = offset_of(parts, k);
    assert(f.subrange(p0 + noff, p0 + noff + parts[k].len())
        =~= np.subrange(noff as int, offset_of(parts, k + 1) as int)) by {
        assert(f.subrange(p0, p0 + np.len()) == np);
    }
}

/// Directory entry `k` gives the offset of layer `k`'s name in the name pool.
#[verifier::spinoff_prover]
#[verifier::rlimit(60)]
proof fn lemma_ff_name_offset(ls: Seq<LayerBuild>, k: int)
    requires
        forall|j: int| 0 <= j < ls.len() ==> #[trigger] layer_fits(ls[j]),
        ls.len() <= u32::MAX,
        ff_file(ls).len() <= usize::MAX,
        0 <= k < ls.len(),
    ensures
        le64_at(ff_file(ls), 16 + 64 * k) == offset_of(layer_names_parts(ls), k),
{
    let f = ff_file(ls);
    let lb = ls[k];
    lemma_ff_file_parts(ls, k);
    lemma_ff_name_bytes(ls, k);
    lemma_sections_len(lb);
    lemma_align8(term_table(lb).len());
    lemma_align8(lb.bitmap_bytes@.len());
    let at: int = layer_at(ls, k);
    let dict = lb.encoding == ENCODING_DICT;
    let vocab_at: nat = if dict { at as nat } else { 0 };
    let bitmap_at: nat = if dict { at as nat + align8(term_table(lb).len()) } else { 0 };
    let d_at: nat = if dict { at as nat + align8(term_table(lb).len()) + align8(lb.bitmap_bytes@.len()) } else { at as nat };
    assert(layer_fits(ls[k]));
    assert(lb.bitmap_bytes@.len() as u64 == lb.bitmap_bytes@.len());
    lemma_entry_fields(f, 16 + 64 * k, offset_of(layer_names_parts(ls), k) as u64, encode_utf8(lb.name@).len() as u32,
        lb.encoding, lb.id_width, vocab_at as u64, lb.vocab_count, bitmap_at as u64, lb.bitmap_bytes@.len() as u64,
        d_at as u64, lb.data_count);
}

/// Layer `k`'s values start on an eight-byte boundary.
proof fn lemma_data_aligned(ls: Seq<LayerBuild>, k: int)
    requires
        forall|j: int| 0 <= j < ls.len() ==> #[trigger] layer_fits(ls[j]),
        0 <= k < ls.len(),
    ensures
        data_at(ls, k) % 8 == 0,
{
    let lb = ls[k];
    lemma_all_sections_mult8(ls, k as nat);
    lemma_align8_mult8(pool_of(layer_names_parts(ls)).len());
    lemma_align8_mult8(term_table(lb).len());
    lemma_align8_mult8(lb.bitmap_bytes@.len());
    let a = align8(pool_of(layer_names_parts(ls)).len());
    let b = all_sections(ls, k as nat).len();
    let c = align8(term_table(lb).len());
    let d = align8(lb.bitmap_bytes@.len());
    assert((16 + 64 * ls.len() + a + b) % 8 == 0) by (nonlinear_arith)
        requires a % 8 == 0, b % 8 == 0;
    assert((16 + 64 * ls.len() + a + b + c + d) % 8 == 0) by (nonlinear_arith)
        requires a % 8 == 0, b % 8 == 0, c % 8 == 0, d % 8 == 0;
}

/// In a forward file written for layers `ls`, directory entry `k` gives where layer `k`'s
/// name lies in the name pool after the directory, and its name's UTF-8 bytes lie there; its
/// values start on an eight-byte boundary.
pub proof fn lemma_forward_file_names(ls: Seq<LayerBuild>, k: int)
    requires
        forall|j: int| 0 <= j < ls.len() ==> #[trigger] layer_fits(ls[j]),
        ls.len() <= u32::MAX,
        ff_file(ls).len() <= usize::MAX,
        0 <= k < ls.len(),
    ensures
        ({
            let f = ff_file(ls);
            let name = encode_utf8(ls[k].name@);
            let p: int = (16 + 64 * ls.len() + offset_of(layer_names_parts(ls), k)) as int;
            &&& le64_at(f, 16 + 64 * k) == offset_of(layer_names_parts(ls), k)
            &&& p + name.len() <= f.len()
            &&& f.subrange(p, p + name.len()) == name
            &&& data_at(ls, k) % 8 == 0
        }),
{
    lemma_ff_name_bytes(ls, k);
    lemma_ff_name_offset(ls, k);
    lemma_data_aligned(ls, k);
}

/// Term id `k` of packed ids `width` bytes wide, least significant byte first.
pub open spec fn id_at(bytes: Seq<u8>, width: u8, k: int) -> u32 {
    if width == 1 {
        bytes[k] as u32
    } else if width == 2 {
        crate::bytes::le16_at(bytes, 2 * k) as u32
    } else {
        le32_at(bytes, 4 * k)
    }
}

/// The bytes of a list of 32-bit numbers hold number `k` at `4 * k`.
proof fn lemma_u32s_at(v: Seq<u32>, k: int)
    requires
        0 <= k < v.len(),
    ensures
        u32s_bytes(v).len() == 4 * v.len(),
        u32s_bytes(v).subrange(4 * k, 4 * k + 4) == le32(v[k]),
    decreases v.len(),
{
    lemma_u32s_len(v);
    lemma_u32s_len(v.drop_last());
    if k == v.len() - 1 {
        assert(u32s_bytes(v).subrange(4 * k, 4 * k + 4) =~= le32(v[k]));
    } else {
        lemma_u32s_at(v.drop_last(), k);
        assert(u32s_bytes(v).subrange(4 * k, 4 * k + 4) =~= u32s_bytes(v.drop_last()).subrange(4 * k, 4 * k + 4));
    }
}

/// One packed id takes `width` bytes.
proof fn lemma_packed_id_len(id: u32, width: u8)
    requires
        width == 1 || width == 2 || width == 4,
    ensures
        packed_id(id, width).len() == width,
{
}

/// Packed ids `width` bytes wide hold the id of value `k` at `width * k`.
proof fn lemma_packed_at(vals: Seq<Seq<char>>, terms: Seq<Seq<char>>, width: u8, k: int)
    requires
        width == 1 || width == 2 || width == 4,
        0 <= k < vals.len(),
    ensures
        packed_ids(vals, terms, width).len() == width * vals.len(),
        packed_ids(vals, terms, width).subrange(width * k, width * k + width)
            == packed_id(terms.index_of(vals[k]) as u32, width),
    decreases vals.len(),
{
    lemma_packed_len(vals.drop_last(), terms, width);
    lemma_packed_id_len(terms.index_of(vals.last()) as u32, width);
    let prev = packed_ids(vals.drop_last(), terms, width);
    assert(width * vals.len() == width * (vals.len() - 1) + width) by (nonlinear_arith);
    if k == vals.len() - 1 {
        assert(width * k == width * (vals.len() - 1));
        assert(packed_ids(vals, terms, width).subrange(width * k, width * k + width)
            =~= packed_id(terms.index_of(vals[k]) as u32, width));
    } else {
        lemma_packed_at(vals.drop_last(), terms, width, k);
        assert(width * k + width <= width * (vals.len() - 1)) by (nonlinear_arith)
            requires k < vals.len() - 1, width > 0;
        assert(packed_ids(vals, terms, width).subrange(width * k, width * k + width)
            =~= prev.subrange(width * k, width * k + width));
        assert(vals.drop_last()[k] == vals[k]);
    }
}

proof fn lemma_packed_len(vals: Seq<Seq<char>>, terms: Seq<Seq<char>>, width: u8)
    requires
        width == 1 || width == 2 || width == 4,
    ensures
        packed_ids(vals, terms, width).len() == width * vals.len(),
    decreases vals.len(),
{
    if vals.len() > 0 {
        lemma_packed_len(vals.drop_last(), terms, width);
        lemma_packed_id_len(terms.index_of(vals.last()) as u32, width);
        assert(width * vals.len() == width * (vals.len() - 1) + width) by (nonlinear_arith);
    }
}

/// The term table's offsets read back.
#[verifier::spinoff_prover]
proof fn lemma_term_offsets_read(lb: LayerBuild, terms: Seq<Seq<char>>, k: int)
    requires
        lb.term_offsets@ == term_offsets_of(terms),
        lb.term_strings@ == pool_of(term_parts(terms)),
        layer_fits(lb),
        0 <= k <= terms.len(),
    ensures
        le32_at(term_table(lb), 4 * k) == offset_of(term_parts(terms), k),
{
    let parts = term_parts(terms);
    let offs = term_offsets_of(terms);
    let tt = term_table(lb);
    lemma_u32s_len(offs);
    lemma_u32s_at(offs, k);
    super::lemma_offset_bounds(parts, k);
    assert(tt.subrange(4 * k, 4 * k + 4) =~= u32s_bytes(offs).subrange(4 * k, 4 * k + 4));
    crate::bytes::lemma_le32_at(tt, 4 * k, offs[k]);
}

/// The term table's bytes hold each term where its offsets say.
#[verifier::spinoff_prover]
proof fn lemma_term_bytes_read(lb: LayerBuild, terms: Seq<Seq<char>>, k: int)
    requires
        lb.term_offsets@ == term_offsets_of(terms),
        lb.term_strings@ == pool_of(term_parts(terms)),
        0 <= k < terms.len(),
    ensures
        ({
            let t0: int = (4 * (terms.len() + 1) + offset_of(term_parts(terms), k)) as int;
            let t1: int = (4 * (terms.len() + 1) + offset_of(term_parts(terms), k + 1)) as int;
            &&& t1 <= term_table(lb).len()
            &&& term_table(lb).subrange(t0, t1) == encode_utf8(terms[k])
        }),
{
    let n = terms.len();
    let parts = term_parts(terms);
    let offs = term_offsets_of(terms);
    let tt = term_table(lb);
    lemma_u32s_len(offs);
    super::lemma_pool_piece(parts, k);
    let t0: int = (4 * (n + 1) + offset_of(parts, k)) as int;
    let t1: int = (4 * (n + 1) + offset_of(parts, k + 1)) as int;
    assert(tt.subrange(t0, t1) =~= pool_of(parts).subrange(offset_of(parts, k) as int, offset_of(parts, k + 1) as int));
}

/// The `k`-th packed id names the `k`-th value among the terms.
#[verifier::spinoff_prover]
proof fn lemma_ids_read(lb: LayerBuild, data: Seq<ValueModel>, terms: Seq<Seq<char>>, k: int)
    requires
        terms.to_set() == text_values(data).to_set(),
        lb.id_width == id_width_for(terms.len()),
        lb.term_offsets@ == term_offsets_of(terms),
        lb.data_bytes@ == packed_ids(text_values(data), terms, id_width_for(terms.len())),
        layer_fits(lb),
        0 <= k < text_values(data).len(),
    ensures
        lb.id_width * k + lb.id_width <= lb.data_bytes@.len(),
        id_at(lb.data_bytes@, lb.id_width, k) < terms.len(),
        terms[id_at(lb.data_bytes@, lb.id_width, k) as int] == text_values(data)[k],
{
    let n = terms.len();
    let vals = text_values(data);
    let w = lb.id_width;
    lemma_packed_at(vals, terms, w, k);
    let d = lb.data_bytes@;
    let id = terms.index_of(vals[k]);
    assert(vals.to_set().contains(vals[k]));
    assert(terms.to_set().contains(vals[k]));
    assert(terms.contains(vals[k]));
    assert(0 <= id < n && terms[id] == vals[k]);
    assert(n + 1 == lb.term_offsets@.len());
    assert(id < u32::MAX);
    assert(w * k + w <= d.len()) by (nonlinear_arith)
        requires k < vals.len(), d.len() == w * vals.len(), w > 0;
    if w == 1 {
        assert(d.subrange(w * k, w * k + w)[0] == d[k]);
    } else if w == 2 {
        crate::bytes::lemma_le16_at(d, 2 * k, id as u32 as u16);
    } else {
        crate::bytes::lemma_le32_at(d, 4 * k, id as u32);
    }
}

/// Term `k` of `terms` lies in `lb`'s term table where the table's offsets say.
pub open spec fn term_read_back(lb: LayerBuild, terms: Seq<Seq<char>>, k: int) -> bool {
    let t0: int = (4 * (terms.len() + 1) + offset_of(term_parts(terms), k)) as int;
    let t1: int = (4 * (terms.len() + 1) + offset_of(term_parts(terms), k + 1)) as int;
    &&& le32_at(term_table(lb), 4 * k) == offset_of(term_parts(terms), k)
    &&& le32_at(term_table(lb), 4 * (k + 1)) == offset_of(term_parts(terms), k + 1)
    &&& t1 <= term_table(lb).len()
    &&& term_table(lb).subrange(t0, t1) == encode_utf8(terms[k])
}

/// The `k`-th packed id of `lb` names, among `terms`, the `k`-th value `vals[k]`.
pub open spec fn id_read_back(lb: LayerBuild, terms: Seq<Seq<char>>, vals: Seq<Seq<char>>, k: int) -> bool {
    &&& lb.id_width * k + lb.id_width <= lb.data_bytes@.len()
    &&& id_at(lb.data_bytes@, lb.id_width, k) < terms.len()
    &&& terms[id_at(lb.data_bytes@, lb.id_width, k) as int] == vals[k]
}

/// A text layer as written reads back as its values: its term table gives, for each term
/// in order, its start and end in the term bytes, where its UTF-8 bytes lie; the terms are
/// strictly increasing and are the layer's distinct non-empty strings; and the `k`-th packed
/// id, `id_width` bytes wide, names the term that is the `k`-th non-empty string.
pub proof fn lemma_dict_layer_reads_back(lb: LayerBuild, name: Seq<char>, data: Seq<ValueModel>, terms: Seq<Seq<char>>,
    b: RoaringBitmap)
    requires
        is_dict_layer(lb, name, data, terms, b),
        layer_fits(lb),
    ensures
        strictly_sorted(terms),
        terms.to_set() == text_values(data).to_set(),
        bitmap_set(b) == text_positions(data),
        lb.data_count == text_values(data).len(),
        lb.id_width == id_width_for(terms.len()),
        forall|k: int| 0 <= k < terms.len() ==> #[trigger] term_read_back(lb, terms, k),
        forall|k: int| 0 <= k < text_values(data).len() ==> #[trigger] id_read_back(lb, terms, text_values(data), k),
{
    assert forall|k: int| 0 <= k < terms.len() implies #[trigger] term_read_back(lb, terms, k) by {
        lemma_term_offsets_read(lb, terms, k);
        lemma_term_offsets_read(lb, terms, k + 1);
        lemma_term_bytes_read(lb, terms, k);
    }
    assert forall|k: int| 0 <= k < text_values(data).len() implies #[trigger] id_read_back(lb, terms, text_values(data), k) by {
        lemma_ids_read(lb, data, terms, k);
    }
}

} // verus!
