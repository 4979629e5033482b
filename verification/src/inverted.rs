//! The inverted index: for each layer and value, the set of positions that carry it.
use vstd::prelude::*;
use roaring::RoaringBitmap;
use crate::bitmap::{bitmap_set, bitmap_new, bitmap_insert, bitmap_values, bitmap_union_with};
use crate::span::Position;
use crate::text::{find_name, string_views, to_owned_string};

verus! {

/// The values of one layer, each with its positions.
pub struct LayerPostings {
    values: Vec<String>,
    sets: Vec<RoaringBitmap>,
}

/// For each layer and value, the positions that carry it.
pub struct InMemoryInverted {
    layers: Vec<String>,
    postings: Vec<LayerPostings>,
}

/// The set of positions `p + offset` for the positions `p` of `s`.
pub open spec fn shifted(s: Set<u32>, offset: u32) -> Set<u32> {
    s.map(|p: u32| (p + offset) as u32)
}

/// What merging gives for one (layer, value) pair: the positions already there, with those of
/// the other index moved up by `offset`.
pub open spec fn merged(a: Option<Set<u32>>, b: Option<Set<u32>>, offset: u32) -> Option<Set<u32>> {
    match (a, b) {
        (Some(x), Some(y)) => Some(x.union(shifted(y, offset))),
        (Some(x), None) => Some(x),
        (None, Some(y)) => Some(Set::<u32>::empty().union(shifted(y, offset))),
        (None, None) => None,
    }
}

/// The positions of `ps`, cut to 32 bits.
pub open spec fn positions_u32(ps: Seq<Position>) -> Set<u32> {
    ps.map_values(|p: Position| p as u32).to_set()
}

impl LayerPostings {
    closed spec fn wf(&self) -> bool {
        &&& self.values@.len() == self.sets@.len()
        &&& string_views(self.values@).no_duplicates()
    }

    closed spec fn view_map(&self) -> Map<Seq<char>, Set<u32>> {
        Map::new(
            |v: Seq<char>| string_views(self.values@).contains(v),
            |v: Seq<char>| bitmap_set(self.sets@[string_views(self.values@).index_of(v)]),
        )
    }
}

impl InMemoryInverted {
    /// The layer names, in the order they were first used.
    pub closed spec fn layer_order(&self) -> Seq<Seq<char>> {
        string_views(self.layers@)
    }

    /// The positions of `value` in `layer`, when the index has that pair.
    pub closed spec fn postings(&self, layer: Seq<char>, value: Seq<char>) -> Option<Set<u32>> {
        if self.layer_order().contains(layer) {
            let p = self.postings@[self.layer_order().index_of(layer)];
            if p.view_map().dom().contains(value) { Some(p.view_map()[value]) } else { None }
        } else {
            None
        }
    }

    /// The values of `layer`, when the index has that layer.
    pub closed spec fn value_set(&self, layer: Seq<char>) -> Option<Set<Seq<char>>> {
        if self.layer_order().contains(layer) {
            Some(self.postings@[self.layer_order().index_of(layer)].view_map().dom())
        } else {
            None
        }
    }

    /// A value of a layer is one that has postings there.
    pub proof fn lemma_value_set_postings(&self, layer: Seq<char>, value: Seq<char>)
        ensures
            self.value_set(layer) matches Some(s) ==> (s.contains(value) <==> self.postings(layer, value) is Some),
            self.value_set(layer) is None ==> self.postings(layer, value) is None,
    {
    }

    /// One postings table per layer; no layer or value twice.
    pub closed spec fn wf(&self) -> bool {
        &&& self.layers@.len() == self.postings@.len()
        &&& self.layer_order().no_duplicates()
        &&& forall|i: int| 0 <= i < self.postings@.len() ==> (#[trigger] self.postings@[i]).wf()
    }

    /// An empty index.
    pub fn new() -> (r: Self)
        ensures
            r.wf(),
            r.layer_order() == Seq::<Seq<char>>::empty(),
            forall|l: Seq<char>, v: Seq<char>| #[trigger] r.postings(l, v) is None,
    {
        let r = InMemoryInverted { layers: Vec::new(), postings: Vec::new() };
        proof { assert(r.layer_order() =~= Seq::<Seq<char>>::empty()); }
        r
    }

    proof fn lemma_layer_at(&self, i: int)
        requires
            self.wf(),
            0 <= i < self.layers@.len(),
        ensures
            self.layer_order().contains(self.layer_order()[i]),
            self.layer_order().index_of(self.layer_order()[i]) == i,
    {
        let k = self.layer_order()[i];
        assert(self.layer_order().contains(k));
        let j = self.layer_order().index_of(k);
        assert(self.layer_order()[j] == k);
    }

    /// Adds `positions` (cut to 32 bits) to those of `value` in `layer`.
    pub fn insert(&mut self, layer: &str, value: &str, positions: &[Position])
        requires
            old(self).wf(),
        ensures
            final(self).wf(),
            final(self).postings(layer@, value@) == Some(match old(self).postings(layer@, value@) {
                Some(s) => s,
                None => Set::<u32>::empty(),
            }.union(positions_u32(positions@))),
            forall|l: Seq<char>, v: Seq<char>| (l, v) != (layer@, value@) ==> #[trigger] final(self).postings(l, v) == old(self).postings(l, v),
            forall|l: Seq<char>| l != layer@ ==> #[trigger] final(self).value_set(l) == old(self).value_set(l),
            final(self).value_set(layer@) == Some(match old(self).value_set(layer@) {
                Some(vs) => vs,
                None => Set::<Seq<char>>::empty(),
            }.insert(value@)),
    {
        let li = self.layer_slot(layer);
        let ghost mid = *self;
        let mut table = self.postings.remove(li);
        proof { assert(table == mid.postings@[li as int]); }
        table.add(value, positions);
        self.postings.insert(li, table);
        proof {
            assert(self.postings@ =~= mid.postings@.update(li as int, table));
            assert(self.layer_order() == mid.layer_order());
            mid.lemma_layer_at(li as int);
            self.lemma_layer_at(li as int);
            assert forall|i: int| 0 <= i < self.postings@.len() implies (#[trigger] self.postings@[i]).wf() by {
                if i != li {
                    assert(self.postings@[i] == mid.postings@[i]);
                }
            }
            assert forall|l: Seq<char>, v: Seq<char>| (l, v) != (layer@, value@) implies #[trigger] self.postings(l, v) == old(self).postings(l, v) by {
                assert(self.postings(l, v) == mid.postings(l, v)) by {
                    if self.layer_order().contains(l) && l != layer@ {
                        let j = self.layer_order().index_of(l);
                        self.lemma_layer_at(j);
                        assert(self.layer_order()[j] == l);
                        assert(j != li);
                        assert(self.postings@[j] == mid.postings@[j]);
                    }
                }
            }
            assert forall|l: Seq<char>| l != layer@ implies #[trigger] self.value_set(l) == old(self).value_set(l) by {
                assert(self.value_set(l) == mid.value_set(l)) by {
                    if self.layer_order().contains(l) {
                        let j = self.layer_order().index_of(l);
                        self.lemma_layer_at(j);
                        assert(self.layer_order()[j] == l);
                        assert(j != li);
                        assert(self.postings@[j] == mid.postings@[j]);
                    }
                }
            }
        }
    }

    /// The positions of `value` in `layer`.
    pub fn get(&self, layer: &str, value: &str) -> (r: Option<&RoaringBitmap>)
        requires
            self.wf(),
        ensures
            r is Some <==> self.postings(layer@, value@) is Some,
            r matches Some(b) ==> Some(bitmap_set(*b)) == self.postings(layer@, value@),
    {
        let li = match find_name(&self.layers, layer) {
            Some(i) => i,
            None => return None,
        };
        proof { self.lemma_layer_at(li as int); }
        let table = &self.postings[li];
        match find_name(&table.values, value) {
            Some(j) => {
                proof { table.lemma_value_at(j as int); }
                Some(&table.sets[j])
            },
            None => None,
        }
    }

    /// The layer names, in the order they were first used.
    pub fn layers(&self) -> (r: Vec<&str>)
        ensures
            r@.len() == self.layer_order().len(),
            forall|i: int| 0 <= i < r@.len() ==> r@[i]@ == #[trigger] self.layer_order()[i],
    {
        let mut r: Vec<&str> = Vec::new();
        let mut i: usize = 0;
        while i < self.layers.len()
            invariant
                0 <= i <= self.layers@.len(),
                r@.len() == i,
                forall|k: int| 0 <= k < i ==> r@[k]@ == #[trigger] self.layer_order()[k],
            decreases self.layers@.len() - i,
        {
            r.push(self.layers[i].as_str());
            i = i + 1;
        }
        r
    }

    /// The values of `layer`, when the index has that layer.
    pub fn values(&self, layer: &str) -> (r: Option<Vec<&str>>)
        requires
            self.wf(),
        ensures
            r is Some <==> self.value_set(layer@) is Some,
            r matches Some(v) ==> v@.map_values(|s: &str| s@).to_set() == self.value_set(layer@).unwrap(),
            r matches Some(v) ==> v@.map_values(|s: &str| s@).no_duplicates(),
            r matches Some(v) ==> v@.len() == self.value_set(layer@).unwrap().len(),
    {
        let li = match find_name(&self.layers, layer) {
            Some(i) => i,
            None => return None,
        };
        proof { self.lemma_layer_at(li as int); }
        let table = &self.postings[li];
        let mut r: Vec<&str> = Vec::new();
        let mut j: usize = 0;
        while j < table.values.len()
            invariant
                0 <= j <= table.values@.len(),
                r@.map_values(|s: &str| s@) == string_views(table.values@).subrange(0, j as int),
            decreases table.values@.len() - j,
        {
            let ghost r0 = r@.map_values(|s: &str| s@);
            r.push(table.values[j].as_str());
            j = j + 1;
            proof {
                assert(r@.map_values(|s: &str| s@) =~= r0.push(table.values@[j - 1]@));
                assert(r@.map_values(|s: &str| s@) =~= string_views(table.values@).subrange(0, j as int));
            }
        }
        proof {
            let sv = string_views(table.values@);
            assert(sv.subrange(0, j as int) =~= sv);
            assert(sv.to_set() =~= table.view_map().dom());
            sv.unique_seq_to_set();
        }
        Some(r)
    }

    /// Whether pair (`l`, `v`) of this index comes before value `j` of layer `i`, in table order.
    closed spec fn pair_before(&self, l: Seq<char>, v: Seq<char>, i: int, j: int) -> bool {
        &&& self.postings(l, v) is Some
        &&& {
            let a = self.layer_order().index_of(l);
            ||| a < i
            ||| (a == i && string_views(self.postings@[a].values@).index_of(v) < j)
        }
    }

    /// Adds the positions of `other`, moved up by `position_offset`, to this index.
    pub fn merge_from(&mut self, other: Self, position_offset: u32)
        requires
            old(self).wf(),
            other.wf(),
            forall|l: Seq<char>, v: Seq<char>| #[trigger] other.postings(l, v) matches Some(s)
                ==> (forall|p: u32| s.contains(p) ==> p + position_offset <= u32::MAX),
        ensures
            final(self).wf(),
            forall|l: Seq<char>, v: Seq<char>| #[trigger] final(self).postings(l, v)
                == merged(old(self).postings(l, v), other.postings(l, v), position_offset),
    {
        let mut i: usize = 0;
        proof {
            assert forall|l: Seq<char>, v: Seq<char>| #[trigger] self.postings(l, v)
                == (if other.pair_before(l, v, 0, 0) { merged(old(self).postings(l, v), other.postings(l, v), position_offset) }
                    else { old(self).postings(l, v) }) by {}
        }
        while i < other.layers.len()
            invariant
                0 <= i <= other.layers@.len(),
                self.wf(),
                other.wf(),
                forall|l: Seq<char>, v: Seq<char>| #[trigger] other.postings(l, v) matches Some(s)
                    ==> (forall|p: u32| s.contains(p) ==> p + position_offset <= u32::MAX),
                forall|l: Seq<char>, v: Seq<char>| #[trigger] self.postings(l, v)
                    == (if other.pair_before(l, v, i as int, 0) { merged(old(self).postings(l, v), other.postings(l, v), position_offset) }
                        else { old(self).postings(l, v) }),
            decreases other.layers@.len() - i,
        {
            proof { other.lemma_layer_at(i as int); }
            let table = &other.postings[i];
            let mut j: usize = 0;
            while j < table.values.len()
                invariant
                    0 <= i < other.layers@.len(),
                    0 <= j <= table.values@.len(),
                    *table == other.postings@[i as int],
                    self.wf(),
                    other.wf(),
                    other.layer_order().index_of(other.layer_order()[i as int]) == i,
                    forall|l: Seq<char>, v: Seq<char>| #[trigger] other.postings(l, v) matches Some(s)
                        ==> (forall|p: u32| s.contains(p) ==> p + position_offset <= u32::MAX),
                    forall|l: Seq<char>, v: Seq<char>| #[trigger] self.postings(l, v)
                        == (if other.pair_before(l, v, i as int, j as int) { merged(old(self).postings(l, v), other.postings(l, v), position_offset) }
                            else { old(self).postings(l, v) }),
                decreases table.values@.len() - j,
            {
                let ghost ln = other.layer_order()[i as int];
                let ghost vn = string_views(table.values@)[j as int];
                proof {
                    table.lemma_value_at(j as int);
                    assert(other.postings(ln, vn) == Some(bitmap_set(table.sets@[j as int])));
                }
                proof {
                    let s0 = bitmap_set(table.sets@[j as int]);
                    assert(other.postings(ln, vn) matches Some(s) ==> (forall|p: u32| s.contains(p) ==> p + position_offset <= u32::MAX));
                    let s1 = other.postings(ln, vn).unwrap();
                    assert(s1 == s0);
                    assert forall|p: u32| s0.contains(p) implies p + position_offset <= u32::MAX by {
                        assert(s1.contains(p));
                    }
                }
                let vals = bitmap_values(&table.sets[j]);
                let mut shifted_positions: Vec<Position> = Vec::new();
                let mut k: usize = 0;
                while k < vals.len()
                    invariant
                        0 <= k <= vals@.len(),
                        vals@.to_set() == bitmap_set(table.sets@[j as int]),
                        other.postings(ln, vn) == Some(bitmap_set(table.sets@[j as int])),
                        forall|l: Seq<char>, v: Seq<char>| #[trigger] other.postings(l, v) matches Some(s)
                            ==> (forall|p: u32| s.contains(p) ==> p + position_offset <= u32::MAX),
                        forall|p: u32| bitmap_set(table.sets@[j as int]).contains(p) ==> p + position_offset <= u32::MAX,
                        shifted_positions@.len() == k,
                        forall|q: int| 0 <= q < k ==> #[trigger] shifted_positions@[q] == vals@[q] + position_offset,
                    decreases vals@.len() - k,
                {
                    proof {
                        assert(vals@.to_set().contains(vals@[k as int]));
                        assert(bitmap_set(table.sets@[j as int]).contains(vals@[k as int]));
                    }
                    shifted_positions.push((vals[k] + position_offset) as u64);
                    k = k + 1;
                }
                let ghost before = *self;
                self.insert(other.layers[i].as_str(), table.values[j].as_str(), shifted_positions.as_slice());
                proof {
                    assert(positions_u32(shifted_positions@) =~= shifted(bitmap_set(table.sets@[j as int]), position_offset)) by {
                        assert forall|x: u32| positions_u32(shifted_positions@).contains(x)
                            implies shifted(bitmap_set(table.sets@[j as int]), position_offset).contains(x) by {
                            let sp = shifted_positions@.map_values(|p: Position| p as u32);
                            assert(sp.contains(x));
                            let q = choose|q: int| 0 <= q < sp.len() && #[trigger] sp[q] == x;
                            assert(vals@.to_set().contains(vals@[q]));
                        }
                        assert forall|x: u32| shifted(bitmap_set(table.sets@[j as int]), position_offset).contains(x)
                            implies positions_u32(shifted_positions@).contains(x) by {
                            let p = choose|p: u32| bitmap_set(table.sets@[j as int]).contains(p) && x == (p + position_offset) as u32;
                            assert(vals@.to_set().contains(p));
                            let q = choose|q: int| 0 <= q < vals@.len() && vals@[q] == p;
                            assert(shifted_positions@.map_values(|p: Position| p as u32)[q] == x);
                        }
                    }
                    assert forall|l: Seq<char>, v: Seq<char>| #[trigger] self.postings(l, v)
                        == (if other.pair_before(l, v, i as int, j + 1) { merged(old(self).postings(l, v), other.postings(l, v), position_offset) }
                            else { old(self).postings(l, v) }) by {
                        if (l, v) != (ln, vn) {
                            assert(self.postings(l, v) == before.postings(l, v));
                            if other.pair_before(l, v, i as int, j + 1) && !other.pair_before(l, v, i as int, j as int) {
                                let a = other.layer_order().index_of(l);
                                assert(a == i);
                                other.lemma_layer_at(i as int);
                                assert(l == ln) by {
                                    assert(other.layer_order().contains(l));
                                    assert(other.layer_order()[a] == l);
                                }
                                let b = string_views(other.postings@[a].values@).index_of(v);
                                assert(b == j);
                                assert(string_views(table.values@).contains(v));
                                assert(string_views(table.values@)[b] == v);
                            }
                        } else {
                            assert(other.pair_before(ln, vn, i as int, j + 1));
                            assert(!other.pair_before(ln, vn, i as int, j as int));
                        }
                    }
                }
                j = j + 1;
            }
            proof {
                assert forall|l: Seq<char>, v: Seq<char>| #[trigger] self.postings(l, v)
                    == (if other.pair_before(l, v, i + 1, 0) { merged(old(self).postings(l, v), other.postings(l, v), position_offset) }
                        else { old(self).postings(l, v) }) by {
                    if other.pair_before(l, v, i + 1, 0) != other.pair_before(l, v, i as int, j as int) {
                        let a = other.layer_order().index_of(l);
                        assert(a == i);
                        let b = string_views(other.postings@[a].values@).index_of(v);
                        assert(other.postings(l, v) is Some);
                        assert(other.layer_order().contains(l));
                        assert(string_views(other.postings@[a].values@).contains(v));
                        assert(b < string_views(other.postings@[a].values@).len());
                    }
                }
            }
            i = i + 1;
        }
        proof {
            assert forall|l: Seq<char>, v: Seq<char>| #[trigger] self.postings(l, v)
                == merged(old(self).postings(l, v), other.postings(l, v), position_offset) by {
                if other.postings(l, v) is Some {
                    assert(other.layer_order().contains(l));
                    let a = other.layer_order().index_of(l);
                    assert(other.pair_before(l, v, i as int, 0));
                }
            }
        }
    }

    /// Position of `layer` in the table, after adding it empty when it is missing.
    fn layer_slot(&mut self, layer: &str) -> (li: usize)
        requires
            old(self).wf(),
        ensures
            final(self).wf(),
            li < final(self).layers@.len(),
            final(self).layer_order()[li as int] == layer@,
            final(self).postings@[li as int].view_map() == match old(self).value_set(layer@) {
                Some(_) => old(self).postings@[old(self).layer_order().index_of(layer@)].view_map(),
                None => Map::<Seq<char>, Set<u32>>::empty(),
            },
            forall|l: Seq<char>, v: Seq<char>| #[trigger] final(self).postings(l, v) == old(self).postings(l, v),
            forall|l: Seq<char>| l != layer@ ==> #[trigger] final(self).value_set(l) == old(self).value_set(l),
            final(self).value_set(layer@) == Some(match old(self).value_set(layer@) {
                Some(vs) => vs,
                None => Set::<Seq<char>>::empty(),
            }),
    {
        match find_name(&self.layers, layer) {
            Some(i) => {
                proof { self.lemma_layer_at(i as int); }
                i
            },
            None => {
                self.layers.push(to_owned_string(layer));
                let empty = LayerPostings { values: Vec::new(), sets: Vec::new() };
                proof {
                    assert(string_views(empty.values@) =~= Seq::<Seq<char>>::empty());
                    assert(empty.view_map() =~= Map::<Seq<char>, Set<u32>>::empty());
                }
                self.postings.push(empty);
                proof {
                    assert(self.layer_order() =~= old(self).layer_order().push(layer@));
                    self.lemma_layer_at(self.layers@.len() - 1);
                    assert forall|i: int| 0 <= i < self.postings@.len() implies (#[trigger] self.postings@[i]).wf() by {
                        if i < old(self).postings@.len() {
                            assert(self.postings@[i] == old(self).postings@[i]);
                        }
                    }
                    assert forall|l: Seq<char>| #[trigger] self.layer_order().contains(l) && l != layer@
                        implies old(self).layer_order().contains(l) && self.layer_order().index_of(l) == old(self).layer_order().index_of(l) by {
                        let j = self.layer_order().index_of(l);
                        self.lemma_layer_at(j);
                        assert(self.layer_order()[j] == l);
                        if j == old(self).layer_order().len() {
                            assert(false);
                        }
                        assert(old(self).layer_order()[j] == l);
                        old(self).lemma_layer_at(j);
                    }
                    assert forall|l: Seq<char>| old(self).layer_order().contains(l) implies #[trigger] self.layer_order().contains(l)
                        && self.layer_order().index_of(l) == old(self).layer_order().index_of(l) && l != layer@ by {
                        let j = old(self).layer_order().index_of(l);
                        old(self).lemma_layer_at(j);
                        assert(old(self).layer_order()[j] == l);
                        assert(self.layer_order()[j] == l);
                        self.lemma_layer_at(j);
                    }
                    assert forall|l: Seq<char>, v: Seq<char>| #[trigger] self.postings(l, v) == old(self).postings(l, v) by {
                        if old(self).layer_order().contains(l) {
                            let j = old(self).layer_order().index_of(l);
                            assert(self.postings@[j] == old(self).postings@[j]);
                        }
                    }
                    assert forall|l: Seq<char>| l != layer@ implies #[trigger] self.value_set(l) == old(self).value_set(l) by {
                        if old(self).layer_order().contains(l) {
                            let j = old(self).layer_order().index_of(l);
                            assert(self.postings@[j] == old(self).postings@[j]);
                        }
                    }
                    assert(self.value_set(layer@) == Some(Set::<Seq<char>>::empty()));
                }
                self.layers.len() - 1
            },
        }
    }
}

impl LayerPostings {
    proof fn lemma_value_at(&self, i: int)
        requires
            self.wf(),
            0 <= i < self.values@.len(),
        ensures
            string_views(self.values@).contains(string_views(self.values@)[i]),
            string_views(self.values@).index_of(string_views(self.values@)[i]) == i,
            self.view_map()[string_views(self.values@)[i]] == bitmap_set(self.sets@[i]),
    {
        let k = string_views(self.values@)[i];
        assert(string_views(self.values@).contains(k));
        let j = string_views(self.values@).index_of(k);
        assert(string_views(self.values@)[j] == k);
    }

    /// Adds `positions` (cut to 32 bits) to those of `value`.
    fn add(&mut self, value: &str, positions: &[Position])
        requires
            old(self).wf(),
        ensures
            final(self).wf(),
            final(self).view_map() == old(self).view_map().insert(value@, (if old(self).view_map().dom().contains(value@) {
                old(self).view_map()[value@]
            } else {
                Set::<u32>::empty()
            }).union(positions_u32(positions@))),
    {
        let vi = match find_name(&self.values, value) {
            Some(j) => {
                proof { self.lemma_value_at(j as int); }
                j
            },
            None => {
                self.values.push(to_owned_string(value));
                self.sets.push(bitmap_new());
                proof {
                    assert(string_views(self.values@) =~= string_views(old(self).values@).push(value@));
                    self.lemma_value_at(self.values@.len() - 1);
                    assert forall|v: Seq<char>| #[trigger] old(self).view_map().dom().contains(v)
                        implies self.view_map().dom().contains(v) && self.view_map()[v] == old(self).view_map()[v] by {
                        let j = string_views(old(self).values@).index_of(v);
                        old(self).lemma_value_at(j);
                        assert(string_views(old(self).values@)[j] == v);
                        assert(string_views(self.values@)[j] == v);
                        self.lemma_value_at(j);
                    }
                    assert forall|v: Seq<char>| #[trigger] self.view_map().dom().contains(v) && v != value@
                        implies old(self).view_map().dom().contains(v) by {
                        let j = string_views(self.values@).index_of(v);
                        self.lemma_value_at(j);
                        assert(string_views(self.values@)[j] == v);
                        if j < old(self).values@.len() {
                            assert(string_views(old(self).values@)[j] == v);
                        }
                    }
                    assert(self.view_map() =~= old(self).view_map().insert(value@, Set::<u32>::empty()));
                }
                self.values.len() - 1
            },
        };
        let ghost mid = *self;
        proof { mid.lemma_value_at(vi as int); }
        let mut set = self.sets.remove(vi);
        let ghost before_set = bitmap_set(set);
        let mut k: usize = 0;
        proof { assert(positions@.subrange(0, 0).map_values(|p: Position| p as u32).to_set() =~= Set::<u32>::empty()); }
        while k < positions.len()
            invariant
                0 <= k <= positions@.len(),
                bitmap_set(set) == before_set.union(positions@.subrange(0, k as int).map_values(|p: Position| p as u32).to_set()),
            decreases positions@.len() - k,
        {
            bitmap_insert(&mut set, positions[k] as u32);
            k = k + 1;
            proof {
                let t = positions@.subrange(0, k as int).map_values(|p: Position| p as u32);
                let t0 = positions@.subrange(0, k - 1).map_values(|p: Position| p as u32);
                assert(t =~= t0.push(positions@[k - 1] as u32));
                t0.lemma_push_to_set_commute(positions@[k - 1] as u32);
                assert(bitmap_set(set) =~= before_set.union(t.to_set()));
            }
        }
        proof { assert(positions@.subrange(0, k as int) =~= positions@); }
        self.sets.insert(vi, set);
        proof {
            assert(self.sets@ =~= mid.sets@.update(vi as int, set));
            assert(self.values == mid.values);
            self.lemma_value_at(vi as int);
            assert forall|v: Seq<char>| #[trigger] self.view_map().dom().contains(v) && v != value@
                implies self.view_map()[v] == mid.view_map()[v] by {
                let j = string_views(self.values@).index_of(v);
                self.lemma_value_at(j);
                assert(string_views(self.values@)[j] == v);
                assert(j != vi);
                mid.lemma_value_at(j);
            }
            assert(self.view_map() =~= mid.view_map().insert(value@, before_set.union(positions_u32(positions@))));
        }
    }
}

} // verus!
