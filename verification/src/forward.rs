//! The in-memory forward index: for each layer, the annotation value at every position.
use vstd::prelude::*;
use crate::text::{string_views, find_name, to_owned_string};
use crate::value::{Value, ValueModel, absent_value};

verus! {

/// The contents of a forward index: layer names (in order), one value list per layer,
/// and the number of positions covered.
pub struct ForwardModel {
    pub layers: Seq<Seq<char>>,
    pub data: Seq<Seq<ValueModel>>,
    pub token_count: int,
}

/// The first index at which `name` occurs, or `-1` when it does not occur.
pub open spec fn first_index_of(names: Seq<Seq<char>>, name: Seq<char>) -> int {
    if exists|i: int| 0 <= i < names.len() && names[i] == name && forall|j: int| 0 <= j < i ==> names[j] != name {
        choose|i: int| 0 <= i < names.len() && names[i] == name && forall|j: int| 0 <= j < i ==> names[j] != name
    } else {
        -1
    }
}

/// A found index lies within the names and holds the name.
pub proof fn lemma_first_index_bounded(names: Seq<Seq<char>>, name: Seq<char>)
    ensures
        first_index_of(names, name) >= 0 ==> first_index_of(names, name) < names.len()
            && names[first_index_of(names, name)] == name,
        first_index_of(names, name) >= -1,
{
}

/// `first_index_of` is the unique first occurrence.
pub proof fn lemma_first_index_of(names: Seq<Seq<char>>, name: Seq<char>, i: int)
    requires
        0 <= i < names.len(),
        names[i] == name,
        forall|j: int| 0 <= j < i ==> names[j] != name,
    ensures
        first_index_of(names, name) == i,
{
    let c = first_index_of(names, name);
    assert(0 <= c < names.len() && names[c] == name && forall|j: int| 0 <= j < c ==> names[j] != name);
    if c < i {
        assert(names[c] != name);
    }
    if i < c {
        assert(names[i] != name);
    }
}

/// A name that occurs has a first occurrence.
pub proof fn lemma_first_exists(names: Seq<Seq<char>>, name: Seq<char>, i: int)
    requires
        0 <= i < names.len(),
        names[i] == name,
    ensures
        first_index_of(names, name) >= 0,
    decreases i,
{
    if exists|j: int| 0 <= j < i && names[j] == name {
        let j = choose|j: int| 0 <= j < i && names[j] == name;
        lemma_first_exists(names, name, j);
    } else {
        lemma_first_index_of(names, name, i);
    }
}

/// `first_index_of` is `-1` exactly when the name does not occur.
pub proof fn lemma_first_index_absent(names: Seq<Seq<char>>, name: Seq<char>)
    requires
        forall|j: int| 0 <= j < names.len() ==> names[j] != name,
    ensures
        first_index_of(names, name) == -1,
{
}

/// `target` with `src` written from position `start` on, padding any gap with the absent value.
pub open spec fn write_at(target: Seq<ValueModel>, start: int, src: Seq<ValueModel>) -> Seq<ValueModel> {
    let len = if target.len() >= start + src.len() { target.len() as int } else { start + src.len() };
    Seq::new(len as nat, |i: int|
        if start <= i < start + src.len() { src[i - start] }
        else if i < target.len() { target[i] }
        else { absent_value() })
}

/// The forward index after writing the values `src` of layer `name` from position `offset` on;
/// a layer name not yet present is added at the end.
pub open spec fn write_layer_spec(m: ForwardModel, name: Seq<char>, src: Seq<ValueModel>, offset: int) -> ForwardModel {
    let idx = first_index_of(m.layers, name);
    if idx >= 0 {
        ForwardModel { layers: m.layers, data: m.data.update(idx, write_at(m.data[idx], offset, src)), token_count: m.token_count }
    } else {
        ForwardModel { layers: m.layers.push(name), data: m.data.push(write_at(Seq::empty(), offset, src)), token_count: m.token_count }
    }
}

/// The forward index after writing the first `n` layers of another index from `offset` on.
pub open spec fn merge_prefix(m: ForwardModel, names: Seq<Seq<char>>, datas: Seq<Seq<ValueModel>>, offset: int, n: int) -> ForwardModel
    decreases n,
{
    if n <= 0 {
        m
    } else {
        write_layer_spec(merge_prefix(m, names, datas, offset, n - 1), names[n - 1], datas[n - 1], offset)
    }
}

/// The value models of a vector of values.
pub open spec fn value_views(v: Seq<Value>) -> Seq<ValueModel> {
    v.map_values(|x: Value| x@)
}

/// The value models of each layer's values.
pub open spec fn layer_views(d: Seq<Vec<Value>>) -> Seq<Seq<ValueModel>> {
    d.map_values(|v: Vec<Value>| value_views(v@))
}

/// A forward index held in memory: one value list per layer, indexed by position.
pub struct InMemoryForward {
    layers: Vec<String>,
    data: Vec<Vec<Value>>,
    token_count: u64,
}

impl View for InMemoryForward {
    type V = ForwardModel;

    closed spec fn view(&self) -> ForwardModel {
        ForwardModel {
            layers: string_views(self.layers@),
            data: layer_views(self.data@),
            token_count: self.token_count as int,
        }
    }
}

impl InMemoryForward {
    /// One value list per layer name.
    pub closed spec fn wf(&self) -> bool {
        self.layers@.len() == self.data@.len()
    }

    /// The view's layer and value lists have the same length; the token count fits in 64 bits.
    pub proof fn lemma_wf(&self)
        requires
            self.wf(),
        ensures
            self@.layers.len() == self@.data.len(),
            0 <= self@.token_count <= u64::MAX,
    {
    }

    pub fn new() -> (r: Self)
        ensures
            r.wf(),
            r@.layers == Seq::<Seq<char>>::empty(),
            r@.data == Seq::<Seq<ValueModel>>::empty(),
            r@.token_count == 0,
    {
        let r = InMemoryForward { layers: Vec::new(), data: Vec::new(), token_count: 0 };
        assert(r@.layers =~= Seq::<Seq<char>>::empty());
        assert(r@.data =~= Seq::<Seq<ValueModel>>::empty());
        r
    }

    /// Adds an empty layer named `name` and returns its index.
    pub fn add_layer(&mut self, name: &str) -> (idx: usize)
        requires
            old(self).wf(),
        ensures
            final(self).wf(),
            idx == old(self)@.layers.len(),
            final(self)@.layers == old(self)@.layers.push(name@),
            final(self)@.data == old(self)@.data.push(Seq::empty()),
            final(self)@.token_count == old(self)@.token_count,
    {
        self.layers.push(to_owned_string(name));
        self.data.push(Vec::new());
        proof {
            assert(self@.layers =~= old(self)@.layers.push(name@));
            let n = old(self).data@.len() as int;
            assert(value_views(self.data@[n]@) =~= Seq::<ValueModel>::empty());
            assert(self@.data =~= old(self)@.data.push(Seq::empty()));
        }
        self.layers.len() - 1
    }

    /// Stores `value` at `position` in the layer with index `layer_index`.
    pub fn set(&mut self, layer_index: usize, position: u64, value: Value)
        requires
            old(self).wf(),
            layer_index < old(self)@.layers.len(),
            position < usize::MAX,
            position < u64::MAX,
        ensures
            final(self).wf(),
            final(self)@.layers == old(self)@.layers,
            final(self)@.data == old(self)@.data.update(layer_index as int,
                write_at(old(self)@.data[layer_index as int], position as int, seq![value@])),
            final(self)@.token_count == (if old(self)@.token_count > position + 1 { old(self)@.token_count } else { position + 1 }),
    {
        let pos = position as usize;
        let ghost base = value_views(self.data@[layer_index as int]@);
        while self.data[layer_index].len() <= pos
            invariant
                self.wf(),
                layer_index < self.data@.len(),
                pos < usize::MAX,
                self.layers@ == old(self).layers@,
                self.token_count == old(self).token_count,
                self.data@.len() == old(self).data@.len(),
                forall|q: int| 0 <= q < self.data@.len() && q != layer_index ==> self.data@[q] == old(self).data@[q],
                base.len() <= self.data@[layer_index as int]@.len(),
                self.data@[layer_index as int]@.len() <= if base.len() > pos + 1 { base.len() as int } else { pos as int + 1 },
                forall|i: int| 0 <= i < self.data@[layer_index as int]@.len() ==> (#[trigger] self.data@[layer_index as int]@[i])@
                    == if i < base.len() { base[i] } else { absent_value() },
            decreases pos + 1 - self.data@[layer_index as int]@.len(),
        {
            self.data[layer_index].push(Value::absent());
        }
        self.data[layer_index].set(pos, value);
        if self.token_count < position + 1 {
            self.token_count = position + 1;
        }
        proof {
            let expect = write_at(old(self)@.data[layer_index as int], position as int, seq![value@]);
            assert(value_views(self.data@[layer_index as int]@) =~= expect);
            assert(self@.data =~= old(self)@.data.update(layer_index as int, expect));
            assert(self@.layers == old(self)@.layers);
        }
    }

    /// Writes the values `src` into the first layer named `name` (added when absent) from `offset` on.
    fn write_layer(&mut self, name: &str, src: Vec<Value>, offset: usize)
        requires
            old(self).wf(),
            offset + src@.len() < usize::MAX,
        ensures
            final(self).wf(),
            final(self)@ == write_layer_spec(old(self)@, name@, value_views(src@), offset as int),
    {
        let t = match self.layer_index(name) {
            Some(t) => t,
            None => self.add_layer(name),
        };
        assert(self.data@.len() == self@.data.len());
        assert(t < self.data@.len());
        let ghost mid = self@;
        let ghost base = value_views(self.data@[t as int]@);
        let ghost orig = value_views(src@);
        let n = src.len();
        let need = offset + n;
        while self.data[t].len() < need
            invariant
                self.wf(),
                t < self.data@.len(),
                self@.layers == mid.layers,
                self@.token_count == mid.token_count,
                self.data@.len() == mid.data.len(),
                forall|q: int| 0 <= q < self.data@.len() && q != t ==> layer_views(self.data@)[q] == mid.data[q],
                base.len() <= self.data@[t as int]@.len(),
                self.data@[t as int]@.len() <= if base.len() > need { base.len() as int } else { need as int },
                forall|i: int| 0 <= i < self.data@[t as int]@.len() ==> (#[trigger] self.data@[t as int]@[i])@
                    == if i < base.len() { base[i] } else { absent_value() },
            decreases need - self.data@[t as int]@.len(),
        {
            self.data[t].push(Value::absent());
        }
        let mut src = src;
        while src.len() > 0
            invariant
                self.wf(),
                t < self.data@.len(),
                self@.layers == mid.layers,
                self@.token_count == mid.token_count,
                self.data@.len() == mid.data.len(),
                forall|q: int| 0 <= q < self.data@.len() && q != t ==> layer_views(self.data@)[q] == mid.data[q],
                need == offset + n,
                orig.len() == n,
                src@.len() <= n,
                value_views(src@) == orig.subrange(0, src@.len() as int),
                self.data@[t as int]@.len() == if base.len() > need { base.len() as int } else { need as int },
                forall|i: int| 0 <= i < self.data@[t as int]@.len() ==> (#[trigger] self.data@[t as int]@[i])@
                    == if offset + src@.len() <= i < need { orig[i - offset] } else if i < base.len() { base[i] } else { absent_value() },
            decreases src@.len(),
        {
            let k = src.len() - 1;
            let ghost old_src = src@;
            proof {
                assert(value_views(old_src)[k as int] == old_src[k as int]@);
                assert(value_views(old_src)[k as int] == orig[k as int]);
            }
            let v = src.pop().unwrap();
            proof {
                assert(value_views(src@) =~= orig.subrange(0, k as int));
                assert(v@ == orig[k as int]);
            }
            self.data[t].set(offset + k, v);
        }
        proof {
            assert(value_views(self.data@[t as int]@) =~= write_at(mid.data[t as int], offset as int, orig));
            assert(self@.data =~= mid.data.update(t as int, write_at(mid.data[t as int], offset as int, orig)));
            if first_index_of(old(self)@.layers, name@) >= 0 {
                assert(mid == old(self)@);
            } else {
                assert(mid.data == old(self)@.data.push(Seq::empty()));
                assert(t == old(self)@.data.len());
                assert(mid.data[t as int] =~= Seq::<ValueModel>::empty());
                assert(self@.data =~= old(self)@.data.push(write_at(Seq::empty(), offset as int, orig)));
            }
        }
    }

    /// Copies every layer of `other` into this index from `position_offset` on, adding missing
    /// layers; the token count becomes the larger of the two extents.
    pub fn merge_from(&mut self, other: Self, position_offset: u64)
        requires
            old(self).wf(),
            other.wf(),
            position_offset + other@.token_count <= u64::MAX,
            forall|j: int| 0 <= j < other@.data.len() ==> position_offset + (#[trigger] other@.data[j]).len() < usize::MAX,
        ensures
            final(self).wf(),
            final(self)@.layers == merge_prefix(old(self)@, other@.layers, other@.data, position_offset as int, other@.layers.len() as int).layers,
            final(self)@.data == merge_prefix(old(self)@, other@.layers, other@.data, position_offset as int, other@.layers.len() as int).data,
            final(self)@.token_count == (if old(self)@.token_count > position_offset + other@.token_count { old(self)@.token_count } else { position_offset + other@.token_count }),
    {
        let ghost names = other@.layers;
        let ghost datas = other@.data;
        let ghost start = self@;
        let other_tokens = other.token_count;
        let mut rest_names = other.layers;
        let mut rest_data = other.data;
        let total = rest_names.len();
        let mut j: usize = 0;
        while j < total
            invariant
                self.wf(),
                total == names.len(),
                names.len() == datas.len(),
                0 <= j <= total,
                string_views(rest_names@) == names.subrange(j as int, total as int),
                layer_views(rest_data@) == datas.subrange(j as int, total as int),
                self@.token_count == start.token_count,
                self@.layers == merge_prefix(start, names, datas, position_offset as int, j as int).layers,
                self@.data == merge_prefix(start, names, datas, position_offset as int, j as int).data,
                forall|q: int| 0 <= q < datas.len() ==> position_offset + (#[trigger] datas[q]).len() < usize::MAX,
            decreases total - j,
        {
            proof {
                assert(position_offset + datas[j as int].len() < usize::MAX);
                assert(rest_names@.len() == string_views(rest_names@).len());
                assert(rest_data@.len() == layer_views(rest_data@).len());
            }
            let ghost rn = rest_names@;
            let ghost rd = rest_data@;
            proof {
                assert(string_views(rn)[0] == names.subrange(j as int, total as int)[0]);
                assert(layer_views(rd)[0] == datas.subrange(j as int, total as int)[0]);
            }
            let name = rest_names.remove(0);
            let values = rest_data.remove(0);
            proof {
                assert(name@ == names[j as int]);
                assert(value_views(values@) == datas[j as int]);
                assert forall|i: int| 0 <= i < rest_names@.len() implies string_views(rest_names@)[i] == names.subrange(j + 1, total as int)[i] by {
                    assert(rest_names@[i] == rn[i + 1]);
                    assert(string_views(rn)[i + 1] == names.subrange(j as int, total as int)[i + 1]);
                }
                assert forall|i: int| 0 <= i < rest_data@.len() implies layer_views(rest_data@)[i] == datas.subrange(j + 1, total as int)[i] by {
                    assert(rest_data@[i] == rd[i + 1]);
                    assert(layer_views(rd)[i + 1] == datas.subrange(j as int, total as int)[i + 1]);
                }
                assert(string_views(rest_names@) =~= names.subrange(j + 1, total as int));
                assert(layer_views(rest_data@) =~= datas.subrange(j + 1, total as int));
            }
            self.write_layer(name.as_str(), values, position_offset as usize);
            j = j + 1;
        }
        let end = position_offset + other_tokens;
        if self.token_count < end {
            self.token_count = end;
        }
    }

    /// Index of the first layer named `name`.
    fn layer_index(&self, name: &str) -> (r: Option<usize>)
        requires
            self.wf(),
        ensures
            r matches Some(i) ==> i < self@.layers.len() && first_index_of(self@.layers, name@) == i,
            r is None ==> first_index_of(self@.layers, name@) == -1,
    {
        let r = find_name(&self.layers, name);
        proof {
            match r {
                Some(i) => {
                    lemma_first_index_of(self@.layers, name@, i as int);
                },
                None => {
                    lemma_first_index_absent(self@.layers, name@);
                },
            }
        }
        r
    }

    /// Whether there is one value list per layer name.
    pub fn is_consistent(&self) -> (b: bool)
        ensures
            b == self.wf(),
    {
        self.layers.len() == self.data.len()
    }

    /// Number of positions covered.
    pub fn token_count(&self) -> (n: u64)
        ensures
            n == self@.token_count,
    {
        self.token_count
    }

    /// The layer names, in order.
    pub fn layer_names(&self) -> (r: &[String])
        ensures
            string_views(r@) == self@.layers,
    {
        self.layers.as_slice()
    }

    /// The values of the first layer named `name`.
    pub fn layer_data(&self, name: &str) -> (r: Option<&[Value]>)
        requires
            self.wf(),
        ensures
            r is Some <==> first_index_of(self@.layers, name@) >= 0,
            r matches Some(d) ==> value_views(d@) == self@.data[first_index_of(self@.layers, name@)],
    {
        match self.layer_index(name) {
            Some(i) => Some(self.data[i].as_slice()),
            None => None,
        }
    }

    /// The string stored at `position` in layer `layer`.
    pub fn get_str(&self, position: u64, layer: &str) -> (r: Option<&str>)
        requires
            self.wf(),
        ensures
            r is Some <==> ({
                let idx = first_index_of(self@.layers, layer@);
                idx >= 0 && position < self@.data[idx].len() && self@.data[idx][position as int] is Str
            }),
            r matches Some(s) ==> self@.data[first_index_of(self@.layers, layer@)][position as int] == ValueModel::Str(s@),
    {
        let i = self.layer_index(layer)?;
        if (position as usize) < self.data[i].len() && position <= usize::MAX as u64 {
            self.data[i][position as usize].as_text()
        } else {
            None
        }
    }

    /// The integer stored at `position` in layer `layer`.
    pub fn get_int(&self, position: u64, layer: &str) -> (r: Option<i64>)
        requires
            self.wf(),
        ensures
            r is Some <==> ({
                let idx = first_index_of(self@.layers, layer@);
                idx >= 0 && position < self@.data[idx].len() && self@.data[idx][position as int] is Int
            }),
            r matches Some(n) ==> self@.data[first_index_of(self@.layers, layer@)][position as int] == ValueModel::Int(n),
    {
        let i = self.layer_index(layer)?;
        if (position as usize) < self.data[i].len() && position <= usize::MAX as u64 {
            self.data[i][position as usize].as_int()
        } else {
            None
        }
    }
}

impl Default for InMemoryForward {
    fn default() -> (r: Self)
        ensures
            r.wf(),
            r@.layers == Seq::<Seq<char>>::empty(),
            r@.data == Seq::<Seq<ValueModel>>::empty(),
            r@.token_count == 0,
    {
        Self::new()
    }
}

} // verus!
