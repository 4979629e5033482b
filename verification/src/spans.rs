//! In-memory span layers: named lists of spans (sentences, documents, ...).
use vstd::prelude::*;
use crate::span::{Span, spans_disjoint_sorted, some_span_contains, span_containing, Position};
use crate::text::{string_views, find_name, to_owned_string};

verus! {

broadcast use vstd::seq_lib::group_to_multiset_ensures;

/// Spans ordered by their start position.
pub open spec fn sorted_by_start(s: Seq<Span>) -> bool {
    forall|i: int, j: int| 0 <= i < j < s.len() ==> s[i].start <= s[j].start
}

/// The spans of `s` that start at `v`, in their order in `s`.
pub open spec fn starting_at(s: Seq<Span>, v: Position) -> Seq<Span> {
    s.filter(|x: Span| x.start == v)
}

/// The layer order after merging layers named in order `b` into layers named in order `a`:
/// `a`, then each name of `b` that is not yet there.
pub open spec fn order_merged(a: Seq<Seq<char>>, b: Seq<Seq<char>>) -> Seq<Seq<char>>
    decreases b.len(),
{
    if b.len() == 0 {
        a
    } else {
        let m = order_merged(a, b.drop_last());
        if m.contains(b.last()) { m } else { m.push(b.last()) }
    }
}

/// Every span moved right by `offset` positions.
pub open spec fn shift_spans(s: Seq<Span>, offset: int) -> Seq<Span> {
    s.map_values(|x: Span| Span { start: (x.start + offset) as u64, end: (x.end + offset) as u64 })
}

/// The spans of a layer, or no spans when the layer is absent.
pub open spec fn layer_or_empty(m: Map<Seq<char>, Seq<Span>>, name: Seq<char>) -> Seq<Span> {
    if m.dom().contains(name) { m[name] } else { Seq::empty() }
}

/// Span layers held in memory, each a list of spans under a layer name.
pub struct InMemorySpans {
    names: Vec<String>,
    data: Vec<Vec<Span>>,
}

impl View for InMemorySpans {
    type V = Map<Seq<char>, Seq<Span>>;

    closed spec fn view(&self) -> Map<Seq<char>, Seq<Span>> {
        Map::new(
            |k: Seq<char>| self.layer_order().contains(k),
            |k: Seq<char>| self.data@[self.layer_order().index_of(k)]@,
        )
    }
}

impl InMemorySpans {
    /// The layer names in the order they were first added.
    pub closed spec fn layer_order(&self) -> Seq<Seq<char>> {
        string_views(self.names@)
    }

    /// The layer table is consistent: one span list per name and no name twice.
    pub closed spec fn wf(&self) -> bool {
        &&& self.names@.len() == self.data@.len()
        &&& self.layer_order().no_duplicates()
    }

    proof fn lemma_view_at(&self, i: int)
        requires
            self.wf(),
            0 <= i < self.names@.len(),
        ensures
            self@.dom().contains(self.layer_order()[i]),
            self@[self.layer_order()[i]] == self.data@[i]@,
    {
        let k = self.layer_order()[i];
        assert(self.layer_order().contains(k));
        let j = self.layer_order().index_of(k);
        assert(self.layer_order()[j] == k);
    }

    /// The layers named by the order are exactly those of the view.
    pub proof fn lemma_order_is_domain(&self)
        requires
            self.wf(),
        ensures
            self.layer_order().to_set() == self@.dom(),
            self.layer_order().no_duplicates(),
    {
        assert(self.layer_order().to_set() =~= self@.dom());
    }

    pub fn new() -> (r: Self)
        ensures
            r.wf(),
            r@ == Map::<Seq<char>, Seq<Span>>::empty(),
            r.layer_order() == Seq::<Seq<char>>::empty(),
    {
        let r = InMemorySpans { names: Vec::new(), data: Vec::new() };
        assert(r@ =~= Map::<Seq<char>, Seq<Span>>::empty());
        assert(r.layer_order() =~= Seq::<Seq<char>>::empty());
        r
    }

    /// Index of a layer in the table.
    fn layer_index(&self, name: &str) -> (r: Option<usize>)
        requires
            self.wf(),
        ensures
            r is None <==> !self@.dom().contains(name@),
            r matches Some(i) ==> i < self.names@.len() && self.layer_order()[i as int] == name@
                && self@[name@] == self.data@[i as int]@,
    {
        let r = find_name(&self.names, name);
        proof {
            if let Some(i) = r {
                self.lemma_view_at(i as int);
            }
        }
        r
    }

    /// Appends `span` to the layer `layer`, creating the layer when it is new.
    pub fn add_span(&mut self, layer: &str, span: Span)
        requires
            old(self).wf(),
        ensures
            final(self).wf(),
            final(self)@ == old(self)@.insert(layer@, layer_or_empty(old(self)@, layer@).push(span)),
            old(self)@.dom().contains(layer@) ==> final(self).layer_order() == old(self).layer_order(),
            !old(self)@.dom().contains(layer@) ==> final(self).layer_order() == old(self).layer_order().push(layer@),
    {
        match self.layer_index(layer) {
            Some(i) => {
                self.data[i].push(span);
                proof {
                    assert(self.layer_order() == old(self).layer_order());
                    assert forall|k: Seq<char>| #[trigger] self@.dom().contains(k) implies self@[k]
                        == old(self)@.insert(layer@, layer_or_empty(old(self)@, layer@).push(span))[k] by {
                        let j = self.layer_order().index_of(k);
                        self.lemma_view_at(j);
                        old(self).lemma_view_at(j);
                    }
                    assert(self@ =~= old(self)@.insert(layer@, layer_or_empty(old(self)@, layer@).push(span)));
                }
            },
            None => {
                let mut v: Vec<Span> = Vec::new();
                v.push(span);
                self.names.push(to_owned_string(layer));
                self.data.push(v);
                proof {
                    assert(self.layer_order() =~= old(self).layer_order().push(layer@));
                    let n = old(self).names@.len() as int;
                    assert forall|k: Seq<char>| #[trigger] self.layer_order().contains(k) <==> (old(self).layer_order().contains(k) || k == layer@) by {
                        if self.layer_order().contains(k) && k != layer@ {
                            let j = choose|j: int| 0 <= j < self.layer_order().len() && self.layer_order()[j] == k;
                            assert(old(self).layer_order()[j] == k);
                        }
                        if k == layer@ {
                            assert(self.layer_order()[n] == layer@);
                        }
                        if old(self).layer_order().contains(k) {
                            let j = choose|j: int| 0 <= j < old(self).layer_order().len() && old(self).layer_order()[j] == k;
                            assert(self.layer_order()[j] == k);
                        }
                    }
                    assert(self@.dom() =~= old(self)@.dom().insert(layer@));
                    assert forall|k: Seq<char>| #[trigger] self@.dom().contains(k) implies self@[k]
                        == old(self)@.insert(layer@, layer_or_empty(old(self)@, layer@).push(span))[k] by {
                        let j = self.layer_order().index_of(k);
                        self.lemma_view_at(j);
                        if j < n {
                            old(self).lemma_view_at(j);
                        } else {
                            assert(v@ =~= Seq::<Span>::empty().push(span));
                        }
                    }
                    assert(self@ =~= old(self)@.insert(layer@, layer_or_empty(old(self)@, layer@).push(span)));
                }
            },
        }
    }

    /// Index of a layer, creating it empty when it is new.
    fn ensure_layer(&mut self, name: &str) -> (t: usize)
        requires
            old(self).wf(),
        ensures
            final(self).wf(),
            t < final(self).names@.len(),
            final(self).layer_order()[t as int] == name@,
            final(self)@ == old(self)@.insert(name@, layer_or_empty(old(self)@, name@)),
            old(self)@.dom().contains(name@) ==> final(self).layer_order() == old(self).layer_order(),
            !old(self)@.dom().contains(name@) ==> final(self).layer_order() == old(self).layer_order().push(name@),
    {
        match self.layer_index(name) {
            Some(i) => {
                assert(self@ =~= old(self)@.insert(name@, layer_or_empty(old(self)@, name@)));
                i
            },
            None => {
                let v: Vec<Span> = Vec::new();
                self.names.push(to_owned_string(name));
                self.data.push(v);
                proof {
                    assert(self.layer_order() =~= old(self).layer_order().push(name@));
                    let n = old(self).names@.len() as int;
                    assert forall|k: Seq<char>| #[trigger] self.layer_order().contains(k) <==> (old(self).layer_order().contains(k) || k == name@) by {
                        if self.layer_order().contains(k) && k != name@ {
                            let j = choose|j: int| 0 <= j < self.layer_order().len() && self.layer_order()[j] == k;
                            assert(old(self).layer_order()[j] == k);
                        }
                        if k == name@ {
                            assert(self.layer_order()[n] == name@);
                        }
                        if old(self).layer_order().contains(k) {
                            let j = choose|j: int| 0 <= j < old(self).layer_order().len() && old(self).layer_order()[j] == k;
                            assert(self.layer_order()[j] == k);
                        }
                    }
                    assert(self@.dom() =~= old(self)@.dom().insert(name@));
                    assert forall|k: Seq<char>| #[trigger] self@.dom().contains(k) implies self@[k]
                        == old(self)@.insert(name@, layer_or_empty(old(self)@, name@))[k] by {
                        let j = self.layer_order().index_of(k);
                        self.lemma_view_at(j);
                        if j < n {
                            old(self).lemma_view_at(j);
                        } else {
                            assert(v@ =~= Seq::<Span>::empty());
                        }
                    }
                    assert(self@ =~= old(self)@.insert(name@, layer_or_empty(old(self)@, name@)));
                }
                self.names.len() - 1
            },
        }
    }

    /// Appends the spans of `src`, each moved right by `offset`, to the layer `name`.
    fn extend_layer_shifted(&mut self, name: &str, src: &[Span], offset: u64)
        requires
            old(self).wf(),
            forall|i: int| 0 <= i < src@.len() ==> (#[trigger] src@[i]).wf() && src@[i].end + offset <= u64::MAX,
        ensures
            final(self).wf(),
            final(self)@ == old(self)@.insert(name@, layer_or_empty(old(self)@, name@) + shift_spans(src@, offset as int)),
            old(self)@.dom().contains(name@) ==> final(self).layer_order() == old(self).layer_order(),
            !old(self)@.dom().contains(name@) ==> final(self).layer_order() == old(self).layer_order().push(name@),
    {
        let t = self.ensure_layer(name);
        let ghost mid = *self;
        let ghost base = self.data@[t as int]@;
        proof { self.lemma_view_at(t as int); }
        let mut m: usize = 0;
        while m < src.len()
            invariant
                mid.wf(),
                t < mid.names@.len(),
                self.names@ == mid.names@,
                self.data@.len() == mid.data@.len(),
                forall|q: int| 0 <= q < mid.data@.len() && q != t ==> self.data@[q] == mid.data@[q],
                base == mid.data@[t as int]@,
                0 <= m <= src@.len(),
                self.data@[t as int]@ == base + shift_spans(src@.subrange(0, m as int), offset as int),
                forall|i: int| 0 <= i < src@.len() ==> (#[trigger] src@[i]).wf() && src@[i].end + offset <= u64::MAX,
            decreases src@.len() - m,
        {
            let x = src[m];
            self.data[t].push(Span::new(x.start + offset, x.end + offset));
            proof {
                assert(src@.subrange(0, m + 1) =~= src@.subrange(0, m as int).push(x));
                assert(shift_spans(src@.subrange(0, m + 1), offset as int) =~= shift_spans(src@.subrange(0, m as int), offset as int).push(Span { start: (x.start + offset) as u64, end: (x.end + offset) as u64 }));
            }
            m = m + 1;
        }
        proof {
            assert(src@.subrange(0, src@.len() as int) =~= src@);
            assert(self.layer_order() == mid.layer_order());
            assert(self.wf());
            assert forall|k: Seq<char>| #[trigger] self@.dom().contains(k) implies self@[k]
                == old(self)@.insert(name@, layer_or_empty(old(self)@, name@) + shift_spans(src@, offset as int))[k] by {
                let j = self.layer_order().index_of(k);
                self.lemma_view_at(j);
                mid.lemma_view_at(j);
            }
            assert(self@.dom() =~= mid@.dom());
            assert(self@ =~= old(self)@.insert(name@, layer_or_empty(old(self)@, name@) + shift_spans(src@, offset as int)));
        }
    }

    /// Appends every layer of `other` to this index, moving its spans right by `position_offset`.
    pub fn merge_from(&mut self, other: Self, position_offset: u64)
        requires
            old(self).wf(),
            other.wf(),
            forall|k: Seq<char>, i: int| #[trigger] other@.dom().contains(k) && 0 <= i < other@[k].len()
                ==> (#[trigger] other@[k][i]).wf() && other@[k][i].end + position_offset <= u64::MAX,
        ensures
            final(self).wf(),
            final(self)@.dom() == old(self)@.dom().union(other@.dom()),
            forall|k: Seq<char>| #[trigger] final(self)@.dom().contains(k) ==> final(self)@[k]
                == layer_or_empty(old(self)@, k) + shift_spans(layer_or_empty(other@, k), position_offset as int),
            final(self).layer_order() == order_merged(old(self).layer_order(), other.layer_order()),
    {
        let ghost order = other.layer_order();
        proof { other.lemma_order_is_domain(); }
        let mut j: usize = 0;
        while j < other.names.len()
            invariant
                other.wf(),
                order == other.layer_order(),
                order.no_duplicates(),
                order.to_set() == other@.dom(),
                0 <= j <= other.names@.len(),
                self.wf(),
                forall|k: Seq<char>| #[trigger] self@.dom().contains(k) <==> (old(self)@.dom().contains(k) || order.subrange(0, j as int).contains(k)),
                forall|k: Seq<char>| #[trigger] self@.dom().contains(k) ==> self@[k] == layer_or_empty(old(self)@, k)
                    + (if order.subrange(0, j as int).contains(k) { shift_spans(other@[k], position_offset as int) } else { Seq::empty() }),
                forall|k: Seq<char>, i: int| #[trigger] other@.dom().contains(k) && 0 <= i < other@[k].len()
                    ==> (#[trigger] other@[k][i]).wf() && other@[k][i].end + position_offset <= u64::MAX,
                self.layer_order() == order_merged(old(self).layer_order(), order.subrange(0, j as int)),
            decreases other.names@.len() - j,
        {
            proof { other.lemma_view_at(j as int); }
            let ghost before = *self;
            let ghost kj = order[j as int];
            proof { before.lemma_order_is_domain(); }
            self.extend_layer_shifted(other.names[j].as_str(), other.data[j].as_slice(), position_offset);
            proof {
                let sj = order.subrange(0, j + 1);
                assert(sj.drop_last() =~= order.subrange(0, j as int));
                assert(sj.last() == kj);
                assert(before.layer_order().contains(kj) <==> before@.dom().contains(kj)) by {
                    assert(before.layer_order().to_set().contains(kj) <==> before.layer_order().contains(kj));
                }
            }
            proof {
                let sub1 = order.subrange(0, j + 1);
                assert(order.subrange(0, j + 1) =~= order.subrange(0, j as int).push(kj));
                assert(!order.subrange(0, j as int).contains(kj)) by {
                    if order.subrange(0, j as int).contains(kj) {
                        let q = choose|q: int| 0 <= q < j && order.subrange(0, j as int)[q] == kj;
                        assert(order[q] == order[j as int]);
                    }
                }
                assert forall|k: Seq<char>| #[trigger] order.subrange(0, j + 1).contains(k) <==> (order.subrange(0, j as int).contains(k) || k == kj) by {
                    if order.subrange(0, j + 1).contains(k) && k != kj {
                        let q = choose|q: int| 0 <= q < sub1.len() && sub1[q] == k;
                        assert(order.subrange(0, j as int)[q] == k);
                    }
                    if order.subrange(0, j as int).contains(k) {
                        let q = choose|q: int| 0 <= q < j && order.subrange(0, j as int)[q] == k;
                        assert(order.subrange(0, j + 1)[q] == k);
                    }
                    if k == kj {
                        assert(order.subrange(0, j + 1)[j as int] == k);
                    }
                }
                assert(self@.dom() == before@.dom().insert(kj));
                assert forall|k: Seq<char>| #[trigger] self@.dom().contains(k) implies self@[k] == layer_or_empty(old(self)@, k)
                    + (if order.subrange(0, j + 1).contains(k) { shift_spans(other@[k], position_offset as int) } else { Seq::empty() }) by {
                    if k == kj {
                        if before@.dom().contains(k) {
                            assert(before@[k] == layer_or_empty(old(self)@, k) + Seq::<Span>::empty());
                            assert(before@[k] =~= layer_or_empty(old(self)@, k));
                        } else {
                            assert(!old(self)@.dom().contains(k));
                        }
                        assert(layer_or_empty(before@, k) =~= layer_or_empty(old(self)@, k));
                    } else {
                        assert(order.subrange(0, j + 1).contains(k) == order.subrange(0, j as int).contains(k));
                        assert(self@[k] == before@[k]);
                        if !order.subrange(0, j as int).contains(k) {
                            assert(before@[k] =~= layer_or_empty(old(self)@, k) + Seq::<Span>::empty());
                            assert(before@[k] =~= layer_or_empty(old(self)@, k));
                        }
                    }
                }
            }
            j = j + 1;
        }
        proof {
            assert(order.subrange(0, j as int) =~= order);
            assert(self@.dom() =~= old(self)@.dom().union(other@.dom()));
            assert forall|k: Seq<char>| #[trigger] self@.dom().contains(k) implies self@[k]
                == layer_or_empty(old(self)@, k) + shift_spans(layer_or_empty(other@, k), position_offset as int) by {
                if !order.contains(k) {
                    assert(shift_spans(layer_or_empty(other@, k), position_offset as int) =~= Seq::<Span>::empty());
                }
            }
        }
    }

    /// Orders every layer by span start.
    pub fn finalize(&mut self)
        requires
            old(self).wf(),
        ensures
            final(self).wf(),
            final(self).layer_order() == old(self).layer_order(),
            final(self)@.dom() == old(self)@.dom(),
            forall|k: Seq<char>| #[trigger] final(self)@.dom().contains(k) ==> sorted_by_start(final(self)@[k])
                && final(self)@[k].to_multiset() == old(self)@[k].to_multiset(),
            forall|k: Seq<char>, v: Position| final(self)@.dom().contains(k)
                ==> #[trigger] starting_at(final(self)@[k], v) == starting_at(old(self)@[k], v),
    {
        let mut i: usize = 0;
        while i < self.data.len()
            invariant
                old(self).wf(),
                self.names@ == old(self).names@,
                self.data@.len() == old(self).data@.len(),
                0 <= i <= self.data@.len(),
                forall|q: int| i <= q < self.data@.len() ==> self.data@[q] == old(self).data@[q],
                forall|q: int| 0 <= q < i ==> sorted_by_start(#[trigger] self.data@[q]@)
                    && self.data@[q]@.to_multiset() == old(self).data@[q]@.to_multiset(),
                forall|q: int, v: Position| 0 <= q < i ==> #[trigger] starting_at(self.data@[q]@, v)
                    == starting_at(old(self).data@[q]@, v),
            decreases self.data@.len() - i,
        {
            let sorted = sort_spans_by_start(self.data[i].as_slice());
            self.data.set(i, sorted);
            i = i + 1;
        }
        proof {
            assert(self.layer_order() == old(self).layer_order());
            assert(self@.dom() =~= old(self)@.dom());
            assert forall|k: Seq<char>| #[trigger] self@.dom().contains(k) implies sorted_by_start(self@[k])
                && self@[k].to_multiset() == old(self)@[k].to_multiset() by {
                let j = self.layer_order().index_of(k);
                self.lemma_view_at(j);
                old(self).lemma_view_at(j);
            }
            assert forall|k: Seq<char>, v: Position| self@.dom().contains(k)
                implies #[trigger] starting_at(self@[k], v) == starting_at(old(self)@[k], v) by {
                let j = self.layer_order().index_of(k);
                self.lemma_view_at(j);
                old(self).lemma_view_at(j);
                assert(starting_at(self.data@[j]@, v) == starting_at(old(self).data@[j]@, v));
            }
        }
    }

    /// The span of `layer` that holds `position`, with its index in the layer.
    pub fn containing_with_index(&self, layer: &str, position: Position) -> (r: Option<(usize, &Span)>)
        requires
            self.wf(),
        ensures
            r matches Some((i, s)) ==> self@.dom().contains(layer@) && i < self@[layer@].len()
                && *s == self@[layer@][i as int] && s.spec_contains(position as int),
            !self@.dom().contains(layer@) ==> r is None,
            self@.dom().contains(layer@) && spans_disjoint_sorted(self@[layer@]) ==> (r is None
                <==> !some_span_contains(self@[layer@], position as int)),
    {
        let spans = self.spans(layer)?;
        match span_containing(spans, position) {
            Some(idx) => Some((idx, &spans[idx])),
            None => None,
        }
    }

    /// The span of `layer` that holds `position`.
    pub fn containing(&self, layer: &str, position: Position) -> (r: Option<&Span>)
        requires
            self.wf(),
        ensures
            r matches Some(s) ==> self@.dom().contains(layer@) && s.spec_contains(position as int)
                && exists|i: int| 0 <= i < self@[layer@].len() && self@[layer@][i] == *s,
            !self@.dom().contains(layer@) ==> r is None,
            self@.dom().contains(layer@) && spans_disjoint_sorted(self@[layer@]) ==> (r is None
                <==> !some_span_contains(self@[layer@], position as int)),
    {
        match self.containing_with_index(layer, position) {
            Some((_, s)) => Some(s),
            None => None,
        }
    }

    /// The spans of a layer.
    pub fn spans(&self, layer: &str) -> (r: Option<&[Span]>)
        requires
            self.wf(),
        ensures
            r is Some <==> self@.dom().contains(layer@),
            r matches Some(s) ==> s@ == self@[layer@],
    {
        match self.layer_index(layer) {
            Some(i) => Some(self.data[i].as_slice()),
            None => None,
        }
    }

    /// The names of all layers, in the order they were first added.
    pub fn layers(&self) -> (r: Vec<&str>)
        requires
            self.wf(),
        ensures
            r@.len() == self.layer_order().len(),
            forall|i: int| 0 <= i < r@.len() ==> r@[i]@ == #[trigger] self.layer_order()[i],
    {
        let mut r: Vec<&str> = Vec::new();
        let mut i: usize = 0;
        while i < self.names.len()
            invariant
                0 <= i <= self.names@.len(),
                r@.len() == i,
                forall|k: int| 0 <= k < i ==> r@[k]@ == #[trigger] self.layer_order()[k],
            decreases self.names@.len() - i,
        {
            r.push(self.names[i].as_str());
            i = i + 1;
        }
        r
    }
}

/// The spans of `src`, ordered by start; spans with equal starts keep their relative order.
pub fn sort_spans_by_start(src: &[Span]) -> (r: Vec<Span>)
    ensures
        sorted_by_start(r@),
        r@.to_multiset() == src@.to_multiset(),
        r@.len() == src@.len(),
        forall|v: Position| #[trigger] starting_at(r@, v) == starting_at(src@, v),
{
    let mut r: Vec<Span> = Vec::new();
    let mut m: usize = 0;
    while m < src.len()
        invariant
            0 <= m <= src@.len(),
            sorted_by_start(r@),
            r@.to_multiset() == src@.subrange(0, m as int).to_multiset(),
            r@.len() == m,
            forall|v: Position| #[trigger] starting_at(r@, v) == starting_at(src@.subrange(0, m as int), v),
        decreases src@.len() - m,
    {
        let x = src[m];
        let mut p: usize = r.len();
        while p > 0 && r[p - 1].start > x.start
            invariant
                0 <= p <= r@.len(),
                forall|q: int| p <= q < r@.len() ==> r@[q].start > x.start,
            decreases p,
        {
            p = p - 1;
        }
        let ghost before = r@;
        r.insert(p, x);
        proof {
            assert(r@ == before.insert(p as int, x));
            assert forall|a: int, b: int| 0 <= a < b < r@.len() implies r@[a].start <= r@[b].start by {
                if b == p {
                    if a < p - 1 {
                        assert(before[a].start <= before[p - 1].start);
                    }
                } else if a == p {
                    assert(before[b - 1].start > x.start);
                } else if a < p && b > p {
                    if p > 0 {
                        assert(before[a].start <= before[p - 1].start);
                    }
                    assert(before[b - 1].start > x.start);
                }
            }
            assert(src@.subrange(0, m + 1) =~= src@.subrange(0, m as int).push(x));
            lemma_insert_keeps_groups(before, p as int, x);
            assert forall|v: Position| #[trigger] starting_at(r@, v) == starting_at(src@.subrange(0, m + 1), v) by {
                src@.subrange(0, m as int).lemma_filter_push(x, |y: Span| y.start == v);
            }
        }
        m = m + 1;
    }
    proof {
        assert(src@.subrange(0, src@.len() as int) =~= src@);
    }
    r
}

/// Inserting `x` after every span that starts at or before it, and before every span that
/// starts after it, appends `x` to the spans of its start and leaves the others alone.
proof fn lemma_insert_keeps_groups(s: Seq<Span>, p: int, x: Span)
    requires
        0 <= p <= s.len(),
        forall|q: int| 0 <= q < p ==> s[q].start <= x.start,
        forall|q: int| p <= q < s.len() ==> s[q].start > x.start,
    ensures
        forall|v: Position| #[trigger] starting_at(s.insert(p, x), v)
            == if v == x.start { starting_at(s, v).push(x) } else { starting_at(s, v) },
{
    assert forall|v: Position| #[trigger] starting_at(s.insert(p, x), v)
        == if v == x.start { starting_at(s, v).push(x) } else { starting_at(s, v) } by {
        let pred = |y: Span| y.start == v;
        let a = s.subrange(0, p);
        let b = s.subrange(p, s.len() as int);
        assert(s =~= a + b);
        assert(s.insert(p, x) =~= a.push(x) + b);
        Seq::filter_distributes_over_add(a, b, pred);
        Seq::filter_distributes_over_add(a.push(x), b, pred);
        a.lemma_filter_push(x, pred);
        if v == x.start {
            assert forall|q: int| 0 <= q < b.len() implies !pred(b[q]) by {
                assert(b[q] == s[p + q]);
            }
            assert(b.all(|y: Span| !pred(y)));
            b.lemma_all_neg_filter_empty(pred);
            assert(b.filter(pred) =~= Seq::<Span>::empty());
        }
    }
}

impl Default for InMemorySpans {
    fn default() -> (r: Self)
        ensures
            r.wf(),
            r@ == Map::<Seq<char>, Seq<Span>>::empty(),
    {
        Self::new()
    }
}

} // verus!
