//! Alignment requests: the alignments of a corpus, and projection through one.
use vstd::prelude::*;
use crate::corpus::{AlignmentMeta, ComponentMeta, Corpus, UnitId};
use crate::forward::first_index_of;
use crate::protocol::error_codes::{ALIGNMENT_NOT_FOUND, INTERNAL_ERROR, INVALID_PARAMS, SPAN_OUTSIDE_ALIGNMENT};
use crate::protocol::{
    AlignmentInfo, AlignmentListReply, AlignmentProjectParams, AlignmentProjectReply, AlignmentSource,
    AlignmentTarget, ProtocolError,
};
use crate::span::Span;
use crate::text::concat;

verus! {

/// The first alignment of the metadata named `name`.
pub open spec fn alignment_meta_spec(c: &Corpus, name: Seq<char>) -> Option<AlignmentMeta> {
    let metas = c.meta_model().alignments@;
    let i = first_index_of(metas.map_values(|a: AlignmentMeta| a.name@), name);
    if i >= 0 { Some(metas[i]) } else { None }
}

/// The first component of the metadata named `name`.
pub open spec fn component_spec(c: &Corpus, name: Seq<char>) -> Option<ComponentMeta> {
    let comps = c.meta_model().components@;
    let i = first_index_of(comps.map_values(|m: ComponentMeta| m.name@), name);
    if i >= 0 { Some(comps[i]) } else { None }
}

/// The sentences among `[first, upto)` that overlap `[source.start, source.end)`, counted from
/// `first`, in order.
pub open spec fn overlap_units(s: Seq<Span>, first: int, upto: int, source: AlignmentSource) -> Seq<u32>
    decreases upto - first,
{
    if upto <= first {
        Seq::empty()
    } else {
        let rest = overlap_units(s, first, upto - 1, source);
        let sp = s[upto - 1];
        if sp.end > source.start && sp.start < source.end { rest.push((upto - 1 - first) as u32) } else { rest }
    }
}

/// The edges of `edges` whose source is `unit`, in order.
pub open spec fn edges_from(edges: Seq<(UnitId, UnitId)>, unit: UnitId) -> Seq<(UnitId, UnitId)>
    decreases edges.len(),
{
    if edges.len() == 0 {
        Seq::empty()
    } else {
        let rest = edges_from(edges.drop_last(), unit);
        if edges.last().0 == unit { rest.push(edges.last()) } else { rest }
    }
}

/// For each sentence of `units` in turn, the edges from sentence `(doc, sentence)`.
pub open spec fn matched_edges(units: Seq<u32>, doc: u32, edges: Seq<(UnitId, UnitId)>) -> Seq<(UnitId, UnitId)>
    decreases units.len(),
{
    if units.len() == 0 {
        Seq::empty()
    } else {
        matched_edges(units.drop_last(), doc, edges) + edges_from(edges, (doc, units.last()))
    }
}

/// `a + b`, or `u32::MAX` when that does not fit.
pub open spec fn saturating_add_u32(a: u32, b: u32) -> u32 {
    if a + b > u32::MAX { u32::MAX } else { (a + b) as u32 }
}

/// Where the target of `edge` lies: its document (the target component's first document plus
/// the edge's document, saturating) and the span of its sentence, counted from that document's
/// first sentence; absent when the document has no sentences or there is no such sentence.
pub open spec fn edge_target(c: &Corpus, target_first_doc: usize, edge: (UnitId, UnitId)) -> Option<AlignmentTarget> {
    let doc = saturating_add_u32(target_first_doc as u32, edge.1.0);
    match c.first_sentence_spec(doc as usize) {
        Some(f) => {
            let g = f + edge.1.1;
            let s = c.sentence_spans().unwrap();
            if g < s.len() { Some(AlignmentTarget { doc, start: s[g].start, end: s[g].end }) } else { None }
        },
        None => None,
    }
}

/// The targets of `edges`, in order; absent when one of them has none.
pub open spec fn edge_targets(c: &Corpus, target_first_doc: usize, edges: Seq<(UnitId, UnitId)>) -> Option<Seq<AlignmentTarget>>
    decreases edges.len(),
{
    if edges.len() == 0 {
        Some(Seq::empty())
    } else {
        match (edge_targets(c, target_first_doc, edges.drop_last()), edge_target(c, target_first_doc, edges.last())) {
            (Some(t), Some(x)) => Some(t.push(x)),
            _ => None,
        }
    }
}

/// `v` with every repeat of an earlier element left out.
pub open spec fn dedup<T>(v: Seq<T>) -> Seq<T>
    decreases v.len(),
{
    if v.len() == 0 {
        Seq::empty()
    } else {
        let rest = dedup(v.drop_last());
        if rest.contains(v.last()) { rest } else { rest.push(v.last()) }
    }
}

/// `dedup` keeps each element of `v` once and nothing else.
pub proof fn lemma_dedup<T>(v: Seq<T>)
    ensures
        dedup(v).no_duplicates(),
        forall|x: T| #[trigger] dedup(v).contains(x) <==> v.contains(x),
        dedup(v).len() <= v.len(),
    decreases v.len(),
{
    if v.len() > 0 {
        let p = v.drop_last();
        lemma_dedup(p);
        let r = dedup(p);
        assert forall|x: T| #[trigger] dedup(v).contains(x) <==> v.contains(x) by {
            if p.contains(x) {
                let i = choose|i: int| 0 <= i < p.len() && p[i] == x;
                assert(v[i] == x);
            }
            if v.contains(x) {
                let i = choose|i: int| 0 <= i < v.len() && v[i] == x;
                if i < v.len() - 1 {
                    assert(p[i] == x);
                }
            }
            if !r.contains(v.last()) {
                assert(r.push(v.last())[r.len() as int] == v.last());
                if r.push(v.last()).contains(x) && x != v.last() {
                    let i = choose|i: int| 0 <= i < r.push(v.last()).len() && r.push(v.last())[i] == x;
                    assert(r[i] == x);
                }
                if r.contains(x) {
                    let i = choose|i: int| 0 <= i < r.len() && r[i] == x;
                    assert(r.push(v.last())[i] == x);
                }
            }
        }
        if !r.contains(v.last()) {
            let q = r.push(v.last());
            assert forall|i: int, j: int| 0 <= i < q.len() && 0 <= j < q.len() && i != j implies q[i] != q[j] by {
                if i < r.len() && j < r.len() {
                } else if i == r.len() {
                    assert(q[j] == r[j]);
                } else {
                    assert(q[i] == r[i]);
                }
            }
        }
    }
}

/// The targets, in edge order and with repeats, of the edges of alignment `name` from the
/// source document's sentences that overlap `source`; absent when the source is not usable or
/// an edge has no target.
pub open spec fn edge_targets_of_source(c: &Corpus, name: Seq<char>, source: AlignmentSource) -> Option<Seq<AlignmentTarget>> {
    match alignment_meta_spec(c, name) {
        None => None,
        Some(a) => match (component_spec(c, a.source_component@), component_spec(c, a.target_component@)) {
            (Some(sc), Some(tc)) => {
                let doc = source.doc as usize;
                match (c.first_sentence_spec(doc), c.last_sentence_spec(doc)) {
                    (Some(f), Some(l)) => {
                        if doc < sc.document_range.0 { None } else {
                            let units = overlap_units(c.sentence_spans().unwrap(), f as int, l + 1, source);
                            edge_targets(c, tc.document_range.0,
                                matched_edges(units, (doc - sc.document_range.0) as u32, edges_or_empty(c, name)))
                        }
                    },
                    _ => None,
                }
            },
            _ => None,
        },
    }
}

/// A projection never lists a target twice, and lists every target of a matching edge: its
/// targets are exactly those of the edges, each once.
pub proof fn lemma_projection_targets_distinct(c: &Corpus, name: Seq<char>, source: AlignmentSource)
    ensures
        projection(c, name, source) matches Ok(ts) ==> (edge_targets_of_source(c, name, source) matches Some(all)
            && ts.no_duplicates()
            && forall|x: AlignmentTarget| #[trigger] ts.contains(x) <==> all.contains(x)),
{
    if projection(c, name, source) is Ok {
        let a = alignment_meta_spec(c, name).unwrap();
        let sc = component_spec(c, a.source_component@).unwrap();
        let tc = component_spec(c, a.target_component@).unwrap();
        let doc = source.doc as usize;
        let f = c.first_sentence_spec(doc).unwrap();
        let l = c.last_sentence_spec(doc).unwrap();
        let units = overlap_units(c.sentence_spans().unwrap(), f as int, l + 1, source);
        let m = matched_edges(units, (doc - sc.document_range.0) as u32, edges_or_empty(c, name));
        let t = edge_targets(c, tc.document_range.0, m).unwrap();
        lemma_dedup(t);
        assert(forall|x: AlignmentTarget| #[trigger] dedup(t).contains(x) <==> t.contains(x));
    }
}

/// The edges of alignment `name` in the alignment index, none when it has no such alignment.
pub open spec fn edges_or_empty(c: &Corpus, name: Seq<char>) -> Seq<(UnitId, UnitId)> {
    match c.alignment_store().edges_of(name) {
        Some(e) => e,
        None => Seq::empty(),
    }
}

/// What projecting `source` through alignment `name` gives: the distinct targets of the edges
/// from the source document's sentences that overlap the source range, or the code of the error.
pub open spec fn projection(c: &Corpus, name: Seq<char>, source: AlignmentSource) -> Result<Seq<AlignmentTarget>, i32> {
    match alignment_meta_spec(c, name) {
        None => Err(ALIGNMENT_NOT_FOUND),
        Some(a) => match (component_spec(c, a.source_component@), component_spec(c, a.target_component@)) {
            (Some(sc), Some(tc)) => {
                let doc = source.doc as usize;
                if doc < sc.document_range.0 || doc >= sc.document_range.1 {
                    Err(SPAN_OUTSIDE_ALIGNMENT)
                } else {
                    match (c.first_sentence_spec(doc), c.last_sentence_spec(doc)) {
                        (Some(f), Some(l)) => {
                            let units = overlap_units(c.sentence_spans().unwrap(), f as int, l + 1, source);
                            let m = matched_edges(units, (doc - sc.document_range.0) as u32, edges_or_empty(c, name));
                            match edge_targets(c, tc.document_range.0, m) {
                                Some(t) => Ok(dedup(t)),
                                None => Err(INTERNAL_ERROR),
                            }
                        },
                        _ => Err(INTERNAL_ERROR),
                    }
                }
            },
            _ => Err(INTERNAL_ERROR),
        },
    }
}

/// The alignments of the corpus metadata.
pub fn handle_alignment_list(corpus: &Corpus) -> (r: AlignmentListReply)
    ensures
        r.alignments@.len() == corpus.meta_model().alignments@.len(),
        forall|k: int| 0 <= k < r.alignments@.len() ==> {
            let a = #[trigger] corpus.meta_model().alignments@[k];
            let i = r.alignments@[k];
            &&& i.name@ == a.name@
            &&& i.source_component@ == a.source_component@
            &&& i.target_component@ == a.target_component@
            &&& i.source_layer@ == a.source_layer@
            &&& i.target_layer@ == a.target_layer@
            &&& i.edge_count == a.edge_count as u32
        },
{
    let metas = corpus.alignment_metas();
    let mut alignments: Vec<AlignmentInfo> = Vec::new();
    let mut i: usize = 0;
    while i < metas.len()
        invariant
            0 <= i <= metas@.len(),
            metas@ == corpus.meta_model().alignments@,
            alignments@.len() == i,
            forall|k: int| 0 <= k < i ==> {
                let a = #[trigger] metas@[k];
                let x = alignments@[k];
                &&& x.name@ == a.name@
                &&& x.source_component@ == a.source_component@
                &&& x.target_component@ == a.target_component@
                &&& x.source_layer@ == a.source_layer@
                &&& x.target_layer@ == a.target_layer@
                &&& x.edge_count == a.edge_count as u32
            },
        decreases metas@.len() - i,
    {
        let a = &metas[i];
        let info = AlignmentInfo {
            name: a.name.clone(),
            source_component: a.source_component.clone(),
            target_component: a.target_component.clone(),
            source_layer: a.source_layer.clone(),
            target_layer: a.target_layer.clone(),
            edge_count: a.edge_count as u32,
        };
        alignments.push(info);
        i = i + 1;
    }
    AlignmentListReply { alignments }
}

/// A prefix of the edges has the edges from `unit` of a prefix.
proof fn lemma_edges_from_prefix(edges: Seq<(UnitId, UnitId)>, unit: UnitId, j: int)
    requires
        0 <= j <= edges.len(),
    ensures
        edges_from(edges.subrange(0, j), unit).is_prefix_of(edges_from(edges, unit)),
    decreases edges.len(),
{
    if j < edges.len() {
        let d = edges.drop_last();
        assert(edges.subrange(0, j) =~= d.subrange(0, j));
        lemma_edges_from_prefix(d, unit, j);
    } else {
        assert(edges.subrange(0, j) =~= edges);
    }
}

/// The edges matched for a prefix of the sentences begin those matched for all of them.
proof fn lemma_matched_prefix(units: Seq<u32>, doc: u32, edges: Seq<(UnitId, UnitId)>, i: int)
    requires
        0 <= i <= units.len(),
    ensures
        matched_edges(units.subrange(0, i), doc, edges).is_prefix_of(matched_edges(units, doc, edges)),
    decreases units.len(),
{
    if i < units.len() {
        let d = units.drop_last();
        assert(units.subrange(0, i) =~= d.subrange(0, i));
        lemma_matched_prefix(d, doc, edges, i);
    } else {
        assert(units.subrange(0, i) =~= units);
    }
}

/// Once some edge has no target, no longer list of edges has targets.
proof fn lemma_targets_none(c: &Corpus, tfd: usize, p: Seq<(UnitId, UnitId)>, q: Seq<(UnitId, UnitId)>)
    requires
        p.is_prefix_of(q),
        edge_targets(c, tfd, p) is None,
    ensures
        edge_targets(c, tfd, q) is None,
    decreases q.len(),
{
    if q.len() == p.len() {
        assert(q =~= p);
    } else {
        assert(p.is_prefix_of(q.drop_last()));
        lemma_targets_none(c, tfd, p, q.drop_last());
    }
}

/// The first entry of `names` equal to `name` is entry `i`.
proof fn lemma_first_named<T>(items: Seq<T>, f: spec_fn(T) -> Seq<char>, name: Seq<char>, i: int)
    requires
        0 <= i < items.len(),
        f(items[i]) == name,
        forall|j: int| 0 <= j < i ==> f(#[trigger] items[j]) != name,
    ensures
        first_index_of(items.map_values(f), name) == i,
{
    let names = items.map_values(f);
    assert forall|j: int| 0 <= j < i implies names[j] != name by {
        assert(names[j] == f(items[j]));
    }
    crate::forward::lemma_first_index_of(names, name, i);
}

/// No entry of `names` is equal to `name`.
proof fn lemma_none_named<T>(items: Seq<T>, f: spec_fn(T) -> Seq<char>, name: Seq<char>)
    requires
        forall|j: int| 0 <= j < items.len() ==> f(#[trigger] items[j]) != name,
    ensures
        first_index_of(items.map_values(f), name) == -1,
{
    let names = items.map_values(f);
    assert forall|j: int| 0 <= j < names.len() implies names[j] != name by {
        assert(names[j] == f(items[j]));
    }
    crate::forward::lemma_first_index_absent(names, name);
}

/// Whether `t` is among `targets`.
fn contains_target(targets: &Vec<AlignmentTarget>, t: &AlignmentTarget) -> (r: bool)
    ensures
        r == targets@.contains(*t),
{
    let mut i: usize = 0;
    while i < targets.len()
        invariant
            0 <= i <= targets@.len(),
            forall|k: int| 0 <= k < i ==> targets@[k] != *t,
        decreases targets@.len() - i,
    {
        if targets[i] == *t {
            return true;
        }
        i = i + 1;
    }
    false
}

/// The spans, in the target component, of the sentences aligned with the source document's
/// sentences that overlap `[source.start, source.end)`, each once, as `projection` says. Refused
/// with the code that `projection` gives.
pub fn project_alignment(corpus: &Corpus, alignment_name: &str, source: AlignmentSource) -> (r: Result<Vec<AlignmentTarget>, ProtocolError>)
    ensures
        match projection(corpus, alignment_name@, source) {
            Ok(t) => r matches Ok(v) && v@ == t,
            Err(code) => r matches Err(e) && e.code == code,
        },
{
    let ghost metas = corpus.meta_model().alignments@;
    let ghost comps = corpus.meta_model().components@;
    let alignment = match corpus.alignment_meta(alignment_name) {
        Some(a) => {
            proof {
                let i = choose|i: int| {
                    &&& 0 <= i < metas.len()
                    &&& *a == #[trigger] metas[i]
                    &&& a.name@ == alignment_name@
                    &&& forall|j: int| 0 <= j < i ==> metas[j].name@ != alignment_name@
                };
                lemma_first_named(metas, |m: AlignmentMeta| m.name@, alignment_name@, i);
            }
            a
        },
        None => {
            proof { lemma_none_named(metas, |m: AlignmentMeta| m.name@, alignment_name@); }
            let m = concat("alignment '", alignment_name);
            return Err(ProtocolError::new(ALIGNMENT_NOT_FOUND, concat(m.as_str(), "' not found")));
        },
    };
    let source_comp = match corpus.component(alignment.source_component.as_str()) {
        Some(c) => {
            proof {
                let i = choose|i: int| {
                    &&& 0 <= i < comps.len()
                    &&& *c == #[trigger] comps[i]
                    &&& c.name@ == alignment.source_component@
                    &&& forall|j: int| 0 <= j < i ==> comps[j].name@ != alignment.source_component@
                };
                lemma_first_named(comps, |m: ComponentMeta| m.name@, alignment.source_component@, i);
            }
            c
        },
        None => {
            proof { lemma_none_named(comps, |m: ComponentMeta| m.name@, alignment.source_component@); }
            let m = concat("source component '", alignment.source_component.as_str());
            return Err(ProtocolError::new(INTERNAL_ERROR, concat(m.as_str(), "' not found")));
        },
    };
    let target_comp = match corpus.component(alignment.target_component.as_str()) {
        Some(c) => {
            proof {
                let i = choose|i: int| {
                    &&& 0 <= i < comps.len()
                    &&& *c == #[trigger] comps[i]
                    &&& c.name@ == alignment.target_component@
                    &&& forall|j: int| 0 <= j < i ==> comps[j].name@ != alignment.target_component@
                };
                lemma_first_named(comps, |m: ComponentMeta| m.name@, alignment.target_component@, i);
            }
            c
        },
        None => {
            proof { lemma_none_named(comps, |m: ComponentMeta| m.name@, alignment.target_component@); }
            let m = concat("target component '", alignment.target_component.as_str());
            return Err(ProtocolError::new(INTERNAL_ERROR, concat(m.as_str(), "' not found")));
        },
    };
    let doc = source.doc as usize;
    let src_first_doc = source_comp.document_range.0;
    let src_last_doc = source_comp.document_range.1;
    if doc < src_first_doc || doc >= src_last_doc {
        let m = concat("document not in alignment source component '", alignment.source_component.as_str());
        return Err(ProtocolError::new(SPAN_OUTSIDE_ALIGNMENT, concat(m.as_str(), "'")));
    }
    let first_sent = match corpus.first_sentence_of_document(doc) {
        Some(f) => f,
        None => return Err(ProtocolError::with_text(INTERNAL_ERROR, "source document has no sentences")),
    };
    let last_sent = match corpus.last_sentence_of_document(doc) {
        Some(l) => l,
        None => return Err(ProtocolError::with_text(INTERNAL_ERROR, "source document has no sentences")),
    };
    let sentence_spans = match corpus.spans().spans("sentence") {
        Some(sp) => sp,
        None => return Err(ProtocolError::with_text(INTERNAL_ERROR, "sentence span layer missing")),
    };
    let n_sentences = sentence_spans.len();
    proof { corpus.lemma_sentence_bounds(doc); }
    let mut overlapping: Vec<u32> = Vec::new();
    let mut g = first_sent;
    while g <= last_sent
        invariant
            first_sent <= g <= last_sent + 1,
            last_sent < sentence_spans@.len(),
            overlapping@ == overlap_units(sentence_spans@, first_sent as int, g as int, source),
        decreases last_sent + 1 - g,
    {
        let sp = sentence_spans[g];
        if sp.end > source.start && sp.start < source.end {
            overlapping.push((g - first_sent) as u32);
        }
        g = g + 1;
    }
    let no_edges: Vec<(UnitId, UnitId)> = Vec::new();
    let edges: &[(UnitId, UnitId)] = match corpus.alignment_edges(alignment_name) {
        Some(e) => e,
        None => no_edges.as_slice(),
    };
    proof { assert(edges@ == edges_or_empty(corpus, alignment_name@)); }
    let doc_within_source = (doc - src_first_doc) as u32;
    let tfd = target_comp.document_range.0;
    let ghost units = overlapping@;
    let ghost all = matched_edges(units, doc_within_source, edges@);
    let ghost outcome = match edge_targets(corpus, tfd, all) {
        Some(x) => Ok::<Seq<AlignmentTarget>, i32>(dedup(x)),
        None => Err::<Seq<AlignmentTarget>, i32>(INTERNAL_ERROR),
    };
    proof {
        assert(units == overlap_units(corpus.sentence_spans().unwrap(), first_sent as int, last_sent + 1, source));
        assert(projection(corpus, alignment_name@, source) == outcome);
    }
    let ghost mut m: Seq<(UnitId, UnitId)> = Seq::empty();
    let ghost mut t: Seq<AlignmentTarget> = Seq::empty();
    let mut targets: Vec<AlignmentTarget> = Vec::new();
    proof { assert(units.subrange(0, 0) =~= Seq::<u32>::empty()); }
    let mut i: usize = 0;
    while i < overlapping.len()
        invariant
            0 <= i <= overlapping@.len(),
            units == overlapping@,
            all == matched_edges(units, doc_within_source, edges@),
            m == matched_edges(units.subrange(0, i as int), doc_within_source, edges@),
            edge_targets(corpus, tfd, m) == Some(t),
            targets@ == dedup(t),
            Some(sentence_spans@) == corpus.sentence_spans(),
            sentence_spans@.len() <= usize::MAX,
            projection(corpus, alignment_name@, source) == outcome,
            outcome == match edge_targets(corpus, tfd, all) {
                Some(x) => Ok::<Seq<AlignmentTarget>, i32>(dedup(x)),
                None => Err::<Seq<AlignmentTarget>, i32>(INTERNAL_ERROR),
            },
        decreases overlapping@.len() - i,
    {
        let unit: UnitId = (doc_within_source, overlapping[i]);
        let ghost m_i = m;
        proof { assert(edges@.subrange(0, 0) =~= Seq::<(UnitId, UnitId)>::empty()); assert(m_i + Seq::<(UnitId, UnitId)>::empty() =~= m_i); }
        let mut j: usize = 0;
        while j < edges.len()
            invariant
                0 <= i < overlapping@.len(),
                0 <= j <= edges@.len(),
                units == overlapping@,
                unit == (doc_within_source, units[i as int]),
                all == matched_edges(units, doc_within_source, edges@),
                m_i == matched_edges(units.subrange(0, i as int), doc_within_source, edges@),
                m == m_i + edges_from(edges@.subrange(0, j as int), unit),
                edge_targets(corpus, tfd, m) == Some(t),
                targets@ == dedup(t),
                Some(sentence_spans@) == corpus.sentence_spans(),
                sentence_spans@.len() <= usize::MAX,
                projection(corpus, alignment_name@, source) == outcome,
                outcome == match edge_targets(corpus, tfd, all) {
                    Some(x) => Ok::<Seq<AlignmentTarget>, i32>(dedup(x)),
                    None => Err::<Seq<AlignmentTarget>, i32>(INTERNAL_ERROR),
                },
            decreases edges@.len() - j,
        {
            let edge = edges[j];
            proof { assert(edges@.subrange(0, j + 1).drop_last() =~= edges@.subrange(0, j as int)); }
            if edge.0.0 == unit.0 && edge.0.1 == unit.1 {
                let ghost m_next = m.push(edge);
                proof {
                    assert(m_next.drop_last() =~= m);
                    assert(m_i + edges_from(edges@.subrange(0, j + 1), unit) =~= m_next);
                    lemma_edges_from_prefix(edges@, unit, j + 1);
                    lemma_matched_prefix(units, doc_within_source, edges@, i + 1);
                    assert(units.subrange(0, i + 1).drop_last() =~= units.subrange(0, i as int));
                    assert(m_next.is_prefix_of(all)) by {
                        let a = edges_from(edges@.subrange(0, j + 1), unit);
                        let b = edges_from(edges@, unit);
                        assert(matched_edges(units.subrange(0, i + 1), doc_within_source, edges@) == m_i + b);
                        assert(m_next =~= m_i + a);
                        assert((m_i + b).subrange(0, m_next.len() as int) =~= m_i + b.subrange(0, a.len() as int));
                    }
                }
                let target_doc = (tfd as u32).saturating_add(edge.1.0);
                let target_first = match corpus.first_sentence_of_document(target_doc as usize) {
                    Some(f) => f,
                    None => {
                        proof {
                            assert(target_doc == saturating_add_u32(tfd as u32, edge.1.0));
                            assert(edge_target(corpus, tfd, edge) is None);
                            assert(edge_targets(corpus, tfd, m_next) is None);
                            lemma_targets_none(corpus, tfd, m_next, all);
                        }
                        return Err(ProtocolError::with_text(INTERNAL_ERROR, "target document has no sentences"));
                    },
                };
                let idx = match target_first.checked_add(edge.1.1 as usize) {
                    Some(x) => x,
                    None => {
                        proof {
                            assert(edge_target(corpus, tfd, edge) is None);
                            lemma_targets_none(corpus, tfd, m_next, all);
                        }
                        return Err(ProtocolError::with_text(INTERNAL_ERROR, "target sentence span lookup failed"));
                    },
                };
                if idx >= sentence_spans.len() {
                    proof { lemma_targets_none(corpus, tfd, m_next, all); }
                    return Err(ProtocolError::with_text(INTERNAL_ERROR, "target sentence span lookup failed"));
                }
                let span = sentence_spans[idx];
                let candidate = AlignmentTarget { doc: target_doc, start: span.start, end: span.end };
                let ghost t_old = t;
                proof {
                    assert(m_next.drop_last() =~= m);
                    assert(edge_target(corpus, tfd, edge) == Some(candidate));
                    m = m_next;
                    t = t.push(candidate);
                    assert(t.drop_last() =~= t_old);
                    assert(t.last() == candidate);
                }
                if !contains_target(&targets, &candidate) {
                    targets.push(candidate);
                }
                proof {
                    assert(targets@ =~= dedup(t));
                }
            } else {
                proof { assert(m =~= m_i + edges_from(edges@.subrange(0, j + 1), unit)); }
            }
            j = j + 1;
        }
        proof {
            assert(edges@.subrange(0, j as int) =~= edges@);
            assert(units.subrange(0, i + 1).drop_last() =~= units.subrange(0, i as int));
            assert(units.subrange(0, i + 1).last() == units[i as int]);
        }
        i = i + 1;
    }
    proof { assert(units.subrange(0, i as int) =~= units); }
    Ok(targets)
}

/// The targets of projecting the source range through the named alignment. Refused when the
/// range is inverted, or as `project_alignment` refuses.
pub fn handle_alignment_project(corpus: &Corpus, params: &AlignmentProjectParams) -> (r: Result<AlignmentProjectReply, ProtocolError>)
    ensures
        params.source.start > params.source.end ==> (r matches Err(e) && e.code == INVALID_PARAMS),
        params.source.start <= params.source.end ==> match projection(corpus, params.alignment_name@, params.source) {
            Ok(t) => r matches Ok(rep) && rep.targets@ == t,
            Err(code) => r matches Err(e) && e.code == code,
        },
{
    if params.source.start > params.source.end {
        return Err(ProtocolError::with_text(INVALID_PARAMS, "source.start must be <= source.end"));
    }
    match project_alignment(corpus, params.alignment_name.as_str(), params.source) {
        Ok(targets) => Ok(AlignmentProjectReply { targets }),
        Err(e) => Err(e),
    }
}

} // verus!
