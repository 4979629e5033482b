//! Text requests: surface text of ranges, sentences and documents, and annotation values.
use vstd::prelude::*;
use crate::span::spans_disjoint_sorted;
use crate::corpus::{Corpus, LayerKind};
use crate::forward::first_index_of;
use crate::protocol::error_codes::{INVALID_PARAMS, INTERNAL_ERROR};
use crate::protocol::{
    AnnotationEntry, AnnotationModel, AnnotationRow, AnnotationValue, ProtocolError, SentenceEntry,
    TextAnnotationsParams, TextAnnotationsRangeParams, TextAnnotationsRangeReply, TextAnnotationsReply,
    TextDocumentParams, TextDocumentReply, TextSentenceParams, TextSentenceReply, TextSentencesParams,
    TextSentencesReply, TextSurfaceParams, TextSurfaceReply,
};
use crate::span::Span;
use crate::text::{concat, decimal_digits, str_eq, string_views, u64_to_decimal};
use crate::value::ValueModel;
use super::corpus::{document_component, document_sentence_count, document_component_spec, sentence_count_spec};

verus! {

/// The value of `layer` at `position`, typed by the layer's kind; absent when the layer is
/// unknown, the position lies beyond its values, or the value there is of the other kind.
pub open spec fn annotation_at(c: &Corpus, position: u64, layer: Seq<char>) -> Option<AnnotationModel> {
    let f = c.forward_store()@;
    let idx = first_index_of(f.layers, layer);
    match c.layer_kind_spec(layer) {
        None => None,
        Some(k) => if position < f.data[idx].len() {
            match (k, f.data[idx][position as int]) {
                (LayerKind::String, ValueModel::Str(t)) => Some(AnnotationModel::String(t)),
                (LayerKind::Int, ValueModel::Int(n)) => Some(AnnotationModel::Int(n)),
                _ => None,
            }
        } else {
            None
        },
    }
}

/// `x`, but no more than `limit`.
pub open spec fn clamp(x: u64, limit: u64) -> u64 {
    if x < limit { x } else { limit }
}

/// The id of sentence `g`, or the empty text when it has none.
pub open spec fn sentence_id_text(c: &Corpus, g: int) -> Seq<char> {
    match c.sentence_id_store() {
        Some(ids) => if 0 <= g < ids@.len() {
            match ids@[g] {
                Some(t) => t,
                None => Seq::empty(),
            }
        } else {
            Seq::empty()
        },
        None => Seq::empty(),
    }
}

/// Sentence `sent` of document `doc` (counted from the document's first sentence, and no later
/// than its last), with its index among all sentences.
pub open spec fn sentence_in_doc(c: &Corpus, doc: u32, sent: u32) -> Option<(usize, Span)> {
    match (c.first_sentence_spec(doc as usize), c.last_sentence_spec(doc as usize), c.sentence_spans()) {
        (Some(f), Some(l), Some(s)) => {
            let g = f + sent;
            if g > usize::MAX || g > l || g >= s.len() { None } else { Some((g as usize, s[g])) }
        },
        _ => None,
    }
}

/// The annotation of `layer` at `position`.
pub fn fetch_annotation(corpus: &Corpus, position: u64, layer: &str) -> (r: Option<AnnotationValue>)
    ensures
        match r {
            Some(v) => annotation_at(corpus, position, layer@) == Some(v@),
            None => annotation_at(corpus, position, layer@) is None,
        },
{
    let forward = corpus.forward();
    match corpus.layer_kind(layer) {
        Some(LayerKind::String) => match forward.get_str(position, layer) {
            Some(t) => Some(AnnotationValue::String(t.to_owned())),
            None => None,
        },
        Some(LayerKind::Int) => match forward.get_int(position, layer) {
            Some(n) => Some(AnnotationValue::Int(n)),
            None => None,
        },
        None => None,
    }
}

/// Sentence `sent` of document `doc`, with its index among all sentences.
pub fn sentence_span_in_doc(corpus: &Corpus, doc: u32, sent: u32) -> (r: Option<(usize, Span)>)
    ensures
        r == sentence_in_doc(corpus, doc, sent),
{
    let first = match corpus.first_sentence_of_document(doc as usize) {
        Some(f) => f,
        None => return None,
    };
    let last = match corpus.last_sentence_of_document(doc as usize) {
        Some(l) => l,
        None => return None,
    };
    let global_idx = match first.checked_add(sent as usize) {
        Some(g) => g,
        None => return None,
    };
    if global_idx > last {
        return None;
    }
    let spans = match corpus.spans().spans("sentence") {
        Some(s) => s,
        None => return None,
    };
    if global_idx < spans.len() {
        Some((global_idx, spans[global_idx]))
    } else {
        None
    }
}

/// The number of documents.
pub fn document_count(corpus: &Corpus) -> (n: usize)
    ensures
        n == corpus.meta_model().document_names@.len(),
{
    corpus.document_names().len()
}

/// An invalid-parameters error whose message is `prefix` followed by the decimal `n`.
fn numbered_error(code: i32, prefix: &str, n: u64) -> (e: ProtocolError)
    ensures
        e.code == code,
        e.message@ == prefix@ + decimal_digits(n as nat),
        e.data is None,
{
    ProtocolError::new(code, concat(prefix, u64_to_decimal(n).as_str()))
}

/// The surface text of positions `[start, end)`, both cut to the token count. Refused when the
/// range is inverted.
pub fn handle_text_surface(corpus: &Corpus, params: &TextSurfaceParams) -> (r: Result<TextSurfaceReply, ProtocolError>)
    ensures
        r is Err <==> params.start > params.end,
        r matches Err(e) ==> e.code == INVALID_PARAMS && e.message@ == "start must be <= end"@,
        r matches Ok(rep) ==> rep.surface@ == corpus.surface_spec(
            clamp(params.start, corpus.meta_model().token_count), clamp(params.end, corpus.meta_model().token_count)),
{
    if params.start > params.end {
        return Err(ProtocolError::with_text(INVALID_PARAMS, "start must be <= end"));
    }
    let token_count = corpus.token_count();
    let start = if params.start < token_count { params.start } else { token_count };
    let end = if params.end < token_count { params.end } else { token_count };
    Ok(TextSurfaceReply { surface: corpus.surface_text(start, end) })
}

/// The id of sentence `g`, or the empty text.
fn sentence_id_or_empty(corpus: &Corpus, g: usize) -> (r: String)
    ensures
        r@ == sentence_id_text(corpus, g as int),
{
    match corpus.sentence_id(g) {
        Some(t) => t.to_owned(),
        None => String::new(),
    }
}

/// Sentence `sent` of document `doc`: its span, surface text and id. Refused when the document
/// has no such sentence.
pub fn handle_text_sentence(corpus: &Corpus, params: &TextSentenceParams) -> (r: Result<TextSentenceReply, ProtocolError>)
    ensures
        r is Err <==> sentence_in_doc(corpus, params.doc, params.sent) is None,
        r matches Err(e) ==> e.code == INVALID_PARAMS && e.message@ == "sentence "@ + decimal_digits(params.sent as nat)
            + " not found in document "@ + decimal_digits(params.doc as nat),
        r matches Ok(rep) ==> {
            let (g, sp) = sentence_in_doc(corpus, params.doc, params.sent).unwrap();
            &&& rep.span == sp
            &&& rep.surface@ == corpus.surface_spec(sp.start, sp.end)
            &&& rep.sentence_id@ == sentence_id_text(corpus, g as int)
        },
{
    match sentence_span_in_doc(corpus, params.doc, params.sent) {
        Some((g, span)) => Ok(TextSentenceReply {
            span,
            surface: corpus.surface_text(span.start, span.end),
            sentence_id: sentence_id_or_empty(corpus, g),
        }),
        None => {
            let a = concat("sentence ", u64_to_decimal(params.sent as u64).as_str());
            let b = concat(a.as_str(), " not found in document ");
            let c = concat(b.as_str(), u64_to_decimal(params.doc as u64).as_str());
            Err(ProtocolError::new(INVALID_PARAMS, c))
        },
    }
}

/// Entry `k` of a sentence range reply: sentence `sent_start + k` of the document whose first
/// sentence is `first`.
pub open spec fn sentence_entry_ok(c: &Corpus, first: int, sent_start: u32, k: int, e: SentenceEntry) -> bool {
    let g = first + sent_start + k;
    &&& e.sent == sent_start + k
    &&& e.span == c.sentence_spans().unwrap()[g]
    &&& e.surface@ == c.surface_spec(e.span.start, e.span.end)
    &&& e.sentence_id@ == sentence_id_text(c, g)
}

/// The sentences `[sent_start, sent_end)` of document `doc`, both cut to its sentence count.
/// Refused when the range is inverted, the document index is out of range, or the document has
/// no sentences.
pub fn handle_text_sentences(corpus: &Corpus, params: &TextSentencesParams) -> (r: Result<TextSentencesReply, ProtocolError>)
    ensures
        r is Ok <==> params.sent_start <= params.sent_end
            && params.doc < corpus.meta_model().document_names@.len()
            && corpus.first_sentence_spec(params.doc as usize) is Some,
        r matches Err(e) ==> e.code == INVALID_PARAMS,
        r matches Ok(rep) ==> {
            let f = corpus.first_sentence_spec(params.doc as usize).unwrap() as int;
            let count = sentence_count_spec(corpus, params.doc as usize);
            let s0 = if params.sent_start < count { params.sent_start } else { count };
            let s1 = if params.sent_end < count { params.sent_end } else { count };
            &&& rep.sentences@.len() == s1 - s0
            &&& forall|k: int| 0 <= k < rep.sentences@.len() ==> sentence_entry_ok(corpus, f, s0, k, #[trigger] rep.sentences@[k])
            &&& forall|i: int, j: int| 0 <= i < j < rep.sentences@.len()
                ==> (#[trigger] rep.sentences@[i]).span.end <= (#[trigger] rep.sentences@[j]).span.start
        },
{
    if params.sent_start > params.sent_end {
        return Err(ProtocolError::with_text(INVALID_PARAMS, "sent_start must be <= sent_end"));
    }
    let doc_idx = params.doc as usize;
    if doc_idx >= document_count(corpus) {
        return Err(numbered_error(INVALID_PARAMS, "document index ", params.doc as u64));
    }
    let first = match corpus.first_sentence_of_document(doc_idx) {
        Some(f) => f,
        None => return Err(ProtocolError::with_text(INVALID_PARAMS, "document has no sentences")),
    };
    let last = match corpus.last_sentence_of_document(doc_idx) {
        Some(l) => l,
        None => return Err(ProtocolError::with_text(INVALID_PARAMS, "document has no sentences")),
    };
    let sentence_spans = match corpus.spans().spans("sentence") {
        Some(s) => s,
        None => return Err(ProtocolError::with_text(INTERNAL_ERROR, "sentence span layer missing")),
    };
    let n_sentences = sentence_spans.len();
    proof { corpus.lemma_sentence_bounds(doc_idx); }
    let count = document_sentence_count(corpus, doc_idx);
    let sent_start = if params.sent_start < count { params.sent_start } else { count };
    let sent_end = if params.sent_end < count { params.sent_end } else { count };
    let mut sentences: Vec<SentenceEntry> = Vec::new();
    let mut sent = sent_start;
    while sent < sent_end
        invariant
            sent_start <= sent <= sent_end <= count,
            count as int <= last - first + 1,
            first <= last < sentence_spans@.len(),
            Some(sentence_spans@) == corpus.sentence_spans(),
            first == corpus.first_sentence_spec(doc_idx).unwrap(),
            sentences@.len() == sent - sent_start,
            forall|k: int| 0 <= k < sentences@.len() ==> sentence_entry_ok(corpus, first as int, sent_start, k, #[trigger] sentences@[k]),
        decreases sent_end - sent,
    {
        let global_idx = first + sent as usize;
        let span = sentence_spans[global_idx];
        let entry = SentenceEntry {
            sent,
            span,
            surface: corpus.surface_text(span.start, span.end),
            sentence_id: sentence_id_or_empty(corpus, global_idx),
        };
        proof { assert(sentence_entry_ok(corpus, first as int, sent_start, sentences@.len() as int, entry)); }
        sentences.push(entry);
        sent = sent + 1;
    }
    proof {
        assert(spans_disjoint_sorted(sentence_spans@));
        assert forall|i: int, j: int| 0 <= i < j < sentences@.len()
            implies (#[trigger] sentences@[i]).span.end <= (#[trigger] sentences@[j]).span.start by {
            assert(sentence_entry_ok(corpus, first as int, sent_start, i, sentences@[i]));
            assert(sentence_entry_ok(corpus, first as int, sent_start, j, sentences@[j]));
        }
    }
    Ok(TextSentencesReply { sentences })
}

/// Document `doc`: its name, component, span and sentence count. Refused when the index is out
/// of range, or when the corpus has no span for the document.
pub fn handle_text_document(corpus: &Corpus, params: &TextDocumentParams) -> (r: Result<TextDocumentReply, ProtocolError>)
    ensures
        r is Ok <==> params.doc < corpus.meta_model().document_names@.len() && corpus.document_span_spec(params.doc as usize) is Some,
        params.doc >= corpus.meta_model().document_names@.len() ==> (r matches Err(e) && e.code == INVALID_PARAMS),
        params.doc < corpus.meta_model().document_names@.len() && corpus.document_span_spec(params.doc as usize) is None
            ==> (r matches Err(e) && e.code == INTERNAL_ERROR),
        r matches Ok(rep) ==> {
            &&& rep.index == params.doc
            &&& rep.name@ == corpus.meta_model().document_names@[params.doc as int]@
            &&& rep.component@ == document_component_spec(corpus, params.doc as usize)
            &&& Some(rep.span) == corpus.document_span_spec(params.doc as usize)
            &&& rep.sentence_count == sentence_count_spec(corpus, params.doc as usize)
        },
{
    let doc_idx = params.doc as usize;
    let names = corpus.document_names();
    if doc_idx >= names.len() {
        return Err(numbered_error(INVALID_PARAMS, "document index ", params.doc as u64));
    }
    let name = names[doc_idx].clone();
    let span = match corpus.document_span(doc_idx) {
        Some(sp) => sp,
        None => {
            if corpus.spans().spans("document").is_none() {
                return Err(ProtocolError::with_text(INTERNAL_ERROR, "document span layer missing"));
            }
            return Err(ProtocolError::with_text(INTERNAL_ERROR, "document span lookup failed"));
        },
    };
    Ok(TextDocumentReply {
        index: params.doc,
        name,
        component: document_component(corpus, doc_idx),
        span,
        sentence_count: document_sentence_count(corpus, doc_idx),
    })
}

/// An annotation entry as plain data.
pub open spec fn entry_view(e: AnnotationEntry) -> (u64, Seq<char>, AnnotationModel) {
    (e.position, e.layer@, e.value@)
}

/// The annotations at `p` of each layer of `layers` that has one there, in layer order.
pub open spec fn entries_at(c: &Corpus, p: u64, layers: Seq<Seq<char>>) -> Seq<(u64, Seq<char>, AnnotationModel)>
    decreases layers.len(),
{
    if layers.len() == 0 {
        Seq::empty()
    } else {
        entries_at(c, p, layers.drop_last()) + match annotation_at(c, p, layers.last()) {
            Some(v) => seq![(p, layers.last(), v)],
            None => Seq::empty(),
        }
    }
}

/// The annotations of `layers` at each position of `ps`, position by position.
pub open spec fn entries_for(c: &Corpus, ps: Seq<u64>, layers: Seq<Seq<char>>) -> Seq<(u64, Seq<char>, AnnotationModel)>
    decreases ps.len(),
{
    if ps.len() == 0 {
        Seq::empty()
    } else {
        entries_for(c, ps.drop_last(), layers) + entries_at(c, ps.last(), layers)
    }
}

/// The values of `layers` at `positions`, position by position and in layer order; positions
/// and layers with no value are left out.
pub fn handle_text_annotations(corpus: &Corpus, params: &TextAnnotationsParams) -> (r: TextAnnotationsReply)
    ensures
        r.values@.map_values(|e: AnnotationEntry| entry_view(e)) == entries_for(corpus, params.positions@, string_views(params.layers@)),
{
    let ghost layers = string_views(params.layers@);
    let mut values: Vec<AnnotationEntry> = Vec::new();
    let mut i: usize = 0;
    proof { assert(values@.map_values(|e: AnnotationEntry| entry_view(e)) =~= entries_for(corpus, params.positions@.subrange(0, 0), layers)); }
    while i < params.positions.len()
        invariant
            0 <= i <= params.positions@.len(),
            layers == string_views(params.layers@),
            values@.map_values(|e: AnnotationEntry| entry_view(e)) == entries_for(corpus, params.positions@.subrange(0, i as int), layers),
        decreases params.positions@.len() - i,
    {
        let position = params.positions[i];
        let ghost before = values@.map_values(|e: AnnotationEntry| entry_view(e));
        let mut j: usize = 0;
        proof { assert(before + entries_at(corpus, position, layers.subrange(0, 0)) =~= before); }
        while j < params.layers.len()
            invariant
                0 <= j <= params.layers@.len(),
                layers == string_views(params.layers@),
                values@.map_values(|e: AnnotationEntry| entry_view(e)) == before + entries_at(corpus, position, layers.subrange(0, j as int)),
            decreases params.layers@.len() - j,
        {
            let layer = &params.layers[j];
            let ghost mid = values@.map_values(|e: AnnotationEntry| entry_view(e));
            proof { assert(layers.subrange(0, j + 1).drop_last() =~= layers.subrange(0, j as int)); }
            match fetch_annotation(corpus, position, layer.as_str()) {
                Some(value) => {
                    values.push(AnnotationEntry { position, layer: layer.clone(), value });
                    proof {
                        assert(values@.map_values(|e: AnnotationEntry| entry_view(e)) =~= mid.push((position, layer@, annotation_at(corpus, position, layer@).unwrap())));
                    }
                },
                None => {},
            }
            j = j + 1;
            proof {
                assert(layers.subrange(0, j as int).last() == layer@);
                assert(values@.map_values(|e: AnnotationEntry| entry_view(e)) =~= before + entries_at(corpus, position, layers.subrange(0, j as int)));
            }
        }
        i = i + 1;
        proof {
            assert(layers.subrange(0, j as int) =~= layers);
            assert(params.positions@.subrange(0, i as int).drop_last() =~= params.positions@.subrange(0, i - 1));
        }
    }
    proof { assert(params.positions@.subrange(0, i as int) =~= params.positions@); }
    TextAnnotationsReply { values }
}

/// The layer names of a row's values.
pub open spec fn row_names(v: Seq<(Seq<char>, AnnotationModel)>) -> Seq<Seq<char>> {
    v.map_values(|e: (Seq<char>, AnnotationModel)| e.0)
}

/// The values at `p` of each layer of `layers` that has one there, each layer once.
pub open spec fn row_values(c: &Corpus, p: u64, layers: Seq<Seq<char>>) -> Seq<(Seq<char>, AnnotationModel)>
    decreases layers.len(),
{
    if layers.len() == 0 {
        Seq::empty()
    } else {
        let prev = row_values(c, p, layers.drop_last());
        let l = layers.last();
        if row_names(prev).contains(l) {
            prev
        } else {
            match annotation_at(c, p, l) {
                Some(v) => prev.push((l, v)),
                None => prev,
            }
        }
    }
}

/// A row's values as plain data.
pub open spec fn row_view(v: Seq<(String, AnnotationValue)>) -> Seq<(Seq<char>, AnnotationModel)> {
    v.map_values(|e: (String, AnnotationValue)| (e.0@, e.1@))
}

/// Whether some value of the row is for `layer`.
fn row_has(values: &Vec<(String, AnnotationValue)>, layer: &str) -> (r: bool)
    ensures
        r == row_names(row_view(values@)).contains(layer@),
{
    let mut i: usize = 0;
    while i < values.len()
        invariant
            0 <= i <= values@.len(),
            forall|k: int| 0 <= k < i ==> values@[k].0@ != layer@,
        decreases values@.len() - i,
    {
        if str_eq(values[i].0.as_str(), layer) {
            proof { assert(row_names(row_view(values@))[i as int] == layer@); }
            return true;
        }
        i = i + 1;
    }
    proof {
        if row_names(row_view(values@)).contains(layer@) {
            let k = choose|k: int| 0 <= k < row_names(row_view(values@)).len() && row_names(row_view(values@))[k] == layer@;
            assert(values@[k].0@ == layer@);
        }
    }
    false
}

/// The values at `position` of each layer of `layers`, each layer once.
fn annotation_row(corpus: &Corpus, position: u64, layers: &Vec<String>) -> (r: AnnotationRow)
    ensures
        r.position == position,
        row_view(r.values@) == row_values(corpus, position, string_views(layers@)),
{
    let ghost ls = string_views(layers@);
    let mut values: Vec<(String, AnnotationValue)> = Vec::new();
    let mut j: usize = 0;
    proof { assert(row_view(values@) =~= row_values(corpus, position, ls.subrange(0, 0))); }
    while j < layers.len()
        invariant
            0 <= j <= layers@.len(),
            ls == string_views(layers@),
            row_view(values@) == row_values(corpus, position, ls.subrange(0, j as int)),
        decreases layers@.len() - j,
    {
        let layer = &layers[j];
        proof {
            assert(ls.subrange(0, j + 1).drop_last() =~= ls.subrange(0, j as int));
            assert(ls.subrange(0, j + 1).last() == layer@);
        }
        let ghost v0 = row_view(values@);
        if !row_has(&values, layer.as_str()) {
            match fetch_annotation(corpus, position, layer.as_str()) {
                Some(value) => {
                    values.push((layer.clone(), value));
                    proof { assert(row_view(values@) =~= v0.push((layer@, annotation_at(corpus, position, layer@).unwrap()))); }
                },
                None => {},
            }
        }
        j = j + 1;
    }
    proof { assert(ls.subrange(0, j as int) =~= ls); }
    AnnotationRow { position, values }
}

/// One row per position of `[start, end)`, both cut to the token count, with the values of the
/// given layers (all forward layers of the metadata when none are given). Refused when the range
/// is inverted.
pub fn handle_text_annotations_range(corpus: &Corpus, params: &TextAnnotationsRangeParams)
    -> (r: Result<TextAnnotationsRangeReply, ProtocolError>)
    ensures
        r is Err <==> params.start > params.end,
        r matches Err(e) ==> e.code == INVALID_PARAMS && e.message@ == "start must be <= end"@,
        r matches Ok(rep) ==> {
            let tc = corpus.meta_model().token_count;
            let s0 = clamp(params.start, tc);
            let s1 = clamp(params.end, tc);
            let ls = match params.layers {
                Some(l) => string_views(l@),
                None => string_views(corpus.meta_model().layers@),
            };
            &&& rep.rows@.len() == s1 - s0
            &&& forall|k: int| 0 <= k < rep.rows@.len() ==> (#[trigger] rep.rows@[k]).position == s0 + k
                && row_view(rep.rows@[k].values@) == row_values(corpus, (s0 + k) as u64, ls)
        },
{
    if params.start > params.end {
        return Err(ProtocolError::with_text(INVALID_PARAMS, "start must be <= end"));
    }
    let token_count = corpus.token_count();
    let start = if params.start < token_count { params.start } else { token_count };
    let end = if params.end < token_count { params.end } else { token_count };
    let layers: Vec<String> = match &params.layers {
        Some(ls) => clone_strings(ls),
        None => clone_strings(corpus.layers()),
    };
    let ghost ls = string_views(layers@);
    let mut rows: Vec<AnnotationRow> = Vec::new();
    let mut position = start;
    while position < end
        invariant
            start <= position <= end,
            ls == string_views(layers@),
            rows@.len() == position - start,
            forall|k: int| 0 <= k < rows@.len() ==> (#[trigger] rows@[k]).position == start + k
                && row_view(rows@[k].values@) == row_values(corpus, (start + k) as u64, ls),
        decreases end - position,
    {
        let row = annotation_row(corpus, position, &layers);
        rows.push(row);
        position = position + 1;
    }
    Ok(TextAnnotationsRangeReply { rows })
}

/// A copy of a list of strings.
pub fn clone_strings(v: &[String]) -> (r: Vec<String>)
    ensures
        string_views(r@) == string_views(v@),
{
    let mut r: Vec<String> = Vec::new();
    let mut i: usize = 0;
    while i < v.len()
        invariant
            0 <= i <= v@.len(),
            string_views(r@) == string_views(v@).subrange(0, i as int),
        decreases v@.len() - i,
    {
        let ghost r0 = string_views(r@);
        r.push(v[i].clone());
        i = i + 1;
        proof {
            assert(string_views(r@) =~= r0.push(v@[i - 1]@));
            assert(string_views(v@).subrange(0, i as int) =~= string_views(v@).subrange(0, i - 1).push(v@[i - 1]@));
        }
    }
    proof { assert(string_views(v@).subrange(0, i as int) =~= string_views(v@)); }
    r
}

} // verus!
