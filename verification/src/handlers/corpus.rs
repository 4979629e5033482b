//! Corpus requests: the corpus description, its documents, and what a layer holds.
use vstd::prelude::*;
use crate::corpus::{Corpus, ComponentMeta};
use crate::protocol::error_codes::INVALID_PARAMS;
use crate::protocol::{
    CorpusDocumentsParams, CorpusDocumentsReply, CorpusInfo, CorpusLayerInfoParams, DocumentEntry, LayerInfo,
    LayerKind, ProtocolError,
};
use crate::text::{concat, str_eq, string_views};
use super::text::clone_strings;

verus! {

/// Component `j` is the first whose document range holds `idx`.
pub open spec fn is_first_component(comps: Seq<ComponentMeta>, idx: usize, j: int) -> bool {
    &&& 0 <= j < comps.len()
    &&& comps[j].document_range.0 <= idx < comps[j].document_range.1
    &&& forall|i: int| 0 <= i < j ==> !((#[trigger] comps[i]).document_range.0 <= idx < comps[i].document_range.1)
}

/// The name of the first component whose range holds document `idx`; the corpus name when none
/// does.
pub open spec fn document_component_spec(c: &Corpus, idx: usize) -> Seq<char> {
    let comps = c.meta_model().components@;
    if exists|j: int| is_first_component(comps, idx, j) {
        comps[choose|j: int| is_first_component(comps, idx, j)].name@
    } else {
        c.meta_model().name@
    }
}

/// The number of sentences from the first to the last of document `idx`, cut to 32 bits; `0`
/// when it has none.
pub open spec fn sentence_count_spec(c: &Corpus, idx: usize) -> u32 {
    match (c.first_sentence_spec(idx), c.last_sentence_spec(idx)) {
        (Some(f), Some(l)) => if l >= f { ((l - f + 1) % 0x1_0000_0000) as u32 } else { 0 },
        _ => 0,
    }
}

/// The name of the component that document `document_index` belongs to.
pub fn document_component(corpus: &Corpus, document_index: usize) -> (r: String)
    ensures
        r@ == document_component_spec(corpus, document_index),
{
    match corpus.component_for_document(document_index) {
        Some(c) => {
            proof {
                let comps = corpus.meta_model().components@;
                let i = choose|i: int| {
                    &&& 0 <= i < comps.len()
                    &&& *c == #[trigger] comps[i]
                    &&& c.document_range.0 <= document_index < c.document_range.1
                    &&& forall|j: int| 0 <= j < i ==> !((#[trigger] comps[j]).document_range.0 <= document_index < comps[j].document_range.1)
                };
                assert(is_first_component(comps, document_index, i));
                let k = choose|j: int| is_first_component(comps, document_index, j);
                assert(k == i) by {
                    if k < i { assert(!(comps[k].document_range.0 <= document_index < comps[k].document_range.1)); }
                    if i < k { assert(!(comps[i].document_range.0 <= document_index < comps[i].document_range.1)); }
                }
            }
            c.name.clone()
        },
        None => {
            proof {
                let comps = corpus.meta_model().components@;
                if exists|j: int| is_first_component(comps, document_index, j) {
                    let k = choose|j: int| is_first_component(comps, document_index, j);
                    assert(!(comps[k].document_range.0 <= document_index < comps[k].document_range.1));
                }
            }
            corpus.name().to_owned()
        },
    }
}

/// The number of sentences of document `document_index`.
pub fn document_sentence_count(corpus: &Corpus, document_index: usize) -> (n: u32)
    ensures
        n == sentence_count_spec(corpus, document_index),
{
    match (corpus.first_sentence_of_document(document_index), corpus.last_sentence_of_document(document_index)) {
        (Some(first), Some(last)) => {
            if last >= first {
                let d: u64 = (last - first) as u64;
                if d < u64::MAX {
                    ((d + 1) % 0x1_0000_0000) as u32
                } else {
                    0
                }
            } else {
                0
            }
        },
        _ => 0,
    }
}

/// The names of a list of components, in order.
fn component_names(comps: &[ComponentMeta]) -> (r: Vec<String>)
    ensures
        r@.len() == comps@.len(),
        forall|k: int| 0 <= k < r@.len() ==> r@[k]@ == (#[trigger] comps@[k]).name@,
{
    let mut r: Vec<String> = Vec::new();
    let mut i: usize = 0;
    while i < comps.len()
        invariant
            0 <= i <= comps@.len(),
            r@.len() == i,
            forall|k: int| 0 <= k < i ==> r@[k]@ == (#[trigger] comps@[k]).name@,
        decreases comps@.len() - i,
    {
        r.push(comps[i].name.clone());
        i = i + 1;
    }
    r
}

/// The corpus description: its name, where it lives, its key, components, layers and alignments.
pub fn handle_corpus_info(corpus: &Corpus, canonical_path: &str, corpus_id: &str) -> (r: CorpusInfo)
    ensures
        r.name@ == corpus.meta_model().name@,
        r.canonical_path@ == canonical_path@,
        r.stable_key@ == corpus_id@,
        r.components@.len() == corpus.meta_model().components@.len(),
        forall|k: int| 0 <= k < r.components@.len() ==> r.components@[k]@ == (#[trigger] corpus.meta_model().components@[k]).name@,
        string_views(r.layers@) == string_views(corpus.meta_model().layers@),
        r.alignments@.len() == corpus.meta_model().alignments@.len(),
        forall|k: int| 0 <= k < r.alignments@.len() ==> r.alignments@[k]@ == (#[trigger] corpus.meta_model().alignments@[k]).name@,
{
    let metas = corpus.alignment_metas();
    let mut alignments: Vec<String> = Vec::new();
    let mut i: usize = 0;
    while i < metas.len()
        invariant
            0 <= i <= metas@.len(),
            metas@ == corpus.meta_model().alignments@,
            alignments@.len() == i,
            forall|k: int| 0 <= k < i ==> alignments@[k]@ == (#[trigger] metas@[k]).name@,
        decreases metas@.len() - i,
    {
        alignments.push(metas[i].name.clone());
        i = i + 1;
    }
    CorpusInfo {
        name: corpus.name().to_owned(),
        canonical_path: canonical_path.to_owned(),
        stable_key: corpus_id.to_owned(),
        components: component_names(corpus.components()),
        layers: clone_strings(corpus.layers()),
        alignments,
    }
}

/// The indexes of `[0, n)` that lie in `range`, or all of them when there is none.
pub open spec fn listed_documents(n: nat, range: Option<(usize, usize)>) -> Seq<int>
    decreases n,
{
    if n == 0 {
        Seq::empty()
    } else {
        let rest = listed_documents((n - 1) as nat, range);
        let i = n - 1;
        match range {
            Some((a, b)) => if a <= i < b { rest.push(i) } else { rest },
            None => rest.push(i),
        }
    }
}

/// The entry of document `i`.
pub open spec fn document_entry_ok(c: &Corpus, i: int, e: DocumentEntry) -> bool {
    &&& e.index == i as u32
    &&& e.name@ == c.meta_model().document_names@[i]@
    &&& e.component@ == document_component_spec(c, i as usize)
    &&& e.sentence_count == sentence_count_spec(c, i as usize)
}

/// The documents of the corpus, or of the named component. Refused when there is no component
/// of that name.
pub fn handle_corpus_documents(corpus: &Corpus, params: &CorpusDocumentsParams) -> (r: Result<CorpusDocumentsReply, ProtocolError>)
    ensures
        r is Err <==> (params.component matches Some(name) && forall|j: int| 0 <= j < corpus.meta_model().components@.len()
            ==> (#[trigger] corpus.meta_model().components@[j]).name@ != name@),
        r matches Err(e) ==> e.code == INVALID_PARAMS,
        r matches Ok(rep) ==> {
            let n = corpus.meta_model().document_names@.len();
            let range = match params.component {
                Some(name) => Some(corpus.meta_model().components@[
                    crate::forward::first_index_of(corpus.meta_model().components@.map_values(|c: ComponentMeta| c.name@), name@)].document_range),
                None => None,
            };
            let listed = listed_documents(n, range);
            &&& rep.documents@.len() == listed.len()
            &&& forall|k: int| 0 <= k < listed.len() ==> document_entry_ok(corpus, listed[k], #[trigger] rep.documents@[k])
        },
{
    let ghost comp_names = corpus.meta_model().components@.map_values(|c: ComponentMeta| c.name@);
    let allowed: Option<(usize, usize)> = match &params.component {
        None => None,
        Some(name) => match corpus.component(name.as_str()) {
            Some(c) => {
                proof {
                    let comps = corpus.meta_model().components@;
                    let i = choose|i: int| {
                        &&& 0 <= i < comps.len()
                        &&& *c == #[trigger] comps[i]
                        &&& c.name@ == name@
                        &&& forall|j: int| 0 <= j < i ==> comps[j].name@ != name@
                    };
                    assert(comp_names[i] == name@);
                    assert forall|j: int| 0 <= j < i implies comp_names[j] != name@ by {
                        assert(comp_names[j] == comps[j].name@);
                    }
                    crate::forward::lemma_first_index_of(comp_names, name@, i);
                }
                Some(c.document_range)
            },
            None => {
                let m = concat("unknown component '", name.as_str());
                return Err(ProtocolError::new(INVALID_PARAMS, concat(m.as_str(), "'")));
            },
        },
    };
    let names = corpus.document_names();
    let mut documents: Vec<DocumentEntry> = Vec::new();
    let mut idx: usize = 0;
    while idx < names.len()
        invariant
            0 <= idx <= names@.len(),
            names@ == corpus.meta_model().document_names@,
            documents@.len() == listed_documents(idx as nat, allowed).len(),
            forall|k: int| 0 <= k < documents@.len() ==> document_entry_ok(corpus, listed_documents(idx as nat, allowed)[k], #[trigger] documents@[k]),
        decreases names@.len() - idx,
    {
        let wanted = match allowed {
            Some((start, end)) => start <= idx && idx < end,
            None => true,
        };
        let ghost l0 = listed_documents(idx as nat, allowed);
        if wanted {
            let entry = DocumentEntry {
                index: idx as u32,
                name: names[idx].clone(),
                component: document_component(corpus, idx),
                sentence_count: document_sentence_count(corpus, idx),
            };
            documents.push(entry);
        }
        idx = idx + 1;
        proof {
            let l1 = listed_documents(idx as nat, allowed);
            if wanted {
                assert(l1 == l0.push(idx - 1));
            } else {
                assert(l1 == l0);
            }
            assert forall|k: int| 0 <= k < documents@.len() implies document_entry_ok(corpus, l1[k], #[trigger] documents@[k]) by {
                if k < l0.len() {
                    assert(l1[k] == l0[k]);
                }
            }
        }
    }
    Ok(CorpusDocumentsReply { documents })
}

/// The number of values of layer `name` in the inverted index, cut to 32 bits; `0` without one.
pub open spec fn value_count_spec(c: &Corpus, name: Seq<char>) -> u32 {
    match c.inverted_store().value_set(name) {
        Some(s) => (s.len() % 0x1_0000_0000) as u32,
        None => 0,
    }
}

/// The wire form of a layer kind.
pub open spec fn wire_kind(k: crate::corpus::LayerKind) -> LayerKind {
    match k {
        crate::corpus::LayerKind::String => LayerKind::String,
        crate::corpus::LayerKind::Int => LayerKind::Int,
    }
}

/// The kind and value count of layer `name`, when the corpus has it.
pub fn classify_layer(corpus: &Corpus, name: &str) -> (r: Option<(LayerKind, u32)>)
    ensures
        match corpus.layer_kind_spec(name@) {
            Some(k) => r == Some((wire_kind(k), value_count_spec(corpus, name@))),
            None => r is None,
        },
{
    let kind = match corpus.layer_kind(name) {
        Some(k) => k,
        None => return None,
    };
    let value_count: u32 = match corpus.inverted().values(name) {
        Some(v) => (v.len() as u64 % 0x1_0000_0000) as u32,
        None => 0,
    };
    Some((LayerKind::from(kind), value_count))
}

/// The kind and value count of the requested layer. Refused when the corpus has no such layer.
pub fn handle_corpus_layer_info(corpus: &Corpus, params: &CorpusLayerInfoParams) -> (r: Result<LayerInfo, ProtocolError>)
    ensures
        r is Err <==> corpus.layer_kind_spec(params.layer@) is None,
        r matches Err(e) ==> e.code == INVALID_PARAMS && e.message@ == "unknown layer '"@ + params.layer@ + "'"@,
        r matches Ok(info) ==> info.name@ == params.layer@
            && info.kind == wire_kind(corpus.layer_kind_spec(params.layer@).unwrap())
            && info.value_count == value_count_spec(corpus, params.layer@),
{
    match classify_layer(corpus, params.layer.as_str()) {
        Some((kind, value_count)) => Ok(LayerInfo { name: params.layer.clone(), kind, value_count }),
        None => {
            let m = concat("unknown layer '", params.layer.as_str());
            Err(ProtocolError::new(INVALID_PARAMS, concat(m.as_str(), "'")))
        },
    }
}

} // verus!
