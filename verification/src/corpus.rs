//! An opened corpus: its metadata and indexes, and the questions asked of them — which
//! document holds a position, which sentences a document has, what text a range reads as.
use vstd::prelude::*;
use crate::formats::IndexError;
use crate::formats::mwt::{MappedMWTs, MWTEntry, MwtV, mwt_views, mwt_run, first_ending_after};
use crate::formats::sentence_ids::MappedSentenceIds;
use crate::formats::spacing::SpacingIndex;
use crate::formats::spans_flat::MappedSpans;
use crate::forward::{InMemoryForward, first_index_of};
use crate::inverted::InMemoryInverted;
use crate::lexicon::InMemoryLexicon;
use crate::span::{Span, span_containing, spans_disjoint_sorted};
use crate::text::{find_name, str_eq, string_views};
use crate::value::ValueModel;

verus! {

/// The version of the index format this library reads.
pub const INDEX_VERSION: u32 = 5;

/// A component of a multi-component corpus: a language's documents, `[start, end)` by index.
#[derive(Debug)]
pub struct ComponentMeta {
    pub id: u32,
    pub name: String,
    pub language: String,
    pub document_range: (usize, usize),
}

/// An alignment between two components.
#[derive(Debug)]
pub struct AlignmentMeta {
    pub name: String,
    pub source_component: String,
    pub target_component: String,
    pub source_layer: String,
    pub target_layer: String,
    pub directed: bool,
    pub edge_count: usize,
}

/// What `corpus.json` says of a corpus.
#[derive(Debug)]
pub struct CorpusMeta {
    pub name: String,
    pub version: u32,
    pub token_count: u64,
    pub layers: Vec<String>,
    pub span_layers: Vec<String>,
    pub document_names: Vec<String>,
    pub components: Vec<ComponentMeta>,
    pub alignments: Vec<AlignmentMeta>,
}

/// A sentence unit: a document index within its component and a sentence index within it.
pub type UnitId = (u32, u32);

/// The names of named entries, in order.
spec fn names_in(w: Seq<(String, Vec<(UnitId, UnitId)>)>) -> Seq<Seq<char>> {
    w.map_values(|e: (String, Vec<(UnitId, UnitId)>)| e.0@)
}

/// The alignment edges of a corpus, by alignment name.
#[derive(Debug)]
pub struct AlignmentIndex {
    alignments: Vec<(String, Vec<(UnitId, UnitId)>)>,
}

impl AlignmentIndex {
    /// No name is held twice.
    #[verifier::type_invariant]
    spec fn names_distinct(&self) -> bool {
        self.name_list().no_duplicates()
    }

    /// The names, in the order they were added.
    pub closed spec fn name_list(&self) -> Seq<Seq<char>> {
        names_in(self.alignments@)
    }

    /// The edges of alignment `name`.
    pub closed spec fn edges_of(&self, name: Seq<char>) -> Option<Seq<(UnitId, UnitId)>> {
        let i = first_index_of(self.name_list(), name);
        if i >= 0 { Some(self.alignments@[i].1@) } else { None }
    }

    /// An index with no alignment.
    pub fn new() -> (r: AlignmentIndex)
        ensures
            r.name_list() == Seq::<Seq<char>>::empty(),
            forall|n: Seq<char>| #[trigger] r.edges_of(n) is None,
    {
        let r = AlignmentIndex { alignments: Vec::new() };
        proof {
            assert(r.name_list() =~= Seq::<Seq<char>>::empty());
            assert forall|n: Seq<char>| #[trigger] r.edges_of(n) is None by {
                crate::forward::lemma_first_index_absent(r.name_list(), n);
            }
        }
        r
    }

    /// Sets the edges of alignment `name`, replacing those it had.
    pub fn add(&mut self, name: &str, edges: Vec<(UnitId, UnitId)>)
        ensures
            final(self).edges_of(name@) == Some(edges@),
            forall|n: Seq<char>| n != name@ ==> #[trigger] final(self).edges_of(n) == old(self).edges_of(n),
    {
        proof { use_type_invariant(&*self); }
        let ghost old_names = self.name_list();
        let mut v: Vec<(String, Vec<(UnitId, UnitId)>)> = Vec::new();
        std::mem::swap(&mut v, &mut self.alignments);
        assert(names_in(v@) == old_names);
        let mut i: usize = 0;
        while i < v.len()
            invariant
                0 <= i <= v@.len(),
                v@ == old(self).alignments@,
                names_in(v@) == old_names,
                old_names == old(self).name_list(),
                old_names.no_duplicates(),
                forall|k: int| 0 <= k < i ==> v@[k].0@ != name@,
            decreases v@.len() - i,
        {
            if str_eq(v[i].0.as_str(), name) {
                let _ = v.remove(i);
                v.insert(i, (name.to_owned(), edges));
                proof {
                    assert(names_in(v@) =~= old_names);
                }
                self.alignments = v;
                proof {
                    assert(self.name_list() =~= old_names);
                    assert forall|k: int| 0 <= k < i implies self.name_list()[k] != name@ by {
                        assert(self.name_list()[k] == old(self).alignments@[k].0@);
                    }
                    crate::forward::lemma_first_index_of(self.name_list(), name@, i as int);
                    assert forall|n: Seq<char>| n != name@ implies #[trigger] self.edges_of(n) == old(self).edges_of(n) by {
                        let j = first_index_of(self.name_list(), n);
                        if j >= 0 {
                            assert(self.name_list()[j] == n);
                            assert(j != i);
                            assert(self.alignments@[j] == old(self).alignments@[j]);
                        }
                    }
                }
                return;
            }
            i = i + 1;
        }
        v.push((name.to_owned(), edges));
        proof {
            assert(names_in(v@) =~= old_names.push(name@));
            assert forall|k: int| 0 <= k < old_names.len() implies old_names[k] != name@ by {
                assert(old_names[k] == old(self).alignments@[k].0@);
            }
            assert(names_in(v@).no_duplicates());
        }
        self.alignments = v;
        proof {
            assert(self.name_list() =~= old(self).name_list().push(name@));
            assert forall|k: int| 0 <= k < i implies self.name_list()[k] != name@ by {
                assert(self.name_list()[k] == old(self).alignments@[k].0@);
            }
            crate::forward::lemma_first_index_of(self.name_list(), name@, i as int);
            assert forall|n: Seq<char>| n != name@ implies #[trigger] self.edges_of(n) == old(self).edges_of(n) by {
                let j = first_index_of(old(self).name_list(), n);
                if j >= 0 {
                    assert(old(self).name_list()[j] == n);
                    assert forall|q: int| 0 <= q < j implies self.name_list()[q] != n by {
                        assert(self.name_list()[q] == old(self).name_list()[q]);
                    }
                    assert(self.name_list()[j] == n);
                    crate::forward::lemma_first_index_of(self.name_list(), n, j);
                } else {
                    assert forall|q: int| 0 <= q < self.name_list().len() implies self.name_list()[q] != n by {
                        if q < old(self).name_list().len() {
                            assert(self.name_list()[q] == old(self).name_list()[q]);
                            if old(self).name_list()[q] == n {
                                crate::forward::lemma_first_exists(old(self).name_list(), n, q);
                            }
                        }
                    }
                    crate::forward::lemma_first_index_absent(self.name_list(), n);
                }
            }
        }
    }

    /// The edges of the first alignment named `name`.
    pub fn get(&self, name: &str) -> (r: Option<&[(UnitId, UnitId)]>)
        ensures
            r is Some <==> self.edges_of(name@) is Some,
            r matches Some(e) ==> Some(e@) == self.edges_of(name@),
    {
        let mut i: usize = 0;
        while i < self.alignments.len()
            invariant
                0 <= i <= self.alignments@.len(),
                forall|k: int| 0 <= k < i ==> self.name_list()[k] != name@,
            decreases self.alignments@.len() - i,
        {
            proof { assert(self.name_list()[i as int] == self.alignments@[i as int].0@); }
            if str_eq(self.alignments[i].0.as_str(), name) {
                proof { crate::forward::lemma_first_index_of(self.name_list(), name@, i as int); }
                return Some(self.alignments[i].1.as_slice());
            }
            i = i + 1;
        }
        proof { crate::forward::lemma_first_index_absent(self.name_list(), name@); }
        None
    }

    /// The alignment names, in the order they were added.
    pub fn names(&self) -> (r: Vec<&str>)
        ensures
            r@.map_values(|s: &str| s@) == self.name_list(),
            r@.map_values(|s: &str| s@).no_duplicates(),
            forall|n: Seq<char>| #[trigger] self.edges_of(n) is Some <==> r@.map_values(|s: &str| s@).contains(n),
    {
        proof {
            use_type_invariant(self);
            assert forall|n: Seq<char>| #[trigger] self.edges_of(n) is Some <==> self.name_list().contains(n) by {
                if self.name_list().contains(n) {
                    let q = choose|q: int| 0 <= q < self.name_list().len() && self.name_list()[q] == n;
                    crate::forward::lemma_first_exists(self.name_list(), n, q);
                } else {
                    crate::forward::lemma_first_index_absent(self.name_list(), n);
                }
            }
        }
        let mut r: Vec<&str> = Vec::new();
        let mut i: usize = 0;
        while i < self.alignments.len()
            invariant
                0 <= i <= self.alignments@.len(),
                r@.map_values(|s: &str| s@) == self.name_list().subrange(0, i as int),
            decreases self.alignments@.len() - i,
        {
            let ghost r0 = r@.map_values(|s: &str| s@);
            r.push(self.alignments[i].0.as_str());
            i = i + 1;
            proof {
                assert(r@.map_values(|s: &str| s@) =~= r0.push(self.alignments@[i - 1].0@));
                assert(self.name_list().subrange(0, i as int) =~= self.name_list().subrange(0, i - 1).push(self.alignments@[i - 1].0@));
            }
        }
        proof { assert(self.name_list().subrange(0, i as int) =~= self.name_list()); }
        r
    }
}

/// An empty node of a sentence (an elided word the annotation restores).
#[derive(Debug)]
pub struct EmptyNode {
    pub sentence_index: u32,
    pub node_id: String,
    pub form: String,
    pub lemma: Option<String>,
    pub upos: Option<String>,
    pub xpos: Option<String>,
    pub feats: Option<String>,
    pub deps: Option<String>,
    pub misc: Option<String>,
}

/// The empty nodes of a corpus, in sentence order.
#[derive(Debug)]
pub struct EmptyNodeStore {
    nodes: Vec<EmptyNode>,
}

/// The nodes are in non-decreasing order of sentence.
pub open spec fn nodes_sorted(v: Seq<EmptyNode>) -> bool {
    forall|i: int, j: int| 0 <= i <= j < v.len() ==> v[i].sentence_index <= v[j].sentence_index
}

impl EmptyNodeStore {
    /// The nodes.
    pub closed spec fn node_list(&self) -> Seq<EmptyNode> {
        self.nodes@
    }

    /// A store of `nodes`, as read from their file.
    pub fn new(nodes: Vec<EmptyNode>) -> (r: EmptyNodeStore)
        ensures
            r.node_list() == nodes@,
    {
        EmptyNodeStore { nodes }
    }

    pub fn nodes(&self) -> (r: &[EmptyNode])
        ensures
            r@ == self.node_list(),
    {
        self.nodes.as_slice()
    }

    pub fn len(&self) -> (n: usize)
        ensures
            n == self.node_list().len(),
    {
        self.nodes.len()
    }

    pub fn is_empty(&self) -> (b: bool)
        ensures
            b == (self.node_list().len() == 0),
    {
        self.nodes.len() == 0
    }

    /// The first position whose node's sentence is not below `s`, by bisection.
    fn lower(&self, s: u32, strict: bool) -> (r: usize)
        ensures
            r <= self.nodes@.len(),
            nodes_sorted(self.nodes@) ==> {
                &&& forall|k: int| 0 <= k < r ==> if strict { self.nodes@[k].sentence_index <= s } else { self.nodes@[k].sentence_index < s }
                &&& forall|k: int| r <= k < self.nodes@.len() ==> if strict { self.nodes@[k].sentence_index > s } else { self.nodes@[k].sentence_index >= s }
            },
    {
        let mut lo: usize = 0;
        let mut hi: usize = self.nodes.len();
        while lo < hi
            invariant
                0 <= lo <= hi <= self.nodes@.len(),
                nodes_sorted(self.nodes@) ==> forall|k: int| 0 <= k < lo ==>
                    if strict { self.nodes@[k].sentence_index <= s } else { self.nodes@[k].sentence_index < s },
                nodes_sorted(self.nodes@) ==> forall|k: int| hi <= k < self.nodes@.len() ==>
                    if strict { self.nodes@[k].sentence_index > s } else { self.nodes@[k].sentence_index >= s },
            decreases hi - lo,
        {
            let mid = lo + (hi - lo) / 2;
            let below = if strict { self.nodes[mid].sentence_index <= s } else { self.nodes[mid].sentence_index < s };
            if below {
                lo = mid + 1;
            } else {
                hi = mid;
            }
        }
        lo
    }

    /// The nodes of sentence `sentence_index`; when the nodes are in sentence order, all of them.
    pub fn in_sentence(&self, sentence_index: u32) -> (r: &[EmptyNode])
        ensures
            nodes_sorted(self.node_list()) ==> exists|a: int, b: int| {
                &&& 0 <= a <= b <= self.node_list().len()
                &&& r@ == self.node_list().subrange(a, b)
                &&& forall|k: int| 0 <= k < self.node_list().len() ==> (#[trigger] self.node_list()[k].sentence_index == sentence_index <==> a <= k < b)
            },
    {
        let start = self.lower(sentence_index, false);
        let end = self.lower(sentence_index, true);
        if end < start {
            return &self.nodes.as_slice()[0..0];
        }
        let r = slice_range(self.nodes.as_slice(), start, end);
        proof {
            if nodes_sorted(self.nodes@) {
                assert forall|k: int| 0 <= k < self.nodes@.len() implies (#[trigger] self.nodes@[k].sentence_index == sentence_index <==> start <= k < end) by {}
            }
        }
        r
    }
}

/// The elements of `v` from `a` up to `b`.
fn slice_range<T>(v: &[T], a: usize, b: usize) -> (r: &[T])
    requires
        a <= b <= v@.len(),
    ensures
        r@ == v@.subrange(a as int, b as int),
{
    vstd::slice::slice_subrange(v, a, b)
}

/// The indexes and metadata of a corpus, as read from its directory.
pub struct CorpusParts {
    pub path: String,
    pub meta: CorpusMeta,
    pub inverted: InMemoryInverted,
    pub forward: InMemoryForward,
    pub spans: MappedSpans,
    pub lexicon: InMemoryLexicon,
    pub alignments: AlignmentIndex,
    pub sentence_ids: Option<MappedSentenceIds>,
    pub mwts: Option<MappedMWTs>,
    pub spacing: Option<SpacingIndex>,
    pub empty_nodes: Option<EmptyNodeStore>,
}

/// An opened corpus.
pub struct Corpus {
    path: String,
    meta: CorpusMeta,
    inverted: InMemoryInverted,
    forward: InMemoryForward,
    spans: MappedSpans,
    lexicon: InMemoryLexicon,
    alignments: AlignmentIndex,
    sentence_ids: Option<MappedSentenceIds>,
    mwts: Option<MappedMWTs>,
    spacing: Option<SpacingIndex>,
    empty_nodes: Option<EmptyNodeStore>,
}

/// The document spans and the sentence spans, if any, are in order and disjoint.
pub open spec fn layers_ordered(spans: MappedSpans) -> bool {
    &&& spans.layer_named("document"@) matches Some(d) ==> spans_disjoint_sorted(d)
    &&& spans.layer_named("sentence"@) matches Some(t) ==> spans_disjoint_sorted(t)
}

/// Whether the spans are well formed, in order and disjoint.
fn disjoint_sorted_exec(spans: &[Span]) -> (r: bool)
    ensures
        r == spans_disjoint_sorted(spans@),
{
    let mut i: usize = 0;
    while i < spans.len()
        invariant
            0 <= i <= spans@.len(),
            forall|k: int| 0 <= k < i ==> (#[trigger] spans@[k]).wf(),
            forall|a: int, b: int| 0 <= a < b < i ==> spans@[a].end <= spans@[b].start,
        decreases spans@.len() - i,
    {
        if spans[i].start > spans[i].end {
            return false;
        }
        if i > 0 && spans[i - 1].end > spans[i].start {
            return false;
        }
        proof {
            assert forall|a: int, b: int| 0 <= a < b < i + 1 implies spans@[a].end <= spans@[b].start by {
                if b == i && a < i - 1 {
                    assert(spans@[a].end <= spans@[i - 1].start);
                    assert(spans@[i - 1].wf());
                }
            }
        }
        i = i + 1;
    }
    true
}

/// The spans are in non-decreasing order of start.
pub open spec fn starts_sorted(s: Seq<Span>) -> bool {
    forall|i: int, j: int| 0 <= i <= j < s.len() ==> s[i].start <= s[j].start
}

/// `v` lists, in increasing order of index, sentences of `s` with their spans that start before
/// `d` ends and end no later than it; when the sentences are in order of start, it lists exactly
/// those that belong to `d`.
pub open spec fn sentence_listing(d: Span, s: Seq<Span>, v: Seq<(usize, Span)>) -> bool {
    &&& forall|k: int, l: int| 0 <= k < l < v.len() ==> v[k].0 < v[l].0
    &&& forall|k: int| 0 <= k < v.len() ==> (#[trigger] v[k]).0 < s.len() && v[k].1 == s[v[k].0 as int]
        && v[k].1.start < d.end && v[k].1.end <= d.end
    &&& starts_sorted(s) ==> forall|k: int| 0 <= k < v.len() ==> sentence_within(d, (#[trigger] v[k]).1)
    &&& starts_sorted(s) ==> forall|i: int| 0 <= i < s.len() && sentence_within(d, #[trigger] s[i])
        ==> exists|k: int| 0 <= k < v.len() && v[k].0 == i
}

/// A sentence belongs to a document when it starts inside it and ends no later than it.
pub open spec fn sentence_within(doc: Span, s: Span) -> bool {
    doc.start <= s.start && s.start < doc.end && s.end <= doc.end
}

impl Corpus {
    /// The value lists agree with the layer names, and multi-word tokens are in order.
    #[verifier::type_invariant]
    closed spec fn inv(self) -> bool {
        &&& self.forward.wf()
        &&& self.spans.wf()
        &&& self.inverted.wf()
        &&& layers_ordered(self.spans)
        &&& match self.mwts {
            Some(m) => m.ordered(),
            None => true,
        }
    }

    pub closed spec fn path_model(&self) -> Seq<char> { self.path@ }
    pub closed spec fn meta_model(&self) -> CorpusMeta { self.meta }
    pub closed spec fn inverted_store(&self) -> InMemoryInverted { self.inverted }
    pub closed spec fn forward_store(&self) -> InMemoryForward { self.forward }
    pub closed spec fn span_store(&self) -> MappedSpans { self.spans }
    pub closed spec fn lexicon_store(&self) -> InMemoryLexicon { self.lexicon }
    pub closed spec fn alignment_store(&self) -> AlignmentIndex { self.alignments }
    pub closed spec fn sentence_id_store(&self) -> Option<MappedSentenceIds> { self.sentence_ids }
    pub closed spec fn mwt_store(&self) -> Option<MappedMWTs> { self.mwts }
    pub closed spec fn spacing_store(&self) -> Option<SpacingIndex> { self.spacing }
    pub closed spec fn empty_node_store(&self) -> Option<EmptyNodeStore> { self.empty_nodes }

    /// The spans of layer `document`, when there is one.
    pub open spec fn document_spans(&self) -> Option<Seq<Span>> {
        self.span_store().layer_named("document"@)
    }

    /// The spans of layer `sentence`, when there is one.
    pub open spec fn sentence_spans(&self) -> Option<Seq<Span>> {
        self.span_store().layer_named("sentence"@)
    }

    /// The document names, as text.
    pub open spec fn document_name_list(&self) -> Seq<Seq<char>> {
        string_views(self.meta_model().document_names@)
    }

    /// A corpus of the given parts. Refused when the metadata's version is not this library's,
    /// when the forward or span index does not have one value list per layer, when a span
    /// layer is out of order, or when the multi-word tokens are out of order or one does not
    /// end after it starts.
    ///
    /// Every index this library writes passes these checks (span layers and multi-word tokens
    /// are written sorted). They go further than reading the files needs: a corpus whose
    /// spans were out of order could be opened, but the lookups that search its spans by
    /// position (the sentence or document at a position, sentence ranges) would give wrong
    /// answers. The checks are what lets those lookups keep their contracts, so such files are
    /// refused here rather than opened.
    pub fn from_parts(parts: CorpusParts) -> (r: Result<Corpus, IndexError>)
        requires
            parts.inverted.wf(),
        ensures
            parts.meta.version != INDEX_VERSION ==> r == Err::<Corpus, IndexError>(
                IndexError::VersionMismatch { expected: INDEX_VERSION, found: parts.meta.version }),
            r is Ok <==> {
                &&& parts.meta.version == INDEX_VERSION
                &&& parts.forward.wf()
                &&& parts.spans.wf()
                &&& layers_ordered(parts.spans)
                &&& parts.mwts matches Some(m) ==> m.ordered()
            },
            r matches Ok(c) ==> {
                &&& c.path_model() == parts.path@
                &&& c.meta_model() == parts.meta
                &&& c.inverted_store() == parts.inverted
                &&& c.forward_store() == parts.forward
                &&& c.span_store() == parts.spans
                &&& c.lexicon_store() == parts.lexicon
                &&& c.alignment_store() == parts.alignments
                &&& c.sentence_id_store() == parts.sentence_ids
                &&& c.mwt_store() == parts.mwts
                &&& c.spacing_store() == parts.spacing
                &&& c.empty_node_store() == parts.empty_nodes
            },
    {
        if parts.meta.version != INDEX_VERSION {
            return Err(IndexError::VersionMismatch { expected: INDEX_VERSION, found: parts.meta.version });
        }
        if !parts.forward.is_consistent() {
            return Err(IndexError::Format("forward index has a layer without values".to_owned()));
        }
        if !parts.spans.is_consistent() {
            return Err(IndexError::Format("span index has a layer without spans".to_owned()));
        }
        let documents_ordered = match parts.spans.spans("document") {
            Some(d) => disjoint_sorted_exec(d),
            None => true,
        };
        let sentences_ordered = match parts.spans.spans("sentence") {
            Some(d) => disjoint_sorted_exec(d),
            None => true,
        };
        if !documents_ordered || !sentences_ordered {
            return Err(IndexError::Format("document or sentence spans are out of order".to_owned()));
        }
        let ordered = match &parts.mwts {
            Some(m) => m.is_ordered(),
            None => true,
        };
        if !ordered {
            return Err(IndexError::Format("multi-word tokens are out of order".to_owned()));
        }
        Ok(Corpus {
            path: parts.path,
            meta: parts.meta,
            inverted: parts.inverted,
            forward: parts.forward,
            spans: parts.spans,
            lexicon: parts.lexicon,
            alignments: parts.alignments,
            sentence_ids: parts.sentence_ids,
            mwts: parts.mwts,
            spacing: parts.spacing,
            empty_nodes: parts.empty_nodes,
        })
    }

    pub fn path(&self) -> (r: &str)
        ensures
            r@ == self.path_model(),
    {
        self.path.as_str()
    }

    pub fn meta(&self) -> (r: &CorpusMeta)
        ensures
            *r == self.meta_model(),
    {
        &self.meta
    }

    pub fn inverted(&self) -> (r: &InMemoryInverted)
        ensures
            *r == self.inverted_store(),
            r.wf(),
    {
        proof { use_type_invariant(self); }
        &self.inverted
    }

    pub fn forward(&self) -> (r: &InMemoryForward)
        ensures
            *r == self.forward_store(),
            r.wf(),
    {
        proof { use_type_invariant(self); }
        &self.forward
    }

    pub fn spans(&self) -> (r: &MappedSpans)
        ensures
            *r == self.span_store(),
            r.wf(),
            layers_ordered(*r),
    {
        proof { use_type_invariant(self); }
        &self.spans
    }

    pub fn lexicon(&self) -> (r: &InMemoryLexicon)
        ensures
            *r == self.lexicon_store(),
    {
        &self.lexicon
    }

    pub fn alignment_metas(&self) -> (r: &[AlignmentMeta])
        ensures
            r@ == self.meta_model().alignments@,
    {
        self.meta.alignments.as_slice()
    }

    pub fn name(&self) -> (r: &str)
        ensures
            r@ == self.meta_model().name@,
    {
        self.meta.name.as_str()
    }

    pub fn token_count(&self) -> (n: u64)
        ensures
            n == self.meta_model().token_count,
    {
        self.meta.token_count
    }

    pub fn layers(&self) -> (r: &[String])
        ensures
            r@ == self.meta_model().layers@,
    {
        self.meta.layers.as_slice()
    }

    pub fn span_layers(&self) -> (r: &[String])
        ensures
            r@ == self.meta_model().span_layers@,
    {
        self.meta.span_layers.as_slice()
    }

    pub fn document_names(&self) -> (r: &[String])
        ensures
            r@ == self.meta_model().document_names@,
    {
        self.meta.document_names.as_slice()
    }

    /// The name of the document whose span holds `position`.
    pub fn document_at(&self, position: u64) -> (r: Option<&str>)
        ensures
            self.document_spans() is None ==> r is None,
            r matches Some(s) ==> exists|i: int| {
                &&& 0 <= i < self.document_spans().unwrap().len()
                &&& i < self.document_name_list().len()
                &&& (#[trigger] self.document_spans().unwrap()[i]).spec_contains(position as int)
                &&& s@ == self.document_name_list()[i]
            },
            self.document_spans() is Some ==> spans_disjoint_sorted(self.document_spans().unwrap()),
            self.document_spans() is Some ==> (r is None <==>
                forall|i: int| 0 <= i < self.document_spans().unwrap().len()
                    && (#[trigger] self.document_spans().unwrap()[i]).spec_contains(position as int)
                    ==> i >= self.document_name_list().len()),
    {
        proof { use_type_invariant(self); }
        let doc_spans = match self.spans.spans("document") {
            Some(d) => d,
            None => return None,
        };
        let idx = match span_containing(doc_spans, position) {
            Some(i) => i,
            None => return None,
        };
        if idx < self.meta.document_names.len() {
            proof {
                assert(self.document_name_list()[idx as int] == self.meta.document_names@[idx as int]@);
                assert(self.document_spans().unwrap()[idx as int] == doc_spans@[idx as int]);
            }
            Some(self.meta.document_names[idx].as_str())
        } else {
            proof {
                if spans_disjoint_sorted(doc_spans@) {
                    assert forall|i: int| 0 <= i < doc_spans@.len() && (#[trigger] doc_spans@[i]).spec_contains(position as int)
                        implies i >= self.document_name_list().len() by {
                        if i != idx {
                            if i < idx {
                                assert(doc_spans@[i].end <= doc_spans@[idx as int].start);
                            } else {
                                assert(doc_spans@[idx as int].end <= doc_spans@[i].start);
                            }
                        }
                    }
                }
            }
            None
        }
    }

    /// The index of the first document named `name`.
    pub fn document_index_by_name(&self, name: &str) -> (r: Option<usize>)
        ensures
            match r {
                Some(i) => first_index_of(self.document_name_list(), name@) == i,
                None => first_index_of(self.document_name_list(), name@) == -1,
            },
    {
        match find_name(&self.meta.document_names, name) {
            Some(i) => {
                proof {
                    assert forall|k: int| 0 <= k < i implies self.document_name_list()[k] != name@ by {
                        assert(self.document_name_list()[k] == self.meta.document_names@[k]@);
                    }
                    crate::forward::lemma_first_index_of(self.document_name_list(), name@, i as int);
                }
                Some(i)
            },
            None => {
                proof {
                    assert forall|k: int| 0 <= k < self.document_name_list().len() implies self.document_name_list()[k] != name@ by {
                        assert(self.document_name_list()[k] == self.meta.document_names@[k]@);
                    }
                    crate::forward::lemma_first_index_absent(self.document_name_list(), name@);
                }
                None
            },
        }
    }

    /// The indexes, in order, of the documents whose name is among `names`.
    pub fn document_indices_by_name(&self, names: &[String]) -> (r: Vec<usize>)
        ensures
            forall|k: int, l: int| 0 <= k < l < r@.len() ==> r@[k] < r@[l],
            forall|k: int| 0 <= k < r@.len() ==> (#[trigger] r@[k]) < self.document_name_list().len()
                && string_views(names@).contains(self.document_name_list()[r@[k] as int]),
            forall|i: int| 0 <= i < self.document_name_list().len() && string_views(names@).contains(#[trigger] self.document_name_list()[i])
                ==> r@.contains(i as usize),
    {
        let mut r: Vec<usize> = Vec::new();
        let n = self.meta.document_names.len();
        let mut i: usize = 0;
        while i < n
            invariant
                0 <= i <= n,
                n == self.meta.document_names@.len(),
                n == self.document_name_list().len(),
                forall|k: int| 0 <= k < r@.len() ==> (#[trigger] r@[k]) < i,
                forall|k: int, l: int| 0 <= k < l < r@.len() ==> r@[k] < r@[l],
                forall|k: int| 0 <= k < r@.len() ==> string_views(names@).contains(self.document_name_list()[#[trigger] r@[k] as int]),
                forall|j: int| 0 <= j < i && string_views(names@).contains(#[trigger] self.document_name_list()[j])
                    ==> r@.contains(j as usize),
            decreases n - i,
        {
            proof { assert(self.document_name_list()[i as int] == self.meta.document_names@[i as int]@); }
            if contains_name(names, self.meta.document_names[i].as_str()) {
                let ghost r0 = r@;
                r.push(i);
                proof {
                    assert(r@[r@.len() - 1] == i);
                    assert forall|j: int| 0 <= j < i + 1 && string_views(names@).contains(#[trigger] self.document_name_list()[j])
                        implies r@.contains(j as usize) by {
                        if j < i {
                            let k = choose|k: int| 0 <= k < r0.len() && r0[k] == j as usize;
                            assert(r@[k] == j as usize);
                        } else {
                            assert(r@[r@.len() - 1] == j as usize);
                        }
                    }
                }
            }
            i = i + 1;
        }
        r
    }

    pub fn components(&self) -> (r: &[ComponentMeta])
        ensures
            r@ == self.meta_model().components@,
    {
        self.meta.components.as_slice()
    }

    /// The first component named `name`.
    pub fn component(&self, name: &str) -> (r: Option<&ComponentMeta>)
        ensures
            r matches Some(c) ==> exists|i: int| {
                &&& 0 <= i < self.meta_model().components@.len()
                &&& *c == #[trigger] self.meta_model().components@[i]
                &&& c.name@ == name@
                &&& forall|j: int| 0 <= j < i ==> self.meta_model().components@[j].name@ != name@
            },
            r is None ==> forall|j: int| 0 <= j < self.meta_model().components@.len()
                ==> (#[trigger] self.meta_model().components@[j]).name@ != name@,
    {
        let mut i: usize = 0;
        while i < self.meta.components.len()
            invariant
                0 <= i <= self.meta.components@.len(),
                forall|j: int| 0 <= j < i ==> (#[trigger] self.meta.components@[j]).name@ != name@,
            decreases self.meta.components@.len() - i,
        {
            if str_eq(self.meta.components[i].name.as_str(), name) {
                proof { assert(self.meta_model().components@[i as int] == self.meta.components@[i as int]); }
                return Some(&self.meta.components[i]);
            }
            i = i + 1;
        }
        None
    }

    /// The first component whose document range holds `doc_index`.
    pub fn component_for_document(&self, doc_index: usize) -> (r: Option<&ComponentMeta>)
        ensures
            r matches Some(c) ==> exists|i: int| {
                &&& 0 <= i < self.meta_model().components@.len()
                &&& *c == #[trigger] self.meta_model().components@[i]
                &&& c.document_range.0 <= doc_index < c.document_range.1
                &&& forall|j: int| 0 <= j < i ==> !((#[trigger] self.meta_model().components@[j]).document_range.0 <= doc_index
                    < self.meta_model().components@[j].document_range.1)
            },
            r is None ==> forall|j: int| 0 <= j < self.meta_model().components@.len()
                ==> !((#[trigger] self.meta_model().components@[j]).document_range.0 <= doc_index
                    < self.meta_model().components@[j].document_range.1),
    {
        let mut i: usize = 0;
        while i < self.meta.components.len()
            invariant
                0 <= i <= self.meta.components@.len(),
                forall|j: int| 0 <= j < i ==> !((#[trigger] self.meta.components@[j]).document_range.0 <= doc_index
                    < self.meta.components@[j].document_range.1),
            decreases self.meta.components@.len() - i,
        {
            let c = &self.meta.components[i];
            if doc_index >= c.document_range.0 && doc_index < c.document_range.1 {
                proof { assert(self.meta_model().components@[i as int] == self.meta.components@[i as int]); }
                return Some(c);
            }
            i = i + 1;
        }
        None
    }

    /// Whether the corpus has more than one component.
    pub fn is_multi_component(&self) -> (b: bool)
        ensures
            b == (self.meta_model().components@.len() > 1),
    {
        self.meta.components.len() > 1
    }

    /// The first alignment named `name`.
    pub fn alignment_meta(&self, name: &str) -> (r: Option<&AlignmentMeta>)
        ensures
            r matches Some(a) ==> exists|i: int| {
                &&& 0 <= i < self.meta_model().alignments@.len()
                &&& *a == #[trigger] self.meta_model().alignments@[i]
                &&& a.name@ == name@
                &&& forall|j: int| 0 <= j < i ==> self.meta_model().alignments@[j].name@ != name@
            },
            r is None ==> forall|j: int| 0 <= j < self.meta_model().alignments@.len()
                ==> (#[trigger] self.meta_model().alignments@[j]).name@ != name@,
    {
        let mut i: usize = 0;
        while i < self.meta.alignments.len()
            invariant
                0 <= i <= self.meta.alignments@.len(),
                forall|j: int| 0 <= j < i ==> (#[trigger] self.meta.alignments@[j]).name@ != name@,
            decreases self.meta.alignments@.len() - i,
        {
            if str_eq(self.meta.alignments[i].name.as_str(), name) {
                proof { assert(self.meta_model().alignments@[i as int] == self.meta.alignments@[i as int]); }
                return Some(&self.meta.alignments[i]);
            }
            i = i + 1;
        }
        None
    }

    /// The edges of alignment `name`.
    pub fn alignment_edges(&self, name: &str) -> (r: Option<&[(UnitId, UnitId)]>)
        ensures
            r is Some <==> self.alignment_store().edges_of(name@) is Some,
            r matches Some(e) ==> Some(e@) == self.alignment_store().edges_of(name@),
    {
        self.alignments.get(name)
    }

    /// The span of document `doc_index`.
    pub fn document_span(&self, doc_index: usize) -> (r: Option<Span>)
        ensures
            r == match self.document_spans() {
                Some(d) => if doc_index < d.len() { Some(d[doc_index as int]) } else { None },
                None => None,
            },
    {
        proof { use_type_invariant(self); }
        match self.spans.spans("document") {
            Some(d) => if doc_index < d.len() { Some(d[doc_index]) } else { None },
            None => None,
        }
    }

    /// The span of sentence `sent_index`.
    pub fn sentence_span(&self, sent_index: usize) -> (r: Option<Span>)
        ensures
            r == match self.sentence_spans() {
                Some(d) => if sent_index < d.len() { Some(d[sent_index as int]) } else { None },
                None => None,
            },
    {
        proof { use_type_invariant(self); }
        match self.spans.spans("sentence") {
            Some(d) => if sent_index < d.len() { Some(d[sent_index]) } else { None },
            None => None,
        }
    }

    /// The sentences of document `doc_index`, with their indexes: those that start inside the
    /// document and end no later than it, scanned from the first that does not start before it.
    pub fn sentences_in_document(&self, doc_index: usize) -> (r: Option<Vec<(usize, Span)>>)
        ensures
            r is None <==> (self.document_span_spec(doc_index) is None || self.sentence_spans() is None),
            r matches Some(v) ==> sentence_listing(self.document_span_spec(doc_index).unwrap(), self.sentence_spans().unwrap(), v@),
            self.sentence_spans() is Some ==> starts_sorted(self.sentence_spans().unwrap()),
            self.sentence_spans() is Some ==> spans_disjoint_sorted(self.sentence_spans().unwrap()),
    {
        proof { use_type_invariant(self); }
        let doc = match self.document_span(doc_index) {
            Some(d) => d,
            None => return None,
        };
        let sents = match self.spans.spans("sentence") {
            Some(s) => s,
            None => return None,
        };
        let first = first_start_at_or_after(sents, doc.start);
        let mut result: Vec<(usize, Span)> = Vec::new();
        let mut i: usize = first;
        while i < sents.len()
            invariant_except_break
                first <= i <= sents@.len(),
                starts_sorted(sents@) ==> forall|j: int| 0 <= j < first ==> sents@[j].start < doc.start,
                forall|k: int, l: int| 0 <= k < l < result@.len() ==> result@[k].0 < result@[l].0,
                forall|k: int| 0 <= k < result@.len() ==> (#[trigger] result@[k]).0 < i,
                forall|k: int| 0 <= k < result@.len() ==> (#[trigger] result@[k]).0 >= first,
                forall|k: int| 0 <= k < result@.len() ==> (#[trigger] result@[k]).1 == sents@[result@[k].0 as int]
                    && result@[k].1.start < doc.end && result@[k].1.end <= doc.end,
                forall|j: int| first <= j < i && sentence_within(doc, #[trigger] sents@[j])
                    ==> exists|k: int| 0 <= k < result@.len() && result@[k].0 == j,
            ensures
                forall|k: int, l: int| 0 <= k < l < result@.len() ==> result@[k].0 < result@[l].0,
                forall|k: int| 0 <= k < result@.len() ==> (#[trigger] result@[k]).0 >= first && result@[k].0 < sents@.len(),
                forall|k: int| 0 <= k < result@.len() ==> (#[trigger] result@[k]).1 == sents@[result@[k].0 as int]
                    && result@[k].1.start < doc.end && result@[k].1.end <= doc.end,
                starts_sorted(sents@) ==> forall|j: int| first <= j < sents@.len() && sentence_within(doc, #[trigger] sents@[j])
                    ==> exists|k: int| 0 <= k < result@.len() && result@[k].0 == j,
            decreases sents@.len() - i,
        {
            let span = sents[i];
            if span.start >= doc.end {
                proof {
                    assert forall|j: int| first <= j < sents@.len() && sentence_within(doc, #[trigger] sents@[j]) && starts_sorted(sents@)
                        implies exists|k: int| 0 <= k < result@.len() && result@[k].0 == j by {
                        if j >= i {
                            assert(sents@[i as int].start <= sents@[j].start);
                        }
                    }
                }
                break;
            }
            if span.end <= doc.end {
                let ghost r0 = result@;
                result.push((i, span));
                proof {
                    assert forall|j: int| first <= j < i + 1 && sentence_within(doc, #[trigger] sents@[j])
                        implies exists|k: int| 0 <= k < result@.len() && result@[k].0 == j by {
                        if j < i {
                            let k = choose|k: int| 0 <= k < r0.len() && r0[k].0 == j;
                            assert(result@[k] == r0[k]);
                        } else {
                            assert(result@[r0.len() as int].0 == j);
                        }
                    }
                }
            }
            i = i + 1;
        }
        proof {
            assert(doc == self.document_span_spec(doc_index).unwrap());
            assert(sents@ == self.sentence_spans().unwrap());
            if starts_sorted(sents@) {
                assert forall|k: int| 0 <= k < result@.len() implies sentence_within(doc, (#[trigger] result@[k]).1) by {
                    let j = result@[k].0 as int;
                    assert(j >= first);
                    if sents@[j].start < doc.start {
                        assert(sents@[first as int].start <= sents@[j].start);
                    }
                }
                assert forall|j: int| 0 <= j < sents@.len() && sentence_within(doc, #[trigger] sents@[j])
                    implies exists|k: int| 0 <= k < result@.len() && result@[k].0 == j by {
                    if j < first {
                        assert(sents@[j].start < doc.start);
                    }
                }
            }
            assert(sentence_listing(doc, sents@, result@));
        }
        Some(result)
    }

    /// The span of document `doc_index`, as `document_span` gives it.
    pub open spec fn document_span_spec(&self, doc_index: usize) -> Option<Span> {
        match self.document_spans() {
            Some(d) => if doc_index < d.len() { Some(d[doc_index as int]) } else { None },
            None => None,
        }
    }

    /// Sentence `sentence_index`'s id.
    pub fn sentence_id(&self, sentence_index: usize) -> (r: Option<&str>)
        ensures
            match self.sentence_id_store() {
                None => r is None,
                Some(ids) => if sentence_index < ids@.len() {
                    match r {
                        Some(s) => ids@[sentence_index as int] == Some(s@),
                        None => ids@[sentence_index as int] is None,
                    }
                } else {
                    r is None
                },
            },
    {
        match &self.sentence_ids {
            Some(ids) => ids.get(sentence_index),
            None => None,
        }
    }

    /// The number of sentence ids, `0` when there are none.
    pub fn sentence_id_count(&self) -> (n: usize)
        ensures
            n == match self.sentence_id_store() {
                Some(ids) => ids@.len(),
                None => 0,
            },
    {
        match &self.sentence_ids {
            Some(ids) => ids.len(),
            None => 0,
        }
    }
}

impl Corpus {
    /// The multi-word tokens that `mwts_in_range(start, end)` gives: from the first that ends
    /// after `start`, in order, up to the first that starts at or after `end` or cannot be read.
    pub open spec fn mwts_between(&self, start: u64, end: u64) -> Seq<MwtV> {
        match self.mwt_store() {
            Some(m) => mwt_run(m@, first_ending_after(m.ends(), start), end),
            None => Seq::empty(),
        }
    }

    /// The text of the `word` layer at `p`, when it holds text there.
    pub open spec fn word_at(&self, p: int) -> Option<Seq<char>> {
        let f = self.forward_store()@;
        let idx = first_index_of(f.layers, "word"@);
        if idx >= 0 && 0 <= p < f.data[idx].len() {
            match f.data[idx][p] {
                ValueModel::Str(t) => Some(t),
                ValueModel::Int(_) => None,
            }
        } else {
            None
        }
    }

    /// Whether the spacing index says that no space follows position `p` (cut to 32 bits).
    pub open spec fn no_space_after_at(&self, p: int) -> bool {
        match self.spacing_store() {
            Some(sp) => sp.positions().contains(p as u64 as u32),
            None => false,
        }
    }

    /// The text of positions `[start, end)`, as `surface_text` reads it.
    pub open spec fn surface_spec(&self, start: u64, end: u64) -> Seq<char> {
        surface_walk(self.mwts_between(start, end), |p: int| self.word_at(p), |p: int| self.no_space_after_at(p),
            start as int, end as int, true)
    }

    /// The multi-word token that covers `position`: the last one starting at or before it, when
    /// it can be read and ends after it.
    pub fn mwt_covering(&self, position: u64) -> (r: Option<MWTEntry>)
        ensures
            self.mwt_store() is None ==> r is None,
            r matches Some(e) ==> e.start <= position < e.end && exists|i: int|
                0 <= i < self.mwt_store().unwrap()@.len() && #[trigger] self.mwt_store().unwrap()@[i] == Some(crate::formats::mwt::mwt_v(e)),
            r matches Some(e) ==> forall|k: int| 0 <= k < self.mwt_store().unwrap()@.len()
                && self.mwt_store().unwrap().starts()[k] <= position ==> #[trigger] self.mwt_store().unwrap().starts()[k] <= e.start,
            (self.mwt_store() matches Some(m) && forall|k: int| 0 <= k < m@.len() ==> #[trigger] m@[k] is Some) ==> (r is None
                ==> forall|k: int| 0 <= k < self.mwt_store().unwrap()@.len()
                    && #[trigger] self.mwt_store().unwrap().starts()[k] <= position
                    && (forall|j: int| k < j < self.mwt_store().unwrap()@.len() ==> self.mwt_store().unwrap().starts()[j] > position)
                    ==> self.mwt_store().unwrap().ends()[k] <= position),
    {
        proof { use_type_invariant(self); }
        match &self.mwts {
            Some(m) => {
                proof { m.lemma_ordered(); }
                m.covering(position)
            },
            None => None,
        }
    }

    /// The multi-word tokens in `[start, end)`, as `mwts_between` says.
    pub fn mwts_in_range(&self, start: u64, end: u64) -> (r: Vec<MWTEntry>)
        ensures
            mwt_views(r@) == self.mwts_between(start, end),
    {
        proof { use_type_invariant(self); }
        match &self.mwts {
            Some(m) => {
                proof { m.lemma_ordered(); }
                m.in_range(start, end)
            },
            None => {
                let r: Vec<MWTEntry> = Vec::new();
                proof { assert(mwt_views(r@) =~= Seq::<MwtV>::empty()); }
                r
            },
        }
    }

    /// Whether no space follows the token at `position`; `false` without a spacing index.
    pub fn has_no_space_after(&self, position: u64) -> (r: bool)
        ensures
            r == self.no_space_after_at(position as int),
    {
        match &self.spacing {
            Some(sp) => sp.has_no_space_after(position),
            None => false,
        }
    }

    /// The empty nodes, when the corpus has them.
    pub fn empty_nodes(&self) -> (r: Option<&EmptyNodeStore>)
        ensures
            r is None <==> self.empty_node_store() is None,
            r matches Some(e) ==> self.empty_node_store() == Some(*e),
    {
        match &self.empty_nodes {
            Some(e) => Some(e),
            None => None,
        }
    }

    /// The running text of positions `[start, end)`: words separated by a space unless the
    /// spacing index says that none follows, with each multi-word token written once as its
    /// surface form in place of the words it covers.
    pub fn surface_text(&self, start: u64, end: u64) -> (r: String)
        ensures
            r@ == self.surface_spec(start, end),
    {
        proof { use_type_invariant(self); }
        let mwts = self.mwts_in_range(start, end);
        let ghost ms = mwt_views(mwts@);
        let ghost words = |p: int| self.word_at(p);
        let ghost nsa = |p: int| self.no_space_after_at(p);
        let mut result = String::new();
        let mut suppress_space = true;
        let mut pos = start;
        proof {
            reveal_strlit(" ");
            assert(result@ + surface_walk(ms, words, nsa, pos as int, end as int, suppress_space)
                =~= surface_walk(ms, words, nsa, start as int, end as int, true));
        }
        while pos < end
            invariant
                self.forward.wf(),
                ms == mwt_views(mwts@),
                words == (|p: int| self.word_at(p)),
                nsa == (|p: int| self.no_space_after_at(p)),
                " "@ == seq![' '],
                result@ + surface_walk(ms, words, nsa, pos as int, end as int, suppress_space)
                    == surface_walk(ms, words, nsa, start as int, end as int, true),
            decreases end - pos,
        {
            let ghost r0 = result@;
            let ghost p0 = pos as int;
            let ghost s0 = suppress_space;
            let ghost sep: Seq<char> = if s0 { Seq::empty() } else { seq![' '] };
            proof { lemma_mwt_at(ms, pos as int, 0); }
            match mwt_starting_at(&mwts, pos) {
                Some(k) => {
                    if !suppress_space {
                        result.append(" ");
                    }
                    result.append(mwts[k].form.as_str());
                    suppress_space = mwts[k].no_space_after;
                    proof {
                        assert(ms[k as int] == crate::formats::mwt::mwt_v(mwts@[k as int]));
                        assert(result@ == r0 + sep + ms[k as int].form);
                    }
                    if mwts[k].end >= end {
                        proof {
                            assert(surface_walk(ms, words, nsa, mwts@[k as int].end as int, end as int, suppress_space) =~= Seq::<char>::empty());
                            assert(r0 + (sep + ms[k as int].form + Seq::<char>::empty()) =~= result@ + Seq::<char>::empty());
                        }
                        pos = end;
                        proof { assert(surface_walk(ms, words, nsa, pos as int, end as int, suppress_space) =~= Seq::<char>::empty()); }
                    } else {
                        pos = mwts[k].end;
                        proof {
                            assert(r0 + (sep + ms[k as int].form + surface_walk(ms, words, nsa, pos as int, end as int, suppress_space))
                                =~= result@ + surface_walk(ms, words, nsa, pos as int, end as int, suppress_space));
                        }
                    }
                },
                None => {
                    if inside_mwt_exec(&mwts, pos) {
                        pos = pos + 1;
                    } else {
                        if !suppress_space {
                            result.append(" ");
                        }
                        let ghost r1 = result@;
                        match self.forward.get_str(pos, "word") {
                            Some(word) => { result.append(word); },
                            None => {},
                        }
                        proof { assert(result@ == r1 + word_text(self.word_at(p0))); }
                        suppress_space = self.has_no_space_after(pos);
                        pos = pos + 1;
                        proof {
                            assert(r0 + (sep + word_text(words(p0)) + surface_walk(ms, words, nsa, pos as int, end as int, suppress_space))
                                =~= result@ + surface_walk(ms, words, nsa, pos as int, end as int, suppress_space));
                        }
                    }
                },
            }
        }
        proof {
            assert(surface_walk(ms, words, nsa, pos as int, end as int, suppress_space) =~= Seq::<char>::empty());
            assert(result@ + Seq::<char>::empty() =~= result@);
        }
        result
    }
}

/// How the values of a forward layer are stored.
#[derive(Clone, Copy, Debug, PartialEq, Eq, Structural)]
pub enum LayerKind {
    /// Text values.
    String,
    /// Integer values (some value of the layer is an integer).
    Int,
}

impl Corpus {
    /// The kind of forward layer `layer`: integers when some value of it is an integer.
    pub open spec fn layer_kind_spec(&self, layer: Seq<char>) -> Option<LayerKind> {
        let f = self.forward_store()@;
        let idx = first_index_of(f.layers, layer);
        if idx < 0 {
            None
        } else if crate::formats::forward_flat::has_int(f.data[idx]) {
            Some(LayerKind::Int)
        } else {
            Some(LayerKind::String)
        }
    }

    /// The kind of forward layer `layer`, when the corpus has it.
    pub fn layer_kind(&self, layer: &str) -> (r: Option<LayerKind>)
        ensures
            r == self.layer_kind_spec(layer@),
    {
        proof { use_type_invariant(self); }
        match self.forward.layer_data(layer) {
            Some(d) => {
                if crate::formats::forward_flat::is_numeric_layer(d) {
                    Some(LayerKind::Int)
                } else {
                    Some(LayerKind::String)
                }
            },
            None => None,
        }
    }

    /// The index of the document whose span holds `position`.
    pub fn document_for_position(&self, position: u64) -> (r: Option<usize>)
        ensures
            self.document_spans() is None ==> r is None,
            r matches Some(i) ==> i < self.document_spans().unwrap().len()
                && self.document_spans().unwrap()[i as int].spec_contains(position as int),
            self.document_spans() is Some ==> spans_disjoint_sorted(self.document_spans().unwrap()),
            self.document_spans() is Some ==> (r is None
                <==> !crate::span::some_span_contains(self.document_spans().unwrap(), position as int)),
    {
        proof { use_type_invariant(self); }
        match self.spans.spans("document") {
            Some(d) => span_containing(d, position),
            None => None,
        }
    }

    /// The index of the first sentence of document `doc_index`, as `first_sentence_spec` says.
    pub fn first_sentence_of_document(&self, doc_index: usize) -> (r: Option<usize>)
        ensures
            r == self.first_sentence_spec(doc_index),
            r matches Some(f) ==> f < self.sentence_spans().unwrap().len(),
    {
        let v = match self.sentences_in_document(doc_index) {
            Some(v) => v,
            None => return None,
        };
        proof {
            self.lemma_listing_ends(doc_index, v@);
            let d = self.document_span_spec(doc_index).unwrap();
            let s = self.sentence_spans().unwrap();
            if v@.len() > 0 {
                let f = v@[0].0 as int;
                lemma_first_within(d, s, f);
                let c = choose|i: int| is_first_within(d, s, i);
                assert(c == f) by {
                    if c < f { assert(!sentence_within(d, s[c])); }
                    if f < c { assert(!sentence_within(d, s[f])); }
                }
            }
        }
        if v.len() == 0 {
            None
        } else {
            Some(v[0].0)
        }
    }

    /// The index of the last sentence of document `doc_index`, as `last_sentence_spec` says.
    pub fn last_sentence_of_document(&self, doc_index: usize) -> (r: Option<usize>)
        ensures
            r == self.last_sentence_spec(doc_index),
            r matches Some(l) ==> l < self.sentence_spans().unwrap().len(),
    {
        let v = match self.sentences_in_document(doc_index) {
            Some(v) => v,
            None => return None,
        };
        proof {
            self.lemma_listing_ends(doc_index, v@);
            let d = self.document_span_spec(doc_index).unwrap();
            let s = self.sentence_spans().unwrap();
            if v@.len() > 0 {
                let l = v@[v@.len() - 1].0 as int;
                lemma_last_within(d, s, l);
                let c = choose|i: int| is_last_within(d, s, i);
                assert(c == l) by {
                    if c < l { assert(!sentence_within(d, s[l])); }
                    if l < c { assert(!sentence_within(d, s[c])); }
                }
            }
        }
        if v.len() == 0 {
            None
        } else {
            Some(v[v.len() - 1].0)
        }
    }

    /// A document has a first sentence exactly when it has a last one; the first comes no later
    /// than the last, and both belong to the document.
    pub proof fn lemma_sentence_bounds(&self, doc_index: usize)
        requires
            self.sentence_spans() matches Some(s) ==> s.len() <= usize::MAX,
        ensures
            self.first_sentence_spec(doc_index) is Some <==> self.last_sentence_spec(doc_index) is Some,
            self.first_sentence_spec(doc_index) is Some ==> ({
                let f = self.first_sentence_spec(doc_index).unwrap() as int;
                let l = self.last_sentence_spec(doc_index).unwrap() as int;
                let d = self.document_span_spec(doc_index).unwrap();
                let s = self.sentence_spans().unwrap();
                &&& 0 <= f <= l < s.len()
                &&& sentence_within(d, s[f])
                &&& sentence_within(d, s[l])
            }),
    {
        match (self.document_span_spec(doc_index), self.sentence_spans()) {
            (Some(d), Some(s)) => {
                if exists|i: int| 0 <= i < s.len() && sentence_within(d, #[trigger] s[i]) {
                    let i = choose|i: int| 0 <= i < s.len() && sentence_within(d, #[trigger] s[i]);
                    lemma_first_within(d, s, i);
                    lemma_last_within(d, s, i);
                    let f = choose|k: int| is_first_within(d, s, k);
                    let l = choose|k: int| is_last_within(d, s, k);
                    if l < f {
                        assert(!sentence_within(d, s[l]));
                    }
                }
            },
            _ => {},
        }
    }

    /// The first sentence that belongs to document `doc_index`, when the document and the
    /// sentence layer exist and one does.
    pub open spec fn first_sentence_spec(&self, doc_index: usize) -> Option<usize> {
        match (self.document_span_spec(doc_index), self.sentence_spans()) {
            (Some(d), Some(s)) => if exists|i: int| 0 <= i < s.len() && sentence_within(d, #[trigger] s[i]) {
                Some((choose|i: int| is_first_within(d, s, i)) as usize)
            } else {
                None
            },
            _ => None,
        }
    }

    /// The last sentence that belongs to document `doc_index`, when the document and the
    /// sentence layer exist and one does.
    pub open spec fn last_sentence_spec(&self, doc_index: usize) -> Option<usize> {
        match (self.document_span_spec(doc_index), self.sentence_spans()) {
            (Some(d), Some(s)) => if exists|i: int| 0 <= i < s.len() && sentence_within(d, #[trigger] s[i]) {
                Some((choose|i: int| is_last_within(d, s, i)) as usize)
            } else {
                None
            },
            _ => None,
        }
    }

    /// In a listing of a document's sentences, the first entry has the least index and the last
    /// the greatest, and the listing is empty exactly when no sentence belongs to the document.
    proof fn lemma_listing_ends(&self, doc_index: usize, v: Seq<(usize, Span)>)
        requires
            self.document_span_spec(doc_index) is Some,
            self.sentence_spans() is Some,
            sentence_listing(self.document_span_spec(doc_index).unwrap(), self.sentence_spans().unwrap(), v),
        ensures
            ({
                let d = self.document_span_spec(doc_index).unwrap();
                let s = self.sentence_spans().unwrap();
                &&& forall|k: int| 0 <= k < v.len() ==> (#[trigger] v[k]).0 < s.len()
                &&& starts_sorted(s) ==> (v.len() > 0 <==> exists|i: int| 0 <= i < s.len() && sentence_within(d, #[trigger] s[i]))
                &&& starts_sorted(s) && v.len() > 0 ==> sentence_within(d, s[v[0].0 as int])
                    && sentence_within(d, s[v[v.len() - 1].0 as int])
                &&& starts_sorted(s) ==> forall|i: int| 0 <= i < s.len() && sentence_within(d, #[trigger] s[i])
                    ==> v[0].0 <= i && i <= v[v.len() - 1].0
            }),
    {
        let d = self.document_span_spec(doc_index).unwrap();
        let s = self.sentence_spans().unwrap();
        if starts_sorted(s) {
            if v.len() > 0 {
                assert(sentence_within(d, v[0].1));
                assert(sentence_within(d, v[v.len() - 1].1));
                assert(sentence_within(d, s[v[0].0 as int]));
            }
            assert forall|i: int| 0 <= i < s.len() && sentence_within(d, #[trigger] s[i])
                implies v[0].0 <= i && i <= v[v.len() - 1].0 by {
                let k = choose|k: int| 0 <= k < v.len() && v[k].0 == i;
                if k > 0 {
                    assert(v[0].0 < v[k].0);
                }
                if k < v.len() - 1 {
                    assert(v[k].0 < v[v.len() - 1].0);
                }
            }
        }
    }
}

/// Sentence `i` belongs to `d` and none before it does.
pub open spec fn is_first_within(d: Span, s: Seq<Span>, i: int) -> bool {
    0 <= i < s.len() && sentence_within(d, s[i]) && forall|j: int| 0 <= j < i ==> !sentence_within(d, #[trigger] s[j])
}

/// Sentence `i` belongs to `d` and none after it does.
pub open spec fn is_last_within(d: Span, s: Seq<Span>, i: int) -> bool {
    0 <= i < s.len() && sentence_within(d, s[i]) && forall|j: int| i < j < s.len() ==> !sentence_within(d, #[trigger] s[j])
}

/// When some sentence belongs to `d`, a first one does.
pub proof fn lemma_first_within(d: Span, s: Seq<Span>, i: int)
    requires
        0 <= i < s.len(),
        sentence_within(d, s[i]),
    ensures
        exists|k: int| is_first_within(d, s, k),
    decreases i,
{
    if exists|j: int| 0 <= j < i && sentence_within(d, #[trigger] s[j]) {
        let j = choose|j: int| 0 <= j < i && sentence_within(d, #[trigger] s[j]);
        lemma_first_within(d, s, j);
    } else {
        assert(is_first_within(d, s, i));
    }
}

/// When some sentence belongs to `d`, a last one does.
pub proof fn lemma_last_within(d: Span, s: Seq<Span>, i: int)
    requires
        0 <= i < s.len(),
        sentence_within(d, s[i]),
    ensures
        exists|k: int| is_last_within(d, s, k),
    decreases s.len() - i,
{
    if exists|j: int| i < j < s.len() && sentence_within(d, #[trigger] s[j]) {
        let j = choose|j: int| i < j < s.len() && sentence_within(d, #[trigger] s[j]);
        lemma_last_within(d, s, j);
    } else {
        assert(is_last_within(d, s, i));
    }
}

/// The text of a word, or nothing where there is none.
pub open spec fn word_text(w: Option<Seq<char>>) -> Seq<char> {
    match w {
        Some(t) => t,
        None => Seq::empty(),
    }
}

/// The first token of `ms`, from index `k` on, that starts at `pos` and ends after it; `-1`
/// when there is none.
pub open spec fn mwt_at(ms: Seq<MwtV>, pos: int, k: int) -> int
    decreases ms.len() - k,
{
    if k < 0 || k >= ms.len() {
        -1
    } else if ms[k].start == pos && ms[k].end > pos {
        k
    } else {
        mwt_at(ms, pos, k + 1)
    }
}

/// `mwt_at` names a token that starts at `pos` and ends after it, or `-1`.
pub proof fn lemma_mwt_at(ms: Seq<MwtV>, pos: int, k: int)
    ensures
        mwt_at(ms, pos, k) == -1 || ({
            let r = mwt_at(ms, pos, k);
            &&& k <= r < ms.len()
            &&& ms[r].start == pos
            &&& ms[r].end > pos
        }),
        0 <= k ==> (mwt_at(ms, pos, k) == -1 ==> forall|j: int| k <= j < ms.len() ==> !(ms[j].start == pos && ms[j].end > pos)),
    decreases ms.len() - k,
{
    if 0 <= k < ms.len() && !(ms[k].start == pos && ms[k].end > pos) {
        lemma_mwt_at(ms, pos, k + 1);
    }
}

/// Some token of `ms` starts before `pos` and ends after it.
pub open spec fn inside_mwt(ms: Seq<MwtV>, pos: int) -> bool {
    exists|k: int| 0 <= k < ms.len() && (#[trigger] ms[k]).start < pos && pos < ms[k].end
}

/// The text that positions `[pos, end)` read as, given the multi-word tokens `ms`, the word at
/// each position, and whether no space follows each: a multi-word token that starts at a
/// position is written as its form and skips the positions it covers; a position inside one
/// that started earlier is skipped; any other position is written as its word. A space comes
/// before each piece written, except the first and those after a piece that no space follows.
pub open spec fn surface_walk(ms: Seq<MwtV>, words: spec_fn(int) -> Option<Seq<char>>, nsa: spec_fn(int) -> bool,
    pos: int, end: int, suppress: bool) -> Seq<char>
    decreases if pos < end { end - pos } else { 0 },
{
    if pos >= end {
        Seq::empty()
    } else {
        let sep: Seq<char> = if suppress { Seq::empty() } else { seq![' '] };
        let k = mwt_at(ms, pos, 0);
        if k >= 0 {
            proof { lemma_mwt_at(ms, pos, 0); }
            sep + ms[k].form + surface_walk(ms, words, nsa, ms[k].end as int, end, ms[k].no_space_after)
        } else if inside_mwt(ms, pos) {
            surface_walk(ms, words, nsa, pos + 1, end, suppress)
        } else {
            sep + word_text(words(pos)) + surface_walk(ms, words, nsa, pos + 1, end, nsa(pos))
        }
    }
}

/// At a position where something is written (no multi-word token started earlier covers
/// it), the text is that written with a space before it exactly when the previous piece did
/// not suppress one.
pub proof fn lemma_surface_space_before(ms: Seq<MwtV>, words: spec_fn(int) -> Option<Seq<char>>, nsa: spec_fn(int) -> bool,
    p: int, end: int)
    requires
        p < end,
        !inside_mwt(ms, p),
    ensures
        surface_walk(ms, words, nsa, p, end, false) == seq![' '] + surface_walk(ms, words, nsa, p, end, true),
{
    let k = mwt_at(ms, p, 0);
    lemma_mwt_at(ms, p, 0);
    if k >= 0 {
        assert(surface_walk(ms, words, nsa, p, end, false)
            =~= seq![' '] + surface_walk(ms, words, nsa, p, end, true));
    } else {
        assert(surface_walk(ms, words, nsa, p, end, false)
            =~= seq![' '] + surface_walk(ms, words, nsa, p, end, true));
    }
}

/// After a multi-word token is written, the next piece (written at the position where the
/// token ends) is preceded by a space exactly when the token's `no_space_after` is false; after
/// a word, exactly when no-space-after does not hold of its position. The first piece of the
/// text has a space before it only when the text does not start a line (`suppress` false).
pub proof fn lemma_surface_spacing(ms: Seq<MwtV>, words: spec_fn(int) -> Option<Seq<char>>, nsa: spec_fn(int) -> bool,
    pos: int, end: int, suppress: bool)
    requires
        pos < end,
        !inside_mwt(ms, pos),
    ensures
        ({
            let sep: Seq<char> = if suppress { Seq::empty() } else { seq![' '] };
            let k = mwt_at(ms, pos, 0);
            let out = surface_walk(ms, words, nsa, pos, end, suppress);
            &&& k >= 0 && ms[k].end < end && !inside_mwt(ms, ms[k].end as int) ==> out
                == sep + ms[k].form + (if ms[k].no_space_after { Seq::empty() } else { seq![' '] })
                    + surface_walk(ms, words, nsa, ms[k].end as int, end, true)
            &&& k < 0 && pos + 1 < end && !inside_mwt(ms, pos + 1) ==> out
                == sep + word_text(words(pos)) + (if nsa(pos) { Seq::empty() } else { seq![' '] })
                    + surface_walk(ms, words, nsa, pos + 1, end, true)
        }),
{
    let k = mwt_at(ms, pos, 0);
    lemma_mwt_at(ms, pos, 0);
    let sep: Seq<char> = if suppress { Seq::empty() } else { seq![' '] };
    if k >= 0 && ms[k].end < end && !inside_mwt(ms, ms[k].end as int) {
        let e = ms[k].end as int;
        lemma_surface_space_before(ms, words, nsa, e, end);
        if ms[k].no_space_after {
            assert(surface_walk(ms, words, nsa, pos, end, suppress)
                =~= sep + ms[k].form + Seq::<char>::empty() + surface_walk(ms, words, nsa, e, end, true));
        } else {
            assert(surface_walk(ms, words, nsa, pos, end, suppress)
                =~= sep + ms[k].form + seq![' '] + surface_walk(ms, words, nsa, e, end, true));
        }
    }
    if k < 0 && pos + 1 < end && !inside_mwt(ms, pos + 1) {
        lemma_surface_space_before(ms, words, nsa, pos + 1, end);
        if nsa(pos) {
            assert(surface_walk(ms, words, nsa, pos, end, suppress)
                =~= sep + word_text(words(pos)) + Seq::<char>::empty() + surface_walk(ms, words, nsa, pos + 1, end, true));
        } else {
            assert(surface_walk(ms, words, nsa, pos, end, suppress)
                =~= sep + word_text(words(pos)) + seq![' '] + surface_walk(ms, words, nsa, pos + 1, end, true));
        }
    }
}

/// The first entry that starts at `pos` and ends after it.
fn mwt_starting_at(ms: &Vec<MWTEntry>, pos: u64) -> (r: Option<usize>)
    ensures
        match r {
            Some(k) => k == mwt_at(mwt_views(ms@), pos as int, 0) && k < ms@.len(),
            None => mwt_at(mwt_views(ms@), pos as int, 0) == -1,
        },
{
    let ghost v = mwt_views(ms@);
    let mut i: usize = 0;
    while i < ms.len()
        invariant
            0 <= i <= ms@.len(),
            v == mwt_views(ms@),
            mwt_at(v, pos as int, 0) == mwt_at(v, pos as int, i as int),
        decreases ms@.len() - i,
    {
        proof { assert(v[i as int] == crate::formats::mwt::mwt_v(ms@[i as int])); }
        if ms[i].start == pos && ms[i].end > pos {
            return Some(i);
        }
        i = i + 1;
    }
    None
}

/// Whether some entry starts before `pos` and ends after it.
fn inside_mwt_exec(ms: &Vec<MWTEntry>, pos: u64) -> (r: bool)
    ensures
        r == inside_mwt(mwt_views(ms@), pos as int),
{
    let ghost v = mwt_views(ms@);
    let mut i: usize = 0;
    while i < ms.len()
        invariant
            0 <= i <= ms@.len(),
            v == mwt_views(ms@),
            forall|k: int| 0 <= k < i ==> !((#[trigger] v[k]).start < pos && pos < v[k].end),
        decreases ms@.len() - i,
    {
        proof { assert(v[i as int] == crate::formats::mwt::mwt_v(ms@[i as int])); }
        if ms[i].start < pos && pos < ms[i].end {
            return true;
        }
        i = i + 1;
    }
    false
}

/// Whether `name` is among `names`.
fn contains_name(names: &[String], name: &str) -> (r: bool)
    ensures
        r == string_views(names@).contains(name@),
{
    let mut i: usize = 0;
    while i < names.len()
        invariant
            0 <= i <= names@.len(),
            forall|k: int| 0 <= k < i ==> names@[k]@ != name@,
        decreases names@.len() - i,
    {
        if str_eq(names[i].as_str(), name) {
            proof { assert(string_views(names@)[i as int] == name@); }
            return true;
        }
        i = i + 1;
    }
    proof {
        if string_views(names@).contains(name@) {
            let k = choose|k: int| 0 <= k < string_views(names@).len() && string_views(names@)[k] == name@;
            assert(names@[k]@ == name@);
        }
    }
    false
}

/// The first span that does not start before `position`, by bisection; when the spans are in
/// order of start, every span before it starts before `position` and none after it does.
fn first_start_at_or_after(spans: &[Span], position: u64) -> (r: usize)
    ensures
        r <= spans@.len(),
        starts_sorted(spans@) ==> forall|k: int| 0 <= k < r ==> spans@[k].start < position,
        starts_sorted(spans@) ==> forall|k: int| r <= k < spans@.len() ==> spans@[k].start >= position,
{
    let mut lo: usize = 0;
    let mut hi: usize = spans.len();
    while lo < hi
        invariant
            0 <= lo <= hi <= spans@.len(),
            starts_sorted(spans@) ==> forall|k: int| 0 <= k < lo ==> spans@[k].start < position,
            starts_sorted(spans@) ==> forall|k: int| hi <= k < spans@.len() ==> spans@[k].start >= position,
        decreases hi - lo,
    {
        let mid = lo + (hi - lo) / 2;
        if spans[mid].start < position {
            lo = mid + 1;
        } else {
            hi = mid;
        }
    }
    lo
}

} // verus!
