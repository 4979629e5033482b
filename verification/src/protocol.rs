//! Messages and shared types of the daemon protocol.
pub mod error_codes;

use vstd::prelude::*;
use crate::span::Span;

verus! {

pub type ProcessId = u32;
pub type AnchorId = u32;
pub type ResultHandle = String;

pub const PROTOCOL_VERSION: u32 = 1;

/// The role a connected process plays.
#[derive(Clone, Copy, Debug, PartialEq, Eq, Structural, Hash)]
pub enum ProcessKind {
    Reader,
    Kwic,
    Conllu,
    Docs,
    Vocab,
    Results,
    External,
}

/// The kinds of interest a process may publish or follow.
#[derive(Clone, Copy, Debug, PartialEq, Eq, Structural, Hash)]
pub enum InterestKind {
    Position,
    Span,
    Sentence,
    Hit,
    Results,
    Document,
}

/// What a process currently looks at.
#[derive(Debug)]
pub enum Interest {
    Position { doc: u32, position: u64 },
    Span { doc: u32, start: u64, end: u64 },
    Sentence { doc: u32, sent: u32 },
    Hit { result: ResultHandle, hit_idx: u64 },
    Results { handle: ResultHandle },
    Document { doc: u32 },
}

/// The kind of an interest, as a spec function.
pub open spec fn interest_kind(i: Interest) -> InterestKind {
    match i {
        Interest::Position { .. } => InterestKind::Position,
        Interest::Span { .. } => InterestKind::Span,
        Interest::Sentence { .. } => InterestKind::Sentence,
        Interest::Hit { .. } => InterestKind::Hit,
        Interest::Results { .. } => InterestKind::Results,
        Interest::Document { .. } => InterestKind::Document,
    }
}

/// Two interests say the same thing.
pub open spec fn same_interest(a: Interest, b: Interest) -> bool {
    match (a, b) {
        (Interest::Position { doc: d1, position: p1 }, Interest::Position { doc: d2, position: p2 }) => d1 == d2 && p1 == p2,
        (Interest::Span { doc: d1, start: s1, end: e1 }, Interest::Span { doc: d2, start: s2, end: e2 }) => d1 == d2 && s1 == s2 && e1 == e2,
        (Interest::Sentence { doc: d1, sent: s1 }, Interest::Sentence { doc: d2, sent: s2 }) => d1 == d2 && s1 == s2,
        (Interest::Hit { result: r1, hit_idx: h1 }, Interest::Hit { result: r2, hit_idx: h2 }) => r1@ == r2@ && h1 == h2,
        (Interest::Results { handle: h1 }, Interest::Results { handle: h2 }) => h1@ == h2@,
        (Interest::Document { doc: d1 }, Interest::Document { doc: d2 }) => d1 == d2,
        _ => false,
    }
}

impl Interest {
    pub fn kind(&self) -> (k: InterestKind)
        ensures
            k == interest_kind(*self),
    {
        match self {
            Interest::Position { .. } => InterestKind::Position,
            Interest::Span { .. } => InterestKind::Span,
            Interest::Sentence { .. } => InterestKind::Sentence,
            Interest::Hit { .. } => InterestKind::Hit,
            Interest::Results { .. } => InterestKind::Results,
            Interest::Document { .. } => InterestKind::Document,
        }
    }
}

impl Clone for Interest {
    fn clone(&self) -> (r: Self)
        ensures
            same_interest(r, *self),
    {
        match self {
            Interest::Position { doc, position } => Interest::Position { doc: *doc, position: *position },
            Interest::Span { doc, start, end } => Interest::Span { doc: *doc, start: *start, end: *end },
            Interest::Sentence { doc, sent } => Interest::Sentence { doc: *doc, sent: *sent },
            Interest::Hit { result, hit_idx } => Interest::Hit { result: result.clone(), hit_idx: *hit_idx },
            Interest::Results { handle } => Interest::Results { handle: handle.clone() },
            Interest::Document { doc } => Interest::Document { doc: *doc },
        }
    }
}

/// A connected process as the roster shows it.
#[derive(Debug)]
pub struct ProcessInfo {
    pub id: ProcessId,
    pub kind: ProcessKind,
    pub label: Option<String>,
    pub provides: Vec<InterestKind>,
    pub consumes: Vec<InterestKind>,
    pub current_interest: Option<Interest>,
}

/// How an anchor turns the master's interest into the follower's.
#[derive(Debug)]
pub enum AnchorKind {
    SentenceMirror,
    Alignment { name: String },
    KwicSelection,
    DocPickerSelection,
    NamedResultsSelection,
    ConlluView,
}

impl AnchorKind {
    /// The variant's name.
    pub fn variant_name(&self) -> (r: &'static str)
        ensures
            r@ == anchor_type_name(*self),
    {
        match self {
            AnchorKind::SentenceMirror => "SentenceMirror",
            AnchorKind::Alignment { .. } => "Alignment",
            AnchorKind::KwicSelection => "KwicSelection",
            AnchorKind::DocPickerSelection => "DocPickerSelection",
            AnchorKind::NamedResultsSelection => "NamedResultsSelection",
            AnchorKind::ConlluView => "ConlluView",
        }
    }
}

/// The variant's name, as a spec function.
pub open spec fn anchor_type_name(k: AnchorKind) -> Seq<char> {
    match k {
        AnchorKind::SentenceMirror => "SentenceMirror"@,
        AnchorKind::Alignment { .. } => "Alignment"@,
        AnchorKind::KwicSelection => "KwicSelection"@,
        AnchorKind::DocPickerSelection => "DocPickerSelection"@,
        AnchorKind::NamedResultsSelection => "NamedResultsSelection"@,
        AnchorKind::ConlluView => "ConlluView"@,
    }
}

impl Clone for AnchorKind {
    fn clone(&self) -> (r: Self)
        ensures
            same_anchor_kind(r, *self),
    {
        match self {
            AnchorKind::SentenceMirror => AnchorKind::SentenceMirror,
            AnchorKind::Alignment { name } => AnchorKind::Alignment { name: name.clone() },
            AnchorKind::KwicSelection => AnchorKind::KwicSelection,
            AnchorKind::DocPickerSelection => AnchorKind::DocPickerSelection,
            AnchorKind::NamedResultsSelection => AnchorKind::NamedResultsSelection,
            AnchorKind::ConlluView => AnchorKind::ConlluView,
        }
    }
}

/// Two anchor kinds are the same variant with the same contents.
pub open spec fn same_anchor_kind(a: AnchorKind, b: AnchorKind) -> bool {
    match (a, b) {
        (AnchorKind::Alignment { name: n1 }, AnchorKind::Alignment { name: n2 }) => n1@ == n2@,
        (AnchorKind::SentenceMirror, AnchorKind::SentenceMirror) => true,
        (AnchorKind::KwicSelection, AnchorKind::KwicSelection) => true,
        (AnchorKind::DocPickerSelection, AnchorKind::DocPickerSelection) => true,
        (AnchorKind::NamedResultsSelection, AnchorKind::NamedResultsSelection) => true,
        (AnchorKind::ConlluView, AnchorKind::ConlluView) => true,
        _ => false,
    }
}

/// A directed link: the follower tracks the master's interest through `kind`.
#[derive(Debug)]
pub struct Anchor {
    pub id: AnchorId,
    pub master: ProcessId,
    pub follower: ProcessId,
    pub kind: AnchorKind,
}

impl Clone for Anchor {
    fn clone(&self) -> (r: Self)
        ensures
            r.id == self.id,
            r.master == self.master,
            r.follower == self.follower,
            same_anchor_kind(r.kind, self.kind),
    {
        Anchor { id: self.id, master: self.master, follower: self.follower, kind: self.kind.clone() }
    }
}

/// A query hit: its span, document and sentence, and named sub-spans.
#[derive(Debug)]
pub struct Hit {
    pub span: Span,
    pub document_index: u32,
    pub sentence_index: u32,
    pub captures: Option<Vec<(String, Span)>>,
}

/// Two hits have the same span, document, sentence and captures.
pub open spec fn same_hit(a: Hit, b: Hit) -> bool {
    &&& a.span == b.span
    &&& a.document_index == b.document_index
    &&& a.sentence_index == b.sentence_index
    &&& a.captures.is_some() == b.captures.is_some()
    &&& (a.captures matches Some(x) ==> {
        let y = b.captures.unwrap();
        &&& x@.len() == y@.len()
        &&& forall|k: int| 0 <= k < x@.len() ==> (#[trigger] x@[k]).0@ == y@[k].0@ && x@[k].1 == y@[k].1
    })
}

/// A copy of a hit.
pub fn clone_hit(h: &Hit) -> (r: Hit)
    ensures
        same_hit(r, *h),
{
    let captures = match &h.captures {
        Some(c) => {
            let mut v: Vec<(String, Span)> = Vec::new();
            let mut i: usize = 0;
            while i < c.len()
                invariant
                    0 <= i <= c@.len(),
                    v@.len() == i,
                    forall|k: int| 0 <= k < i ==> (#[trigger] v@[k]).0@ == c@[k].0@ && v@[k].1 == c@[k].1,
                decreases c@.len() - i,
            {
                v.push((c[i].0.clone(), c[i].1));
                i = i + 1;
            }
            Some(v)
        },
        None => None,
    };
    Hit { span: h.span, document_index: h.document_index, sentence_index: h.sentence_index, captures }
}

/// The three lives of a stored result.
#[derive(Clone, Copy, Debug, PartialEq, Eq, Structural)]
pub enum ResultForm {
    Session,
    QueryBacked,
    Materialized,
}

/// What the daemon knows about a stored result.
#[derive(Debug)]
pub struct ResultMetadata {
    pub handle: ResultHandle,
    pub query: String,
    pub created_at: String,
    pub materialized_at: Option<String>,
    pub hit_count: u64,
    pub corpus_id: String,
    pub name: Option<String>,
    pub form: ResultForm,
}

#[derive(Debug)]
pub struct RegisterParams {
    pub protocol_version: u32,
    pub kind: ProcessKind,
    pub label: Option<String>,
    pub provides: Vec<InterestKind>,
    pub consumes: Vec<InterestKind>,
}

#[derive(Debug)]
pub struct RegisterReply {
    pub process_id: ProcessId,
    pub server_version: String,
    pub protocol_version: u32,
    pub daemon_epoch: u64,
    pub capabilities: Capabilities,
}

#[derive(Debug)]
pub struct Capabilities {
    pub observations: bool,
    pub workspaces: bool,
    pub anchor_kinds: Vec<String>,
}

#[derive(Debug)]
pub struct OkReply {
    pub ok: bool,
}

#[derive(Debug)]
pub struct SessionUpdateLabelParams {
    pub label: Option<String>,
}

#[derive(Debug)]
pub struct SessionRosterParams {
    pub filter: Option<RosterFilter>,
}

#[derive(Debug)]
pub struct SessionRosterReply {
    pub processes: Vec<ProcessInfo>,
}

#[derive(Debug)]
pub struct CorpusInfo {
    pub name: String,
    pub canonical_path: String,
    pub stable_key: String,
    pub components: Vec<String>,
    pub layers: Vec<String>,
    pub alignments: Vec<String>,
}

#[derive(Debug)]
pub struct CorpusDocumentsParams {
    pub component: Option<String>,
}

#[derive(Debug)]
pub struct DocumentEntry {
    pub index: u32,
    pub name: String,
    pub component: String,
    pub sentence_count: u32,
}

#[derive(Debug)]
pub struct CorpusDocumentsReply {
    pub documents: Vec<DocumentEntry>,
}

#[derive(Debug)]
pub struct CorpusLayerInfoParams {
    pub layer: String,
}

/// How a layer's values are typed.
#[derive(Clone, Copy, Debug, PartialEq, Eq, Structural)]
pub enum LayerKind {
    String,
    Int,
    Unknown,
}

impl From<crate::corpus::LayerKind> for LayerKind {
    fn from(kind: crate::corpus::LayerKind) -> (r: LayerKind) {
        match kind {
            crate::corpus::LayerKind::String => LayerKind::String,
            crate::corpus::LayerKind::Int => LayerKind::Int,
        }
    }
}

impl vstd::std_specs::convert::FromSpecImpl<crate::corpus::LayerKind> for LayerKind {
    open spec fn obeys_from_spec() -> bool {
        true
    }

    open spec fn from_spec(kind: crate::corpus::LayerKind) -> LayerKind {
        match kind {
            crate::corpus::LayerKind::String => LayerKind::String,
            crate::corpus::LayerKind::Int => LayerKind::Int,
        }
    }
}

#[derive(Debug)]
pub struct LayerInfo {
    pub name: String,
    pub kind: LayerKind,
    pub value_count: u32,
}

#[derive(Debug)]
pub enum AnnotationValue {
    Int(i64),
    String(String),
}

/// An annotation value as plain data.
pub enum AnnotationModel {
    Int(i64),
    String(Seq<char>),
}

impl View for AnnotationValue {
    type V = AnnotationModel;

    open spec fn view(&self) -> AnnotationModel {
        match self {
            AnnotationValue::Int(n) => AnnotationModel::Int(*n),
            AnnotationValue::String(t) => AnnotationModel::String(t@),
        }
    }
}

#[derive(Debug)]
pub struct TextSurfaceParams {
    pub start: u64,
    pub end: u64,
}

#[derive(Debug)]
pub struct TextSurfaceReply {
    pub surface: String,
}

#[derive(Debug)]
pub struct TextSentenceParams {
    pub doc: u32,
    pub sent: u32,
}

#[derive(Debug)]
pub struct TextSentenceReply {
    pub span: Span,
    pub surface: String,
    pub sentence_id: String,
}

#[derive(Debug)]
pub struct TextSentencesParams {
    pub doc: u32,
    pub sent_start: u32,
    pub sent_end: u32,
}

#[derive(Debug)]
pub struct SentenceEntry {
    pub sent: u32,
    pub span: Span,
    pub surface: String,
    pub sentence_id: String,
}

#[derive(Debug)]
pub struct TextSentencesReply {
    pub sentences: Vec<SentenceEntry>,
}

#[derive(Debug)]
pub struct TextDocumentParams {
    pub doc: u32,
}

#[derive(Debug)]
pub struct TextDocumentReply {
    pub index: u32,
    pub name: String,
    pub component: String,
    pub span: Span,
    pub sentence_count: u32,
}

#[derive(Debug)]
pub struct TextAnnotationsParams {
    pub positions: Vec<u64>,
    pub layers: Vec<String>,
}

#[derive(Debug)]
pub struct AnnotationEntry {
    pub position: u64,
    pub layer: String,
    pub value: AnnotationValue,
}

#[derive(Debug)]
pub struct TextAnnotationsReply {
    pub values: Vec<AnnotationEntry>,
}

#[derive(Debug)]
pub struct TextAnnotationsRangeParams {
    pub start: u64,
    pub end: u64,
    pub layers: Option<Vec<String>>,
}

#[derive(Debug)]
pub struct AnnotationRow {
    pub position: u64,
    pub values: Vec<(String, AnnotationValue)>,
}

#[derive(Debug)]
pub struct TextAnnotationsRangeReply {
    pub rows: Vec<AnnotationRow>,
}

#[derive(Debug)]
pub struct AlignmentInfo {
    pub name: String,
    pub source_component: String,
    pub target_component: String,
    pub source_layer: String,
    pub target_layer: String,
    pub edge_count: u32,
}

#[derive(Debug)]
pub struct AlignmentListReply {
    pub alignments: Vec<AlignmentInfo>,
}

#[derive(Clone, Copy, Debug, PartialEq, Eq, Structural)]
pub struct AlignmentSource {
    pub doc: u32,
    pub start: u64,
    pub end: u64,
}

#[derive(Debug)]
pub struct AlignmentProjectParams {
    pub source: AlignmentSource,
    pub alignment_name: String,
}

#[derive(Clone, Copy, Debug, PartialEq, Eq, Structural)]
pub struct AlignmentTarget {
    pub doc: u32,
    pub start: u64,
    pub end: u64,
}

#[derive(Debug)]
pub struct AlignmentProjectReply {
    pub targets: Vec<AlignmentTarget>,
}

#[derive(Debug)]
pub struct QueryExecuteParams {
    pub cql: String,
}

#[derive(Debug)]
pub struct QueryExecuteReply {
    pub handle: ResultHandle,
    pub hit_count: u64,
}

#[derive(Debug)]
pub struct QueryExecuteCountReply {
    pub count: u64,
}

#[derive(Debug)]
pub struct QueryHitsParams {
    pub handle: ResultHandle,
    pub offset: u64,
    pub limit: u64,
}

#[derive(Debug)]
pub struct QueryHitsReply {
    pub hits: Vec<Hit>,
    pub offset: u64,
    pub limit: u64,
    pub total_count: u64,
}

#[derive(Debug)]
pub struct QueryMetadataParams {
    pub handle: ResultHandle,
}

#[derive(Debug)]
pub struct QuerySaveParams {
    pub handle: ResultHandle,
    pub name: String,
}

#[derive(Debug)]
pub struct QuerySaveReply {
    pub ok: bool,
    pub form: ResultForm,
}

#[derive(Debug)]
pub struct QueryMaterializeParams {
    pub name: String,
}

#[derive(Debug)]
pub struct QueryMaterializeReply {
    pub ok: bool,
    pub hit_count: u64,
    pub materialized_at: String,
}

#[derive(Debug)]
pub struct QueryLoadParams {
    pub name: String,
}

#[derive(Debug)]
pub struct QueryLoadReply {
    pub handle: ResultHandle,
    pub hit_count: u64,
    pub form: ResultForm,
}

#[derive(Debug)]
pub struct NamedResultEntry {
    pub name: String,
    pub hit_count: u64,
    pub created_at: String,
}

#[derive(Debug)]
pub struct QueryListNamedReply {
    pub names: Vec<NamedResultEntry>,
}

#[derive(Debug)]
pub struct QueryDeleteNamedParams {
    pub name: String,
}

#[derive(Debug)]
pub struct QueryDiscardParams {
    pub handle: ResultHandle,
}

#[derive(Debug)]
pub struct AnchorCreateParams {
    pub master_id: ProcessId,
    pub follower_id: ProcessId,
    pub kind: AnchorKind,
}

#[derive(Debug)]
pub struct AnchorCreateReply {
    pub anchor_id: AnchorId,
}

#[derive(Debug)]
pub struct AnchorRemoveParams {
    pub anchor_id: AnchorId,
}

#[derive(Debug)]
pub struct AnchorListParams {
    pub process_id: Option<ProcessId>,
}

#[derive(Debug)]
pub struct AnchorListReply {
    pub anchors: Vec<Anchor>,
}

#[derive(Debug)]
pub struct SubscriptionParams {
    pub topic: String,
}

/// Notification topics a process may subscribe to.
#[derive(Clone, Copy, Debug, PartialEq, Eq, Structural, Hash)]
pub enum Topic {
    RosterChanged,
    NamedResultsChanged,
}

/// Why the daemon shuts down.
#[derive(Clone, Copy, Debug, PartialEq, Eq, Structural)]
pub enum ShutdownReason {
    Requested,
    Signal,
    IdleTimeout,
}

/// A roster query: each non-empty list must match (any of its entries).
#[derive(Debug)]
pub struct RosterFilter {
    pub provides_any_of: Vec<InterestKind>,
    pub consumes_any_of: Vec<InterestKind>,
    pub kinds: Vec<ProcessKind>,
}

/// Extra data attached to a protocol error.
#[derive(Debug)]
pub enum ErrorData {
    /// The interest kinds that made an anchor incompatible.
    Incompatible { master_provides: Vec<InterestKind>, follower_consumes: Vec<InterestKind> },
}

/// An error answered to a request.
#[derive(Debug)]
pub struct ProtocolError {
    pub code: i32,
    pub message: String,
    pub data: Option<ErrorData>,
}

impl ProtocolError {
    pub fn new(code: i32, message: String) -> (e: Self)
        ensures
            e.code == code,
            e.message@ == message@,
            e.data is None,
    {
        ProtocolError { code, message, data: None }
    }

    /// An error with the code and a copy of the message text.
    pub fn with_text(code: i32, message: &str) -> (e: Self)
        ensures
            e.code == code,
            e.message@ == message@,
            e.data is None,
    {
        ProtocolError { code, message: message.to_owned(), data: None }
    }

    pub fn with_data(self, data: ErrorData) -> (e: Self)
        ensures
            e.code == self.code,
            e.message == self.message,
            e.data == Some(data),
    {
        ProtocolError { code: self.code, message: self.message, data: Some(data) }
    }
}

/// Some entry of `wanted` occurs in `have`.
pub open spec fn any_of<T>(wanted: Seq<T>, have: Seq<T>) -> bool {
    exists|i: int| 0 <= i < wanted.len() && have.contains(#[trigger] wanted[i])
}

fn contains_kind(have: &Vec<InterestKind>, k: InterestKind) -> (r: bool)
    ensures
        r == have@.contains(k),
{
    let mut i: usize = 0;
    while i < have.len()
        invariant
            0 <= i <= have@.len(),
            forall|j: int| 0 <= j < i ==> have@[j] != k,
        decreases have@.len() - i,
    {
        if have[i] == k {
            return true;
        }
        i = i + 1;
    }
    false
}

fn any_kind_of(wanted: &Vec<InterestKind>, have: &Vec<InterestKind>) -> (r: bool)
    ensures
        r == any_of(wanted@, have@),
{
    let mut i: usize = 0;
    while i < wanted.len()
        invariant
            0 <= i <= wanted@.len(),
            forall|j: int| 0 <= j < i ==> !have@.contains(#[trigger] wanted@[j]),
        decreases wanted@.len() - i,
    {
        if contains_kind(have, wanted[i]) {
            return true;
        }
        i = i + 1;
    }
    false
}

/// The roster filter accepts the process described by these fields.
pub open spec fn filter_matches(f: RosterFilter, kind: ProcessKind, provides: Seq<InterestKind>, consumes: Seq<InterestKind>) -> bool {
    &&& (f.kinds@.len() == 0 || f.kinds@.contains(kind))
    &&& (f.provides_any_of@.len() == 0 || any_of(f.provides_any_of@, provides))
    &&& (f.consumes_any_of@.len() == 0 || any_of(f.consumes_any_of@, consumes))
}

impl RosterFilter {
    /// Whether the process passes the filter: every non-empty list must have an entry that matches.
    pub fn matches(&self, info: &ProcessInfo) -> (r: bool)
        ensures
            r == filter_matches(*self, info.kind, info.provides@, info.consumes@),
    {
        if self.kinds.len() > 0 {
            let mut found = false;
            let mut i: usize = 0;
            while i < self.kinds.len()
                invariant
                    0 <= i <= self.kinds@.len(),
                    found == exists|j: int| 0 <= j < i && self.kinds@[j] == info.kind,
                decreases self.kinds@.len() - i,
            {
                if self.kinds[i] == info.kind {
                    found = true;
                }
                i = i + 1;
            }
            if !found {
                return false;
            }
        }
        if self.provides_any_of.len() > 0 && !any_kind_of(&self.provides_any_of, &info.provides) {
            return false;
        }
        if self.consumes_any_of.len() > 0 && !any_kind_of(&self.consumes_any_of, &info.consumes) {
            return false;
        }
        true
    }
}

impl Default for RosterFilter {
    fn default() -> (r: Self)
        ensures
            r.kinds@.len() == 0,
            r.provides_any_of@.len() == 0,
            r.consumes_any_of@.len() == 0,
    {
        RosterFilter { provides_any_of: Vec::new(), consumes_any_of: Vec::new(), kinds: Vec::new() }
    }
}

/// The interest kinds an anchor kind accepts from its master and produces for its follower.
pub open spec fn anchor_signature(kind: AnchorKind) -> (Seq<InterestKind>, Seq<InterestKind>) {
    match kind {
        AnchorKind::SentenceMirror => (seq![InterestKind::Position, InterestKind::Span, InterestKind::Sentence], seq![InterestKind::Sentence]),
        AnchorKind::Alignment { .. } => (seq![InterestKind::Sentence, InterestKind::Span], seq![InterestKind::Span]),
        AnchorKind::KwicSelection => (seq![InterestKind::Hit], seq![InterestKind::Span]),
        AnchorKind::DocPickerSelection => (seq![InterestKind::Document], seq![InterestKind::Document]),
        AnchorKind::NamedResultsSelection => (seq![InterestKind::Results], seq![InterestKind::Results]),
        AnchorKind::ConlluView => (seq![InterestKind::Sentence], seq![InterestKind::Sentence]),
    }
}

/// The kinds an anchor kind accepts and produces.
pub fn anchor_kind_signature(kind: &AnchorKind) -> (r: (Vec<InterestKind>, Vec<InterestKind>))
    ensures
        r.0@ == anchor_signature(*kind).0,
        r.1@ == anchor_signature(*kind).1,
{
    let r = match kind {
        AnchorKind::SentenceMirror => (vec![InterestKind::Position, InterestKind::Span, InterestKind::Sentence], vec![InterestKind::Sentence]),
        AnchorKind::Alignment { .. } => (vec![InterestKind::Sentence, InterestKind::Span], vec![InterestKind::Span]),
        AnchorKind::KwicSelection => (vec![InterestKind::Hit], vec![InterestKind::Span]),
        AnchorKind::DocPickerSelection => (vec![InterestKind::Document], vec![InterestKind::Document]),
        AnchorKind::NamedResultsSelection => (vec![InterestKind::Results], vec![InterestKind::Results]),
        AnchorKind::ConlluView => (vec![InterestKind::Sentence], vec![InterestKind::Sentence]),
    };
    proof {
        assert(r.0@ =~= anchor_signature(*kind).0);
        assert(r.1@ =~= anchor_signature(*kind).1);
    }
    r
}

/// The anchor kind can link a master with these provides to a follower with these consumes.
pub open spec fn anchor_compatible(kind: AnchorKind, master_provides: Seq<InterestKind>, follower_consumes: Seq<InterestKind>) -> bool {
    any_of(anchor_signature(kind).0, master_provides) && any_of(anchor_signature(kind).1, follower_consumes)
}

/// Whether an anchor of this kind fits: the master provides one of the kinds it accepts and
/// the follower consumes one of the kinds it produces.
pub fn anchor_kind_compat(kind: &AnchorKind, master_provides: &Vec<InterestKind>, follower_consumes: &Vec<InterestKind>) -> (r: bool)
    ensures
        r == anchor_compatible(*kind, master_provides@, follower_consumes@),
{
    let (accepted, produced) = anchor_kind_signature(kind);
    any_kind_of(&accepted, master_provides) && any_kind_of(&produced, follower_consumes)
}

/// The wire names of the anchor kinds this daemon supports.
pub fn anchor_kind_names() -> (r: Vec<&'static str>)
    ensures
        r@.len() == 6,
{
    vec!["sentence_mirror", "alignment", "kwic_selection", "doc_picker_selection", "named_results_selection", "conllu_view"]
}

/// What each anchor kind accepts from its master and produces for its follower, as sets of
/// interest kinds: a sentence mirror takes positions, spans and sentences and gives sentences;
/// an alignment takes sentences and spans and gives spans; a KWIC selection takes hits and
/// gives spans; a document picker and a named-results selection pass documents and results
/// through; a CoNLL-U view takes and gives sentences. An anchor fits exactly when the master
/// provides one kind it accepts and the follower consumes one kind it produces.
pub proof fn lemma_anchor_kinds(kind: AnchorKind, ik: InterestKind, provides: Seq<InterestKind>, consumes: Seq<InterestKind>)
    ensures
        anchor_signature(kind).0.contains(ik) <==> match kind {
            AnchorKind::SentenceMirror => ik == InterestKind::Position || ik == InterestKind::Span || ik == InterestKind::Sentence,
            AnchorKind::Alignment { .. } => ik == InterestKind::Sentence || ik == InterestKind::Span,
            AnchorKind::KwicSelection => ik == InterestKind::Hit,
            AnchorKind::DocPickerSelection => ik == InterestKind::Document,
            AnchorKind::NamedResultsSelection => ik == InterestKind::Results,
            AnchorKind::ConlluView => ik == InterestKind::Sentence,
        },
        anchor_signature(kind).1.contains(ik) <==> match kind {
            AnchorKind::SentenceMirror => ik == InterestKind::Sentence,
            AnchorKind::Alignment { .. } => ik == InterestKind::Span,
            AnchorKind::KwicSelection => ik == InterestKind::Span,
            AnchorKind::DocPickerSelection => ik == InterestKind::Document,
            AnchorKind::NamedResultsSelection => ik == InterestKind::Results,
            AnchorKind::ConlluView => ik == InterestKind::Sentence,
        },
        anchor_compatible(kind, provides, consumes) <==>
            (exists|a: InterestKind| #[trigger] provides.contains(a) && anchor_signature(kind).0.contains(a))
            && (exists|b: InterestKind| #[trigger] consumes.contains(b) && anchor_signature(kind).1.contains(b)),
{
    let (acc, pro) = anchor_signature(kind);
    assert(pro.len() == 1);
    assert(pro.contains(pro[0]));
    assert(pro.contains(ik) ==> ik == pro[0]);
    assert(acc.contains(ik) <==> exists|i: int| 0 <= i < acc.len() && acc[i] == ik);
    assert(pro.contains(ik) <==> exists|i: int| 0 <= i < pro.len() && pro[i] == ik);
    if any_of(acc, provides) {
        let i = choose|i: int| 0 <= i < acc.len() && provides.contains(#[trigger] acc[i]);
        assert(provides.contains(acc[i]) && acc.contains(acc[i]));
    }
    if exists|a: InterestKind| #[trigger] provides.contains(a) && acc.contains(a) {
        let a = choose|a: InterestKind| #[trigger] provides.contains(a) && acc.contains(a);
        let i = choose|i: int| 0 <= i < acc.len() && acc[i] == a;
        assert(provides.contains(acc[i]));
    }
    if any_of(pro, consumes) {
        let i = choose|i: int| 0 <= i < pro.len() && consumes.contains(#[trigger] pro[i]);
        assert(consumes.contains(pro[i]) && pro.contains(pro[i]));
    }
    if exists|b: InterestKind| #[trigger] consumes.contains(b) && pro.contains(b) {
        let b = choose|b: InterestKind| #[trigger] consumes.contains(b) && pro.contains(b);
        let i = choose|i: int| 0 <= i < pro.len() && pro[i] == b;
        assert(consumes.contains(pro[i]));
    }
}

} // verus!
