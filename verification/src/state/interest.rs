//! How an interest travels along an anchor: what the follower is told when its master's
//! interest changes.
use vstd::prelude::*;
use crate::corpus::Corpus;
use crate::handlers::alignment::{project_alignment, projection};
use crate::handlers::text::{sentence_in_doc, sentence_span_in_doc};
use crate::protocol::{
    anchor_kind_signature, anchor_signature, interest_kind, same_interest, AlignmentSource, AnchorKind, Hit,
    Interest, InterestKind,
};
use crate::span::{Span, spans_disjoint_sorted};
use crate::state::ResultEntry;
use crate::text::str_eq;

verus! {

/// The index of the span of `s` that holds `p`, when one does.
pub open spec fn containing_index(s: Seq<Span>, p: int) -> Option<int> {
    if exists|i: int| 0 <= i < s.len() && (#[trigger] s[i]).spec_contains(p) {
        Some(choose|i: int| 0 <= i < s.len() && (#[trigger] s[i]).spec_contains(p))
    } else {
        None
    }
}

/// In ordered, disjoint spans, a span that holds `p` is the one `containing_index` names.
pub proof fn lemma_containing_unique(s: Seq<Span>, p: int, i: int)
    requires
        spans_disjoint_sorted(s),
        0 <= i < s.len(),
        s[i].spec_contains(p),
    ensures
        containing_index(s, p) == Some(i),
{
    let c = choose|k: int| 0 <= k < s.len() && (#[trigger] s[k]).spec_contains(p);
    if c < i {
        assert(s[c].end <= s[i].start);
    }
    if i < c {
        assert(s[i].end <= s[c].start);
    }
}

/// The sentence interest that position `position` of document `doc` widens to: the sentence that
/// holds it, counted from the document's first sentence; nothing when the position is not in
/// that document, no sentence holds it, or that sentence comes before the document's first.
pub open spec fn widened(c: &Corpus, doc: u32, position: u64) -> Seq<Interest> {
    let in_doc = match c.document_spans() {
        Some(d) => containing_index(d, position as int) == Some(doc as int),
        None => false,
    };
    let g = match c.sentence_spans() {
        Some(s) => containing_index(s, position as int),
        None => None,
    };
    if !in_doc {
        Seq::empty()
    } else {
        match (g, c.first_sentence_spec(doc as usize)) {
            (Some(g), Some(f)) => if g >= f { seq![Interest::Sentence { doc, sent: (g - f) as u32 }] } else { Seq::empty() },
            _ => Seq::empty(),
        }
    }
}

/// The hit `idx` of the stored result whose handle is `handle` (the first such entry).
pub open spec fn hit_lookup(results: Seq<ResultEntry>, handle: Seq<char>, idx: u64) -> Option<Hit> {
    let i = crate::forward::first_index_of(results.map_values(|e: ResultEntry| e.metadata.handle@), handle);
    if i >= 0 && (idx as usize) < results[i].hits@.len() { Some(results[i].hits@[idx as usize as int]) } else { None }
}

/// The span interests of a list of alignment targets.
pub open spec fn target_interests(ts: Seq<crate::protocol::AlignmentTarget>) -> Seq<Interest> {
    ts.map_values(|t: crate::protocol::AlignmentTarget| Interest::Span { doc: t.doc, start: t.start, end: t.end })
}

/// What an anchor of `kind` passes to its follower when the master's interest becomes
/// `interest`: nothing unless the kind accepts that interest's kind; a sentence mirror passes a
/// sentence on and widens a position (or a span's start) to its sentence; an alignment projects
/// a sentence or span into the target component; a KWIC selection passes a hit on as its span.
pub open spec fn transformed(c: &Corpus, results: Seq<ResultEntry>, interest: Interest, kind: AnchorKind) -> Seq<Interest> {
    if !anchor_signature(kind).0.contains(interest_kind(interest)) {
        Seq::empty()
    } else {
        match kind {
            AnchorKind::SentenceMirror => match interest {
                Interest::Sentence { .. } => seq![interest],
                Interest::Position { doc, position } => widened(c, doc, position),
                Interest::Span { doc, start, .. } => widened(c, doc, start),
                _ => Seq::empty(),
            },
            AnchorKind::Alignment { name } => {
                let source = match interest {
                    Interest::Sentence { doc, sent } => match sentence_in_doc(c, doc, sent) {
                        Some((_, sp)) => Some(AlignmentSource { doc, start: sp.start, end: sp.end }),
                        None => None,
                    },
                    Interest::Span { doc, start, end } => Some(AlignmentSource { doc, start, end }),
                    _ => None,
                };
                match source {
                    Some(s) => match projection(c, name@, s) {
                        Ok(ts) => target_interests(ts),
                        Err(_) => Seq::empty(),
                    },
                    None => Seq::empty(),
                }
            },
            AnchorKind::KwicSelection => match interest {
                Interest::Hit { result, hit_idx } => match hit_lookup(results, result@, hit_idx) {
                    Some(h) => seq![Interest::Span { doc: h.document_index, start: h.span.start, end: h.span.end }],
                    None => Seq::empty(),
                },
                _ => Seq::empty(),
            },
            _ => Seq::empty(),
        }
    }
}

/// Two lists of interests say the same things, in the same order.
pub open spec fn same_interests(a: Seq<Interest>, b: Seq<Interest>) -> bool {
    a.len() == b.len() && forall|k: int| 0 <= k < a.len() ==> same_interest(#[trigger] a[k], b[k])
}

/// The span of sentence `sent` of document `doc`.
pub fn sentence_to_span(corpus: &Corpus, doc: u32, sent: u32) -> (r: Option<Span>)
    ensures
        r == match sentence_in_doc(corpus, doc, sent) {
            Some((_, sp)) => Some(sp),
            None => None,
        },
{
    match sentence_span_in_doc(corpus, doc, sent) {
        Some((_, sp)) => Some(sp),
        None => None,
    }
}

/// The sentence interest that position `position` of document `doc` widens to.
pub fn widen_position_to_sentence(corpus: &Corpus, doc: u32, position: u64) -> (r: Vec<Interest>)
    ensures
        r@ == widened(corpus, doc, position),
{
    let found = corpus.document_for_position(position);
    proof {
        if let Some(i) = found {
            lemma_containing_unique(corpus.document_spans().unwrap(), position as int, i as int);
        }
    }
    match found {
        Some(i) => {
            if i != doc as usize {
                return Vec::new();
            }
        },
        None => return Vec::new(),
    }
    let spans = corpus.spans();
    let g = match spans.containing_with_index("sentence", position) {
        Some((g, _)) => g,
        None => return Vec::new(),
    };
    proof {
        lemma_containing_unique(corpus.sentence_spans().unwrap(), position as int, g as int);
    }
    let first = match corpus.first_sentence_of_document(doc as usize) {
        Some(f) => f,
        None => return Vec::new(),
    };
    if g < first {
        return Vec::new();
    }
    let mut r: Vec<Interest> = Vec::new();
    r.push(Interest::Sentence { doc, sent: (g - first) as u32 });
    proof { assert(r@ =~= widened(corpus, doc, position)); }
    r
}

/// The first stored result whose handle is `handle`.
fn find_result(results: &Vec<ResultEntry>, handle: &str) -> (r: Option<usize>)
    ensures
        match r {
            Some(i) => i < results@.len()
                && crate::forward::first_index_of(results@.map_values(|e: ResultEntry| e.metadata.handle@), handle@) == i,
            None => crate::forward::first_index_of(results@.map_values(|e: ResultEntry| e.metadata.handle@), handle@) == -1,
        },
{
    let ghost names = results@.map_values(|e: ResultEntry| e.metadata.handle@);
    let mut i: usize = 0;
    while i < results.len()
        invariant
            0 <= i <= results@.len(),
            names == results@.map_values(|e: ResultEntry| e.metadata.handle@),
            forall|k: int| 0 <= k < i ==> names[k] != handle@,
        decreases results@.len() - i,
    {
        proof { assert(names[i as int] == results@[i as int].metadata.handle@); }
        if str_eq(results[i].metadata.handle.as_str(), handle) {
            proof { crate::forward::lemma_first_index_of(names, handle@, i as int); }
            return Some(i);
        }
        i = i + 1;
    }
    proof { crate::forward::lemma_first_index_absent(names, handle@); }
    None
}

/// Whether `k` is among `kinds`.
fn has_kind(kinds: &Vec<InterestKind>, k: InterestKind) -> (r: bool)
    ensures
        r == kinds@.contains(k),
{
    let mut i: usize = 0;
    while i < kinds.len()
        invariant
            0 <= i <= kinds@.len(),
            forall|j: int| 0 <= j < i ==> kinds@[j] != k,
        decreases kinds@.len() - i,
    {
        if kinds[i] == k {
            return true;
        }
        i = i + 1;
    }
    false
}

/// What an anchor of `kind` passes to its follower, as `transformed` says.
pub fn transform_interest(corpus: &Corpus, results: &Vec<ResultEntry>, interest: &Interest, kind: &AnchorKind) -> (r: Vec<Interest>)
    ensures
        same_interests(r@, transformed(corpus, results@, *interest, *kind)),
{
    let (accepts, _) = anchor_kind_signature(kind);
    if !has_kind(&accepts, interest.kind()) {
        return Vec::new();
    }
    match kind {
        AnchorKind::SentenceMirror => match interest {
            Interest::Sentence { .. } => {
                let mut r: Vec<Interest> = Vec::new();
                r.push(interest.clone());
                r
            },
            Interest::Position { doc, position } => widen_position_to_sentence(corpus, *doc, *position),
            Interest::Span { doc, start, .. } => widen_position_to_sentence(corpus, *doc, *start),
            _ => Vec::new(),
        },
        AnchorKind::Alignment { name } => {
            let source = match interest {
                Interest::Sentence { doc, sent } => match sentence_to_span(corpus, *doc, *sent) {
                    Some(sp) => AlignmentSource { doc: *doc, start: sp.start, end: sp.end },
                    None => return Vec::new(),
                },
                Interest::Span { doc, start, end } => AlignmentSource { doc: *doc, start: *start, end: *end },
                _ => return Vec::new(),
            };
            match project_alignment(corpus, name.as_str(), source) {
                Ok(targets) => {
                    let mut r: Vec<Interest> = Vec::new();
                    let mut i: usize = 0;
                    while i < targets.len()
                        invariant
                            0 <= i <= targets@.len(),
                            r@ == target_interests(targets@).subrange(0, i as int),
                        decreases targets@.len() - i,
                    {
                        let t = targets[i];
                        r.push(Interest::Span { doc: t.doc, start: t.start, end: t.end });
                        i = i + 1;
                        proof { assert(r@ =~= target_interests(targets@).subrange(0, i as int)); }
                    }
                    proof { assert(target_interests(targets@).subrange(0, i as int) =~= target_interests(targets@)); }
                    r
                },
                Err(_) => Vec::new(),
            }
        },
        AnchorKind::KwicSelection => match interest {
            Interest::Hit { result, hit_idx } => {
                let idx = match find_result(results, result.as_str()) {
                    Some(i) => i,
                    None => return Vec::new(),
                };
                let hits = &results[idx].hits;
                let h = *hit_idx as usize;
                if h < hits.len() {
                    let hit = &hits[h];
                    let mut r: Vec<Interest> = Vec::new();
                    r.push(Interest::Span { doc: hit.document_index, start: hit.span.start, end: hit.span.end });
                    r
                } else {
                    Vec::new()
                }
            },
            _ => Vec::new(),
        },
        _ => Vec::new(),
    }
}

} // verus!
