//! Half-open token spans and the lookup of the span that holds a position.
use vstd::prelude::*;

verus! {

/// A corpus position: the index of a token in the whole corpus.
pub type Position = u64;

/// A half-open range `[start, end)` of corpus positions.
#[derive(Clone, Copy, Debug, PartialEq, Eq, Structural, Hash)]
pub struct Span {
    pub start: Position,
    pub end: Position,
}

impl Span {
    /// A span is well formed when it does not end before it starts.
    pub open spec fn wf(self) -> bool {
        self.start <= self.end
    }

    pub open spec fn spec_contains(self, position: int) -> bool {
        self.start <= position < self.end
    }

    pub open spec fn spec_contains_span(self, other: Span) -> bool {
        self.start <= other.start && other.end <= self.end
    }

    pub open spec fn spec_overlaps(self, other: Span) -> bool {
        self.start < other.end && other.start < self.end
    }

    pub open spec fn spec_len(self) -> int {
        self.end - self.start
    }

    /// Builds the span `[start, end)`; `start` may not exceed `end`.
    pub fn new(start: Position, end: Position) -> (s: Span)
        requires
            start <= end,
        ensures
            s.start == start,
            s.end == end,
    {
        Span { start, end }
    }

    /// Number of positions in the span.
    pub fn len(&self) -> (n: u64)
        requires
            self.wf(),
        ensures
            n == self.spec_len(),
    {
        self.end - self.start
    }

    pub fn is_empty(&self) -> (b: bool)
        ensures
            b == (self.start == self.end),
    {
        self.start == self.end
    }

    pub fn contains(&self, position: Position) -> (b: bool)
        ensures
            b == self.spec_contains(position as int),
    {
        position >= self.start && position < self.end
    }

    pub fn contains_span(&self, other: &Span) -> (b: bool)
        ensures
            b == self.spec_contains_span(*other),
    {
        self.start <= other.start && other.end <= self.end
    }

    pub fn overlaps(&self, other: &Span) -> (b: bool)
        ensures
            b == self.spec_overlaps(*other),
    {
        self.start < other.end && other.start < self.end
    }
}

/// Spans that are ordered and pairwise disjoint: each ends no later than the next starts.
pub open spec fn spans_disjoint_sorted(spans: Seq<Span>) -> bool {
    &&& forall|i: int| 0 <= i < spans.len() ==> (#[trigger] spans[i]).wf()
    &&& forall|i: int, j: int| 0 <= i < j < spans.len() ==> spans[i].end <= spans[j].start
}

/// Some span of the sequence holds the position.
pub open spec fn some_span_contains(spans: Seq<Span>, position: int) -> bool {
    exists|i: int| 0 <= i < spans.len() && (#[trigger] spans[i]).spec_contains(position)
}

/// Binary search for the span that holds `position`.
///
/// A returned index always names a span that holds the position. When the spans are
/// ordered and disjoint, `None` means that no span holds it.
pub fn span_containing(spans: &[Span], position: Position) -> (r: Option<usize>)
    ensures
        r matches Some(i) ==> i < spans@.len() && spans@[i as int].spec_contains(position as int),
        spans_disjoint_sorted(spans@) ==> (r is None <==> !some_span_contains(spans@, position as int)),
{
    let mut lo: usize = 0;
    let mut hi: usize = spans.len();
    while lo < hi
        invariant
            0 <= lo <= hi <= spans@.len(),
            spans_disjoint_sorted(spans@) ==> forall|k: int|
                0 <= k < spans@.len() && (#[trigger] spans@[k]).spec_contains(position as int)
                    ==> lo <= k < hi,
        decreases hi - lo,
    {
        let mid = lo + (hi - lo) / 2;
        let span = &spans[mid];
        if position < span.start {
            hi = mid;
        } else if position >= span.end {
            lo = mid + 1;
        } else {
            return Some(mid);
        }
    }
    None
}

/// Index of the span that holds `position`, or `0` when none does.
pub fn binary_search_span_index(spans: &[Span], position: Position) -> (r: u32)
    requires
        spans@.len() <= u32::MAX,
    ensures
        (exists|i: int| 0 <= i < spans@.len() && i == r && spans@[i].spec_contains(position as int))
            || (r == 0 && (spans_disjoint_sorted(spans@) ==> !some_span_contains(spans@, position as int))),
{
    match span_containing(spans, position) {
        Some(i) => i as u32,
        None => 0,
    }
}

/// Overlap is symmetric.
pub proof fn lemma_overlaps_symmetric(a: Span, b: Span)
    ensures
        a.spec_overlaps(b) == b.spec_overlaps(a),
{
}

/// Every span holds itself.
pub proof fn lemma_contains_span_reflexive(a: Span)
    ensures
        a.spec_contains_span(a),
{
}

/// A span that holds a nonempty span overlaps it.
pub proof fn lemma_contains_span_implies_overlaps(a: Span, b: Span)
    requires
        b.wf(),
        a.spec_contains_span(b),
        b.start != b.end,
    ensures
        a.spec_overlaps(b),
{
}

/// A nonempty span holds its start but not its end.
pub proof fn lemma_nonempty_contains_start_not_end(a: Span)
    requires
        a.start < a.end,
    ensures
        a.spec_contains(a.start as int),
        !a.spec_contains(a.end as int),
{
}

} // verus!
