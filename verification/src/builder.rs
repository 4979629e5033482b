//! Building a corpus index from parsed sentences: every token's annotations go to the
//! inverted index, the lexicon and the forward index, and sentences and documents become spans.
use vstd::prelude::*;
use crate::chars::{split, split_chars};
use crate::conllu::{ParsedSentence, ParsedToken};
use crate::forward::{ForwardModel, InMemoryForward, write_at};
use crate::inverted::{InMemoryInverted, positions_u32};
use crate::lexicon::{InMemoryLexicon, terms_or_empty, lexicon_step, lexicon_merged};
use crate::span::{Span, Position};
use crate::spans::{InMemorySpans, layer_or_empty};
use crate::text::{chars_of, concat, decimal_digits, str_eq, string_from_chars, string_views, u64_to_decimal};
use crate::value::{Value, ValueModel};

verus! {

/// One step of indexing a token.
pub enum SinkEvent {
    /// The layer is made to exist.
    Ensure(Seq<char>),
    /// The text value of a layer at a position.
    Text(u64, Seq<char>, Seq<char>),
    /// The integer value of a layer at a position.
    Int(u64, Seq<char>, i64),
}

/// The text event of an optional annotation.
pub open spec fn opt_text(p: u64, layer: Seq<char>, v: Option<String>) -> Seq<SinkEvent> {
    match v {
        Some(s) => seq![SinkEvent::Text(p, layer, s@)],
        None => Seq::empty(),
    }
}

/// The index of the first `c` in `s`, or `-1`.
pub open spec fn first_char(s: Seq<char>, c: char) -> int
    decreases s.len(),
{
    if s.len() == 0 {
        -1
    } else {
        let r = first_char(s.drop_last(), c);
        if r >= 0 { r } else if s.last() == c { s.len() - 1 } else { -1 }
    }
}

/// The layer a decomposed feature `key` goes to.
pub open spec fn feature_layer(key: Seq<char>) -> Seq<char> {
    "feats."@ + key
}

/// The events of one `key=value` piece of a feature string: the feature's layer is made to exist
/// and gets the value; a piece without `=` gives nothing.
pub open spec fn feature_events(p: u64, piece: Seq<char>) -> Seq<SinkEvent> {
    let k = first_char(piece, '=');
    if k >= 0 {
        let layer = feature_layer(piece.subrange(0, k));
        seq![SinkEvent::Ensure(layer), SinkEvent::Text(p, layer, piece.subrange(k + 1, piece.len() as int))]
    } else {
        Seq::empty()
    }
}

/// The events of the pieces of a feature string, in order.
pub open spec fn features_events(p: u64, pieces: Seq<Seq<char>>) -> Seq<SinkEvent>
    decreases pieces.len(),
{
    if pieces.len() == 0 {
        Seq::empty()
    } else {
        features_events(p, pieces.drop_last()) + feature_events(p, pieces.last())
    }
}

/// The events of a token at `p`: its word, lemma, tags, features (split into one layer per
/// feature when `decompose` is set), head and relation, in that order.
pub open spec fn token_events(p: u64, t: ParsedToken, decompose: bool) -> Seq<SinkEvent> {
    seq![SinkEvent::Text(p, "word"@, t.word@)]
        + opt_text(p, "lemma"@, t.lemma)
        + opt_text(p, "upos"@, t.upos)
        + opt_text(p, "xpos"@, t.xpos)
        + match t.feats {
            Some(f) => seq![SinkEvent::Text(p, "feats"@, f@)]
                + if decompose { features_events(p, split(f@, '|')) } else { Seq::empty() },
            None => Seq::empty(),
        }
        + match t.head {
            Some(h) => seq![SinkEvent::Int(p, "head"@, h)],
            None => Seq::empty(),
        }
        + opt_text(p, "deprel"@, t.deprel)
}

/// The events of a token's feature string.
pub open spec fn feats_part(p: u64, feats: Option<String>, decompose: bool) -> Seq<SinkEvent> {
    match feats {
        Some(f) => seq![SinkEvent::Text(p, "feats"@, f@)]
            + if decompose { features_events(p, split(f@, '|')) } else { Seq::empty() },
        None => Seq::empty(),
    }
}

/// The events of tokens placed from position `p` on.
pub open spec fn tokens_events(p: int, ts: Seq<ParsedToken>, decompose: bool) -> Seq<SinkEvent>
    decreases ts.len(),
{
    if ts.len() == 0 {
        Seq::empty()
    } else {
        tokens_events(p, ts.drop_last(), decompose) + token_events((p + ts.len() - 1) as u64, ts.last(), decompose)
    }
}

/// The number of tokens of the sentences.
pub open spec fn token_total(ss: Seq<ParsedSentence>) -> int
    decreases ss.len(),
{
    if ss.len() == 0 { 0 } else { token_total(ss.drop_last()) + ss.last().tokens@.len() }
}

/// The events of sentences whose tokens are placed from position `p` on.
pub open spec fn sentences_events(p: int, ss: Seq<ParsedSentence>, decompose: bool) -> Seq<SinkEvent>
    decreases ss.len(),
{
    if ss.len() == 0 {
        Seq::empty()
    } else {
        sentences_events(p, ss.drop_last(), decompose) + tokens_events(p + token_total(ss.drop_last()), ss.last().tokens@, decompose)
    }
}

/// The positions of value `v` in layer `l` after the events; layers in `fo` are kept out of the
/// inverted index.
pub open spec fn postings_after(o: Option<Set<u32>>, evs: Seq<SinkEvent>, fo: Seq<Seq<char>>, l: Seq<char>, v: Seq<char>)
    -> Option<Set<u32>>
    decreases evs.len(),
{
    if evs.len() == 0 {
        o
    } else {
        postings_step(postings_after(o, evs.drop_last(), fo, l, v), evs.last(), fo, l, v)
    }
}

/// The positions of value `v` in layer `l` after one event.
pub open spec fn postings_step(r: Option<Set<u32>>, e: SinkEvent, fo: Seq<Seq<char>>, l: Seq<char>, v: Seq<char>) -> Option<Set<u32>> {
    match e {
        SinkEvent::Text(p, layer, value) => if layer == l && value == v && !fo.contains(layer) {
            Some(match r { Some(s) => s, None => Set::<u32>::empty() }.insert(p as u32))
        } else {
            r
        },
        _ => r,
    }
}

/// The lexicon after the events; layers in `fo` are kept out of it.
pub open spec fn lexicon_after(m: Map<Seq<char>, Seq<Seq<char>>>, evs: Seq<SinkEvent>, fo: Seq<Seq<char>>)
    -> Map<Seq<char>, Seq<Seq<char>>>
    decreases evs.len(),
{
    if evs.len() == 0 {
        m
    } else {
        lexicon_event(lexicon_after(m, evs.drop_last(), fo), evs.last(), fo)
    }
}

/// The lexicon after one event.
pub open spec fn lexicon_event(r: Map<Seq<char>, Seq<Seq<char>>>, e: SinkEvent, fo: Seq<Seq<char>>) -> Map<Seq<char>, Seq<Seq<char>>> {
    match e {
        SinkEvent::Text(_, layer, value) => if !fo.contains(layer) { lexicon_step(r, layer, value) } else { r },
        _ => r,
    }
}

/// The forward index (when there is one) and the table of layer names to forward slots.
pub struct ForwardState {
    pub fwd: Option<ForwardModel>,
    pub table: Seq<(Seq<char>, usize)>,
}

/// The names of the layer table.
pub open spec fn table_names(t: Seq<(Seq<char>, usize)>) -> Seq<Seq<char>> {
    t.map_values(|e: (Seq<char>, usize)| e.0)
}

/// The slot of the first entry named `l`.
pub open spec fn table_slot(t: Seq<(Seq<char>, usize)>, l: Seq<char>) -> Option<usize> {
    let i = crate::forward::first_index_of(table_names(t), l);
    if i >= 0 { Some(t[i].1) } else { None }
}

/// `value` written at `p` in slot `i` of the forward model.
pub open spec fn forward_set(f: ForwardModel, i: int, p: u64, value: ValueModel) -> ForwardModel {
    ForwardModel {
        layers: f.layers,
        data: f.data.update(i, write_at(f.data[i], p as int, seq![value])),
        token_count: if f.token_count > p + 1 { f.token_count } else { p + 1 },
    }
}

/// The forward state after one event: a new layer gets a slot (a new forward layer when there is
/// a forward index, slot `0` otherwise); a value is written to its layer's slot.
pub open spec fn forward_step(s: ForwardState, e: SinkEvent) -> ForwardState {
    match e {
        SinkEvent::Ensure(name) => if table_names(s.table).contains(name) {
            s
        } else {
            match s.fwd {
                Some(f) => ForwardState {
                    fwd: Some(ForwardModel { layers: f.layers.push(name), data: f.data.push(Seq::empty()), token_count: f.token_count }),
                    table: s.table.push((name, f.layers.len() as usize)),
                },
                None => ForwardState { fwd: None, table: s.table.push((name, 0usize)) },
            }
        },
        SinkEvent::Text(p, layer, value) => match (s.fwd, table_slot(s.table, layer)) {
            (Some(f), Some(i)) => ForwardState { fwd: Some(forward_set(f, i as int, p, ValueModel::Str(value))), table: s.table },
            _ => s,
        },
        SinkEvent::Int(p, layer, value) => match (s.fwd, table_slot(s.table, layer)) {
            (Some(f), Some(i)) => ForwardState { fwd: Some(forward_set(f, i as int, p, ValueModel::Int(value))), table: s.table },
            _ => s,
        },
    }
}

/// The forward state after the events.
pub open spec fn forward_after(s: ForwardState, evs: Seq<SinkEvent>) -> ForwardState
    decreases evs.len(),
{
    if evs.len() == 0 { s } else { forward_step(forward_after(s, evs.drop_last()), evs.last()) }
}

/// Folding over two lists of events one after the other is folding over their concatenation.
pub proof fn lemma_after_concat(a: Seq<SinkEvent>, b: Seq<SinkEvent>, fo: Seq<Seq<char>>)
    ensures
        forall|o: Option<Set<u32>>, l: Seq<char>, v: Seq<char>|
            #[trigger] postings_after(o, a + b, fo, l, v) == postings_after(postings_after(o, a, fo, l, v), b, fo, l, v),
        forall|m: Map<Seq<char>, Seq<Seq<char>>>| #[trigger] lexicon_after(m, a + b, fo) == lexicon_after(lexicon_after(m, a, fo), b, fo),
        forall|s: ForwardState| #[trigger] forward_after(s, a + b) == forward_after(forward_after(s, a), b),
    decreases b.len(),
{
    if b.len() == 0 {
        assert(a + b =~= a);
    } else {
        lemma_after_concat(a, b.drop_last(), fo);
        assert((a + b).drop_last() =~= a + b.drop_last());
        assert((a + b).last() == b.last());
        assert forall|o: Option<Set<u32>>, l: Seq<char>, v: Seq<char>|
            #[trigger] postings_after(o, a + b, fo, l, v) == postings_after(postings_after(o, a, fo, l, v), b, fo, l, v) by {
            assert(postings_after(o, a + b.drop_last(), fo, l, v) == postings_after(postings_after(o, a, fo, l, v), b.drop_last(), fo, l, v));
        }
        assert forall|m: Map<Seq<char>, Seq<Seq<char>>>| #[trigger] lexicon_after(m, a + b, fo) == lexicon_after(lexicon_after(m, a, fo), b, fo) by {
            assert(lexicon_after(m, a + b.drop_last(), fo) == lexicon_after(lexicon_after(m, a, fo), b.drop_last(), fo));
        }
        assert forall|s: ForwardState| #[trigger] forward_after(s, a + b) == forward_after(forward_after(s, a), b) by {
            assert(forward_after(s, a + b.drop_last()) == forward_after(forward_after(s, a), b.drop_last()));
        }
    }
}

/// Folding over one event is taking its step.
pub proof fn lemma_after_one(e: SinkEvent, fo: Seq<Seq<char>>)
    ensures
        forall|o: Option<Set<u32>>, l: Seq<char>, v: Seq<char>|
            #[trigger] postings_after(o, seq![e], fo, l, v) == postings_step(o, e, fo, l, v),
        forall|m: Map<Seq<char>, Seq<Seq<char>>>| #[trigger] lexicon_after(m, seq![e], fo) == lexicon_event(m, e, fo),
        forall|s: ForwardState| #[trigger] forward_after(s, seq![e]) == forward_step(s, e),
{
    let one = seq![e];
    assert(one.drop_last() =~= Seq::<SinkEvent>::empty());
    assert forall|o: Option<Set<u32>>, l: Seq<char>, v: Seq<char>|
        #[trigger] postings_after(o, one, fo, l, v) == postings_step(o, e, fo, l, v) by {
        assert(postings_after(o, one.drop_last(), fo, l, v) == o);
    }
    assert forall|m: Map<Seq<char>, Seq<Seq<char>>>| #[trigger] lexicon_after(m, one, fo) == lexicon_event(m, e, fo) by {
        assert(lexicon_after(m, one.drop_last(), fo) == m);
    }
    assert forall|s: ForwardState| #[trigger] forward_after(s, one) == forward_step(s, e) by {
        assert(forward_after(s, one.drop_last()) == s);
    }
}

/// The slots of the table are slots of the forward index.
pub open spec fn slots_valid(s: ForwardState) -> bool {
    s.fwd matches Some(f) ==> forall|k: int| 0 <= k < s.table.len() ==> (#[trigger] s.table[k]).1 < f.layers.len()
}

/// The layers every token may fill, in forward-slot order.
pub open spec fn base_layers() -> Seq<Seq<char>> {
    seq!["word"@, "lemma"@, "upos"@, "xpos"@, "feats"@, "head"@, "deprel"@]
}

/// The table of the base layers: each at its own slot.
pub open spec fn base_table() -> Seq<(Seq<char>, usize)> {
    Seq::new(7, |i: int| (base_layers()[i], i as usize))
}

/// Indexes documents as they are added: postings, lexicon, forward values, sentence and document
/// spans, document names and sentence ids.
pub struct IndexSink {
    inverted: InMemoryInverted,
    forward: Option<InMemoryForward>,
    spans: InMemorySpans,
    lexicon: InMemoryLexicon,
    layer_indices: Vec<(String, usize)>,
    current_position: u64,
    document_names: Vec<String>,
    sentence_ids: Vec<String>,
    forward_only_layers: Vec<String>,
    decompose_feats: bool,
}

/// The indexes a sink has built, taken apart.
pub struct SinkIndex {
    pub inverted: InMemoryInverted,
    pub forward: Option<InMemoryForward>,
    pub spans: InMemorySpans,
    pub lexicon: InMemoryLexicon,
    pub document_names: Vec<String>,
    pub sentence_ids: Vec<String>,
    pub token_count: u64,
}

/// Whether `name` is among `names`.
fn has_name(names: &Vec<String>, name: &str) -> (r: bool)
    ensures
        r == string_views(names@).contains(name@),
{
    match crate::text::find_name(names, name) {
        Some(_) => true,
        None => false,
    }
}

impl IndexSink {
    /// The forward index (as a model) and the layer table.
    pub closed spec fn forward_state(&self) -> ForwardState {
        ForwardState {
            fwd: match self.forward {
                Some(f) => Some(f@),
                None => None,
            },
            table: self.layer_indices@.map_values(|e: (String, usize)| (e.0@, e.1)),
        }
    }

    /// The positions of value `v` in layer `l`.
    pub closed spec fn postings(&self, l: Seq<char>, v: Seq<char>) -> Option<Set<u32>> {
        self.inverted.postings(l, v)
    }

    pub closed spec fn lexicon_view(&self) -> Map<Seq<char>, Seq<Seq<char>>> {
        self.lexicon@
    }

    pub closed spec fn spans_view(&self) -> Map<Seq<char>, Seq<Span>> {
        self.spans@
    }

    pub closed spec fn span_order(&self) -> Seq<Seq<char>> {
        self.spans.layer_order()
    }

    /// The next position to be filled.
    pub closed spec fn position(&self) -> u64 {
        self.current_position
    }

    pub closed spec fn doc_names(&self) -> Seq<Seq<char>> {
        string_views(self.document_names@)
    }

    pub closed spec fn sent_ids(&self) -> Seq<Seq<char>> {
        string_views(self.sentence_ids@)
    }

    /// The layers kept out of the inverted index and the lexicon.
    pub closed spec fn forward_only(&self) -> Seq<Seq<char>> {
        string_views(self.forward_only_layers@)
    }

    /// Whether feature strings are split into one layer per feature.
    pub closed spec fn decomposes(&self) -> bool {
        self.decompose_feats
    }

    /// The parts are consistent and every table slot names a forward layer.
    pub closed spec fn wf(&self) -> bool {
        &&& self.inverted.wf()
        &&& self.lexicon.wf()
        &&& self.spans.wf()
        &&& self.forward matches Some(f) ==> f.wf()
        &&& slots_valid(self.forward_state())
    }

    /// `self` is `old` after the events, in postings, lexicon, forward index and layer table.
    pub open spec fn follows(&self, old: &IndexSink, evs: Seq<SinkEvent>) -> bool {
        &&& forall|l: Seq<char>, v: Seq<char>| #[trigger] self.postings(l, v) == postings_after(old.postings(l, v), evs, old.forward_only(), l, v)
        &&& self.lexicon_view() == lexicon_after(old.lexicon_view(), evs, old.forward_only())
        &&& self.forward_state() == forward_after(old.forward_state(), evs)
        &&& self.forward_only() == old.forward_only()
        &&& self.decomposes() == old.decomposes()
    }

    /// Everything but postings, lexicon, forward index and layer table is the same.
    pub open spec fn same_rest(&self, old: &IndexSink) -> bool {
        &&& self.spans_view() == old.spans_view()
        &&& self.span_order() == old.span_order()
        &&& self.position() == old.position()
        &&& self.doc_names() == old.doc_names()
        &&& self.sent_ids() == old.sent_ids()
    }

    /// Following one list of events and then another is following both.
    pub proof fn lemma_follows_trans(a: &IndexSink, b: &IndexSink, c: &IndexSink, e1: Seq<SinkEvent>, e2: Seq<SinkEvent>)
        requires
            b.follows(a, e1),
            c.follows(b, e2),
        ensures
            c.follows(a, e1 + e2),
    {
        lemma_after_concat(e1, e2, a.forward_only());
        assert forall|l: Seq<char>, v: Seq<char>| #[trigger] c.postings(l, v) == postings_after(a.postings(l, v), e1 + e2, a.forward_only(), l, v) by {
            assert(b.postings(l, v) == postings_after(a.postings(l, v), e1, a.forward_only(), l, v));
        }
    }

    /// Following no events is staying the same.
    pub proof fn lemma_follows_refl(a: &IndexSink)
        ensures
            a.follows(a, Seq::empty()),
    {
    }

    /// Makes layer `name` exist: a layer not in the table gets a new forward layer (when there is
    /// a forward index) and a table entry.
    fn ensure_layer(&mut self, name: &str)
        requires
            old(self).wf(),
        ensures
            final(self).wf(),
            final(self).follows(old(self), seq![SinkEvent::Ensure(name@)]),
            final(self).same_rest(old(self)),
    {
        let ghost s0 = self.forward_state();
        proof { lemma_after_one(SinkEvent::Ensure(name@), self.forward_only()); }
        if self.slot_of(name).is_some() {
            proof {
                let t = table_names(s0.table);
                let k = crate::forward::first_index_of(t, name@);
                if exists|j: int| 0 <= j < t.len() && t[j] == name@ && forall|q: int| 0 <= q < j ==> t[q] != name@ {
                    assert(t[k] == name@);
                }
                assert(t.contains(name@));
            }
            return;
        }
        proof {
            assert(!table_names(s0.table).contains(name@)) by {
                if table_names(s0.table).contains(name@) {
                    let k = choose|k: int| 0 <= k < table_names(s0.table).len() && table_names(s0.table)[k] == name@;
                    crate::forward::lemma_first_exists(table_names(s0.table), name@, k);
                }
            }
        }
        let idx = match &mut self.forward {
            Some(fwd) => fwd.add_layer(name),
            None => 0,
        };
        self.layer_indices.push((name.to_owned(), idx));
        proof {
            assert(self.forward_state().table =~= s0.table.push((name@, idx)));
            assert(self.forward_state() == forward_step(s0, SinkEvent::Ensure(name@)));
        }
    }

    /// A layer's slot names a forward layer.
    proof fn lemma_slot_valid(&self, layer: Seq<char>)
        requires
            self.wf(),
        ensures
            self.forward matches Some(f) ==> (table_slot(self.forward_state().table, layer) matches Some(i) ==> i < f@.layers.len()),
    {
        let t = self.forward_state().table;
        let k = crate::forward::first_index_of(table_names(t), layer);
        if k >= 0 {
            assert(table_names(t)[k] == layer && 0 <= k < table_names(t).len()) by {
                if exists|j: int| 0 <= j < table_names(t).len() && table_names(t)[j] == layer && forall|q: int| 0 <= q < j ==> table_names(t)[q] != layer {
                } else {
                }
            }
        }
    }

    /// The slot of the first table entry named `layer`.
    fn slot_of(&self, layer: &str) -> (r: Option<usize>)
        ensures
            r == table_slot(self.forward_state().table, layer@),
    {
        let ghost t = self.forward_state().table;
        let mut i: usize = 0;
        while i < self.layer_indices.len()
            invariant
                0 <= i <= self.layer_indices@.len(),
                t == self.forward_state().table,
                forall|k: int| 0 <= k < i ==> table_names(t)[k] != layer@,
            decreases self.layer_indices@.len() - i,
        {
            proof { assert(table_names(t)[i as int] == self.layer_indices@[i as int].0@); }
            if str_eq(self.layer_indices[i].0.as_str(), layer) {
                proof { crate::forward::lemma_first_index_of(table_names(t), layer@, i as int); }
                return Some(self.layer_indices[i].1);
            }
            i = i + 1;
        }
        proof { crate::forward::lemma_first_index_absent(table_names(t), layer@); }
        None
    }

    /// Records the text `value` of `layer` at `position`: in the inverted index and the lexicon
    /// unless the layer is forward-only, and in the forward index when the layer has a slot.
    fn add_token_annotation(&mut self, position: u64, layer: &str, value: &str)
        requires
            old(self).wf(),
            position < usize::MAX,
            position < u64::MAX,
        ensures
            final(self).wf(),
            final(self).follows(old(self), seq![SinkEvent::Text(position, layer@, value@)]),
            final(self).same_rest(old(self)),
    {
        let ghost ev = SinkEvent::Text(position, layer@, value@);
        proof { lemma_after_one(ev, self.forward_only()); }
        if !has_name(&self.forward_only_layers, layer) {
            let mut ps: Vec<Position> = Vec::new();
            ps.push(position);
            self.inverted.insert(layer, value, ps.as_slice());
            proof {
                let m = ps@.map_values(|p: Position| p as u32);
                assert(m =~= seq![position as u32]);
                assert(positions_u32(ps@) =~= set![position as u32]) by {
                    assert forall|x: u32| m.to_set().contains(x) <==> x == position as u32 by {
                        if x == position as u32 { assert(m[0] == x); }
                    }
                }
            }
            if self.lexicon.term_count(layer) < 0xffff_ffffusize {
                let _ = self.lexicon.add_term(layer, value);
            }
        }
        let slot = self.slot_of(layer);
        proof { self.lemma_slot_valid(layer@); }
        match &mut self.forward {
            Some(fwd) => match slot {
                Some(i) => {
                    fwd.set(i, position, Value::from_text(value));
                },
                None => {},
            },
            None => {},
        }
        proof {
            assert(self.forward_state().table == old(self).forward_state().table);
            assert(self.forward_state() == forward_step(old(self).forward_state(), ev));
            assert forall|l: Seq<char>, v: Seq<char>| #[trigger] self.postings(l, v)
                == postings_step(old(self).postings(l, v), ev, old(self).forward_only(), l, v) by {
                if l == layer@ && v == value@ && !old(self).forward_only().contains(l) {
                    let base = match old(self).postings(l, v) { Some(x) => x, None => Set::<u32>::empty() };
                    assert(base.union(set![position as u32]) =~= base.insert(position as u32));
                }
            }
            assert(self.lexicon_view() == lexicon_event(old(self).lexicon_view(), ev, old(self).forward_only()));
        }
    }

    /// Records the integer `value` of `layer` at `position` in the forward index, when the layer
    /// has a slot there.
    fn add_token_int_annotation(&mut self, position: u64, layer: &str, value: i64)
        requires
            old(self).wf(),
            position < usize::MAX,
            position < u64::MAX,
        ensures
            final(self).wf(),
            final(self).follows(old(self), seq![SinkEvent::Int(position, layer@, value)]),
            final(self).same_rest(old(self)),
    {
        let ghost ev = SinkEvent::Int(position, layer@, value);
        proof { lemma_after_one(ev, self.forward_only()); }
        let slot = self.slot_of(layer);
        proof { self.lemma_slot_valid(layer@); }
        match &mut self.forward {
            Some(fwd) => match slot {
                Some(i) => {
                    fwd.set(i, position, Value::from_int(value));
                },
                None => {},
            },
            None => {},
        }
        proof {
            assert(self.forward_state().table == old(self).forward_state().table);
            assert(self.forward_state() == forward_step(old(self).forward_state(), ev));
        }
    }
}

/// The index of the first `c` in `s`.
fn first_char_exec(s: &[char], c: char) -> (r: Option<usize>)
    ensures
        match r {
            Some(k) => k < s@.len() && first_char(s@, c) == k,
            None => first_char(s@, c) == -1,
        },
{
    let mut i: usize = 0;
    proof { assert(s@.subrange(0, 0) =~= Seq::<char>::empty()); }
    while i < s.len()
        invariant
            0 <= i <= s@.len(),
            first_char(s@.subrange(0, i as int), c) == -1,
        decreases s@.len() - i,
    {
        proof {
            let t = s@.subrange(0, i + 1);
            assert(t.drop_last() =~= s@.subrange(0, i as int));
        }
        if s[i] == c {
            proof { lemma_first_char_prefix(s@, c, i as int); }
            return Some(i);
        }
        i = i + 1;
    }
    proof { assert(s@.subrange(0, i as int) =~= s@); }
    None
}

/// When `c` first occurs at `k`, that is where it first occurs in the whole sequence.
proof fn lemma_first_char_prefix(s: Seq<char>, c: char, k: int)
    requires
        0 <= k < s.len(),
        s[k] == c,
        first_char(s.subrange(0, k), c) == -1,
    ensures
        first_char(s, c) == k,
    decreases s.len(),
{
    if s.len() == k + 1 {
        assert(s.drop_last() =~= s.subrange(0, k));
    } else {
        let d = s.drop_last();
        assert(d.subrange(0, k) =~= s.subrange(0, k));
        lemma_first_char_prefix(d, c, k);
    }
}

/// The events that the document's sentences give, and what happens to positions, spans and
/// sentence ids as they are added.
pub struct DocProgress {
    pub pos: int,
    pub spans: Map<Seq<char>, Seq<Span>>,
    pub order: Seq<Seq<char>>,
    pub ids: Seq<Seq<char>>,
    pub k: nat,
}

/// The span layers after `span` is appended to `layer`.
pub open spec fn span_added(m: Map<Seq<char>, Seq<Span>>, order: Seq<Seq<char>>, layer: Seq<char>, span: Span)
    -> (Map<Seq<char>, Seq<Span>>, Seq<Seq<char>>) {
    (m.insert(layer, layer_or_empty(m, layer).push(span)), if m.dom().contains(layer) { order } else { order.push(layer) })
}

/// The id of a sentence: its own, or the document name, a colon and its number among the
/// document's non-empty sentences.
pub open spec fn sentence_id_of(s: ParsedSentence, doc: Seq<char>, k: nat) -> Seq<char> {
    match s.sent_id {
        Some(t) => t@,
        None => doc + ":"@ + decimal_digits(k),
    }
}

/// A sentence with its own id keeps it. A sentence without one, numbered `k` among its
/// document's non-empty sentences, gets the document name, a colon, and text that reads as
/// `k`; so two such sentences of one document with different numbers get different ids.
pub proof fn lemma_sentence_ids(s1: ParsedSentence, s2: ParsedSentence, doc: Seq<char>, k1: nat, k2: nat)
    ensures
        s1.sent_id matches Some(t) ==> sentence_id_of(s1, doc, k1) == t@,
        s1.sent_id is None ==> ({
            let id = sentence_id_of(s1, doc, k1);
            &&& id.len() > doc.len() + 1
            &&& id.subrange(0, doc.len() as int) == doc
            &&& id[doc.len() as int] == ':'
            &&& crate::chars::unsigned_text(id.subrange(doc.len() as int + 1, id.len() as int)) == Some(k1)
        }),
        s1.sent_id is None && s2.sent_id is None && k1 != k2 ==> sentence_id_of(s1, doc, k1) != sentence_id_of(s2, doc, k2),
{
    reveal_strlit(":");
    crate::chars::lemma_decimal_reads_back(k1);
    crate::chars::lemma_decimal_reads_back(k2);
    if s1.sent_id is None {
        let id = sentence_id_of(s1, doc, k1);
        let d1 = decimal_digits(k1);
        assert(id == doc + seq![':'] + d1);
        assert(id.subrange(0, doc.len() as int) =~= doc);
        assert(id.subrange(doc.len() as int + 1, id.len() as int) =~= d1);
        if s2.sent_id is None && k1 != k2 {
            let d2 = decimal_digits(k2);
            let id2 = sentence_id_of(s2, doc, k2);
            if id == id2 {
                assert(id2.subrange(doc.len() as int + 1, id2.len() as int) =~= d2);
                assert(d1 == d2);
            }
        }
    }
}

/// The progress after the sentences: each non-empty sentence becomes a span of layer `sentence`
/// and gets an id.
pub open spec fn doc_progress(start: DocProgress, ss: Seq<ParsedSentence>, doc: Seq<char>) -> DocProgress
    decreases ss.len(),
{
    if ss.len() == 0 {
        start
    } else {
        let f = doc_progress(start, ss.drop_last(), doc);
        let n = ss.last().tokens@.len();
        if n > 0 {
            let (m, o) = span_added(f.spans, f.order, "sentence"@, Span { start: f.pos as u64, end: (f.pos + n) as u64 });
            DocProgress { pos: f.pos + n, spans: m, order: o, ids: f.ids.push(sentence_id_of(ss.last(), doc, f.k)), k: f.k + 1 }
        } else {
            f
        }
    }
}

impl IndexSink {
    /// Splits a feature string at `|` and records each `key=value` piece in layer `feats.key`.
    fn decompose_feats_annotation(&mut self, position: u64, feats: &str)
        requires
            old(self).wf(),
            position < usize::MAX,
            position < u64::MAX,
        ensures
            final(self).wf(),
            final(self).follows(old(self), features_events(position, split(feats@, '|'))),
            final(self).same_rest(old(self)),
    {
        let chars = chars_of(feats);
        let pieces = split_chars(chars.as_slice(), '|');
        let ghost ps = crate::chars::views(pieces@);
        let mut i: usize = 0;
        proof {
            Self::lemma_follows_refl(self);
            assert(ps.subrange(0, 0) =~= Seq::<Seq<char>>::empty());
        }
        while i < pieces.len()
            invariant
                0 <= i <= pieces@.len(),
                ps == crate::chars::views(pieces@),
                ps == split(feats@, '|'),
                position < usize::MAX,
                position < u64::MAX,
                self.wf(),
                self.follows(old(self), features_events(position, ps.subrange(0, i as int))),
                self.same_rest(old(self)),
            decreases pieces@.len() - i,
        {
            let piece = &pieces[i];
            let ghost before = *self;
            proof {
                assert(ps.subrange(0, i + 1).drop_last() =~= ps.subrange(0, i as int));
                assert(ps.subrange(0, i + 1).last() == piece@);
                assert(ps[i as int] == piece@);
            }
            let n = piece.len();
            match first_char_exec(piece.as_slice(), '=') {
                Some(k) => {
                    let key = crate::chars::slice_chars(piece.as_slice(), 0, k);
                    let value = crate::chars::slice_chars(piece.as_slice(), k + 1, n);
                    let layer = concat("feats.", string_from_chars(key.as_slice()).as_str());
                    let value_text = string_from_chars(value.as_slice());
                    self.ensure_layer(layer.as_str());
                    let ghost mid = *self;
                    self.add_token_annotation(position, layer.as_str(), value_text.as_str());
                    proof {
                        let e1 = seq![SinkEvent::Ensure(layer@)];
                        let e2 = seq![SinkEvent::Text(position, layer@, value_text@)];
                        Self::lemma_follows_trans(&before, &mid, self, e1, e2);
                        assert(e1 + e2 =~= feature_events(position, piece@));
                        Self::lemma_follows_trans(old(self), &before, self, features_events(position, ps.subrange(0, i as int)), e1 + e2);
                    }
                },
                None => {
                    proof {
                        assert(feature_events(position, piece@) =~= Seq::<SinkEvent>::empty());
                        assert(features_events(position, ps.subrange(0, i as int)) + Seq::<SinkEvent>::empty()
                            =~= features_events(position, ps.subrange(0, i as int)));
                    }
                },
            }
            i = i + 1;
        }
        proof { assert(ps.subrange(0, i as int) =~= ps); }
    }

    /// Records every annotation of `token` at `position`.
    fn add_token(&mut self, position: u64, token: &ParsedToken)
        requires
            old(self).wf(),
            position < usize::MAX,
            position < u64::MAX,
        ensures
            final(self).wf(),
            final(self).follows(old(self), token_events(position, *token, old(self).decomposes())),
            final(self).same_rest(old(self)),
    {
        let ghost s0 = *self;
        self.add_token_annotation(position, "word", token.word.as_str());
        let ghost mut evs = seq![SinkEvent::Text(position, "word"@, token.word@)];
        let ghost s1 = *self;
        match &token.lemma {
            Some(t) => {
                self.add_token_annotation(position, "lemma", t.as_str());
                proof { Self::lemma_follows_trans(&s0, &s1, self, evs, opt_text(position, "lemma"@, token.lemma)); }
            },
            None => { proof { assert(evs + opt_text(position, "lemma"@, token.lemma) =~= evs); } },
        }
        proof { evs = evs + opt_text(position, "lemma"@, token.lemma); }
        let ghost s2 = *self;
        match &token.upos {
            Some(t) => {
                self.add_token_annotation(position, "upos", t.as_str());
                proof { Self::lemma_follows_trans(&s0, &s2, self, evs, opt_text(position, "upos"@, token.upos)); }
            },
            None => { proof { assert(evs + opt_text(position, "upos"@, token.upos) =~= evs); } },
        }
        proof { evs = evs + opt_text(position, "upos"@, token.upos); }
        let ghost s3 = *self;
        match &token.xpos {
            Some(t) => {
                self.add_token_annotation(position, "xpos", t.as_str());
                proof { Self::lemma_follows_trans(&s0, &s3, self, evs, opt_text(position, "xpos"@, token.xpos)); }
            },
            None => { proof { assert(evs + opt_text(position, "xpos"@, token.xpos) =~= evs); } },
        }
        proof { evs = evs + opt_text(position, "xpos"@, token.xpos); }
        let ghost s4 = *self;
        let ghost feats_evs = feats_part(position, token.feats, s0.decomposes());
        match &token.feats {
            Some(f) => {
                self.add_token_annotation(position, "feats", f.as_str());
                let ghost s45 = *self;
                let ghost one = seq![SinkEvent::Text(position, "feats"@, f@)];
                if self.decompose_feats {
                    self.decompose_feats_annotation(position, f.as_str());
                    proof { Self::lemma_follows_trans(&s4, &s45, self, one, features_events(position, split(f@, '|'))); }
                } else {
                    proof { assert(one + Seq::<SinkEvent>::empty() =~= one); }
                }
                proof { Self::lemma_follows_trans(&s0, &s4, self, evs, feats_evs); }
            },
            None => { proof { assert(evs + feats_evs =~= evs); } },
        }
        proof { evs = evs + feats_evs; }
        let ghost s5 = *self;
        let ghost head_evs = match token.head {
            Some(h) => seq![SinkEvent::Int(position, "head"@, h)],
            None => Seq::<SinkEvent>::empty(),
        };
        match token.head {
            Some(h) => {
                self.add_token_int_annotation(position, "head", h);
                proof { Self::lemma_follows_trans(&s0, &s5, self, evs, head_evs); }
            },
            None => { proof { assert(evs + head_evs =~= evs); } },
        }
        proof { evs = evs + head_evs; }
        let ghost s6 = *self;
        match &token.deprel {
            Some(t) => {
                self.add_token_annotation(position, "deprel", t.as_str());
                proof { Self::lemma_follows_trans(&s0, &s6, self, evs, opt_text(position, "deprel"@, token.deprel)); }
            },
            None => { proof { assert(evs + opt_text(position, "deprel"@, token.deprel) =~= evs); } },
        }
        proof {
            evs = evs + opt_text(position, "deprel"@, token.deprel);
            assert(evs =~= token_events(position, *token, s0.decomposes()));
        }
    }
}

/// Adding one more sentence to a list adds its tokens to the total; a prefix has no more tokens
/// than the whole list.
pub proof fn lemma_total_prefix(ss: Seq<ParsedSentence>, i: int)
    requires
        0 <= i < ss.len(),
    ensures
        token_total(ss.subrange(0, i + 1)) == token_total(ss.subrange(0, i)) + ss[i].tokens@.len(),
        token_total(ss.subrange(0, i + 1)) <= token_total(ss),
        token_total(ss.subrange(0, i)) >= 0,
    decreases ss.len(),
{
    assert(ss.subrange(0, i + 1).drop_last() =~= ss.subrange(0, i));
    lemma_total_nonneg(ss.subrange(0, i));
    if i + 1 < ss.len() {
        let d = ss.drop_last();
        assert(d.subrange(0, i + 1) =~= ss.subrange(0, i + 1));
        assert(d.subrange(0, i) =~= ss.subrange(0, i));
        lemma_total_prefix(d, i);
        lemma_total_nonneg(ss);
    } else {
        assert(ss.subrange(0, i + 1) =~= ss);
    }
}

/// A number of tokens is never negative.
pub proof fn lemma_total_nonneg(ss: Seq<ParsedSentence>)
    ensures
        token_total(ss) >= 0,
    decreases ss.len(),
{
    if ss.len() > 0 {
        lemma_total_nonneg(ss.drop_last());
    }
}

/// The progress of a document moves the position by its tokens and counts at most that many
/// sentences.
pub proof fn lemma_progress(start: DocProgress, ss: Seq<ParsedSentence>, doc: Seq<char>)
    ensures
        doc_progress(start, ss, doc).pos == start.pos + token_total(ss),
        doc_progress(start, ss, doc).k <= start.k + token_total(ss),
    decreases ss.len(),
{
    if ss.len() > 0 {
        lemma_progress(start, ss.drop_last(), doc);
    }
}

impl IndexSink {
    /// What adding document `doc` with sentences `ss` does to positions, spans and ids, from
    /// this sink's state.
    pub open spec fn progress_after(&self, ss: Seq<ParsedSentence>, doc: Seq<char>) -> DocProgress {
        doc_progress(DocProgress { pos: self.position() as int, spans: self.spans_view(), order: self.span_order(), ids: self.sent_ids(), k: 0 },
            ss, doc)
    }

    /// Changing neither postings, lexicon, forward index nor layer table follows no events.
    proof fn lemma_frame(a: &IndexSink, b: &IndexSink)
        requires
            b.inverted == a.inverted,
            b.lexicon == a.lexicon,
            b.forward == a.forward,
            b.layer_indices == a.layer_indices,
            b.forward_only_layers == a.forward_only_layers,
            b.decompose_feats == a.decompose_feats,
        ensures
            b.follows(a, Seq::empty()),
    {
        assert forall|l: Seq<char>, v: Seq<char>| #[trigger] b.postings(l, v)
            == postings_after(a.postings(l, v), Seq::empty(), a.forward_only(), l, v) by {
            assert(b.postings(l, v) == a.postings(l, v));
        }
    }

    /// Moves to the next position.
    fn advance_position(&mut self)
        requires
            old(self).wf(),
            old(self).position() < u64::MAX,
        ensures
            final(self).wf(),
            final(self).follows(old(self), Seq::empty()),
            final(self).position() == old(self).position() + 1,
            final(self).spans_view() == old(self).spans_view(),
            final(self).span_order() == old(self).span_order(),
            final(self).sent_ids() == old(self).sent_ids(),
            final(self).doc_names() == old(self).doc_names(),
    {
        self.current_position = self.current_position + 1;
        proof {
            assert forall|l: Seq<char>, v: Seq<char>| #[trigger] self.postings(l, v)
                == postings_after(old(self).postings(l, v), Seq::empty(), old(self).forward_only(), l, v) by {
                assert(self.postings(l, v) == old(self).postings(l, v));
            }
        }
    }

    /// Adds a document: its tokens take the next positions, each non-empty sentence becomes a
    /// `sentence` span with an id (its own, or the document name, a colon and its number), and a
    /// non-empty document becomes a `document` span and gets its name recorded.
    pub fn add_document(&mut self, doc_name: &str, sentences: Vec<ParsedSentence>)
        requires
            old(self).wf(),
            old(self).position() + token_total(sentences@) < usize::MAX,
        ensures
            final(self).wf(),
            final(self).follows(old(self), sentences_events(old(self).position() as int, sentences@, old(self).decomposes())),
            ({
                let f = old(self).progress_after(sentences@, doc_name@);
                &&& final(self).position() == f.pos
                &&& final(self).position() == old(self).position() + token_total(sentences@)
                &&& final(self).sent_ids() == f.ids
                &&& f.pos > old(self).position() ==> {
                    &&& (final(self).spans_view(), final(self).span_order())
                        == span_added(f.spans, f.order, "document"@, Span { start: old(self).position(), end: f.pos as u64 })
                    &&& final(self).doc_names() == old(self).doc_names().push(doc_name@)
                }
                &&& f.pos == old(self).position() ==> final(self).spans_view() == f.spans && final(self).span_order() == f.order
                    && final(self).doc_names() == old(self).doc_names()
            }),
            old(self).bounded() ==> final(self).bounded(),
    {
        let ghost p0 = self.current_position as int;
        let ghost d = self.decompose_feats;
        let ghost start = DocProgress { pos: p0, spans: self.spans@, order: self.spans.layer_order(), ids: self.sent_ids(), k: 0 };
        let ghost ss = sentences@;
        let doc_start = self.current_position;
        let mut k: u64 = 0;
        let mut si: usize = 0;
        proof {
            Self::lemma_follows_refl(self);
            assert(ss.subrange(0, 0) =~= Seq::<ParsedSentence>::empty());
            lemma_total_nonneg(ss);
        }
        while si < sentences.len()
            invariant
                0 <= si <= ss.len(),
                ss == sentences@,
                p0 == doc_start,
                p0 + token_total(ss) < usize::MAX,
                d == old(self).decomposes(),
                start == (DocProgress { pos: p0, spans: old(self).spans_view(), order: old(self).span_order(), ids: old(self).sent_ids(), k: 0 }),
                self.wf(),
                self.follows(old(self), sentences_events(p0, ss.subrange(0, si as int), d)),
                self.doc_names() == old(self).doc_names(),
                ({
                    let f = doc_progress(start, ss.subrange(0, si as int), doc_name@);
                    &&& self.position() == f.pos
                    &&& self.spans_view() == f.spans
                    &&& self.span_order() == f.order
                    &&& self.sent_ids() == f.ids
                    &&& k == f.k
                }),
            decreases ss.len() - si,
        {
            let sentence = &sentences[si];
            let ghost f = doc_progress(start, ss.subrange(0, si as int), doc_name@);
            let ghost evs0 = sentences_events(p0, ss.subrange(0, si as int), d);
            proof {
                lemma_total_prefix(ss, si as int);
                lemma_progress(start, ss.subrange(0, si as int), doc_name@);
                lemma_progress(start, ss.subrange(0, si + 1), doc_name@);
                assert(ss.subrange(0, si + 1).drop_last() =~= ss.subrange(0, si as int));
                assert(ss.subrange(0, si + 1).last() == *sentence);
            }
            let sent_start = self.current_position;
            let ghost toks = sentence.tokens@;
            let mut ti: usize = 0;
            proof {
                assert(toks.subrange(0, 0) =~= Seq::<ParsedToken>::empty());
                assert(evs0 + tokens_events(sent_start as int, toks.subrange(0, 0), d) =~= evs0);
            }
            while ti < sentence.tokens.len()
                invariant
                    0 <= ti <= toks.len(),
                    toks == sentence.tokens@,
                    sent_start as int + toks.len() < usize::MAX,
                    self.wf(),
                    self.position() == sent_start + ti,
                    self.follows(old(self), evs0 + tokens_events(sent_start as int, toks.subrange(0, ti as int), d)),
                    self.decomposes() == d,
                    self.spans_view() == f.spans,
                    self.span_order() == f.order,
                    self.sent_ids() == f.ids,
                    self.doc_names() == old(self).doc_names(),
                decreases toks.len() - ti,
            {
                let ghost before = *self;
                let position = self.current_position;
                self.add_token(position, &sentence.tokens[ti]);
                proof {
                    let t1 = toks.subrange(0, ti + 1);
                    assert(t1.drop_last() =~= toks.subrange(0, ti as int));
                    assert(t1.last() == toks[ti as int]);
                    let e0 = tokens_events(sent_start as int, toks.subrange(0, ti as int), d);
                    let e1 = token_events(position, toks[ti as int], d);
                    assert(((sent_start as int) + t1.len() - 1) as u64 == position);
                    assert(tokens_events(sent_start as int, t1, d) == e0 + e1);
                    Self::lemma_follows_trans(old(self), &before, self, evs0 + e0, e1);
                    assert(evs0 + e0 + e1 =~= evs0 + tokens_events(sent_start as int, t1, d));
                    assert(self.follows(old(self), evs0 + tokens_events(sent_start as int, t1, d)));
                }
                let ghost after_token = *self;
                self.advance_position();
                proof {
                    Self::lemma_follows_trans(old(self), &after_token, self,
                        evs0 + tokens_events(sent_start as int, toks.subrange(0, ti + 1), d), Seq::empty());
                    assert(evs0 + tokens_events(sent_start as int, toks.subrange(0, ti + 1), d) + Seq::<SinkEvent>::empty()
                        =~= evs0 + tokens_events(sent_start as int, toks.subrange(0, ti + 1), d));
                }
                ti = ti + 1;
            }
            proof {
                assert(toks.subrange(0, ti as int) =~= toks);
                assert(sentences_events(p0, ss.subrange(0, si + 1), d) == evs0 + tokens_events(sent_start as int, toks, d));
            }
            let sent_end = self.current_position;
            let ghost pre = *self;
            if sent_end > sent_start {
                self.spans.add_span("sentence", Span::new(sent_start, sent_end));
                let id = match &sentence.sent_id {
                    Some(t) => t.clone(),
                    None => {
                        let a = concat(doc_name, ":");
                        concat(a.as_str(), u64_to_decimal(k).as_str())
                    },
                };
                let ghost ids0 = string_views(self.sentence_ids@);
                self.sentence_ids.push(id);
                proof { assert(string_views(self.sentence_ids@) =~= ids0.push(id@)); }
                k = k + 1;
            }
            proof {
                Self::lemma_frame(&pre, self);
                Self::lemma_follows_trans(old(self), &pre, self, sentences_events(p0, ss.subrange(0, si + 1), d), Seq::empty());
                assert(sentences_events(p0, ss.subrange(0, si + 1), d) + Seq::<SinkEvent>::empty()
                    =~= sentences_events(p0, ss.subrange(0, si + 1), d));
            }
            si = si + 1;
        }
        proof {
            assert(ss.subrange(0, si as int) =~= ss);
            lemma_progress(start, ss, doc_name@);
        }
        let doc_end = self.current_position;
        let ghost pre = *self;
        if doc_end > doc_start {
            self.spans.add_span("document", Span::new(doc_start, doc_end));
            let ghost names0 = string_views(self.document_names@);
            self.document_names.push(doc_name.to_owned());
            proof { assert(string_views(self.document_names@) =~= names0.push(doc_name@)); }
        }
        proof {
            Self::lemma_frame(&pre, self);
            Self::lemma_follows_trans(old(self), &pre, self, sentences_events(p0, ss, d), Seq::empty());
            assert(sentences_events(p0, ss, d) + Seq::<SinkEvent>::empty() =~= sentences_events(p0, ss, d));
            if old(self).bounded() {
                Self::lemma_add_document_bounded(old(self), self, ss, doc_name@);
            }
        }
    }
}

/// The text and integer events are at positions in `[lo, hi)`.
pub open spec fn events_within(evs: Seq<SinkEvent>, lo: int, hi: int) -> bool {
    forall|k: int| 0 <= k < evs.len() ==> match #[trigger] evs[k] {
        SinkEvent::Text(p, _, _) => lo <= p < hi,
        SinkEvent::Int(p, _, _) => lo <= p < hi,
        SinkEvent::Ensure(_) => true,
    }
}

/// The events of a feature string are at its token's position.
pub proof fn lemma_features_within(p: u64, pieces: Seq<Seq<char>>)
    ensures
        events_within(features_events(p, pieces), p as int, p + 1),
    decreases pieces.len(),
{
    if pieces.len() > 0 {
        lemma_features_within(p, pieces.drop_last());
        let a = features_events(p, pieces.drop_last());
        let b = feature_events(p, pieces.last());
        assert forall|k: int| 0 <= k < (a + b).len() implies match #[trigger] (a + b)[k] {
            SinkEvent::Text(q, _, _) => p <= q < p + 1,
            SinkEvent::Int(q, _, _) => p <= q < p + 1,
            SinkEvent::Ensure(_) => true,
        } by {
            if k < a.len() { assert((a + b)[k] == a[k]); } else { assert((a + b)[k] == b[k - a.len()]); }
        }
    }
}

/// Two lists of events within the same range make a list within it.
pub proof fn lemma_within_concat(a: Seq<SinkEvent>, b: Seq<SinkEvent>, lo: int, hi: int)
    requires
        events_within(a, lo, hi),
        events_within(b, lo, hi),
    ensures
        events_within(a + b, lo, hi),
{
    assert forall|k: int| 0 <= k < (a + b).len() implies match #[trigger] (a + b)[k] {
        SinkEvent::Text(q, _, _) => lo <= q < hi,
        SinkEvent::Int(q, _, _) => lo <= q < hi,
        SinkEvent::Ensure(_) => true,
    } by {
        if k < a.len() { assert((a + b)[k] == a[k]); } else { assert((a + b)[k] == b[k - a.len()]); }
    }
}

/// Events within a range are within any range around it.
pub proof fn lemma_within_widen(a: Seq<SinkEvent>, lo: int, hi: int, lo2: int, hi2: int)
    requires
        events_within(a, lo, hi),
        lo2 <= lo,
        hi <= hi2,
    ensures
        events_within(a, lo2, hi2),
{
    assert forall|k: int| 0 <= k < a.len() implies match #[trigger] a[k] {
        SinkEvent::Text(q, _, _) => lo2 <= q < hi2,
        SinkEvent::Int(q, _, _) => lo2 <= q < hi2,
        SinkEvent::Ensure(_) => true,
    } by {
        match a[k] {
            SinkEvent::Text(q, _, _) => {},
            SinkEvent::Int(q, _, _) => {},
            SinkEvent::Ensure(_) => {},
        }
    }
}

/// A token's events are at its position.
pub proof fn lemma_token_within(p: u64, t: ParsedToken, d: bool)
    ensures
        events_within(token_events(p, t, d), p as int, p + 1),
{
    lemma_features_within(p, match t.feats { Some(f) => split(f@, '|'), None => Seq::empty() });
    let parts = seq![
        seq![SinkEvent::Text(p, "word"@, t.word@)],
        opt_text(p, "lemma"@, t.lemma),
        opt_text(p, "upos"@, t.upos),
        opt_text(p, "xpos"@, t.xpos),
        feats_part(p, t.feats, d),
        match t.head { Some(h) => seq![SinkEvent::Int(p, "head"@, h)], None => Seq::empty() },
        opt_text(p, "deprel"@, t.deprel)
    ];
    let lo = p as int;
    let hi = p + 1;
    if t.feats is Some && d {
        lemma_within_concat(seq![SinkEvent::Text(p, "feats"@, t.feats.unwrap()@)], features_events(p, split(t.feats.unwrap()@, '|')), lo, hi);
    }
    lemma_within_concat(parts[0], parts[1], lo, hi);
    lemma_within_concat(parts[0] + parts[1], parts[2], lo, hi);
    lemma_within_concat(parts[0] + parts[1] + parts[2], parts[3], lo, hi);
    lemma_within_concat(parts[0] + parts[1] + parts[2] + parts[3], parts[4], lo, hi);
    lemma_within_concat(parts[0] + parts[1] + parts[2] + parts[3] + parts[4], parts[5], lo, hi);
    lemma_within_concat(parts[0] + parts[1] + parts[2] + parts[3] + parts[4] + parts[5], parts[6], lo, hi);
}

/// Tokens placed from `p` have events in `[p, p + count)`.
pub proof fn lemma_tokens_within(p: int, ts: Seq<ParsedToken>, d: bool)
    requires
        0 <= p,
        p + ts.len() <= u64::MAX,
    ensures
        events_within(tokens_events(p, ts, d), p, p + ts.len()),
    decreases ts.len(),
{
    if ts.len() > 0 {
        lemma_tokens_within(p, ts.drop_last(), d);
        let q = (p + ts.len() - 1) as u64;
        lemma_token_within(q, ts.last(), d);
        lemma_within_widen(tokens_events(p, ts.drop_last(), d), p, p + ts.len() - 1, p, p + ts.len());
        lemma_within_widen(token_events(q, ts.last(), d), q as int, q + 1, p, p + ts.len());
        lemma_within_concat(tokens_events(p, ts.drop_last(), d), token_events(q, ts.last(), d), p, p + ts.len());
    }
}

/// Sentences whose tokens are placed from `p` have events in `[p, p + total)`.
pub proof fn lemma_sentences_within(p: int, ss: Seq<ParsedSentence>, d: bool)
    requires
        0 <= p,
        p + token_total(ss) <= u64::MAX,
    ensures
        events_within(sentences_events(p, ss, d), p, p + token_total(ss)),
    decreases ss.len(),
{
    if ss.len() > 0 {
        let rest = ss.drop_last();
        lemma_total_nonneg(rest);
        lemma_sentences_within(p, rest, d);
        let q = p + token_total(rest);
        lemma_tokens_within(q, ss.last().tokens@, d);
        lemma_within_widen(sentences_events(p, rest, d), p, q, p, p + token_total(ss));
        lemma_within_widen(tokens_events(q, ss.last().tokens@, d), q, q + ss.last().tokens@.len(), p, p + token_total(ss));
        lemma_within_concat(sentences_events(p, rest, d), tokens_events(q, ss.last().tokens@, d), p, p + token_total(ss));
    }
}

/// Positions recorded by events below `hi` stay below `hi`.
pub proof fn lemma_postings_below(o: Option<Set<u32>>, evs: Seq<SinkEvent>, fo: Seq<Seq<char>>, l: Seq<char>, v: Seq<char>, hi: int)
    requires
        o matches Some(s) ==> forall|x: u32| s.contains(x) ==> x < hi,
        events_within(evs, 0, hi),
    ensures
        postings_after(o, evs, fo, l, v) matches Some(s) ==> forall|x: u32| s.contains(x) ==> x < hi,
    decreases evs.len(),
{
    if evs.len() > 0 {
        let d = evs.drop_last();
        assert(events_within(d, 0, hi)) by {
            assert forall|k: int| 0 <= k < d.len() implies match #[trigger] d[k] {
                SinkEvent::Text(q, _, _) => 0 <= q < hi,
                SinkEvent::Int(q, _, _) => 0 <= q < hi,
                SinkEvent::Ensure(_) => true,
            } by { assert(d[k] == evs[k]); }
        }
        lemma_postings_below(o, d, fo, l, v, hi);
        let last = evs.last();
        assert(evs[evs.len() - 1] == last);
        match last {
            SinkEvent::Text(p, _, _) => {
                assert((p as u32) <= p) by (bit_vector);
            },
            _ => {},
        }
    }
}

/// The layers of the forward model hold at most `hi` values and cover at most `hi` positions.
pub open spec fn forward_within(f: ForwardModel, hi: int) -> bool {
    &&& f.token_count <= hi
    &&& forall|j: int| 0 <= j < f.data.len() ==> #[trigger] f.data[j].len() <= hi
}

/// A forward state stays within `hi` under events below `hi`.
pub proof fn lemma_forward_below(s: ForwardState, evs: Seq<SinkEvent>, hi: int)
    requires
        0 <= hi,
        s.fwd matches Some(f) ==> forward_within(f, hi) && f.layers.len() == f.data.len(),
        slots_valid(s),
        events_within(evs, 0, hi),
    ensures
        forward_after(s, evs).fwd matches Some(f) ==> forward_within(f, hi) && f.layers.len() == f.data.len(),
        slots_valid(forward_after(s, evs)),
        s.fwd is Some <==> forward_after(s, evs).fwd is Some,
    decreases evs.len(),
{
    if evs.len() > 0 {
        let d = evs.drop_last();
        assert(events_within(d, 0, hi)) by {
            assert forall|k: int| 0 <= k < d.len() implies match #[trigger] d[k] {
                SinkEvent::Text(q, _, _) => 0 <= q < hi,
                SinkEvent::Int(q, _, _) => 0 <= q < hi,
                SinkEvent::Ensure(_) => true,
            } by { assert(d[k] == evs[k]); }
        }
        lemma_forward_below(s, d, hi);
        let r = forward_after(s, d);
        let e = evs.last();
        assert(evs[evs.len() - 1] == e);
        match e {
            SinkEvent::Ensure(name) => {
                if !table_names(r.table).contains(name) {
                    if let Some(f) = r.fwd {
                        let nf = ForwardModel { layers: f.layers.push(name), data: f.data.push(Seq::empty()), token_count: f.token_count };
                        assert forall|j: int| 0 <= j < nf.data.len() implies #[trigger] nf.data[j].len() <= hi by {
                            if j < f.data.len() { assert(nf.data[j] == f.data[j]); }
                        }
                        let nt = r.table.push((name, f.layers.len() as usize));
                        assert forall|k: int| 0 <= k < nt.len() implies (#[trigger] nt[k]).1 < nf.layers.len() by {
                            if k < r.table.len() { assert(nt[k] == r.table[k]); }
                        }
                    }
                }
            },
            SinkEvent::Text(p, layer, value) => {
                lemma_slot_in_table(r.table, layer);
                if let (Some(f), Some(i)) = (r.fwd, table_slot(r.table, layer)) {
                    let nf = forward_set(f, i as int, p, ValueModel::Str(value));
                    assert forall|j: int| 0 <= j < nf.data.len() implies #[trigger] nf.data[j].len() <= hi by {
                        if j != i { assert(nf.data[j] == f.data[j]); }
                    }
                }
            },
            SinkEvent::Int(p, layer, value) => {
                lemma_slot_in_table(r.table, layer);
                if let (Some(f), Some(i)) = (r.fwd, table_slot(r.table, layer)) {
                    let nf = forward_set(f, i as int, p, ValueModel::Int(value));
                    assert forall|j: int| 0 <= j < nf.data.len() implies #[trigger] nf.data[j].len() <= hi by {
                        if j != i { assert(nf.data[j] == f.data[j]); }
                    }
                }
            },
        }
    }
}

/// A slot that the table gives for a name is the slot of one of its entries.
pub proof fn lemma_slot_in_table(t: Seq<(Seq<char>, usize)>, l: Seq<char>)
    ensures
        table_slot(t, l) matches Some(i) ==> exists|k: int| 0 <= k < t.len() && #[trigger] t[k].1 == i,
{
    let names = table_names(t);
    let k = crate::forward::first_index_of(names, l);
    if k >= 0 {
        if exists|j: int| 0 <= j < names.len() && names[j] == l && forall|q: int| 0 <= q < j ==> names[q] != l {
            assert(0 <= k < t.len());
        }
    }
}

/// Every span of the layers is well formed and ends no later than `hi`.
pub open spec fn spans_within(m: Map<Seq<char>, Seq<Span>>, hi: int) -> bool {
    forall|k: Seq<char>, i: int| #[trigger] m.dom().contains(k) && 0 <= i < m[k].len()
        ==> (#[trigger] m[k][i]).wf() && m[k][i].end <= hi
}

/// Appending a well-formed span that ends by `hi` keeps the layers within `hi`.
pub proof fn lemma_span_added_within(m: Map<Seq<char>, Seq<Span>>, order: Seq<Seq<char>>, layer: Seq<char>, sp: Span, hi: int)
    requires
        spans_within(m, hi),
        sp.wf(),
        sp.end <= hi,
    ensures
        spans_within(span_added(m, order, layer, sp).0, hi),
{
    let n = span_added(m, order, layer, sp).0;
    assert forall|k: Seq<char>, i: int| #[trigger] n.dom().contains(k) && 0 <= i < n[k].len()
        implies (#[trigger] n[k][i]).wf() && n[k][i].end <= hi by {
        if k != layer {
            assert(n[k] == m[k]);
        } else {
            let old_l = layer_or_empty(m, layer);
            assert(n[k] == old_l.push(sp));
            if i < old_l.len() {
                assert(n[k][i] == old_l[i]);
                assert(m.dom().contains(k));
            }
        }
    }
}

/// Layers within a bound are within any larger bound.
pub proof fn lemma_spans_widen(m: Map<Seq<char>, Seq<Span>>, hi: int, hi2: int)
    requires
        spans_within(m, hi),
        hi <= hi2,
    ensures
        spans_within(m, hi2),
{
}

/// A document's progress keeps its spans within its position.
pub proof fn lemma_progress_within(start: DocProgress, ss: Seq<ParsedSentence>, doc: Seq<char>)
    requires
        spans_within(start.spans, start.pos),
        0 <= start.pos,
        start.pos + token_total(ss) <= u64::MAX,
    ensures
        spans_within(doc_progress(start, ss, doc).spans, doc_progress(start, ss, doc).pos),
    decreases ss.len(),
{
    if ss.len() > 0 {
        lemma_total_nonneg(ss.drop_last());
        lemma_progress(start, ss.drop_last(), doc);
        lemma_progress_within(start, ss.drop_last(), doc);
        let f = doc_progress(start, ss.drop_last(), doc);
        let n = ss.last().tokens@.len();
        if n > 0 {
            lemma_spans_widen(f.spans, f.pos, f.pos + n);
            lemma_span_added_within(f.spans, f.order, "sentence"@, Span { start: f.pos as u64, end: (f.pos + n) as u64 }, f.pos + n);
        }
    }
}

impl IndexSink {
    /// Every recorded position, span end and forward extent lies within the positions filled.
    pub open spec fn bounded(&self) -> bool {
        &&& forall|l: Seq<char>, v: Seq<char>| #[trigger] self.postings(l, v) matches Some(s)
            ==> forall|x: u32| s.contains(x) ==> x < self.position()
        &&& spans_within(self.spans_view(), self.position() as int)
        &&& self.forward_state().fwd matches Some(f) ==> forward_within(f, self.position() as int)
    }

    /// The forward model has one value list per layer.
    proof fn lemma_forward_shape(&self)
        requires
            self.wf(),
        ensures
            self.forward_state().fwd matches Some(f) ==> f.layers.len() == f.data.len(),
    {
        if let Some(f) = self.forward {
            f.lemma_wf();
        }
    }

    /// Adding a document to a bounded sink leaves it bounded.
    proof fn lemma_add_document_bounded(a: &IndexSink, b: &IndexSink, ss: Seq<ParsedSentence>, doc: Seq<char>)
        requires
            a.wf(),
            a.bounded(),
            a.position() + token_total(ss) < usize::MAX,
            b.follows(a, sentences_events(a.position() as int, ss, a.decomposes())),
            ({
                let f = a.progress_after(ss, doc);
                &&& b.position() == f.pos
                &&& b.position() == a.position() + token_total(ss)
                &&& f.pos > a.position() ==> (b.spans_view(), b.span_order())
                    == span_added(f.spans, f.order, "document"@, Span { start: a.position(), end: f.pos as u64 })
                &&& f.pos == a.position() ==> b.spans_view() == f.spans
            }),
        ensures
            b.bounded(),
    {
        let p0 = a.position() as int;
        let hi = b.position() as int;
        let evs = sentences_events(p0, ss, a.decomposes());
        lemma_total_nonneg(ss);
        lemma_sentences_within(p0, ss, a.decomposes());
        lemma_within_widen(evs, p0, p0 + token_total(ss), 0, hi);
        assert forall|l: Seq<char>, v: Seq<char>| #[trigger] b.postings(l, v) is Some
            implies forall|x: u32| b.postings(l, v).unwrap().contains(x) ==> x < b.position() by {
            lemma_postings_below(a.postings(l, v), evs, a.forward_only(), l, v, hi);
        }
        let start = DocProgress { pos: p0, spans: a.spans_view(), order: a.span_order(), ids: a.sent_ids(), k: 0 };
        lemma_progress(start, ss, doc);
        lemma_progress_within(start, ss, doc);
        let f = a.progress_after(ss, doc);
        if f.pos > p0 {
            lemma_span_added_within(f.spans, f.order, "document"@, Span { start: a.position(), end: f.pos as u64 }, hi);
        }
        a.lemma_forward_shape();
        lemma_forward_below(a.forward_state(), evs, hi);
    }
}

/// An `Ensure` event for each name, in order.
pub open spec fn ensure_events(names: Seq<Seq<char>>) -> Seq<SinkEvent> {
    names.map_values(|n: Seq<char>| SinkEvent::Ensure(n))
}

/// The forward model after another one (when both exist) is written in from `offset` on.
pub open spec fn merged_forward(a: Option<ForwardModel>, b: Option<ForwardModel>, offset: int) -> Option<ForwardModel> {
    match (a, b) {
        (Some(x), Some(y)) => {
            let m = crate::forward::merge_prefix(x, y.layers, y.data, offset, y.layers.len() as int);
            Some(ForwardModel {
                layers: m.layers,
                data: m.data,
                token_count: if x.token_count > offset + y.token_count { x.token_count } else { offset + y.token_count },
            })
        },
        _ => a,
    }
}

/// Events that only make layers exist change neither postings nor lexicon.
pub proof fn lemma_ensure_only(names: Seq<Seq<char>>, fo: Seq<Seq<char>>)
    ensures
        forall|o: Option<Set<u32>>, l: Seq<char>, v: Seq<char>| #[trigger] postings_after(o, ensure_events(names), fo, l, v) == o,
        forall|m: Map<Seq<char>, Seq<Seq<char>>>| #[trigger] lexicon_after(m, ensure_events(names), fo) == m,
    decreases names.len(),
{
    if names.len() > 0 {
        lemma_ensure_only(names.drop_last(), fo);
        assert(ensure_events(names).drop_last() =~= ensure_events(names.drop_last()));
        assert forall|o: Option<Set<u32>>, l: Seq<char>, v: Seq<char>| #[trigger] postings_after(o, ensure_events(names), fo, l, v) == o by {
            assert(postings_after(o, ensure_events(names.drop_last()), fo, l, v) == o);
        }
        assert forall|m: Map<Seq<char>, Seq<Seq<char>>>| #[trigger] lexicon_after(m, ensure_events(names), fo) == m by {
            assert(lexicon_after(m, ensure_events(names.drop_last()), fo) == m);
        }
    }
}

/// Merging in layers only adds layers, and keeps each model within the larger bound.
pub proof fn lemma_merge_prefix_shape(m: ForwardModel, names: Seq<Seq<char>>, datas: Seq<Seq<ValueModel>>, offset: int, n: int, hi: int)
    requires
        m.layers.len() == m.data.len(),
        0 <= n <= names.len(),
        names.len() == datas.len(),
        0 <= offset,
        forall|j: int| 0 <= j < m.data.len() ==> #[trigger] m.data[j].len() <= hi,
        forall|j: int| 0 <= j < datas.len() ==> offset + (#[trigger] datas[j]).len() <= hi,
        0 <= hi,
    ensures
        crate::forward::merge_prefix(m, names, datas, offset, n).layers.len() >= m.layers.len(),
        crate::forward::merge_prefix(m, names, datas, offset, n).layers.len()
            == crate::forward::merge_prefix(m, names, datas, offset, n).data.len(),
        forall|j: int| 0 <= j < crate::forward::merge_prefix(m, names, datas, offset, n).data.len()
            ==> #[trigger] crate::forward::merge_prefix(m, names, datas, offset, n).data[j].len() <= hi,
    decreases n,
{
    if n > 0 {
        lemma_merge_prefix_shape(m, names, datas, offset, n - 1, hi);
        let r = crate::forward::merge_prefix(m, names, datas, offset, n - 1);
        let idx = crate::forward::first_index_of(r.layers, names[n - 1]);
        if idx >= 0 {
            if exists|i: int| 0 <= i < r.layers.len() && r.layers[i] == names[n - 1] && forall|j: int| 0 <= j < i ==> r.layers[j] != names[n - 1] {
                assert(idx < r.layers.len());
            }
        }
        let res = crate::forward::merge_prefix(m, names, datas, offset, n);
        assert forall|j: int| 0 <= j < res.data.len() implies #[trigger] res.data[j].len() <= hi by {
            if idx >= 0 {
                if j != idx { assert(res.data[j] == r.data[j]); }
            } else {
                if j < r.data.len() { assert(res.data[j] == r.data[j]); }
            }
        }
    }
}

impl IndexSink {
    /// The layers of the lexicon, in the order they were first used.
    pub closed spec fn lexicon_layers(&self) -> Seq<Seq<char>> {
        self.lexicon.layer_list()
    }

    /// An empty sink with a forward index holding the base layers.
    pub fn new() -> (r: IndexSink)
        ensures
            r.wf(),
            r.bounded(),
            r.forward_state() == (ForwardState {
                fwd: Some(ForwardModel { layers: base_layers(), data: Seq::new(7, |i: int| Seq::<ValueModel>::empty()), token_count: 0 }),
                table: base_table(),
            }),
            forall|l: Seq<char>, v: Seq<char>| #[trigger] r.postings(l, v) is None,
            r.lexicon_view() == Map::<Seq<char>, Seq<Seq<char>>>::empty(),
            r.spans_view() == Map::<Seq<char>, Seq<Span>>::empty(),
            r.span_order() == Seq::<Seq<char>>::empty(),
            r.position() == 0,
            r.doc_names() == Seq::<Seq<char>>::empty(),
            r.sent_ids() == Seq::<Seq<char>>::empty(),
            r.forward_only() == seq!["head"@],
            !r.decomposes(),
    {
        let mut forward = InMemoryForward::new();
        let mut layer_indices: Vec<(String, usize)> = Vec::new();
        let i0 = forward.add_layer("word");
        layer_indices.push(("word".to_owned(), i0));
        let i1 = forward.add_layer("lemma");
        layer_indices.push(("lemma".to_owned(), i1));
        let i2 = forward.add_layer("upos");
        layer_indices.push(("upos".to_owned(), i2));
        let i3 = forward.add_layer("xpos");
        layer_indices.push(("xpos".to_owned(), i3));
        let i4 = forward.add_layer("feats");
        layer_indices.push(("feats".to_owned(), i4));
        let i5 = forward.add_layer("head");
        layer_indices.push(("head".to_owned(), i5));
        let i6 = forward.add_layer("deprel");
        layer_indices.push(("deprel".to_owned(), i6));
        let mut forward_only_layers: Vec<String> = Vec::new();
        forward_only_layers.push("head".to_owned());
        let r = IndexSink {
            inverted: InMemoryInverted::new(),
            forward: Some(forward),
            spans: InMemorySpans::new(),
            lexicon: InMemoryLexicon::new(),
            layer_indices,
            current_position: 0,
            document_names: Vec::new(),
            sentence_ids: Vec::new(),
            forward_only_layers,
            decompose_feats: false,
        };
        proof {
            assert(forward@.layers =~= base_layers());
            assert(forward@.data =~= Seq::new(7, |i: int| Seq::<ValueModel>::empty()));
            assert(r.forward_state().table =~= base_table());
            assert(r.doc_names() =~= Seq::<Seq<char>>::empty());
            assert(r.sent_ids() =~= Seq::<Seq<char>>::empty());
            assert(r.forward_only() =~= seq!["head"@]);
        }
        r
    }

    /// An empty sink without a forward index; the base layers get slots `0` to `6`.
    pub fn new_without_forward() -> (r: IndexSink)
        ensures
            r.wf(),
            r.bounded(),
            r.forward_state() == (ForwardState { fwd: None, table: base_table() }),
            forall|l: Seq<char>, v: Seq<char>| #[trigger] r.postings(l, v) is None,
            r.lexicon_view() == Map::<Seq<char>, Seq<Seq<char>>>::empty(),
            r.spans_view() == Map::<Seq<char>, Seq<Span>>::empty(),
            r.span_order() == Seq::<Seq<char>>::empty(),
            r.position() == 0,
            r.doc_names() == Seq::<Seq<char>>::empty(),
            r.sent_ids() == Seq::<Seq<char>>::empty(),
            r.forward_only() == seq!["head"@],
            !r.decomposes(),
    {
        let mut layer_indices: Vec<(String, usize)> = Vec::new();
        layer_indices.push(("word".to_owned(), 0));
        layer_indices.push(("lemma".to_owned(), 1));
        layer_indices.push(("upos".to_owned(), 2));
        layer_indices.push(("xpos".to_owned(), 3));
        layer_indices.push(("feats".to_owned(), 4));
        layer_indices.push(("head".to_owned(), 5));
        layer_indices.push(("deprel".to_owned(), 6));
        let mut forward_only_layers: Vec<String> = Vec::new();
        forward_only_layers.push("head".to_owned());
        let r = IndexSink {
            inverted: InMemoryInverted::new(),
            forward: None,
            spans: InMemorySpans::new(),
            lexicon: InMemoryLexicon::new(),
            layer_indices,
            current_position: 0,
            document_names: Vec::new(),
            sentence_ids: Vec::new(),
            forward_only_layers,
            decompose_feats: false,
        };
        proof {
            assert(r.forward_state().table =~= base_table());
            assert(r.doc_names() =~= Seq::<Seq<char>>::empty());
            assert(r.sent_ids() =~= Seq::<Seq<char>>::empty());
            assert(r.forward_only() =~= seq!["head"@]);
        }
        r
    }

    /// The same sink, splitting feature strings into one layer per feature when `enabled`.
    pub fn with_decompose_feats(self, enabled: bool) -> (r: IndexSink)
        ensures
            r.decomposes() == enabled,
            r.wf() == self.wf(),
            self.bounded() ==> r.bounded(),
            r.forward_state() == self.forward_state(),
            forall|l: Seq<char>, v: Seq<char>| #[trigger] r.postings(l, v) == self.postings(l, v),
            r.lexicon_view() == self.lexicon_view(),
            r.same_rest(&self),
            r.forward_only() == self.forward_only(),
    {
        let mut r = self;
        r.decompose_feats = enabled;
        proof {
            assert forall|l: Seq<char>, v: Seq<char>| #[trigger] r.postings(l, v) == self.postings(l, v) by {}
            if self.bounded() {
                assert forall|l: Seq<char>, v: Seq<char>| #[trigger] r.postings(l, v) is Some
                    implies forall|x: u32| r.postings(l, v).unwrap().contains(x) ==> x < r.position() by {
                    assert(r.postings(l, v) == self.postings(l, v));
                }
            }
        }
        r
    }

    /// Whether feature strings are split into one layer per feature.
    pub fn decompose_feats(&self) -> (b: bool)
        ensures
            b == self.decomposes(),
    {
        self.decompose_feats
    }

    /// Removes the forward index and hands it back.
    pub fn take_forward(&mut self) -> (r: Option<InMemoryForward>)
        requires
            old(self).wf(),
        ensures
            final(self).wf(),
            old(self).bounded() ==> final(self).bounded(),
            r is Some <==> old(self).forward_state().fwd is Some,
            r matches Some(f) ==> f.wf() && Some(f@) == old(self).forward_state().fwd,
            final(self).forward_state() == (ForwardState { fwd: None, table: old(self).forward_state().table }),
            forall|l: Seq<char>, v: Seq<char>| #[trigger] final(self).postings(l, v) == old(self).postings(l, v),
            final(self).lexicon_view() == old(self).lexicon_view(),
            final(self).same_rest(old(self)),
    {
        let mut none: Option<InMemoryForward> = None;
        std::mem::swap(&mut none, &mut self.forward);
        proof {
            assert forall|l: Seq<char>, v: Seq<char>| #[trigger] self.postings(l, v) == old(self).postings(l, v) by {}
        }
        none
    }

    /// The next position to be filled.
    pub fn current_position(&self) -> (n: u64)
        ensures
            n == self.position(),
    {
        self.current_position
    }

    /// The names of the documents added, in order.
    pub fn document_names(&self) -> (r: &[String])
        ensures
            string_views(r@) == self.doc_names(),
    {
        self.document_names.as_slice()
    }

    /// The ids of the sentences added, in order.
    pub fn sentence_ids(&self) -> (r: &[String])
        ensures
            string_views(r@) == self.sent_ids(),
    {
        self.sentence_ids.as_slice()
    }

    /// The names of the layer table, in order.
    pub fn layer_names(&self) -> (r: Vec<String>)
        ensures
            string_views(r@) == table_names(self.forward_state().table),
    {
        let mut r: Vec<String> = Vec::new();
        let mut i: usize = 0;
        while i < self.layer_indices.len()
            invariant
                0 <= i <= self.layer_indices@.len(),
                string_views(r@) == table_names(self.forward_state().table).subrange(0, i as int),
            decreases self.layer_indices@.len() - i,
        {
            let ghost r0 = string_views(r@);
            r.push(self.layer_indices[i].0.clone());
            i = i + 1;
            proof {
                assert(string_views(r@) =~= r0.push(self.layer_indices@[i - 1].0@));
                assert(table_names(self.forward_state().table).subrange(0, i as int)
                    =~= table_names(self.forward_state().table).subrange(0, i - 1).push(self.layer_indices@[i - 1].0@));
            }
        }
        proof { assert(table_names(self.forward_state().table).subrange(0, i as int) =~= table_names(self.forward_state().table)); }
        r
    }

    /// The inverted index.
    pub fn inverted(&self) -> (r: &InMemoryInverted)
        ensures
            forall|l: Seq<char>, v: Seq<char>| #[trigger] r.postings(l, v) == self.postings(l, v),
            self.wf() ==> r.wf(),
    {
        &self.inverted
    }

    /// The lexicon.
    pub fn lexicon(&self) -> (r: &InMemoryLexicon)
        ensures
            r@ == self.lexicon_view(),
            self.wf() ==> r.wf(),
    {
        &self.lexicon
    }

    /// The span layers.
    pub fn spans(&self) -> (r: &InMemorySpans)
        ensures
            r@ == self.spans_view(),
            r.layer_order() == self.span_order(),
            self.wf() ==> r.wf(),
    {
        &self.spans
    }

    /// The forward index, when the sink has one.
    pub fn forward(&self) -> (r: Option<&InMemoryForward>)
        ensures
            r is Some <==> self.forward_state().fwd is Some,
            r matches Some(f) ==> Some(f@) == self.forward_state().fwd && (self.wf() ==> f.wf()),
    {
        match &self.forward {
            Some(f) => Some(f),
            None => None,
        }
    }

    /// Orders every span layer by start, as written to disk.
    pub fn finalize_spans(&mut self)
        requires
            old(self).wf(),
        ensures
            final(self).wf(),
            final(self).follows(old(self), Seq::empty()),
            final(self).span_order() == old(self).span_order(),
            final(self).spans_view().dom() == old(self).spans_view().dom(),
            forall|k: Seq<char>| #[trigger] final(self).spans_view().dom().contains(k)
                ==> crate::spans::sorted_by_start(final(self).spans_view()[k])
                && final(self).spans_view()[k].to_multiset() == old(self).spans_view()[k].to_multiset(),
            forall|k: Seq<char>, v: crate::span::Position| final(self).spans_view().dom().contains(k)
                ==> #[trigger] crate::spans::starting_at(final(self).spans_view()[k], v)
                == crate::spans::starting_at(old(self).spans_view()[k], v),
            final(self).position() == old(self).position(),
            final(self).doc_names() == old(self).doc_names(),
            final(self).sent_ids() == old(self).sent_ids(),
    {
        let ghost pre = *self;
        self.spans.finalize();
        proof { Self::lemma_frame(&pre, self); }
    }

    /// Hands out the indexes built, with every span layer ordered by start: what a corpus is
    /// written from.
    pub fn into_index(self) -> (r: SinkIndex)
        requires
            self.wf(),
        ensures
            r.inverted.wf(),
            r.lexicon.wf(),
            r.spans.wf(),
            r.forward matches Some(f) ==> f.wf(),
            forall|l: Seq<char>, v: Seq<char>| #[trigger] r.inverted.postings(l, v) == self.postings(l, v),
            r.lexicon@ == self.lexicon_view(),
            (match r.forward {
                Some(f) => Some(f@),
                None => None,
            }) == self.forward_state().fwd,
            r.spans.layer_order() == self.span_order(),
            r.spans@.dom() == self.spans_view().dom(),
            forall|k: Seq<char>| #[trigger] r.spans@.dom().contains(k) ==> crate::spans::sorted_by_start(r.spans@[k])
                && r.spans@[k].to_multiset() == self.spans_view()[k].to_multiset(),
            string_views(r.document_names@) == self.doc_names(),
            string_views(r.sentence_ids@) == self.sent_ids(),
            r.token_count == self.position(),
    {
        let ghost pre = self;
        let mut sink = self;
        sink.finalize_spans();
        proof {
            assert forall|l: Seq<char>, v: Seq<char>| #[trigger] sink.inverted.postings(l, v) == pre.postings(l, v) by {
                assert(sink.postings(l, v) == postings_after(pre.postings(l, v), Seq::empty(), pre.forward_only(), l, v));
            }
        }
        SinkIndex {
            inverted: sink.inverted,
            forward: sink.forward,
            spans: sink.spans,
            lexicon: sink.lexicon,
            document_names: sink.document_names,
            sentence_ids: sink.sentence_ids,
            token_count: sink.current_position,
        }
    }

    /// Appends the documents of `other` after this sink's: its positions move up by this sink's
    /// position, and its layers, document names and sentence ids follow this sink's.
    pub fn merge_from(&mut self, other: IndexSink)
        requires
            old(self).wf(),
            other.wf(),
            old(self).bounded(),
            other.bounded(),
            old(self).position() + other.position() < u32::MAX,
        ensures
            final(self).wf(),
            final(self).bounded(),
            final(self).position() == old(self).position() + other.position(),
            forall|l: Seq<char>, v: Seq<char>| #[trigger] final(self).postings(l, v)
                == crate::inverted::merged(old(self).postings(l, v), other.postings(l, v), old(self).position() as u32),
            final(self).spans_view().dom() == old(self).spans_view().dom().union(other.spans_view().dom()),
            forall|k: Seq<char>| #[trigger] final(self).spans_view().dom().contains(k) ==> final(self).spans_view()[k]
                == layer_or_empty(old(self).spans_view(), k) + crate::spans::shift_spans(layer_or_empty(other.spans_view(), k), old(self).position() as int),
            final(self).span_order() == crate::spans::order_merged(old(self).span_order(), other.span_order()),
            final(self).doc_names() == old(self).doc_names() + other.doc_names(),
            final(self).sent_ids() == old(self).sent_ids() + other.sent_ids(),
            final(self).lexicon_view() == lexicon_merged(old(self).lexicon_view(), other.lexicon_layers(), other.lexicon_view()),
            final(self).forward_state() == forward_after(ForwardState {
                fwd: merged_forward(old(self).forward_state().fwd, other.forward_state().fwd, old(self).position() as int),
                table: old(self).forward_state().table,
            }, ensure_events(table_names(other.forward_state().table))),
            final(self).forward_only() == old(self).forward_only(),
            final(self).decomposes() == old(self).decomposes(),
    {
        let offset = self.current_position;
        let ghost hi = old(self).position() + other.position();
        let ghost other_table = other.forward_state().table;
        let IndexSink {
            inverted: o_inverted,
            forward: o_forward,
            spans: o_spans,
            lexicon: o_lexicon,
            layer_indices: o_layers,
            current_position: o_position,
            document_names: mut o_names,
            sentence_ids: mut o_ids,
            forward_only_layers: _,
            decompose_feats: _,
        } = other;
        proof {
            assert forall|l: Seq<char>, v: Seq<char>| #[trigger] o_inverted.postings(l, v) is Some
                implies (forall|p: u32| o_inverted.postings(l, v).unwrap().contains(p) ==> p + (offset as u32) <= u32::MAX) by {
                assert(other.postings(l, v) == o_inverted.postings(l, v));
            }
        }
        self.inverted.merge_from(o_inverted, offset as u32);
        match o_forward {
            Some(of) => {
                proof {
                    of.lemma_wf();
                    assert forall|j: int| 0 <= j < of@.data.len() implies offset + (#[trigger] of@.data[j]).len() < usize::MAX by {}
                }
                match &mut self.forward {
                    Some(sf) => { sf.merge_from(of, offset); },
                    None => {},
                }
            },
            None => {},
        }
        proof {
            assert forall|k: Seq<char>, i: int| #[trigger] o_spans@.dom().contains(k) && 0 <= i < o_spans@[k].len()
                implies (#[trigger] o_spans@[k][i]).wf() && o_spans@[k][i].end + offset <= u64::MAX by {
                assert(other.spans_view() == o_spans@);
            }
        }
        self.spans.merge_from(o_spans, offset);
        self.lexicon.merge_from(o_lexicon);
        self.document_names.append(&mut o_names);
        self.sentence_ids.append(&mut o_ids);
        self.current_position = offset + o_position;
        let ghost mid = *self;
        let ghost names = table_names(other_table);
        proof {
            old(self).lemma_forward_shape();
            other.lemma_forward_shape();
            assert(o_layers@.map_values(|e: (String, usize)| (e.0@, e.1)) == other_table);
            let mf = merged_forward(old(self).forward_state().fwd, other.forward_state().fwd, offset as int);
            if let (Some(x), Some(y)) = (old(self).forward_state().fwd, other.forward_state().fwd) {
                lemma_merge_prefix_shape(x, y.layers, y.data, offset as int, y.layers.len() as int, hi);
            }
            assert(mid.forward_state() == (ForwardState { fwd: mf, table: old(self).forward_state().table }));
            assert(slots_valid(mid.forward_state())) by {
                if let Some(f) = mf {
                    assert forall|k: int| 0 <= k < mid.forward_state().table.len()
                        implies (#[trigger] mid.forward_state().table[k]).1 < f.layers.len() by {
                        assert(mid.forward_state().table[k] == old(self).forward_state().table[k]);
                    }
                }
            }
            assert(names.subrange(0, 0) =~= Seq::<Seq<char>>::empty());
            assert(ensure_events(names.subrange(0, 0)) =~= Seq::<SinkEvent>::empty());
            Self::lemma_follows_refl(&mid);
        }
        let mut i: usize = 0;
        while i < o_layers.len()
            invariant
                0 <= i <= o_layers@.len(),
                names == o_layers@.map_values(|e: (String, usize)| e.0@),
                self.wf(),
                self.follows(&mid, ensure_events(names.subrange(0, i as int))),
                self.same_rest(&mid),
            decreases o_layers@.len() - i,
        {
            let ghost before = *self;
            self.ensure_layer(o_layers[i].0.as_str());
            proof {
                assert(names[i as int] == o_layers@[i as int].0@);
                Self::lemma_follows_trans(&mid, &before, self, ensure_events(names.subrange(0, i as int)),
                    seq![SinkEvent::Ensure(names[i as int])]);
                assert(ensure_events(names.subrange(0, i as int)) + seq![SinkEvent::Ensure(names[i as int])]
                    =~= ensure_events(names.subrange(0, i + 1)));
            }
            i = i + 1;
        }
        proof {
            assert(names.subrange(0, i as int) =~= names);
            lemma_ensure_only(names, mid.forward_only());
            assert forall|l: Seq<char>, v: Seq<char>| #[trigger] self.postings(l, v) == mid.postings(l, v) by {
                assert(postings_after(mid.postings(l, v), ensure_events(names), mid.forward_only(), l, v) == mid.postings(l, v));
            }
            self.lemma_merge_bounded(old(self), &other, &mid, names);
        }
    }

    /// A merged sink is bounded by the sum of the positions.
    proof fn lemma_merge_bounded(&self, a: &IndexSink, b: &IndexSink, mid: &IndexSink, names: Seq<Seq<char>>)
        requires
            a.bounded(),
            b.bounded(),
            a.wf(),
            b.wf(),
            mid.wf(),
            a.position() + b.position() < u32::MAX,
            self.position() == a.position() + b.position(),
            forall|l: Seq<char>, v: Seq<char>| #[trigger] self.postings(l, v)
                == crate::inverted::merged(a.postings(l, v), b.postings(l, v), a.position() as u32),
            forall|k: Seq<char>| #[trigger] self.spans_view().dom().contains(k) ==> self.spans_view()[k]
                == layer_or_empty(a.spans_view(), k) + crate::spans::shift_spans(layer_or_empty(b.spans_view(), k), a.position() as int),
            self.spans_view().dom() == a.spans_view().dom().union(b.spans_view().dom()),
            mid.forward_state() == (ForwardState {
                fwd: merged_forward(a.forward_state().fwd, b.forward_state().fwd, a.position() as int),
                table: a.forward_state().table,
            }),
            self.forward_state() == forward_after(mid.forward_state(), ensure_events(names)),
        ensures
            self.bounded(),
    {
        let hi = self.position() as int;
        let off = a.position() as u32;
        assert forall|l: Seq<char>, v: Seq<char>| #[trigger] self.postings(l, v) is Some
            implies forall|x: u32| self.postings(l, v).unwrap().contains(x) ==> x < self.position() by {
            let s = self.postings(l, v).unwrap();
            assert forall|x: u32| s.contains(x) implies x < self.position() by {
                match (a.postings(l, v), b.postings(l, v)) {
                    (Some(p), Some(q)) => {
                        if !p.contains(x) {
                            let y = choose|y: u32| q.contains(y) && x == (y + off) as u32;
                        }
                    },
                    (Some(p), None) => {},
                    (None, Some(q)) => {
                        let y = choose|y: u32| q.contains(y) && x == (y + off) as u32;
                    },
                    (None, None) => {},
                }
            }
        }
        assert forall|k: Seq<char>, i: int| #[trigger] self.spans_view().dom().contains(k) && 0 <= i < self.spans_view()[k].len()
            implies (#[trigger] self.spans_view()[k][i]).wf() && self.spans_view()[k][i].end <= hi by {
            let x = layer_or_empty(a.spans_view(), k);
            let y = layer_or_empty(b.spans_view(), k);
            if i < x.len() {
                assert(self.spans_view()[k][i] == x[i]);
                assert(a.spans_view().dom().contains(k));
            } else {
                let j = i - x.len();
                assert(self.spans_view()[k][i] == crate::spans::shift_spans(y, a.position() as int)[j]);
                assert(b.spans_view().dom().contains(k));
                assert(y[j].wf() && y[j].end <= b.position());
            }
        }
        let mf = merged_forward(a.forward_state().fwd, b.forward_state().fwd, a.position() as int);
        a.lemma_forward_shape();
        b.lemma_forward_shape();
        mid.lemma_forward_shape();
        if let Some(f) = mf {
            match (a.forward_state().fwd, b.forward_state().fwd) {
                (Some(x), Some(y)) => {
                    assert forall|j: int| 0 <= j < y.data.len() implies a.position() + (#[trigger] y.data[j]).len() <= hi by {}
                    assert forall|j: int| 0 <= j < x.data.len() implies (#[trigger] x.data[j]).len() <= hi by {}
                    lemma_merge_prefix_shape(x, y.layers, y.data, a.position() as int, y.layers.len() as int, hi);
                },
                _ => {
                    assert forall|j: int| 0 <= j < f.data.len() implies (#[trigger] f.data[j]).len() <= hi by {}
                },
            }
            assert(forward_within(f, hi));
        }
        assert(events_within(ensure_events(names), 0, hi));
        lemma_forward_below(mid.forward_state(), ensure_events(names), hi);
    }
}

/// Builds a single-component corpus from documents added one by one.
pub struct CorpusBuilder {
    name: String,
    sink: IndexSink,
}

impl CorpusBuilder {
    /// The corpus name.
    pub closed spec fn name_model(&self) -> Seq<char> {
        self.name@
    }

    /// The sink the documents go to.
    pub closed spec fn sink_model(&self) -> IndexSink {
        self.sink
    }

    /// The sink is consistent and bounded.
    pub closed spec fn wf(&self) -> bool {
        self.sink.wf() && self.sink.bounded()
    }

    /// A builder for a corpus called `name`, with an empty sink.
    pub fn new(name: String) -> (r: CorpusBuilder)
        ensures
            r.wf(),
            r.name_model() == name@,
            r.sink_model().position() == 0,
            r.sink_model().doc_names() == Seq::<Seq<char>>::empty(),
            !r.sink_model().decomposes(),
            r.sink_model().forward_state().fwd is Some,
    {
        CorpusBuilder { name, sink: IndexSink::new() }
    }

    /// The same builder, splitting feature strings when `enabled`.
    pub fn decompose_feats(self, enabled: bool) -> (r: CorpusBuilder)
        requires
            self.wf(),
        ensures
            r.wf(),
            r.name_model() == self.name_model(),
            r.sink_model().decomposes() == enabled,
            r.sink_model().position() == self.sink_model().position(),
            r.sink_model().doc_names() == self.sink_model().doc_names(),
    {
        let CorpusBuilder { name, sink } = self;
        CorpusBuilder { name, sink: sink.with_decompose_feats(enabled) }
    }

    /// Adds a document; see `IndexSink::add_document`.
    pub fn add_document(&mut self, doc_name: String, sentences: Vec<ParsedSentence>)
        requires
            old(self).wf(),
            old(self).sink_model().position() + token_total(sentences@) < usize::MAX,
        ensures
            final(self).wf(),
            final(self).name_model() == old(self).name_model(),
            final(self).sink_model().follows(&old(self).sink_model(),
                sentences_events(old(self).sink_model().position() as int, sentences@, old(self).sink_model().decomposes())),
            final(self).sink_model().position() == old(self).sink_model().position() + token_total(sentences@),
            final(self).sink_model().doc_names() == if token_total(sentences@) > 0 {
                old(self).sink_model().doc_names().push(doc_name@)
            } else {
                old(self).sink_model().doc_names()
            },
    {
        proof { lemma_total_nonneg(sentences@); }
        self.sink.add_document(doc_name.as_str(), sentences);
    }

    /// Adds sentences as a document named `unknown`.
    pub fn add_sentences(&mut self, sentences: Vec<ParsedSentence>)
        requires
            old(self).wf(),
            old(self).sink_model().position() + token_total(sentences@) < usize::MAX,
        ensures
            final(self).wf(),
            final(self).name_model() == old(self).name_model(),
            final(self).sink_model().position() == old(self).sink_model().position() + token_total(sentences@),
            final(self).sink_model().doc_names() == if token_total(sentences@) > 0 {
                old(self).sink_model().doc_names().push("unknown"@)
            } else {
                old(self).sink_model().doc_names()
            },
    {
        proof { lemma_total_nonneg(sentences@); }
        self.sink.add_document("unknown", sentences);
    }

    /// The next position to be filled.
    pub fn current_position(&self) -> (n: u64)
        ensures
            n == self.sink_model().position(),
    {
        self.sink.current_position()
    }

    /// The number of documents added.
    pub fn document_count(&self) -> (n: usize)
        ensures
            n == self.sink_model().doc_names().len(),
    {
        self.sink.document_names().len()
    }

    /// The sink the documents went to.
    pub fn sink(&self) -> (r: &IndexSink)
        ensures
            *r == self.sink_model(),
    {
        &self.sink
    }

    /// The metadata of the corpus built so far: its name, this library's version, its token
    /// count, layers, span layers and document names, and no components or alignments.
    pub fn corpus_meta(&self) -> (m: crate::corpus::CorpusMeta)
        requires
            self.wf(),
        ensures
            m.name@ == self.name_model(),
            m.version == crate::corpus::INDEX_VERSION,
            m.token_count == self.sink_model().position(),
            string_views(m.layers@) == table_names(self.sink_model().forward_state().table),
            string_views(m.span_layers@) == self.sink_model().span_order(),
            string_views(m.document_names@) == self.sink_model().doc_names(),
            m.components@.len() == 0,
            m.alignments@.len() == 0,
    {
        let span_refs = self.sink.spans().layers();
        let mut span_layers: Vec<String> = Vec::new();
        let mut i: usize = 0;
        while i < span_refs.len()
            invariant
                0 <= i <= span_refs@.len(),
                span_refs@.len() == self.sink_model().span_order().len(),
                forall|k: int| 0 <= k < span_refs@.len() ==> span_refs@[k]@ == #[trigger] self.sink_model().span_order()[k],
                string_views(span_layers@) == self.sink_model().span_order().subrange(0, i as int),
            decreases span_refs@.len() - i,
        {
            let ghost s0 = string_views(span_layers@);
            span_layers.push(span_refs[i].to_owned());
            i = i + 1;
            proof {
                assert(string_views(span_layers@) =~= s0.push(span_refs@[i - 1]@));
                assert(self.sink_model().span_order().subrange(0, i as int)
                    =~= self.sink_model().span_order().subrange(0, i - 1).push(self.sink_model().span_order()[i - 1]));
            }
        }
        proof { assert(self.sink_model().span_order().subrange(0, i as int) =~= self.sink_model().span_order()); }
        crate::corpus::CorpusMeta {
            name: self.name.clone(),
            version: crate::corpus::INDEX_VERSION,
            token_count: self.sink.current_position(),
            layers: self.sink.layer_names(),
            span_layers,
            document_names: crate::handlers::text::clone_strings(self.sink.document_names()),
            components: Vec::new(),
            alignments: Vec::new(),
        }
    }

    /// The metadata and the sink, ready to be written.
    pub fn finish(self) -> (r: (crate::corpus::CorpusMeta, IndexSink))
        requires
            self.wf(),
        ensures
            r.0.name@ == self.name_model(),
            r.0.token_count == self.sink_model().position(),
            r.1 == self.sink_model(),
    {
        let meta = self.corpus_meta();
        (meta, self.sink)
    }
}

} // verus!
