//! Building a corpus of several components (one per language, say) and the alignments between
//! them: component ranges of documents, and alignment edges read from tab-separated text.
use vstd::prelude::*;
use crate::builder::IndexSink;
use crate::chars::{split, split_chars, trim, trim_chars, unsigned_text, parse_unsigned};
use crate::conllu::BuildError;
use crate::corpus::{AlignmentIndex, AlignmentMeta, ComponentMeta, CorpusMeta, UnitId, INDEX_VERSION};
use crate::manifest::{AlignmentConfig, Manifest, table_keys};
use crate::order::{sort_strings, sorted_text, str_views};
use crate::text::{chars_of, concat, decimal_digits, str_eq, string_from_chars, string_views, u64_to_decimal};

verus! {

/// The entries `(name, index within the component)` of the documents `[a, e)` of a component
/// whose documents start at `a`, for those that have a name.
pub open spec fn doc_entries(a: int, e: int, names: Seq<Seq<char>>) -> Seq<(Seq<char>, u32)>
    decreases e - a,
{
    if e <= a {
        Seq::empty()
    } else {
        let rest = doc_entries(a, e - 1, names);
        if 0 <= e - 1 < names.len() { rest.push((names[e - 1], (e - 1 - a) as u32)) } else { rest }
    }
}

/// The name map of a component's documents.
pub open spec fn doc_map(comp: ComponentMeta, names: Seq<Seq<char>>) -> Seq<(Seq<char>, u32)> {
    doc_entries(comp.document_range.0 as int, comp.document_range.1 as int, names)
}

/// The index of the last entry named `name`, as a map that keeps the last value put under a key.
pub open spec fn lookup_last(m: Seq<(Seq<char>, u32)>, name: Seq<char>) -> Option<u32>
    decreases m.len(),
{
    if m.len() == 0 {
        None
    } else if m.last().0 == name {
        Some(m.last().1)
    } else {
        lookup_last(m.drop_last(), name)
    }
}

/// The map from document name to index within the component, for the documents of `comp`.
pub fn build_doc_name_map(comp: &ComponentMeta, document_names: &[String]) -> (r: Vec<(String, u32)>)
    ensures
        r@.map_values(|e: (String, u32)| (e.0@, e.1)) == doc_map(*comp, string_views(document_names@)),
{
    let a = comp.document_range.0;
    let b = comp.document_range.1;
    let ghost names = string_views(document_names@);
    let mut r: Vec<(String, u32)> = Vec::new();
    if b <= a {
        proof { assert(r@.map_values(|e: (String, u32)| (e.0@, e.1)) =~= doc_map(*comp, names)); }
        return r;
    }
    let mut d = a;
    proof { assert(r@.map_values(|e: (String, u32)| (e.0@, e.1)) =~= doc_entries(a as int, a as int, names)); }
    while d < b
        invariant
            a <= d <= b,
            names == string_views(document_names@),
            r@.map_values(|e: (String, u32)| (e.0@, e.1)) == doc_entries(a as int, d as int, names),
        decreases b - d,
    {
        let ghost r0 = r@.map_values(|e: (String, u32)| (e.0@, e.1));
        if d < document_names.len() {
            r.push((document_names[d].clone(), (d - a) as u32));
            proof { assert(r@.map_values(|e: (String, u32)| (e.0@, e.1)) =~= r0.push((names[d as int], (d - a) as u32))); }
        }
        d = d + 1;
    }
    r
}

/// The value of the last entry of `m` named `name`.
fn lookup_doc(m: &Vec<(String, u32)>, name: &str) -> (r: Option<u32>)
    ensures
        r == lookup_last(m@.map_values(|e: (String, u32)| (e.0@, e.1)), name@),
{
    let ghost v = m@.map_values(|e: (String, u32)| (e.0@, e.1));
    let mut i: usize = m.len();
    proof { assert(v.subrange(0, i as int) =~= v); }
    while i > 0
        invariant
            0 <= i <= m@.len(),
            v == m@.map_values(|e: (String, u32)| (e.0@, e.1)),
            lookup_last(v.subrange(0, i as int), name@) == lookup_last(v, name@),
        decreases i,
    {
        let ghost sub = v.subrange(0, i as int);
        proof {
            assert(sub.last() == v[i - 1]);
            assert(sub.drop_last() =~= v.subrange(0, i - 1));
        }
        if str_eq(m[i - 1].0.as_str(), name) {
            return Some(m[i - 1].1);
        }
        i = i - 1;
    }
    None
}

/// What a line of an alignment file gives.
#[derive(Debug)]
pub enum LineOutcome {
    /// Nothing: blank, a comment, or (when not strict) an unusable line.
    Skip,
    /// An edge from a source sentence to a target sentence.
    Edge((UnitId, UnitId)),
    /// An error that stops the reading.
    Fail,
}

/// What a line gives: blank lines and `#` comments are skipped; the four tab-separated fields
/// are a source document name, a source sentence index, a target document name and a target
/// sentence index. A line with fewer fields, or an unknown document, is an error when `strict`
/// and skipped otherwise; an index that is not an unsigned 32-bit number is always an error.
pub open spec fn line_outcome(line: Seq<char>, sm: Seq<(Seq<char>, u32)>, tm: Seq<(Seq<char>, u32)>, strict: bool) -> LineOutcome {
    let t = trim(line);
    if t.len() == 0 || t[0] == '#' {
        LineOutcome::Skip
    } else {
        let parts = split(t, '\t');
        if parts.len() < 4 {
            if strict { LineOutcome::Fail } else { LineOutcome::Skip }
        } else {
            match lookup_last(sm, parts[0]) {
                None => if strict { LineOutcome::Fail } else { LineOutcome::Skip },
                Some(sd) => match unsigned_text(parts[1]) {
                    Some(su) if su <= u32::MAX => match lookup_last(tm, parts[2]) {
                        None => if strict { LineOutcome::Fail } else { LineOutcome::Skip },
                        Some(td) => match unsigned_text(parts[3]) {
                            Some(tu) if tu <= u32::MAX => LineOutcome::Edge(((sd, su as u32), (td, tu as u32))),
                            _ => LineOutcome::Fail,
                        },
                    },
                    _ => LineOutcome::Fail,
                },
            }
        }
    }
}

/// The edges of the lines, in order, or the index of the first line that fails.
pub open spec fn alignment_parse(lines: Seq<Seq<char>>, sm: Seq<(Seq<char>, u32)>, tm: Seq<(Seq<char>, u32)>, strict: bool)
    -> Result<Seq<(UnitId, UnitId)>, int>
    decreases lines.len(),
{
    if lines.len() == 0 {
        Ok(Seq::empty())
    } else {
        match alignment_parse(lines.drop_last(), sm, tm, strict) {
            Err(k) => Err(k),
            Ok(es) => match line_outcome(lines.last(), sm, tm, strict) {
                LineOutcome::Skip => Ok(es),
                LineOutcome::Edge(e) => Ok(es.push(e)),
                LineOutcome::Fail => Err(lines.len() - 1),
            },
        }
    }
}

/// Once a line fails, the whole text fails.
proof fn lemma_parse_fails(lines: Seq<Seq<char>>, i: int, sm: Seq<(Seq<char>, u32)>, tm: Seq<(Seq<char>, u32)>, strict: bool)
    requires
        0 <= i < lines.len(),
        alignment_parse(lines.subrange(0, i), sm, tm, strict) is Ok,
        line_outcome(lines[i], sm, tm, strict) is Fail,
    ensures
        alignment_parse(lines, sm, tm, strict) == Err::<Seq<(UnitId, UnitId)>, int>(i),
    decreases lines.len(),
{
    if i + 1 == lines.len() {
        assert(lines.drop_last() =~= lines.subrange(0, i));
    } else {
        let d = lines.drop_last();
        assert(d.subrange(0, i) =~= lines.subrange(0, i));
        lemma_parse_fails(d, i, sm, tm, strict);
    }
}

/// The message for line `line`, numbered `n` from 1, that stops the reading of file `label`
/// between components named `source` and `target`: the first thing wrong with it, in the order
/// the line is read.
pub open spec fn failure_message(line: Seq<char>, n: nat, sm: Seq<(Seq<char>, u32)>, tm: Seq<(Seq<char>, u32)>,
    label: Seq<char>, source: Seq<char>, target: Seq<char>) -> Seq<char>
{
    let parts = split(trim(line), '\t');
    if parts.len() < 4 {
        "Invalid alignment line "@ + decimal_digits(n) + " in "@ + label + ": expected 4 tab-separated fields"@
    } else if lookup_last(sm, parts[0]) is None {
        "Unknown source document '"@ + parts[0] + "' at line "@ + decimal_digits(n) + " (not in component '"@
            + source + "')"@
    } else if !(unsigned_text(parts[1]) matches Some(su) && su <= u32::MAX) {
        "Invalid source sentence index at line "@ + decimal_digits(n) + ": "@ + parts[1]
    } else if lookup_last(tm, parts[2]) is None {
        "Unknown target document '"@ + parts[2] + "' at line "@ + decimal_digits(n) + " (not in component '"@
            + target + "')"@
    } else {
        "Invalid target sentence index at line "@ + decimal_digits(n) + ": "@ + parts[3]
    }
}

/// An alignment error whose message is `a`, the number `n`, and `b`.
fn alignment_error(a: &str, n: u64, b: &str) -> (e: BuildError)
    ensures
        e matches BuildError::Alignment(m) && m@ == a@ + decimal_digits(n as nat) + b@,
{
    let m = concat(a, u64_to_decimal(n).as_str());
    BuildError::Alignment(concat(m.as_str(), b))
}

/// An alignment error whose message is `a`, `x`, `b`, the number `n`, `c`, `y` and `d`.
fn unknown_document_error(a: &str, x: &str, b: &str, n: u64, c: &str, y: &str, d: &str) -> (e: BuildError)
    ensures
        e matches BuildError::Alignment(m) && m@ == a@ + x@ + b@ + decimal_digits(n as nat) + c@ + y@ + d@,
{
    let m1 = concat(a, x);
    let m2 = concat(m1.as_str(), b);
    let m3 = concat(m2.as_str(), u64_to_decimal(n).as_str());
    let m4 = concat(m3.as_str(), c);
    let m5 = concat(m4.as_str(), y);
    let m = concat(m5.as_str(), d);
    proof { assert(m@ =~= a@ + x@ + b@ + decimal_digits(n as nat) + c@ + y@ + d@); }
    BuildError::Alignment(m)
}

/// The edges of an alignment file's text, as `alignment_parse` reads its lines with the name
/// maps of the two components. `label` names the file in error messages, as it is to be shown
/// (the quoted path, say); the message of a failing line is `failure_message` of it.
pub fn parse_alignment_text(text: &str, source_comp: &ComponentMeta, target_comp: &ComponentMeta, document_names: &[String],
    strict: bool, label: &str) -> (r: Result<Vec<(UnitId, UnitId)>, BuildError>)
    ensures
        match alignment_parse(split(text@, '\n'), doc_map(*source_comp, string_views(document_names@)),
            doc_map(*target_comp, string_views(document_names@)), strict) {
            Ok(es) => r matches Ok(v) && v@ == es,
            Err(k) => r matches Err(e) && e matches BuildError::Alignment(m)
                && m@ == failure_message(split(text@, '\n')[k], (k + 1) as nat,
                    doc_map(*source_comp, string_views(document_names@)),
                    doc_map(*target_comp, string_views(document_names@)), label@, source_comp.name@,
                    target_comp.name@),
        },
{
    let source_map = build_doc_name_map(source_comp, document_names);
    let target_map = build_doc_name_map(target_comp, document_names);
    let ghost sm = source_map@.map_values(|e: (String, u32)| (e.0@, e.1));
    let ghost tm = target_map@.map_values(|e: (String, u32)| (e.0@, e.1));
    let chars = chars_of(text);
    let lines = split_chars(chars.as_slice(), '\n');
    let ghost ls = crate::chars::views(lines@);
    let mut edges: Vec<(UnitId, UnitId)> = Vec::new();
    let mut i: usize = 0;
    proof { assert(ls.subrange(0, 0) =~= Seq::<Seq<char>>::empty()); }
    while i < lines.len()
        invariant
            0 <= i <= lines@.len(),
            ls == crate::chars::views(lines@),
            ls == split(text@, '\n'),
            sm == source_map@.map_values(|e: (String, u32)| (e.0@, e.1)),
            tm == target_map@.map_values(|e: (String, u32)| (e.0@, e.1)),
            sm == doc_map(*source_comp, string_views(document_names@)),
            tm == doc_map(*target_comp, string_views(document_names@)),
            alignment_parse(ls.subrange(0, i as int), sm, tm, strict) == Ok::<Seq<(UnitId, UnitId)>, int>(edges@),
        decreases lines@.len() - i,
    {
        let ghost prefix = ls.subrange(0, i + 1);
        proof {
            assert(prefix.drop_last() =~= ls.subrange(0, i as int));
            assert(prefix.last() == lines@[i as int]@);
        }
        let line_no = (i as u64) + 1;
        let t = trim_chars(lines[i].as_slice());
        if t.len() == 0 || t[0] == '#' {
            i = i + 1;
            continue;
        }
        let parts = split_chars(t.as_slice(), '\t');
        proof { assert(crate::chars::views(parts@) == split(t@, '\t')); }
        if parts.len() < 4 {
            if strict {
                proof { lemma_parse_fails(ls, i as int, sm, tm, strict); }
                let e = unknown_document_error("Invalid alignment line ", "", "", line_no, " in ", label,
                    ": expected 4 tab-separated fields");
                proof {
                    assert(""@ =~= Seq::<char>::empty()) by { reveal_strlit(""); }
                }
                return Err(e);
            }
            i = i + 1;
            continue;
        }
        proof {
            assert(crate::chars::views(parts@)[0] == parts@[0]@);
            assert(crate::chars::views(parts@)[1] == parts@[1]@);
            assert(crate::chars::views(parts@)[2] == parts@[2]@);
            assert(crate::chars::views(parts@)[3] == parts@[3]@);
        }
        let source_name = string_from_chars(parts[0].as_slice());
        let source_doc = match lookup_doc(&source_map, source_name.as_str()) {
            Some(d) => d,
            None => {
                if strict {
                    proof { lemma_parse_fails(ls, i as int, sm, tm, strict); }
                    return Err(unknown_document_error("Unknown source document '", source_name.as_str(), "' at line ",
                        line_no, " (not in component '", source_comp.name.as_str(), "')"));
                }
                i = i + 1;
                continue;
            },
        };
        let source_unit = match parse_unsigned(parts[1].as_slice(), 0xffff_ffffu64) {
            Some(v) => v as u32,
            None => {
                proof { lemma_parse_fails(ls, i as int, sm, tm, strict); }
                let x = string_from_chars(parts[1].as_slice());
                return Err(alignment_error("Invalid source sentence index at line ", line_no,
                    concat(": ", x.as_str()).as_str()));
            },
        };
        let target_name = string_from_chars(parts[2].as_slice());
        let target_doc = match lookup_doc(&target_map, target_name.as_str()) {
            Some(d) => d,
            None => {
                if strict {
                    proof { lemma_parse_fails(ls, i as int, sm, tm, strict); }
                    return Err(unknown_document_error("Unknown target document '", target_name.as_str(), "' at line ",
                        line_no, " (not in component '", target_comp.name.as_str(), "')"));
                }
                i = i + 1;
                continue;
            },
        };
        let target_unit = match parse_unsigned(parts[3].as_slice(), 0xffff_ffffu64) {
            Some(v) => v as u32,
            None => {
                proof { lemma_parse_fails(ls, i as int, sm, tm, strict); }
                let x = string_from_chars(parts[3].as_slice());
                return Err(alignment_error("Invalid target sentence index at line ", line_no,
                    concat(": ", x.as_str()).as_str()));
            },
        };
        edges.push(((source_doc, source_unit), (target_doc, target_unit)));
        i = i + 1;
    }
    proof { assert(ls.subrange(0, i as int) =~= ls); }
    Ok(edges)
}

/// Builds a multi-component corpus from a manifest.
#[derive(Debug)]
pub struct MultiCorpusBuilder {
    manifest: Manifest,
    manifest_dir: String,
    decompose_feats: bool,
    strict: bool,
}

impl MultiCorpusBuilder {
    /// The manifest names no component, span layer or alignment twice.
    #[verifier::type_invariant]
    spec fn manifest_wf(&self) -> bool {
        self.manifest.wf()
    }

    pub closed spec fn manifest_model(&self) -> Manifest {
        self.manifest
    }

    pub closed spec fn dir_model(&self) -> Seq<char> {
        self.manifest_dir@
    }

    pub closed spec fn decomposes(&self) -> bool {
        self.decompose_feats
    }

    pub closed spec fn is_strict(&self) -> bool {
        self.strict
    }

    /// A builder for the manifest read from directory `manifest_dir`; feature decomposition as
    /// the manifest says, not strict.
    pub fn from_manifest(manifest: Manifest, manifest_dir: String) -> (r: MultiCorpusBuilder)
        requires
            manifest.wf(),
        ensures
            r.manifest_model() == manifest,
            r.dir_model() == manifest_dir@,
            r.decomposes() == manifest.corpus.decompose_feats,
            !r.is_strict(),
    {
        let decompose_feats = manifest.corpus.decompose_feats;
        MultiCorpusBuilder { manifest, manifest_dir, decompose_feats, strict: false }
    }

    /// The same builder, strict or not: a strict build stops at the first bad line or file.
    pub fn strict(self, strict: bool) -> (r: MultiCorpusBuilder)
        ensures
            r.is_strict() == strict,
            r.manifest_model() == self.manifest_model(),
            r.dir_model() == self.dir_model(),
            r.decomposes() == self.decomposes(),
    {
        let mut r = self;
        proof { use_type_invariant(&r); }
        r.strict = strict;
        r
    }

    /// The same builder, splitting feature strings when `enabled`.
    pub fn decompose_feats(self, enabled: bool) -> (r: MultiCorpusBuilder)
        ensures
            r.decomposes() == enabled,
            r.manifest_model() == self.manifest_model(),
            r.dir_model() == self.dir_model(),
            r.is_strict() == self.is_strict(),
    {
        let mut r = self;
        proof { use_type_invariant(&r); }
        r.decompose_feats = enabled;
        r
    }

    pub fn manifest(&self) -> (r: &Manifest)
        ensures
            *r == self.manifest_model(),
            r.wf(),
    {
        proof { use_type_invariant(self); }
        &self.manifest
    }

    pub fn manifest_dir(&self) -> (r: &str)
        ensures
            r@ == self.dir_model(),
    {
        self.manifest_dir.as_str()
    }

    pub fn is_strict_build(&self) -> (b: bool)
        ensures
            b == self.is_strict(),
    {
        self.strict
    }

    pub fn decomposes_feats(&self) -> (b: bool)
        ensures
            b == self.decomposes(),
    {
        self.decompose_feats
    }

    /// The component names in text order: the order components are built and numbered in.
    pub fn component_order(&self) -> (r: Vec<String>)
        ensures
            sorted_text(str_views(r@)),
            str_views(r@).to_multiset() == table_keys(self.manifest_model().components@).to_multiset(),
    {
        let mut names: Vec<String> = Vec::new();
        let mut i: usize = 0;
        while i < self.manifest.components.len()
            invariant
                0 <= i <= self.manifest.components@.len(),
                str_views(names@) == table_keys(self.manifest.components@).subrange(0, i as int),
            decreases self.manifest.components@.len() - i,
        {
            let ghost n0 = str_views(names@);
            names.push(self.manifest.components[i].0.clone());
            i = i + 1;
            proof {
                assert(str_views(names@) =~= n0.push(self.manifest.components@[i - 1].0@));
                assert(table_keys(self.manifest.components@).subrange(0, i as int)
                    =~= table_keys(self.manifest.components@).subrange(0, i - 1).push(self.manifest.components@[i - 1].0@));
            }
        }
        proof { assert(table_keys(self.manifest.components@).subrange(0, i as int) =~= table_keys(self.manifest.components@)); }
        sort_strings(names)
    }
}

/// Appends a component's sink to the combined one and describes the component: its id, name,
/// language and the range of documents it added.
pub fn add_component(combined: &mut IndexSink, id: u32, name: String, language: String, sink: IndexSink) -> (c: ComponentMeta)
    requires
        old(combined).wf(),
        sink.wf(),
        old(combined).bounded(),
        sink.bounded(),
        old(combined).position() + sink.position() < u32::MAX,
    ensures
        final(combined).wf(),
        final(combined).bounded(),
        final(combined).position() == old(combined).position() + sink.position(),
        final(combined).doc_names() == old(combined).doc_names() + sink.doc_names(),
        c.id == id,
        c.name@ == name@,
        c.language@ == language@,
        c.document_range.0 == old(combined).doc_names().len(),
        c.document_range.1 == final(combined).doc_names().len(),
{
    let doc_start = combined.document_names().len();
    combined.merge_from(sink);
    let doc_end = combined.document_names().len();
    ComponentMeta { id, name, language, document_range: (doc_start, doc_end) }
}

/// The first component named `name`.
pub fn find_component(components: &[ComponentMeta], name: &str) -> (r: Option<usize>)
    ensures
        match r {
            Some(i) => i < components@.len() && components@[i as int].name@ == name@
                && forall|j: int| 0 <= j < i ==> components@[j].name@ != name@,
            None => forall|j: int| 0 <= j < components@.len() ==> components@[j].name@ != name@,
        },
{
    let mut i: usize = 0;
    while i < components.len()
        invariant
            0 <= i <= components@.len(),
            forall|j: int| 0 <= j < i ==> components@[j].name@ != name@,
        decreases components@.len() - i,
    {
        if str_eq(components[i].name.as_str(), name) {
            return Some(i);
        }
        i = i + 1;
    }
    None
}

/// The source and target components of an alignment. Refused when either is not among the
/// components.
pub fn alignment_components(components: &[ComponentMeta], config: &AlignmentConfig) -> (r: Result<(usize, usize), BuildError>)
    ensures
        match r {
            Ok((s, t)) => s < components@.len() && t < components@.len()
                && components@[s as int].name@ == config.source@ && components@[t as int].name@ == config.target@
                && (forall|j: int| 0 <= j < s ==> components@[j].name@ != config.source@)
                && (forall|j: int| 0 <= j < t ==> components@[j].name@ != config.target@),
            Err(e) => if forall|j: int| 0 <= j < components@.len() ==> components@[j].name@ != config.source@ {
                e matches BuildError::Alignment(m) && m@ == "Source component not found: "@ + config.source@
            } else {
                &&& forall|j: int| 0 <= j < components@.len() ==> components@[j].name@ != config.target@
                &&& e matches BuildError::Alignment(m) && m@ == "Target component not found: "@ + config.target@
            },
        },
{
    let s = match find_component(components, config.source.as_str()) {
        Some(i) => i,
        None => return Err(BuildError::Alignment(concat("Source component not found: ", config.source.as_str()))),
    };
    let t = match find_component(components, config.target.as_str()) {
        Some(i) => i,
        None => return Err(BuildError::Alignment(concat("Target component not found: ", config.target.as_str()))),
    };
    Ok((s, t))
}

/// The metadata of alignment `name` with `edge_count` edges.
pub fn alignment_meta_for(name: &str, config: &AlignmentConfig, edge_count: usize) -> (m: AlignmentMeta)
    ensures
        m.name@ == name@,
        m.source_component@ == config.source@,
        m.target_component@ == config.target@,
        m.source_layer@ == config.source_layer@,
        m.target_layer@ == config.target_layer@,
        m.directed == config.directed,
        m.edge_count == edge_count,
{
    AlignmentMeta {
        name: name.to_owned(),
        source_component: config.source.clone(),
        target_component: config.target.clone(),
        source_layer: config.source_layer.clone(),
        target_layer: config.target_layer.clone(),
        directed: config.directed,
        edge_count,
    }
}

/// The metadata of a multi-component corpus built into `combined`.
pub fn multi_corpus_meta(name: String, combined: &IndexSink, components: Vec<ComponentMeta>, alignments: Vec<AlignmentMeta>) -> (m: CorpusMeta)
    requires
        combined.wf(),
    ensures
        m.name@ == name@,
        m.version == INDEX_VERSION,
        m.token_count == combined.position(),
        string_views(m.layers@) == crate::builder::table_names(combined.forward_state().table),
        string_views(m.span_layers@) == combined.span_order(),
        string_views(m.document_names@) == combined.doc_names(),
        m.components@ == components@,
        m.alignments@ == alignments@,
{
    let span_refs = combined.spans().layers();
    let mut span_layers: Vec<String> = Vec::new();
    let mut i: usize = 0;
    while i < span_refs.len()
        invariant
            0 <= i <= span_refs@.len(),
            span_refs@.len() == combined.span_order().len(),
            forall|k: int| 0 <= k < span_refs@.len() ==> span_refs@[k]@ == #[trigger] combined.span_order()[k],
            string_views(span_layers@) == combined.span_order().subrange(0, i as int),
        decreases span_refs@.len() - i,
    {
        let ghost s0 = string_views(span_layers@);
        span_layers.push(span_refs[i].to_owned());
        i = i + 1;
        proof {
            assert(string_views(span_layers@) =~= s0.push(span_refs@[i - 1]@));
            assert(combined.span_order().subrange(0, i as int) =~= combined.span_order().subrange(0, i - 1).push(combined.span_order()[i - 1]));
        }
    }
    proof { assert(combined.span_order().subrange(0, i as int) =~= combined.span_order()); }
    CorpusMeta {
        name,
        version: INDEX_VERSION,
        token_count: combined.current_position(),
        layers: combined.layer_names(),
        span_layers,
        document_names: crate::handlers::text::clone_strings(combined.document_names()),
        components,
        alignments,
    }
}

/// What one alignment file gives: its edges, or the message of its first failing line.
pub open spec fn file_result(label: Seq<char>, text: Seq<char>, source: ComponentMeta, target: ComponentMeta,
    names: Seq<Seq<char>>, strict: bool) -> Result<Seq<(UnitId, UnitId)>, Seq<char>>
{
    let sm = doc_map(source, names);
    let tm = doc_map(target, names);
    let lines = split(text, '\n');
    match alignment_parse(lines, sm, tm, strict) {
        Ok(es) => Ok(es),
        Err(k) => Err(failure_message(lines[k], (k + 1) as nat, sm, tm, label, source.name@, target.name@)),
    }
}

/// What the files of an alignment give, read in order: all their edges one file after the
/// other, or the message of the first failure.
pub open spec fn files_result(files: Seq<(Seq<char>, Seq<char>)>, source: ComponentMeta, target: ComponentMeta,
    names: Seq<Seq<char>>, strict: bool) -> Result<Seq<(UnitId, UnitId)>, Seq<char>>
    decreases files.len(),
{
    if files.len() == 0 {
        Ok(Seq::empty())
    } else {
        match files_result(files.drop_last(), source, target, names, strict) {
            Err(m) => Err(m),
            Ok(es) => match file_result(files.last().0, files.last().1, source, target, names, strict) {
                Ok(more) => Ok(es + more),
                Err(m) => Err(m),
            },
        }
    }
}

/// The (label, text) pairs of some files, as plain values.
pub open spec fn file_views(files: Seq<(String, String)>) -> Seq<(Seq<char>, Seq<char>)> {
    files.map_values(|f: (String, String)| (f.0@, f.1@))
}

/// The edges of an alignment between components `source` and `target` whose edges are in
/// `files` (label and text of each, in the order they are read: one file, or the `.tsv` files
/// of a directory in path order); see `files_result`.
pub fn alignment_edges(files: &Vec<(String, String)>, source: &ComponentMeta, target: &ComponentMeta,
    document_names: &[String], strict: bool) -> (r: Result<Vec<(UnitId, UnitId)>, BuildError>)
    ensures
        match files_result(file_views(files@), *source, *target, string_views(document_names@), strict) {
            Ok(es) => r matches Ok(v) && v@ == es,
            Err(m) => r matches Err(e) && e matches BuildError::Alignment(msg) && msg@ == m,
        },
{
    let ghost fv = file_views(files@);
    let ghost names = string_views(document_names@);
    let mut all: Vec<(UnitId, UnitId)> = Vec::new();
    let mut i: usize = 0;
    while i < files.len()
        invariant
            0 <= i <= files@.len(),
            fv == file_views(files@),
            names == string_views(document_names@),
            files_result(fv.subrange(0, i as int), *source, *target, names, strict) == Ok::<Seq<(UnitId, UnitId)>, Seq<char>>(all@),
        decreases files@.len() - i,
    {
        proof {
            let t = fv.subrange(0, i + 1);
            assert(t.drop_last() =~= fv.subrange(0, i as int));
            assert(t.last() == (files@[i as int].0@, files@[i as int].1@));
        }
        match parse_alignment_text(files[i].1.as_str(), source, target, document_names, strict, files[i].0.as_str()) {
            Ok(v) => {
                let mut v = v;
                all.append(&mut v);
            },
            Err(e) => {
                proof { lemma_files_fail_stays(fv, (i + 1) as nat, *source, *target, names, strict); }
                proof { assert(fv.subrange(0, fv.len() as int) =~= fv); }
                return Err(e);
            },
        }
        i = i + 1;
    }
    proof { assert(fv.subrange(0, i as int) =~= fv); }
    Ok(all)
}

/// Once a file fails, reading more files keeps that failure.
proof fn lemma_files_fail_stays(files: Seq<(Seq<char>, Seq<char>)>, n: nat, source: ComponentMeta, target: ComponentMeta,
    names: Seq<Seq<char>>, strict: bool)
    requires
        n <= files.len(),
        files_result(files.subrange(0, n as int), source, target, names, strict) is Err,
    ensures
        files_result(files, source, target, names, strict) == files_result(files.subrange(0, n as int), source, target, names, strict),
    decreases files.len() - n,
{
    if n < files.len() {
        let t = files.subrange(0, (n + 1) as int);
        assert(t.drop_last() =~= files.subrange(0, n as int));
        lemma_files_fail_stays(files, n + 1, source, target, names, strict);
    } else {
        assert(files.subrange(0, n as int) =~= files);
    }
}

/// The component names, in order.
pub open spec fn component_names(cs: Seq<ComponentMeta>) -> Seq<Seq<char>> {
    cs.map_values(|c: ComponentMeta| c.name@)
}

/// What alignment `cfg` gives with edge files `files`: its source and target must be among the
/// components (the first of each name counts), then its files are read.
pub open spec fn alignment_result(cfg: AlignmentConfig, cs: Seq<ComponentMeta>, names: Seq<Seq<char>>,
    files: Seq<(Seq<char>, Seq<char>)>, strict: bool) -> Result<Seq<(UnitId, UnitId)>, Seq<char>>
{
    let si = crate::forward::first_index_of(component_names(cs), cfg.source@);
    let ti = crate::forward::first_index_of(component_names(cs), cfg.target@);
    if si < 0 {
        Err("Source component not found: "@ + cfg.source@)
    } else if ti < 0 {
        Err("Target component not found: "@ + cfg.target@)
    } else {
        files_result(files, cs[si], cs[ti], names, strict)
    }
}

/// What the first `n` alignments give, in order: the edges of each, or the first failure.
pub open spec fn alignments_result(als: Seq<(String, AlignmentConfig)>, cs: Seq<ComponentMeta>, names: Seq<Seq<char>>,
    files: Seq<Seq<(Seq<char>, Seq<char>)>>, strict: bool, n: nat) -> Result<Seq<Seq<(UnitId, UnitId)>>, Seq<char>>
    decreases n,
{
    if n == 0 {
        Ok(Seq::empty())
    } else {
        match alignments_result(als, cs, names, files, strict, (n - 1) as nat) {
            Err(m) => Err(m),
            Ok(v) => match alignment_result(als[n - 1].1, cs, names, files[n - 1], strict) {
                Ok(es) => Ok(v.push(es)),
                Err(m) => Err(m),
            },
        }
    }
}

/// The alignments of a manifest, in its order, read with the components built and the edge
/// files of each (`files[i]` for alignment `i`): the alignment index and the metadata of each,
/// or the first failure. When no name occurs twice, each alignment's edges are those it read.
pub fn assemble_alignments(alignments: &Vec<(String, AlignmentConfig)>, components: &[ComponentMeta],
    document_names: &[String], files: &Vec<Vec<(String, String)>>, strict: bool)
    -> (r: Result<(AlignmentIndex, Vec<AlignmentMeta>), BuildError>)
    requires
        files@.len() == alignments@.len(),
    ensures
        ({
            let res = alignments_result(alignments@, components@, string_views(document_names@),
                files@.map_values(|f: Vec<(String, String)>| file_views(f@)), strict, alignments@.len());
            &&& r is Ok <==> res is Ok
            &&& r matches Err(e) ==> (res matches Err(m) && e matches BuildError::Alignment(msg) && msg@ == m)
            &&& r matches Ok((idx, metas)) ==> (res matches Ok(es) && {
                &&& metas@.len() == alignments@.len()
                &&& es.len() == alignments@.len()
                &&& forall|k: int| 0 <= k < metas@.len() ==> {
                    let m = #[trigger] metas@[k];
                    let (name, cfg) = alignments@[k];
                    &&& m.name@ == name@
                    &&& m.source_component@ == cfg.source@
                    &&& m.target_component@ == cfg.target@
                    &&& m.source_layer@ == cfg.source_layer@
                    &&& m.target_layer@ == cfg.target_layer@
                    &&& m.directed == cfg.directed
                    &&& m.edge_count == es[k].len()
                }
                &&& table_keys(alignments@).no_duplicates() ==> forall|k: int| 0 <= k < alignments@.len()
                    ==> #[trigger] idx.edges_of(alignments@[k].0@) == Some(es[k])
                &&& forall|n: Seq<char>| !table_keys(alignments@).contains(n) ==> #[trigger] idx.edges_of(n) is None
            })
        }),
{
    let ghost cs = components@;
    let ghost names = string_views(document_names@);
    let ghost fv = files@.map_values(|f: Vec<(String, String)>| file_views(f@));
    let ghost keys = table_keys(alignments@);
    let mut idx = AlignmentIndex::new();
    let mut metas: Vec<AlignmentMeta> = Vec::new();
    let ghost mut es: Seq<Seq<(UnitId, UnitId)>> = Seq::empty();
    let mut i: usize = 0;
    while i < alignments.len()
        invariant
            0 <= i <= alignments@.len(),
            files@.len() == alignments@.len(),
            cs == components@,
            names == string_views(document_names@),
            fv == files@.map_values(|f: Vec<(String, String)>| file_views(f@)),
            keys == table_keys(alignments@),
            alignments_result(alignments@, cs, names, fv, strict, i as nat) == Ok::<Seq<Seq<(UnitId, UnitId)>>, Seq<char>>(es),
            es.len() == i,
            metas@.len() == i,
            forall|k: int| 0 <= k < i ==> {
                let m = #[trigger] metas@[k];
                let (name, cfg) = alignments@[k];
                &&& m.name@ == name@
                &&& m.source_component@ == cfg.source@
                &&& m.target_component@ == cfg.target@
                &&& m.source_layer@ == cfg.source_layer@
                &&& m.target_layer@ == cfg.target_layer@
                &&& m.directed == cfg.directed
                &&& m.edge_count == es[k].len()
            },
            keys.no_duplicates() ==> forall|k: int| 0 <= k < i ==> #[trigger] idx.edges_of(alignments@[k].0@) == Some(es[k]),
            forall|n: Seq<char>| !keys.subrange(0, i as int).contains(n) ==> #[trigger] idx.edges_of(n) is None,
        decreases alignments@.len() - i,
    {
        let name = &alignments[i].0;
        let cfg = &alignments[i].1;
        proof { assert(fv[i as int] == file_views(files@[i as int]@)); }
        let (s, t) = match alignment_components(components, cfg) {
            Ok(p) => p,
            Err(e) => {
                proof {
                    if exists|j: int| 0 <= j < cs.len() && cs[j].name@ == cfg.source@ {
                        let j = choose|j: int| 0 <= j < cs.len() && cs[j].name@ == cfg.source@;
                        assert(component_names(cs)[j] == cfg.source@);
                        crate::forward::lemma_first_exists(component_names(cs), cfg.source@, j);
                        assert forall|q: int| 0 <= q < component_names(cs).len() implies component_names(cs)[q] != cfg.target@ by {
                            assert(component_names(cs)[q] == cs[q].name@);
                        }
                        crate::forward::lemma_first_index_absent(component_names(cs), cfg.target@);
                    } else {
                        assert forall|q: int| 0 <= q < component_names(cs).len() implies component_names(cs)[q] != cfg.source@ by {
                            assert(component_names(cs)[q] == cs[q].name@);
                        }
                        crate::forward::lemma_first_index_absent(component_names(cs), cfg.source@);
                    }
                    lemma_alignments_fail_stays(alignments@, cs, names, fv, strict, (i + 1) as nat);
                }
                return Err(e);
            },
        };
        proof {
            assert forall|q: int| 0 <= q < s implies component_names(cs)[q] != cfg.source@ by {
                assert(component_names(cs)[q] == cs[q].name@);
            }
            crate::forward::lemma_first_index_of(component_names(cs), cfg.source@, s as int);
            assert forall|q: int| 0 <= q < t implies component_names(cs)[q] != cfg.target@ by {
                assert(component_names(cs)[q] == cs[q].name@);
            }
            crate::forward::lemma_first_index_of(component_names(cs), cfg.target@, t as int);
        }
        let edges = match alignment_edges(&files[i], &components[s], &components[t], document_names, strict) {
            Ok(v) => v,
            Err(e) => {
                proof { lemma_alignments_fail_stays(alignments@, cs, names, fv, strict, (i + 1) as nat); }
                return Err(e);
            },
        };
        let ghost e_i = edges@;
        metas.push(alignment_meta_for(name.as_str(), cfg, edges.len()));
        let ghost before = idx;
        idx.add(name.as_str(), edges);
        proof {
            es = es.push(e_i);
            assert(keys.subrange(0, i + 1) =~= keys.subrange(0, i as int).push(name@));
            assert(keys[i as int] == name@);
            assert forall|n: Seq<char>| !keys.subrange(0, i + 1).contains(n) implies #[trigger] idx.edges_of(n) is None by {
                assert(keys.subrange(0, i + 1)[i as int] == name@);
                assert(n != name@);
                assert(!keys.subrange(0, i as int).contains(n)) by {
                    if keys.subrange(0, i as int).contains(n) {
                        let q = choose|q: int| 0 <= q < i && keys.subrange(0, i as int)[q] == n;
                        assert(keys.subrange(0, i + 1)[q] == n);
                    }
                }
            }
            if keys.no_duplicates() {
                assert forall|k: int| 0 <= k < i + 1 implies #[trigger] idx.edges_of(alignments@[k].0@) == Some(es[k]) by {
                    if k < i {
                        assert(keys[k] == alignments@[k].0@);
                        assert(keys[k] != keys[i as int]);
                    }
                }
            }
        }
        i = i + 1;
    }
    proof {
        assert(keys.subrange(0, i as int) =~= keys);
    }
    Ok((idx, metas))
}

/// Once an alignment fails, the later ones change nothing.
proof fn lemma_alignments_fail_stays(als: Seq<(String, AlignmentConfig)>, cs: Seq<ComponentMeta>, names: Seq<Seq<char>>,
    files: Seq<Seq<(Seq<char>, Seq<char>)>>, strict: bool, n: nat)
    requires
        n <= als.len(),
        alignments_result(als, cs, names, files, strict, n) is Err,
    ensures
        alignments_result(als, cs, names, files, strict, als.len()) == alignments_result(als, cs, names, files, strict, n),
    decreases als.len() - n,
{
    if n < als.len() {
        lemma_alignments_fail_stays(als, cs, names, files, strict, n + 1);
    }
}

/// The tokens of the first `n` component sinks, together.
pub open spec fn parts_tokens(parts: Seq<(String, String, IndexSink)>, n: nat) -> int
    decreases n,
{
    if n == 0 { 0 } else { parts_tokens(parts, (n - 1) as nat) + parts[n - 1].2.position() }
}

/// The document names of the first `n` component sinks, one after the other.
pub open spec fn parts_docs(parts: Seq<(String, String, IndexSink)>, n: nat) -> Seq<Seq<char>>
    decreases n,
{
    if n == 0 { Seq::empty() } else { parts_docs(parts, (n - 1) as nat) + parts[n - 1].2.doc_names() }
}

/// Adds components to `combined` in order, each a name, a language and the sink it was read
/// into: component `k` gets id `k` and the range of documents it added, its positions after
/// those of the components before it.
pub fn assemble_components(combined: &mut IndexSink, parts: Vec<(String, String, IndexSink)>) -> (r: Vec<ComponentMeta>)
    requires
        old(combined).wf(),
        old(combined).bounded(),
        parts@.len() <= u32::MAX,
        forall|k: int| 0 <= k < parts@.len() ==> (#[trigger] parts@[k]).2.wf() && parts@[k].2.bounded(),
        old(combined).position() + parts_tokens(parts@, parts@.len()) < u32::MAX,
    ensures
        final(combined).wf(),
        final(combined).bounded(),
        final(combined).position() == old(combined).position() + parts_tokens(parts@, parts@.len()),
        final(combined).doc_names() == old(combined).doc_names() + parts_docs(parts@, parts@.len()),
        r@.len() == parts@.len(),
        forall|k: int| 0 <= k < r@.len() ==> {
            let c = #[trigger] r@[k];
            &&& c.id == k
            &&& c.name@ == parts@[k].0@
            &&& c.language@ == parts@[k].1@
            &&& c.document_range.0 == old(combined).doc_names().len() + parts_docs(parts@, k as nat).len()
            &&& c.document_range.1 == old(combined).doc_names().len() + parts_docs(parts@, (k + 1) as nat).len()
        },
{
    let ghost ps = parts@;
    let ghost start_docs = combined.doc_names();
    let ghost start_pos = combined.position();
    let mut rest = parts;
    let mut r: Vec<ComponentMeta> = Vec::new();
    let mut id: u32 = 0;
    proof { lemma_parts_tokens_grow(ps, 0, ps.len()); }
    while rest.len() > 0
        invariant
            combined.wf(),
            combined.bounded(),
            0 <= id <= ps.len(),
            ps.len() <= u32::MAX,
            rest@.len() == ps.len() - id,
            rest@ == ps.subrange(id as int, ps.len() as int),
            forall|k: int| 0 <= k < ps.len() ==> (#[trigger] ps[k]).2.wf() && ps[k].2.bounded(),
            start_pos + parts_tokens(ps, ps.len()) < u32::MAX,
            combined.position() == start_pos + parts_tokens(ps, id as nat),
            combined.doc_names() == start_docs + parts_docs(ps, id as nat),
            parts_tokens(ps, id as nat) <= parts_tokens(ps, ps.len()),
            r@.len() == id,
            forall|k: int| 0 <= k < r@.len() ==> {
                let c = #[trigger] r@[k];
                &&& c.id == k
                &&& c.name@ == ps[k].0@
                &&& c.language@ == ps[k].1@
                &&& c.document_range.0 == start_docs.len() + parts_docs(ps, k as nat).len()
                &&& c.document_range.1 == start_docs.len() + parts_docs(ps, (k + 1) as nat).len()
            },
        decreases rest@.len(),
    {
        let ghost k = id as int;
        proof {
            assert(rest@[0] == ps[k]);
            lemma_parts_tokens_grow(ps, (k + 1) as nat, ps.len());
        }
        let (name, language, sink) = rest.remove(0);
        let c = add_component(combined, id, name, language, sink);
        r.push(c);
        proof {
            assert(parts_docs(ps, (k + 1) as nat) == parts_docs(ps, k as nat) + ps[k].2.doc_names());
            assert(combined.doc_names() =~= start_docs + parts_docs(ps, (k + 1) as nat));
            assert(rest@ =~= ps.subrange(k + 1, ps.len() as int));
        }
        id = id + 1;
    }
    r
}

/// The tokens of the first components grow with their number.
proof fn lemma_parts_tokens_grow(parts: Seq<(String, String, IndexSink)>, a: nat, b: nat)
    requires
        a <= b,
    ensures
        parts_tokens(parts, a) <= parts_tokens(parts, b),
    decreases b - a,
{
    if a < b {
        lemma_parts_tokens_grow(parts, a, (b - 1) as nat);
    }
}

/// The language the manifest gives component `name`: that of its entry, or empty when the
/// entry has none.
pub open spec fn component_language(m: Manifest, name: Seq<char>) -> Seq<char> {
    let i = crate::forward::first_index_of(table_keys(m.components@), name);
    if 0 <= i < m.components@.len() {
        match m.components@[i].1.language {
            Some(l) => l@,
            None => Seq::empty(),
        }
    } else {
        Seq::empty()
    }
}

/// The tokens of the first `n` sinks, together.
pub open spec fn sinks_tokens(sinks: Seq<IndexSink>, n: nat) -> int
    decreases n,
{
    if n == 0 { 0 } else { sinks_tokens(sinks, (n - 1) as nat) + sinks[n - 1].position() }
}

/// The document names of the first `n` sinks, one after the other.
pub open spec fn sinks_docs(sinks: Seq<IndexSink>, n: nat) -> Seq<Seq<char>>
    decreases n,
{
    if n == 0 { Seq::empty() } else { sinks_docs(sinks, (n - 1) as nat) + sinks[n - 1].doc_names() }
}

/// The components `cs` are those built from `sinks` named `order`, in that order: component
/// `k` has id `k`, name `order[k]`, the manifest's language for it, and the documents of its
/// sink, right after those of the components before it.
pub open spec fn components_built(cs: Seq<ComponentMeta>, m: Manifest, order: Seq<Seq<char>>, sinks: Seq<IndexSink>) -> bool {
    &&& cs.len() == order.len()
    &&& forall|k: int| 0 <= k < cs.len() ==> {
        let c = #[trigger] cs[k];
        &&& c.id == k
        &&& c.name@ == order[k]
        &&& c.language@ == component_language(m, order[k])
        &&& c.document_range.0 == sinks_docs(sinks, k as nat).len()
        &&& c.document_range.1 == sinks_docs(sinks, (k + 1) as nat).len()
    }
}

/// Parts made from sinks carry their tokens and documents.
proof fn lemma_parts_of_sinks(parts: Seq<(String, String, IndexSink)>, sinks: Seq<IndexSink>, n: nat)
    requires
        n <= parts.len(),
        n <= sinks.len(),
        forall|k: int| 0 <= k < n ==> (#[trigger] parts[k]).2 == sinks[k],
    ensures
        parts_tokens(parts, n) == sinks_tokens(sinks, n),
        parts_docs(parts, n) == sinks_docs(sinks, n),
    decreases n,
{
    if n > 0 {
        lemma_parts_of_sinks(parts, sinks, (n - 1) as nat);
        assert(parts[n - 1].2 == sinks[n - 1]);
    }
}

impl MultiCorpusBuilder {
    /// The manifest's language for component `name`.
    pub fn language_of(&self, name: &str) -> (r: String)
        ensures
            r@ == component_language(self.manifest_model(), name@),
    {
        let ghost keys = table_keys(self.manifest.components@);
        let mut i: usize = 0;
        while i < self.manifest.components.len()
            invariant
                0 <= i <= self.manifest.components@.len(),
                keys == table_keys(self.manifest.components@),
                forall|j: int| 0 <= j < i ==> keys[j] != name@,
            decreases self.manifest.components@.len() - i,
        {
            proof { assert(keys[i as int] == self.manifest.components@[i as int].0@); }
            if str_eq(self.manifest.components[i].0.as_str(), name) {
                proof { crate::forward::lemma_first_index_of(keys, name@, i as int); }
                return match &self.manifest.components[i].1.language {
                    Some(l) => l.clone(),
                    None => String::new(),
                };
            }
            i = i + 1;
        }
        proof { crate::forward::lemma_first_index_absent(keys, name@); }
        String::new()
    }

    /// Builds the corpus from the sinks its components were read into, given in the order
    /// `order` that `component_order` gives, and the edge files of each alignment of the
    /// manifest (`files[i]` for alignment `i`, in manifest order): the combined index, the
    /// corpus metadata and the alignment index. The components get ids in that order and
    /// consecutive document ranges, and the corpus holds all their tokens and documents.
    /// Refused, with its message, at the first alignment that fails.
    pub fn assemble(&self, order: &Vec<String>, sinks: Vec<IndexSink>, files: &Vec<Vec<(String, String)>>)
        -> (r: Result<(IndexSink, CorpusMeta, AlignmentIndex), BuildError>)
        requires
            sorted_text(str_views(order@)),
            str_views(order@).to_multiset() == table_keys(self.manifest_model().components@).to_multiset(),
            sinks@.len() == order@.len(),
            order@.len() <= u32::MAX,
            forall|k: int| 0 <= k < sinks@.len() ==> (#[trigger] sinks@[k]).wf() && sinks@[k].bounded(),
            sinks_tokens(sinks@, sinks@.len()) < u32::MAX,
            files@.len() == self.manifest_model().alignments@.len(),
        ensures
            ({
                let als = self.manifest_model().alignments@;
                let names = sinks_docs(sinks@, sinks@.len());
                let fv = files@.map_values(|f: Vec<(String, String)>| file_views(f@));
                &&& r matches Ok((combined, meta, idx)) ==> {
                    &&& components_built(meta.components@, self.manifest_model(), str_views(order@), sinks@)
                    &&& sorted_text(component_names(meta.components@))
                    &&& meta.name@ == self.manifest_model().corpus.name@
                    &&& meta.version == INDEX_VERSION
                    &&& meta.token_count == sinks_tokens(sinks@, sinks@.len())
                    &&& combined.position() == meta.token_count
                    &&& string_views(meta.document_names@) == names
                    &&& combined.doc_names() == names
                    &&& string_views(meta.span_layers@) == combined.span_order()
                    &&& alignments_result(als, meta.components@, names, fv, self.is_strict(), als.len()) matches Ok(es)
                    &&& meta.alignments@.len() == als.len()
                    &&& forall|k: int| 0 <= k < als.len() ==> {
                        let a = #[trigger] meta.alignments@[k];
                        &&& a.name@ == als[k].0@
                        &&& a.source_component@ == als[k].1.source@
                        &&& a.target_component@ == als[k].1.target@
                        &&& a.source_layer@ == als[k].1.source_layer@
                        &&& a.target_layer@ == als[k].1.target_layer@
                        &&& a.directed == als[k].1.directed
                        &&& a.edge_count == es[k].len()
                        &&& idx.edges_of(als[k].0@) == Some(es[k])
                    }
                }
                &&& forall|cs: Seq<ComponentMeta>| components_built(cs, self.manifest_model(), str_views(order@), sinks@)
                    ==> (r is Ok <==> alignments_result(als, cs, names, fv, self.is_strict(), als.len()) is Ok)
                &&& r matches Err(e) ==> exists|cs: Seq<ComponentMeta>|
                    components_built(cs, self.manifest_model(), str_views(order@), sinks@)
                    && (alignments_result(als, cs, names, fv, self.is_strict(), als.len()) matches Err(m)
                    && e matches BuildError::Alignment(msg) && msg@ == m)
            }),
    {
        proof { use_type_invariant(self); }
        let ghost ss = sinks@;
        let ghost ov = str_views(order@);
        let mut rest = sinks;
        let mut parts: Vec<(String, String, IndexSink)> = Vec::new();
        let mut k: usize = 0;
        while k < order.len()
            invariant
                0 <= k <= order@.len(),
                ss.len() == order@.len(),
                ov == str_views(order@),
                rest@ == ss.subrange(k as int, ss.len() as int),
                parts@.len() == k,
                forall|j: int| 0 <= j < k ==> {
                    &&& (#[trigger] parts@[j]).2 == ss[j]
                    &&& parts@[j].0@ == ov[j]
                    &&& parts@[j].1@ == component_language(self.manifest_model(), ov[j])
                },
            decreases order@.len() - k,
        {
            proof { assert(rest@[0] == ss[k as int]); assert(ov[k as int] == order@[k as int]@); }
            let sink = rest.remove(0);
            let lang = self.language_of(order[k].as_str());
            parts.push((order[k].clone(), lang, sink));
            proof { assert(rest@ =~= ss.subrange(k + 1, ss.len() as int)); }
            k = k + 1;
        }
        proof {
            lemma_parts_of_sinks(parts@, ss, ss.len());
            assert forall|j: int| 0 <= j < parts@.len() implies (#[trigger] parts@[j]).2.wf() && parts@[j].2.bounded() by {
                assert(parts@[j].2 == ss[j]);
            }
        }
        let ghost ps = parts@;
        let combined0 = IndexSink::new_without_forward();
        let mut combined = combined0.with_decompose_feats(self.decompose_feats);
        proof {
            assert(combined.doc_names() == Seq::<Seq<char>>::empty());
        }
        let comps = assemble_components(&mut combined, parts);
        proof {
            assert(combined.doc_names() =~= sinks_docs(ss, ss.len()));
            assert forall|j: int| 0 <= j < comps@.len() implies #[trigger] comps@[j].document_range.0 == sinks_docs(ss, j as nat).len()
                && comps@[j].document_range.1 == sinks_docs(ss, (j + 1) as nat).len() by {
                lemma_parts_of_sinks(ps, ss, j as nat);
                lemma_parts_of_sinks(ps, ss, (j + 1) as nat);
            }
            assert(components_built(comps@, self.manifest_model(), ov, ss));
            assert(component_names(comps@) =~= ov);
        }
        let ghost cs = comps@;
        let res = assemble_alignments(&self.manifest.alignments, comps.as_slice(), combined.document_names(), files, self.strict);
        proof {
            lemma_components_built_unique(cs, self.manifest_model(), ov, ss);
            let als = self.manifest_model().alignments@;
            let fv = files@.map_values(|f: Vec<(String, String)>| file_views(f@));
            assert forall|ds: Seq<ComponentMeta>| components_built(ds, self.manifest_model(), ov, ss) implies
                alignments_result(als, ds, sinks_docs(ss, ss.len()), fv, self.strict, als.len())
                == alignments_result(als, cs, sinks_docs(ss, ss.len()), fv, self.strict, als.len()) by {
                lemma_alignments_result_views(als, ds, cs, sinks_docs(ss, ss.len()), fv, self.strict, als.len());
            }
        }
        match res {
            Ok((idx, ametas)) => {
                proof { assert(table_keys(self.manifest.alignments@).no_duplicates()); }
                let meta = multi_corpus_meta(self.manifest.corpus.name.clone(), &combined, comps, ametas);
                Ok((combined, meta, idx))
            },
            Err(e) => Err(e),
        }
    }
}

/// A component as plain values.
pub open spec fn component_views(cs: Seq<ComponentMeta>) -> Seq<(u32, Seq<char>, Seq<char>, (usize, usize))> {
    cs.map_values(|c: ComponentMeta| (c.id, c.name@, c.language@, c.document_range))
}

/// Reading files between components depends on their names and document ranges alone.
proof fn lemma_files_result_views(files: Seq<(Seq<char>, Seq<char>)>, s1: ComponentMeta, t1: ComponentMeta,
    s2: ComponentMeta, t2: ComponentMeta, names: Seq<Seq<char>>, strict: bool)
    requires
        s1.name@ == s2.name@,
        s1.document_range == s2.document_range,
        t1.name@ == t2.name@,
        t1.document_range == t2.document_range,
    ensures
        files_result(files, s1, t1, names, strict) == files_result(files, s2, t2, names, strict),
    decreases files.len(),
{
    assert(doc_map(s1, names) == doc_map(s2, names));
    assert(doc_map(t1, names) == doc_map(t2, names));
    if files.len() > 0 {
        lemma_files_result_views(files.drop_last(), s1, t1, s2, t2, names, strict);
    }
}

/// Reading alignments depends on the components' names and document ranges alone.
proof fn lemma_alignments_result_views(als: Seq<(String, AlignmentConfig)>, cs: Seq<ComponentMeta>, ds: Seq<ComponentMeta>,
    names: Seq<Seq<char>>, files: Seq<Seq<(Seq<char>, Seq<char>)>>, strict: bool, n: nat)
    requires
        component_views(cs) == component_views(ds),
    ensures
        alignments_result(als, cs, names, files, strict, n) == alignments_result(als, ds, names, files, strict, n),
    decreases n,
{
    assert(cs.len() == component_views(cs).len());
    assert(component_names(cs) =~= component_names(ds)) by {
        assert forall|k: int| 0 <= k < cs.len() implies component_names(cs)[k] == component_names(ds)[k] by {
            assert(component_views(cs)[k] == component_views(ds)[k]);
        }
    }
    if n > 0 {
        lemma_alignments_result_views(als, cs, ds, names, files, strict, (n - 1) as nat);
        let cfg = als[n - 1].1;
        let si = crate::forward::first_index_of(component_names(cs), cfg.source@);
        let ti = crate::forward::first_index_of(component_names(cs), cfg.target@);
        if 0 <= si < cs.len() && 0 <= ti < cs.len() {
            assert(component_views(cs)[si] == component_views(ds)[si]);
            assert(component_views(cs)[ti] == component_views(ds)[ti]);
            lemma_files_result_views(files[n - 1], cs[si], cs[ti], ds[si], ds[ti], names, strict);
        }
        if si >= 0 {
            crate::forward::lemma_first_index_bounded(component_names(cs), cfg.source@);
        }
        if ti >= 0 {
            crate::forward::lemma_first_index_bounded(component_names(cs), cfg.target@);
        }
    }
}

/// The components built from given sinks and names are fixed by them.
proof fn lemma_components_built_unique(cs: Seq<ComponentMeta>, m: Manifest, order: Seq<Seq<char>>, sinks: Seq<IndexSink>)
    requires
        components_built(cs, m, order, sinks),
    ensures
        forall|ds: Seq<ComponentMeta>| components_built(ds, m, order, sinks) ==> component_views(ds) == component_views(cs),
{
    assert forall|ds: Seq<ComponentMeta>| components_built(ds, m, order, sinks) implies component_views(ds) == component_views(cs) by {
        assert(component_views(ds) =~= component_views(cs));
    }
}

} // verus!
