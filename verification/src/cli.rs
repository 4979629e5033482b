//! What the command line computes on a built corpus: layer and document names given loosely,
//! the query text that restricts a search to components and documents, the warnings about
//! document names shared across components, the vocabulary of a layer within a selection of
//! documents, and the document and component listings.
use vstd::prelude::*;
use roaring::RoaringBitmap;
use crate::bitmap::{bitmap_insert_range, bitmap_is_disjoint, bitmap_new, bitmap_set};
use crate::chars::slice_chars;
use crate::corpus::{ComponentMeta, Corpus};
use crate::handlers::alignment::component_spec;
use crate::handlers::corpus::{document_component, document_component_spec, is_first_component};
use crate::input::{file_name, file_name_chars, last_dot, last_dot_index};
use crate::order::{sort_strings, sorted_text, str_views};
use crate::span::Span;
use crate::text::{concat, decimal_digits, str_eq, string_from_chars, string_views, u64_to_decimal};

verus! {

/// The layer the command line means by `name`: `pos` stands for `upos`.
pub open spec fn cli_layer_name(name: Seq<char>) -> Seq<char> {
    if name == "pos"@ { "upos"@ } else { name }
}

/// The layer the command line means by `name`.
pub fn resolve_cli_layer_name(name: &str) -> (r: &str)
    ensures
        r@ == cli_layer_name(name@),
{
    if str_eq(name, "pos") { "upos" } else { name }
}

/// The stem of a path's file name: the name up to its last `.`, or the whole name when it has
/// no `.` after its first character.
pub open spec fn file_stem(path: Seq<char>) -> Option<Seq<char>> {
    match file_name(path) {
        Some(n) => {
            let k = last_dot(n);
            if k <= 0 { Some(n) } else { Some(n.subrange(0, k)) }
        },
        None => None,
    }
}

/// The stem of a path's file name.
pub fn path_file_stem(path: &str) -> (r: Option<String>)
    ensures
        match file_stem(path@) {
            Some(s) => r matches Some(v) && v@ == s,
            None => r is None,
        },
{
    let name = match file_name_chars(path) {
        Some(n) => n,
        None => return None,
    };
    match last_dot_index(name.as_slice()) {
        Some(d) => {
            if d > 0 {
                let stem = slice_chars(name.as_slice(), 0, d);
                Some(string_from_chars(stem.as_slice()))
            } else {
                Some(string_from_chars(name.as_slice()))
            }
        },
        None => Some(string_from_chars(name.as_slice())),
    }
}

/// The parts with `sep` between each two.
pub open spec fn joined(parts: Seq<Seq<char>>, sep: Seq<char>) -> Seq<char>
    decreases parts.len(),
{
    if parts.len() == 0 {
        Seq::empty()
    } else if parts.len() == 1 {
        parts[0]
    } else {
        joined(parts.drop_last(), sep) + sep + parts.last()
    }
}

/// The strings with `sep` between each two.
pub fn join_strings(parts: &[String], sep: &str) -> (r: String)
    ensures
        r@ == joined(string_views(parts@), sep@),
{
    let ghost ps = string_views(parts@);
    let empty: Vec<char> = Vec::new();
    let mut r = string_from_chars(empty.as_slice());
    let mut i: usize = 0;
    while i < parts.len()
        invariant
            0 <= i <= parts@.len(),
            ps == string_views(parts@),
            r@ == joined(ps.subrange(0, i as int), sep@),
        decreases parts@.len() - i,
    {
        if i > 0 {
            r = concat(r.as_str(), sep);
        }
        r = concat(r.as_str(), parts[i].as_str());
        proof {
            let s = ps.subrange(0, i + 1);
            assert(s.drop_last() =~= ps.subrange(0, i as int));
            assert(s.last() == parts@[i as int]@);
            if i == 0 {
                assert(joined(ps.subrange(0, 0), sep@) =~= Seq::<char>::empty());
                assert(r@ =~= joined(s, sep@));
            }
        }
        i = i + 1;
    }
    proof { assert(ps.subrange(0, i as int) =~= ps); }
    r
}

/// The text between double quotes.
pub open spec fn quoted(s: Seq<char>) -> Seq<char> {
    seq!['"'] + s + seq!['"']
}

/// Each text between double quotes.
pub open spec fn quoted_all(v: Seq<Seq<char>>) -> Seq<Seq<char>> {
    v.map_values(|s: Seq<char>| quoted(s))
}

/// Each string between double quotes.
fn quote_all(v: &[String]) -> (r: Vec<String>)
    ensures
        string_views(r@) == quoted_all(string_views(v@)),
{
    let mut r: Vec<String> = Vec::new();
    let mut i: usize = 0;
    while i < v.len()
        invariant
            0 <= i <= v@.len(),
            string_views(r@) == quoted_all(string_views(v@).subrange(0, i as int)),
        decreases v@.len() - i,
    {
        let a = concat("\"", v[i].as_str());
        let q = concat(a.as_str(), "\"");
        proof {
            reveal_strlit("\"");
            assert("\""@ =~= seq!['"']);
            assert(q@ =~= quoted(v@[i as int]@));
        }
        let ghost before = string_views(r@);
        r.push(q);
        i = i + 1;
        proof {
            assert(string_views(r@) =~= before.push(q@));
            assert(quoted_all(string_views(v@).subrange(0, i as int))
                =~= quoted_all(string_views(v@).subrange(0, i - 1)).push(quoted(v@[i - 1]@)));
        }
    }
    proof { assert(string_views(v@).subrange(0, i as int) =~= string_views(v@)); }
    r
}

/// The names, in order, whose file stem is `input`.
pub open spec fn stem_matches(input: Seq<char>, names: Seq<Seq<char>>) -> Seq<Seq<char>>
    decreases names.len(),
{
    if names.len() == 0 {
        Seq::empty()
    } else {
        let rest = stem_matches(input, names.drop_last());
        if file_stem(names.last()) == Some(input) { rest.push(names.last()) } else { rest }
    }
}

/// The document a name given on the command line stands for: the document of that exact
/// name, else the one document whose file stem it is; the message of the failure when no
/// document, or more than one, has that stem.
pub open spec fn resolved_document(input: Seq<char>, names: Seq<Seq<char>>) -> Result<Seq<char>, Seq<char>> {
    if names.contains(input) {
        Ok(input)
    } else {
        let m = stem_matches(input, names);
        if m.len() == 1 {
            Ok(m[0])
        } else if m.len() == 0 {
            Err("Document '"@ + input + "' not found. Use `montre docs` to list available documents."@)
        } else {
            Err("Document '"@ + input + "' is ambiguous, matches: "@ + joined(m, ", "@))
        }
    }
}

/// The document `input` stands for among `doc_names`, as `resolved_document` says.
pub fn resolve_document_name(input: &str, doc_names: &[String]) -> (r: Result<String, String>)
    ensures
        match resolved_document(input@, string_views(doc_names@)) {
            Ok(s) => r matches Ok(v) && v@ == s,
            Err(m) => r matches Err(e) && e@ == m,
        },
{
    let ghost names = string_views(doc_names@);
    let mut i: usize = 0;
    while i < doc_names.len()
        invariant
            0 <= i <= doc_names@.len(),
            names == string_views(doc_names@),
            forall|k: int| 0 <= k < i ==> names[k] != input@,
        decreases doc_names@.len() - i,
    {
        if str_eq(doc_names[i].as_str(), input) {
            proof { assert(names[i as int] == input@); }
            return Ok(input.to_owned());
        }
        i = i + 1;
    }
    proof {
        if names.contains(input@) {
            let k = choose|k: int| 0 <= k < names.len() && names[k] == input@;
            assert(names[k] != input@);
        }
    }
    let mut matches: Vec<String> = Vec::new();
    let mut j: usize = 0;
    while j < doc_names.len()
        invariant
            0 <= j <= doc_names@.len(),
            names == string_views(doc_names@),
            string_views(matches@) == stem_matches(input@, names.subrange(0, j as int)),
        decreases doc_names@.len() - j,
    {
        let stem = path_file_stem(doc_names[j].as_str());
        let ghost before = string_views(matches@);
        proof {
            let s = names.subrange(0, j + 1);
            assert(s.drop_last() =~= names.subrange(0, j as int));
            assert(s.last() == doc_names@[j as int]@);
        }
        match stem {
            Some(st) => {
                if str_eq(st.as_str(), input) {
                    matches.push(doc_names[j].clone());
                    proof { assert(string_views(matches@) =~= before.push(doc_names@[j as int]@)); }
                }
            },
            None => {},
        }
        j = j + 1;
    }
    proof { assert(names.subrange(0, j as int) =~= names); }
    if matches.len() == 1 {
        return Ok(matches[0].clone());
    }
    let head = concat("Document '", input);
    if matches.len() == 0 {
        return Err(concat(head.as_str(), "' not found. Use `montre docs` to list available documents."));
    }
    let a = concat(head.as_str(), "' is ambiguous, matches: ");
    let listed = join_strings(matches.as_slice(), ", ");
    Err(concat(a.as_str(), listed.as_str()))
}

/// The names resolved in turn; the failure of the first that cannot be.
pub open spec fn resolve_all(inputs: Seq<Seq<char>>, names: Seq<Seq<char>>) -> Result<Seq<Seq<char>>, Seq<char>>
    decreases inputs.len(),
{
    if inputs.len() == 0 {
        Ok(Seq::empty())
    } else {
        match resolve_all(inputs.drop_last(), names) {
            Err(e) => Err(e),
            Ok(rs) => match resolved_document(inputs.last(), names) {
                Ok(x) => Ok(rs.push(x)),
                Err(e) => Err(e),
            },
        }
    }
}

/// Once one name fails, resolving a longer list fails with the same message.
proof fn lemma_resolve_all_fails(inputs: Seq<Seq<char>>, names: Seq<Seq<char>>, i: int, m: Seq<char>)
    requires
        0 <= i < inputs.len(),
        resolve_all(inputs.subrange(0, i), names) is Ok,
        resolved_document(inputs[i], names) == Err::<Seq<char>, Seq<char>>(m),
    ensures
        resolve_all(inputs, names) == Err::<Seq<Seq<char>>, Seq<char>>(m),
    decreases inputs.len(),
{
    if i + 1 == inputs.len() {
        assert(inputs.drop_last() =~= inputs.subrange(0, i));
    } else {
        let d = inputs.drop_last();
        assert(d.subrange(0, i) =~= inputs.subrange(0, i));
        assert(d[i] == inputs[i]);
        lemma_resolve_all_fails(d, names, i, m);
    }
}

/// Each name of `inputs` resolved among `doc_names`, as `resolve_all` says.
pub fn resolve_document_names(inputs: &[String], doc_names: &[String]) -> (r: Result<Vec<String>, String>)
    ensures
        match resolve_all(string_views(inputs@), string_views(doc_names@)) {
            Ok(rs) => r matches Ok(v) && string_views(v@) == rs,
            Err(m) => r matches Err(e) && e@ == m,
        },
{
    let ghost ins = string_views(inputs@);
    let ghost names = string_views(doc_names@);
    let mut out: Vec<String> = Vec::new();
    let mut i: usize = 0;
    proof {
        assert(ins.subrange(0, 0) =~= Seq::<Seq<char>>::empty());
        assert(string_views(out@) =~= Seq::<Seq<char>>::empty());
    }
    while i < inputs.len()
        invariant
            0 <= i <= inputs@.len(),
            ins == string_views(inputs@),
            names == string_views(doc_names@),
            resolve_all(ins.subrange(0, i as int), names) == Ok::<Seq<Seq<char>>, Seq<char>>(string_views(out@)),
        decreases inputs@.len() - i,
    {
        proof {
            let s = ins.subrange(0, i + 1);
            assert(s.drop_last() =~= ins.subrange(0, i as int));
            assert(s.last() == inputs@[i as int]@);
        }
        match resolve_document_name(inputs[i].as_str(), doc_names) {
            Ok(d) => {
                let ghost before = string_views(out@);
                out.push(d);
                proof { assert(string_views(out@) =~= before.push(out@.last()@)); }
            },
            Err(e) => {
                proof { lemma_resolve_all_fails(ins, names, i as int, e@); }
                return Err(e);
            },
        }
        i = i + 1;
    }
    proof { assert(ins.subrange(0, i as int) =~= ins); }
    Ok(out)
}

/// The query text restricted to the named components (when the corpus has components) and to
/// the named documents, resolved; the failure of the first document name that cannot be.
pub open spec fn full_query(query: Seq<char>, components: Seq<Seq<char>>, documents: Seq<Seq<char>>, c: &Corpus)
    -> Result<Seq<char>, Seq<char>> {
    let q = if components.len() > 0 && c.meta_model().components@.len() > 0 {
        query + " within component:"@ + joined(quoted_all(components), ","@)
    } else {
        query
    };
    if documents.len() == 0 {
        Ok(q)
    } else {
        match resolve_all(documents, c.document_name_list()) {
            Err(e) => Err(e),
            Ok(rs) => Ok(q + " within doc:"@ + joined(quoted_all(rs), ","@)),
        }
    }
}

/// The query text of a search restricted to components and documents, as `full_query` says.
pub fn build_full_query(query: &str, components: &[String], documents: &[String], corpus: &Corpus)
    -> (r: Result<String, String>)
    ensures
        match full_query(query@, string_views(components@), string_views(documents@), corpus) {
            Ok(q) => r matches Ok(v) && v@ == q,
            Err(m) => r matches Err(e) && e@ == m,
        },
{
    let mut full = query.to_owned();
    if components.len() > 0 && corpus.components().len() > 0 {
        let quoted = quote_all(components);
        let listed = join_strings(quoted.as_slice(), ",");
        let a = concat(full.as_str(), " within component:");
        full = concat(a.as_str(), listed.as_str());
    }
    if documents.len() > 0 {
        let resolved = match resolve_document_names(documents, corpus.document_names()) {
            Ok(v) => v,
            Err(e) => return Err(e),
        };
        let quoted = quote_all(resolved.as_slice());
        let listed = join_strings(quoted.as_slice(), ",");
        let a = concat(full.as_str(), " within doc:");
        full = concat(a.as_str(), listed.as_str());
    }
    Ok(full)
}

/// The name of the first component whose range holds document `idx`, if one does.
pub open spec fn component_name_of(c: &Corpus, idx: usize) -> Option<Seq<char>> {
    let comps = c.meta_model().components@;
    if exists|j: int| is_first_component(comps, idx, j) {
        Some(comps[choose|j: int| is_first_component(comps, idx, j)].name@)
    } else {
        None
    }
}

/// The name of the first component whose range holds document `idx`, if one does.
fn component_name(corpus: &Corpus, idx: usize) -> (r: Option<String>)
    ensures
        match component_name_of(corpus, idx) {
            Some(n) => r matches Some(s) && s@ == n,
            None => r is None,
        },
{
    match corpus.component_for_document(idx) {
        Some(c) => {
            proof {
                let comps = corpus.meta_model().components@;
                let i = choose|i: int| {
                    &&& 0 <= i < comps.len()
                    &&& *c == #[trigger] comps[i]
                    &&& c.document_range.0 <= idx < c.document_range.1
                    &&& forall|j: int| 0 <= j < i ==> !((#[trigger] comps[j]).document_range.0 <= idx < comps[j].document_range.1)
                };
                assert(is_first_component(comps, idx, i));
                let k = choose|j: int| is_first_component(comps, idx, j);
                assert(k == i) by {
                    if k < i { assert(!(comps[k].document_range.0 <= idx < comps[k].document_range.1)); }
                    if i < k { assert(!(comps[i].document_range.0 <= idx < comps[i].document_range.1)); }
                }
            }
            Some(c.name.clone())
        },
        None => {
            proof {
                let comps = corpus.meta_model().components@;
                if exists|j: int| is_first_component(comps, idx, j) {
                    let k = choose|j: int| is_first_component(comps, idx, j);
                    assert(!(comps[k].document_range.0 <= idx < comps[k].document_range.1));
                }
            }
            None
        },
    }
}

/// The name of the component document `doc_index` belongs to; the corpus name when it belongs
/// to none.
pub fn component_name_for_document(corpus: &Corpus, doc_index: usize) -> (r: String)
    ensures
        r@ == document_component_spec(corpus, doc_index),
{
    document_component(corpus, doc_index)
}

/// The indices, in order, of the documents among the first `upto` named `name`.
pub open spec fn indices_named(names: Seq<Seq<char>>, name: Seq<char>, upto: int) -> Seq<usize>
    decreases upto,
{
    if upto <= 0 {
        Seq::empty()
    } else {
        let rest = indices_named(names, name, upto - 1);
        if names[upto - 1] == name { rest.push((upto - 1) as usize) } else { rest }
    }
}

/// The component names of the documents `idxs` that belong to one, in order.
pub open spec fn component_names_of(c: &Corpus, idxs: Seq<usize>) -> Seq<Seq<char>>
    decreases idxs.len(),
{
    if idxs.len() == 0 {
        Seq::empty()
    } else {
        let rest = component_names_of(c, idxs.drop_last());
        match component_name_of(c, idxs.last()) {
            Some(n) => rest.push(n),
            None => rest,
        }
    }
}

/// The warning about a document name that several documents share.
pub open spec fn collision_warning(c: &Corpus, name: Seq<char>) -> Seq<char> {
    let idxs = indices_named(c.document_name_list(), name, c.document_name_list().len() as int);
    "warning: document name '"@ + name + "' matches "@ + decimal_digits(idxs.len()) + " documents across components "@
        + joined(component_names_of(c, idxs), ", "@) + "; use --component to disambiguate"@
}

/// The warnings, in order, for the names of `resolved` that several documents share; none
/// when a component filter is given or the corpus has a single component.
pub open spec fn collision_warnings(c: &Corpus, resolved: Seq<Seq<char>>, no_component_filter: bool) -> Seq<Seq<char>>
    decreases resolved.len(),
{
    if !no_component_filter || c.meta_model().components@.len() <= 1 || resolved.len() == 0 {
        Seq::empty()
    } else {
        let rest = collision_warnings(c, resolved.drop_last(), no_component_filter);
        let name = resolved.last();
        if indices_named(c.document_name_list(), name, c.document_name_list().len() as int).len() > 1 {
            rest.push(collision_warning(c, name))
        } else {
            rest
        }
    }
}

/// The indices of the documents named `name`, with the names of their components.
fn documents_named(corpus: &Corpus, name: &str) -> (r: (Vec<usize>, Vec<String>))
    ensures
        r.0@ == indices_named(corpus.document_name_list(), name@, corpus.document_name_list().len() as int),
        string_views(r.1@) == component_names_of(corpus, r.0@),
{
    let names = corpus.document_names();
    let ghost ns = corpus.document_name_list();
    let mut idxs: Vec<usize> = Vec::new();
    let mut comps: Vec<String> = Vec::new();
    let mut i: usize = 0;
    while i < names.len()
        invariant
            0 <= i <= names@.len(),
            names@ == corpus.meta_model().document_names@,
            ns == corpus.document_name_list(),
            ns == string_views(names@),
            idxs@ == indices_named(ns, name@, i as int),
            string_views(comps@) == component_names_of(corpus, idxs@),
        decreases names@.len() - i,
    {
        if str_eq(names[i].as_str(), name) {
            let ghost before = idxs@;
            idxs.push(i);
            proof { assert(idxs@.drop_last() =~= before); }
            match component_name(corpus, i) {
                Some(cn) => {
                    let ghost cb = string_views(comps@);
                    comps.push(cn);
                    proof { assert(string_views(comps@) =~= cb.push(comps@.last()@)); }
                },
                None => {},
            }
        }
        i = i + 1;
    }
    (idxs, comps)
}

/// The warnings about document names that several documents share, as `collision_warnings`
/// says.
pub fn document_collision_warnings(resolved: &[String], corpus: &Corpus, no_component_filter: bool) -> (r: Vec<String>)
    ensures
        string_views(r@) == collision_warnings(corpus, string_views(resolved@), no_component_filter),
{
    let ghost rs = string_views(resolved@);
    let mut out: Vec<String> = Vec::new();
    if !no_component_filter || corpus.components().len() <= 1 {
        proof {
            if rs.len() > 0 {
                assert(collision_warnings(corpus, rs, no_component_filter) =~= Seq::<Seq<char>>::empty());
            }
        }
        return out;
    }
    let mut i: usize = 0;
    while i < resolved.len()
        invariant
            0 <= i <= resolved@.len(),
            rs == string_views(resolved@),
            no_component_filter,
            corpus.meta_model().components@.len() > 1,
            string_views(out@) == collision_warnings(corpus, rs.subrange(0, i as int), no_component_filter),
        decreases resolved@.len() - i,
    {
        proof {
            let s = rs.subrange(0, i + 1);
            assert(s.drop_last() =~= rs.subrange(0, i as int));
            assert(s.last() == resolved@[i as int]@);
        }
        let (idxs, comps) = documents_named(corpus, resolved[i].as_str());
        if idxs.len() > 1 {
            let a = concat("warning: document name '", resolved[i].as_str());
            let b = concat(a.as_str(), "' matches ");
            let c = concat(b.as_str(), u64_to_decimal(idxs.len() as u64).as_str());
            let d = concat(c.as_str(), " documents across components ");
            let listed = join_strings(comps.as_slice(), ", ");
            let e = concat(d.as_str(), listed.as_str());
            let w = concat(e.as_str(), "; use --component to disambiguate");
            let ghost before = string_views(out@);
            out.push(w);
            proof { assert(string_views(out@) =~= before.push(w@)); }
        }
        i = i + 1;
    }
    proof { assert(rs.subrange(0, i as int) =~= rs); }
    out
}


/// The document range of the first component named `name`, if one is.
fn component_range(corpus: &Corpus, name: &str) -> (r: Option<(usize, usize)>)
    ensures
        r == (match component_spec(corpus, name@) {
            Some(c) => Some(c.document_range),
            None => None,
        }),
{
    let ghost comps = corpus.meta_model().components@;
    let ghost comp_names = comps.map_values(|c: ComponentMeta| c.name@);
    match corpus.component(name) {
        Some(c) => {
            proof {
                let i = choose|i: int| {
                    &&& 0 <= i < comps.len()
                    &&& *c == #[trigger] comps[i]
                    &&& c.name@ == name@
                    &&& forall|j: int| 0 <= j < i ==> comps[j].name@ != name@
                };
                assert(comp_names[i] == name@);
                assert forall|j: int| 0 <= j < i implies comp_names[j] != name@ by {
                    assert(comp_names[j] == comps[j].name@);
                }
                crate::forward::lemma_first_index_of(comp_names, name@, i);
            }
            Some(c.document_range)
        },
        None => {
            proof {
                assert forall|j: int| 0 <= j < comp_names.len() implies comp_names[j] != name@ by {
                    assert(comp_names[j] == comps[j].name@);
                }
                crate::forward::lemma_first_index_absent(comp_names, name@);
            }
            None
        },
    }
}

/// The indices from `a` up to, not including, `b`.
pub open spec fn range_seq(a: usize, b: usize) -> Seq<int> {
    Seq::new(if b > a { (b - a) as nat } else { 0 }, |k: int| a + k)
}

/// The documents of the named components, range after range; the failure for the first name
/// that no component has.
pub open spec fn component_documents(c: &Corpus, names: Seq<Seq<char>>) -> Result<Seq<int>, Seq<char>>
    decreases names.len(),
{
    if names.len() == 0 {
        Ok(Seq::empty())
    } else {
        match component_documents(c, names.drop_last()) {
            Err(e) => Err(e),
            Ok(ds) => match component_spec(c, names.last()) {
                Some(comp) => Ok(ds + range_seq(comp.document_range.0, comp.document_range.1)),
                None => Err("Component '"@ + names.last() + "' not found"@),
            },
        }
    }
}

/// The documents of `ds`, in order, whose name is among `rs`.
pub open spec fn keep_named(ds: Seq<int>, names: Seq<Seq<char>>, rs: Seq<Seq<char>>) -> Seq<int>
    decreases ds.len(),
{
    if ds.len() == 0 {
        Seq::empty()
    } else {
        let rest = keep_named(ds.drop_last(), names, rs);
        let d = ds.last();
        if 0 <= d < names.len() && rs.contains(names[d]) { rest.push(d) } else { rest }
    }
}

/// The documents a selection by components and document names picks: with component names,
/// the documents of those components; with document names, only the documents so named (all
/// of them when no component is named); no selection when neither is given. The failure of
/// the first component, then the first document name, that cannot be found.
pub open spec fn selected_documents(c: &Corpus, components: Seq<Seq<char>>, documents: Seq<Seq<char>>)
    -> Result<Option<Seq<int>>, Seq<char>> {
    let names = c.document_name_list();
    let by_components: Result<Option<Seq<int>>, Seq<char>> = if components.len() > 0 {
        match component_documents(c, components) {
            Ok(ds) => Ok(Some(ds)),
            Err(e) => Err(e),
        }
    } else {
        Ok(None)
    };
    match by_components {
        Err(e) => Err(e),
        Ok(chosen) => if documents.len() == 0 {
            Ok(chosen)
        } else {
            match resolve_all(documents, names) {
                Err(e) => Err(e),
                Ok(rs) => Ok(Some(match chosen {
                    Some(ds) => keep_named(ds, names, rs),
                    None => keep_named(range_seq(0, names.len() as usize), names, rs),
                })),
            }
        },
    }
}

/// The positions of the documents `ds`: the document spans they index, each cut to 32 bits.
pub open spec fn document_mask(spans: Seq<Span>, ds: Seq<int>) -> Set<u32> {
    Set::new(|p: u32| exists|k: int| 0 <= k < ds.len() && 0 <= #[trigger] ds[k] < spans.len()
        && (spans[ds[k]].start as u32) <= p < (spans[ds[k]].end as u32))
}

/// The document spans of the corpus; none when it has no document layer.
pub open spec fn document_spans_or_empty(c: &Corpus) -> Seq<Span> {
    match c.document_spans() {
        Some(s) => s,
        None => Seq::empty(),
    }
}

/// The documents of the named components, as `component_documents` says.
fn documents_of_components(corpus: &Corpus, components: &[String]) -> (r: Result<Vec<usize>, String>)
    ensures
        match component_documents(corpus, string_views(components@)) {
            Ok(ds) => r matches Ok(v) && v@.map_values(|d: usize| d as int) == ds,
            Err(m) => r matches Err(e) && e@ == m,
        },
{
    let ghost cs = string_views(components@);
    let mut out: Vec<usize> = Vec::new();
    let mut i: usize = 0;
    proof {
        assert(cs.subrange(0, 0) =~= Seq::<Seq<char>>::empty());
        assert(out@.map_values(|d: usize| d as int) =~= Seq::<int>::empty());
    }
    while i < components.len()
        invariant
            0 <= i <= components@.len(),
            cs == string_views(components@),
            component_documents(corpus, cs.subrange(0, i as int)) == Ok::<Seq<int>, Seq<char>>(out@.map_values(|d: usize| d as int)),
        decreases components@.len() - i,
    {
        proof {
            let s = cs.subrange(0, i + 1);
            assert(s.drop_last() =~= cs.subrange(0, i as int));
            assert(s.last() == components@[i as int]@);
        }
        match component_range(corpus, components[i].as_str()) {
            Some((a, b)) => {
                let ghost before = out@.map_values(|d: usize| d as int);
                let mut d = a;
                while d < b
                    invariant
                        a <= d <= b || (b <= a && d == a),
                        out@.map_values(|x: usize| x as int) == before + range_seq(a, d),
                    decreases b - d,
                {
                    let ghost prev = out@.map_values(|x: usize| x as int);
                    out.push(d);
                    proof {
                        assert(out@.map_values(|x: usize| x as int) =~= prev.push(d as int));
                        assert(range_seq(a, (d + 1) as usize) =~= range_seq(a, d).push(d as int));
                    }
                    d = d + 1;
                }
                proof {
                    if b <= a {
                        assert(range_seq(a, b) =~= Seq::<int>::empty());
                        assert(range_seq(a, d) =~= Seq::<int>::empty());
                    }
                    assert(range_seq(a, d) =~= range_seq(a, b));
                }
            },
            None => {
                let m = concat("Component '", components[i].as_str());
                proof {
                    let j = i as int;
                    assert(component_documents(corpus, cs.subrange(0, j + 1)) is Err);
                    lemma_component_documents_fail(corpus, cs, j);
                }
                return Err(concat(m.as_str(), "' not found"));
            },
        }
        i = i + 1;
    }
    proof { assert(cs.subrange(0, i as int) =~= cs); }
    Ok(out)
}

/// Once a component name is not found, a longer list fails with the same message.
proof fn lemma_component_documents_fail(c: &Corpus, names: Seq<Seq<char>>, i: int)
    requires
        0 <= i < names.len(),
        component_documents(c, names.subrange(0, i + 1)) is Err,
    ensures
        component_documents(c, names) == component_documents(c, names.subrange(0, i + 1)),
    decreases names.len(),
{
    if i + 1 == names.len() {
        assert(names.subrange(0, i + 1) =~= names);
    } else {
        let d = names.drop_last();
        assert(d.subrange(0, i + 1) =~= names.subrange(0, i + 1));
        lemma_component_documents_fail(c, d, i);
    }
}

/// The documents of `ds`, in order, whose name is among `rs`.
fn keep_named_exec(ds: &Vec<usize>, names: &[String], rs: &[String]) -> (r: Vec<usize>)
    ensures
        r@.map_values(|d: usize| d as int) == keep_named(ds@.map_values(|d: usize| d as int), string_views(names@), string_views(rs@)),
{
    let ghost dv = ds@.map_values(|d: usize| d as int);
    let ghost ns = string_views(names@);
    let ghost rv = string_views(rs@);
    let mut out: Vec<usize> = Vec::new();
    let mut i: usize = 0;
    proof {
        assert(dv.subrange(0, 0) =~= Seq::<int>::empty());
        assert(out@.map_values(|d: usize| d as int) =~= Seq::<int>::empty());
    }
    while i < ds.len()
        invariant
            0 <= i <= ds@.len(),
            dv == ds@.map_values(|d: usize| d as int),
            ns == string_views(names@),
            rv == string_views(rs@),
            out@.map_values(|d: usize| d as int) == keep_named(dv.subrange(0, i as int), ns, rv),
        decreases ds@.len() - i,
    {
        let d = ds[i];
        proof {
            let s = dv.subrange(0, i + 1);
            assert(s.drop_last() =~= dv.subrange(0, i as int));
            assert(s.last() == d as int);
        }
        if d < names.len() {
            let mut found = false;
            let mut k: usize = 0;
            while k < rs.len()
                invariant
                    0 <= k <= rs@.len(),
                    d < names@.len(),
                    rv == string_views(rs@),
                    ns == string_views(names@),
                    found == exists|j: int| 0 <= j < k && rv[j] == ns[d as int],
                decreases rs@.len() - k,
            {
                let eq = str_eq(rs[k].as_str(), names[d].as_str());
                proof {
                    assert(rv[k as int] == rs@[k as int]@);
                    assert(ns[d as int] == names@[d as int]@);
                }
                if eq {
                    found = true;
                }
                k = k + 1;
            }
            if found {
                let ghost before = out@.map_values(|x: usize| x as int);
                out.push(d);
                proof { assert(out@.map_values(|x: usize| x as int) =~= before.push(d as int)); }
            }
            proof {
                if rv.contains(ns[d as int]) {
                    let j = choose|j: int| 0 <= j < rv.len() && rv[j] == ns[d as int];
                    assert(found);
                }
            }
        }
        i = i + 1;
    }
    proof { assert(dv.subrange(0, i as int) =~= dv); }
    out
}

/// The positions of the documents a selection picks, as `selected_documents` and
/// `document_mask` say; no mask when nothing is selected by name.
pub fn build_position_mask(corpus: &Corpus, components: &[String], documents: &[String])
    -> (r: Result<Option<RoaringBitmap>, String>)
    ensures
        match selected_documents(corpus, string_views(components@), string_views(documents@)) {
            Err(m) => r matches Err(e) && e@ == m,
            Ok(None) => r matches Ok(None),
            Ok(Some(ds)) => r matches Ok(Some(b)) && bitmap_set(b) == document_mask(document_spans_or_empty(corpus), ds),
        },
{
    let empty: &[Span] = &[];
    let doc_spans: &[Span] = match corpus.spans().spans("document") {
        Some(s) => s,
        None => empty,
    };
    proof {
        if corpus.document_spans() is None {
            assert(doc_spans@ =~= document_spans_or_empty(corpus));
        }
    }
    let names = corpus.document_names();
    let mut chosen: Option<Vec<usize>> = None;
    if components.len() > 0 {
        match documents_of_components(corpus, components) {
            Ok(v) => { chosen = Some(v); },
            Err(e) => return Err(e),
        }
    }
    if documents.len() > 0 {
        let resolved = match resolve_document_names(documents, names) {
            Ok(v) => v,
            Err(e) => return Err(e),
        };
        let base: Vec<usize> = match chosen {
            Some(v) => v,
            None => {
                let mut all: Vec<usize> = Vec::new();
                let mut d: usize = 0;
                while d < names.len()
                    invariant
                        0 <= d <= names@.len(),
                        all@.map_values(|x: usize| x as int) == range_seq(0, d),
                    decreases names@.len() - d,
                {
                    let ghost prev = all@.map_values(|x: usize| x as int);
                    all.push(d);
                    proof {
                        assert(all@.map_values(|x: usize| x as int) =~= prev.push(d as int));
                        assert(range_seq(0, (d + 1) as usize) =~= range_seq(0, d).push(d as int));
                    }
                    d = d + 1;
                }
                all
            },
        };
        chosen = Some(keep_named_exec(&base, names, resolved.as_slice()));
    }
    let ds = match chosen {
        Some(v) => v,
        None => return Ok(None),
    };
    let ghost spans = doc_spans@;
    let ghost dv = ds@.map_values(|d: usize| d as int);
    let mut mask = bitmap_new();
    let mut i: usize = 0;
    proof { assert(bitmap_set(mask) =~= document_mask(spans, dv.subrange(0, 0))); }
    while i < ds.len()
        invariant
            0 <= i <= ds@.len(),
            spans == doc_spans@,
            dv == ds@.map_values(|d: usize| d as int),
            bitmap_set(mask) == document_mask(spans, dv.subrange(0, i as int)),
        decreases ds@.len() - i,
    {
        let d = ds[i];
        let ghost old_set = bitmap_set(mask);
        if d < doc_spans.len() {
            let sp = doc_spans[d];
            bitmap_insert_range(&mut mask, sp.start as u32, sp.end as u32);
        }
        proof {
            let pre = dv.subrange(0, i as int);
            let post = dv.subrange(0, i + 1);
            assert forall|p: u32| bitmap_set(mask).contains(p) <==> document_mask(spans, post).contains(p) by {
                if bitmap_set(mask).contains(p) {
                    if old_set.contains(p) {
                        let k = choose|k: int| 0 <= k < pre.len() && 0 <= #[trigger] pre[k] < spans.len()
                            && (spans[pre[k]].start as u32) <= p < (spans[pre[k]].end as u32);
                        assert(post[k] == pre[k]);
                    } else {
                        assert(post[i as int] == d as int);
                    }
                }
                if document_mask(spans, post).contains(p) {
                    let k = choose|k: int| 0 <= k < post.len() && 0 <= #[trigger] post[k] < spans.len()
                        && (spans[post[k]].start as u32) <= p < (spans[post[k]].end as u32);
                    if k < i {
                        assert(pre[k] == post[k]);
                    } else {
                        assert(post[k] == d as int);
                    }
                }
            }
            assert(bitmap_set(mask) =~= document_mask(spans, post));
        }
        i = i + 1;
    }
    proof {
        assert(dv.subrange(0, i as int) =~= dv);
        let names_v = corpus.document_name_list();
        assert(names_v == string_views(names@));
    }
    Ok(Some(mask))
}


/// Whether a vocabulary listing keeps value `v` of `layer`: always without a mask, else when
/// one of its positions lies in the mask.
pub open spec fn vocab_kept(c: &Corpus, layer: Seq<char>, mask: Option<Set<u32>>, v: Seq<char>) -> bool {
    match mask {
        None => true,
        Some(m) => match c.inverted_store().postings(layer, v) {
            Some(p) => !p.disjoint(m),
            None => false,
        },
    }
}

/// The mask of a selection of documents; none without a selection.
pub open spec fn selection_mask(c: &Corpus, sel: Option<Seq<int>>) -> Option<Set<u32>> {
    match sel {
        None => None,
        Some(ds) => Some(document_mask(document_spans_or_empty(c), ds)),
    }
}

/// The distinct values of a layer (`pos` standing for `upos`), in text order, restricted to
/// those found in the selected documents when components or documents are named. Refused when
/// the layer is not indexed, or a component or document name cannot be found.
pub fn vocab_values(corpus: &Corpus, layer: &str, components: &[String], documents: &[String])
    -> (r: Result<Vec<String>, String>)
    ensures
        ({
            let l = cli_layer_name(layer@);
            match corpus.inverted_store().value_set(l) {
                None => r matches Err(e) && e@ == "Layer '"@ + l + "' not found"@,
                Some(vs) => match selected_documents(corpus, string_views(components@), string_views(documents@)) {
                    Err(m) => r matches Err(e) && e@ == m,
                    Ok(sel) => r matches Ok(v) && sorted_text(str_views(v@)) && str_views(v@).no_duplicates()
                        && forall|x: Seq<char>| #[trigger] str_views(v@).contains(x)
                            <==> vs.contains(x) && vocab_kept(corpus, l, selection_mask(corpus, sel), x),
                },
            }
        }),
{
    let l = resolve_cli_layer_name(layer);
    let inv = corpus.inverted();
    let values = match inv.values(l) {
        Some(v) => v,
        None => {
            let m = concat("Layer '", l);
            return Err(concat(m.as_str(), "' not found"));
        },
    };
    let ghost vs = inv.value_set(l@).unwrap();
    let ghost vv = values@.map_values(|s: &str| s@);
    let mask = match build_position_mask(corpus, components, documents) {
        Ok(m) => m,
        Err(e) => return Err(e),
    };
    let ghost msk: Option<Set<u32>> = match &mask {
        Some(b) => Some(bitmap_set(*b)),
        None => None,
    };
    let mut kept: Vec<String> = Vec::new();
    let mut i: usize = 0;
    while i < values.len()
        invariant
            0 <= i <= values@.len(),
            inv.wf(),
            *inv == corpus.inverted_store(),
            vv == values@.map_values(|s: &str| s@),
            vv.no_duplicates(),
            msk == (match &mask {
                Some(b) => Some(bitmap_set(*b)),
                None => None::<Set<u32>>,
            }),
            str_views(kept@).no_duplicates(),
            forall|x: Seq<char>| #[trigger] str_views(kept@).contains(x)
                <==> (exists|j: int| 0 <= j < i && vv[j] == x) && vocab_kept(corpus, l@, msk, x),
        decreases values@.len() - i,
    {
        let v = values[i];
        proof { assert(vv[i as int] == v@); }
        let keep = match &mask {
            None => true,
            Some(m) => match inv.get(l, v) {
                Some(b) => !bitmap_is_disjoint(b, m),
                None => false,
            },
        };
        proof { assert(keep == vocab_kept(corpus, l@, msk, v@)); }
        let ghost before = str_views(kept@);
        proof {
            assert(!before.contains(v@)) by {
                if before.contains(v@) {
                    let j = choose|j: int| 0 <= j < i && vv[j] == v@;
                    assert(vv[j] == vv[i as int]);
                }
            }
        }
        if keep {
            kept.push(v.to_owned());
            proof { assert(str_views(kept@) =~= before.push(v@)); }
        }
        proof {
            let now = str_views(kept@);
            assert forall|x: Seq<char>| #[trigger] now.contains(x)
                <==> (exists|j: int| 0 <= j < i + 1 && vv[j] == x) && vocab_kept(corpus, l@, msk, x) by {
                if x == v@ {
                    assert(vv[i as int] == x);
                    if keep {
                        assert(now[before.len() as int] == x);
                    }
                } else {
                    if now.contains(x) {
                        let k = choose|k: int| 0 <= k < now.len() && now[k] == x;
                        if keep {
                            assert(k < before.len());
                            assert(before[k] == x);
                        }
                        assert(before.contains(x));
                    }
                    if before.contains(x) {
                        let k = choose|k: int| 0 <= k < before.len() && before[k] == x;
                        if keep {
                            assert(now[k] == x);
                        }
                        assert(now.contains(x));
                    }
                    if exists|j: int| 0 <= j < i + 1 && vv[j] == x {
                        let j = choose|j: int| 0 <= j < i + 1 && vv[j] == x;
                        assert(j != i);
                        assert(exists|j2: int| 0 <= j2 < i && vv[j2] == x);
                    }
                    if exists|j: int| 0 <= j < i && vv[j] == x {
                        let j = choose|j: int| 0 <= j < i && vv[j] == x;
                        assert(0 <= j < i + 1 && vv[j] == x);
                    }
                }
            }
        }
        i = i + 1;
    }
    let ghost pre_sort = str_views(kept@);
    let sorted = sort_strings(kept);
    proof {
        broadcast use vstd::seq_lib::to_multiset_contains;
        pre_sort.lemma_multiset_has_no_duplicates();
        str_views(sorted@).lemma_multiset_has_no_duplicates_conv();
        assert forall|x: Seq<char>| #[trigger] str_views(sorted@).contains(x)
            <==> vs.contains(x) && vocab_kept(corpus, l@, msk, x) by {
            assert(str_views(sorted@).contains(x) <==> str_views(sorted@).to_multiset().count(x) > 0);
            assert(pre_sort.contains(x) <==> pre_sort.to_multiset().count(x) > 0);
            if vs.contains(x) {
                assert(vv.to_set().contains(x));
            }
        }
    }
    Ok(sorted)
}


/// The names of the components, in order.
pub open spec fn component_names_list(c: &Corpus) -> Seq<Seq<char>> {
    c.meta_model().components@.map_values(|m: ComponentMeta| m.name@)
}

/// The documents a listing shows: all of them, or those of the first component named
/// `component`; the message when no component has that name.
pub open spec fn docs_selection(c: &Corpus, component: Option<Seq<char>>) -> Result<Option<(usize, usize)>, Seq<char>> {
    match component {
        None => Ok(None),
        Some(n) => match component_spec(c, n) {
            Some(comp) => Ok(Some(comp.document_range)),
            None => Err("Component '"@ + n + "' not found. Available: "@ + joined(component_names_list(c), ", "@)),
        },
    }
}

/// The names of the components, in order.
fn component_name_list(corpus: &Corpus) -> (r: Vec<String>)
    ensures
        string_views(r@) == component_names_list(corpus),
{
    let comps = corpus.components();
    let mut r: Vec<String> = Vec::new();
    let mut i: usize = 0;
    while i < comps.len()
        invariant
            0 <= i <= comps@.len(),
            comps@ == corpus.meta_model().components@,
            string_views(r@) == component_names_list(corpus).subrange(0, i as int),
        decreases comps@.len() - i,
    {
        let ghost before = string_views(r@);
        r.push(comps[i].name.clone());
        i = i + 1;
        proof {
            assert(string_views(r@) =~= before.push(comps@[i - 1].name@));
            assert(component_names_list(corpus).subrange(0, i as int)
                =~= component_names_list(corpus).subrange(0, i - 1).push(comps@[i - 1].name@));
        }
    }
    proof { assert(component_names_list(corpus).subrange(0, i as int) =~= component_names_list(corpus)); }
    r
}

/// The document listing: for each document shown, in order, its component's name (the corpus
/// name when it has none) and its own name. Refused when `component` names no component.
pub fn docs_listing(corpus: &Corpus, component: Option<&str>) -> (r: Result<Vec<(String, String)>, String>)
    ensures
        match docs_selection(corpus, match component { Some(n) => Some(n@), None => None }) {
            Err(m) => r matches Err(e) && e@ == m,
            Ok(range) => r matches Ok(rows) && {
                let shown = crate::handlers::corpus::listed_documents(corpus.document_name_list().len(), range);
                &&& rows@.len() == shown.len()
                &&& forall|k: int| 0 <= k < rows@.len() ==> (#[trigger] rows@[k]).0@ == document_component_spec(corpus, shown[k] as usize)
                    && rows@[k].1@ == corpus.document_name_list()[shown[k]]
            },
        },
{
    let range: Option<(usize, usize)> = match component {
        None => None,
        Some(name) => match component_range(corpus, name) {
            Some(rg) => Some(rg),
            None => {
                let available = component_name_list(corpus);
                let listed = join_strings(available.as_slice(), ", ");
                let a = concat("Component '", name);
                let b = concat(a.as_str(), "' not found. Available: ");
                return Err(concat(b.as_str(), listed.as_str()));
            },
        },
    };
    let names = corpus.document_names();
    let ghost ns = corpus.document_name_list();
    let mut rows: Vec<(String, String)> = Vec::new();
    let mut idx: usize = 0;
    while idx < names.len()
        invariant
            0 <= idx <= names@.len(),
            names@ == corpus.meta_model().document_names@,
            ns == corpus.document_name_list(),
            ns.len() == names@.len(),
            rows@.len() == crate::handlers::corpus::listed_documents(idx as nat, range).len(),
            forall|k: int| 0 <= k < rows@.len() ==> (#[trigger] rows@[k]).0@
                == document_component_spec(corpus, crate::handlers::corpus::listed_documents(idx as nat, range)[k] as usize)
                && rows@[k].1@ == ns[crate::handlers::corpus::listed_documents(idx as nat, range)[k]],
        decreases names@.len() - idx,
    {
        let wanted = match range {
            Some((a, b)) => a <= idx && idx < b,
            None => true,
        };
        let ghost before = crate::handlers::corpus::listed_documents(idx as nat, range);
        if wanted {
            let cn = component_name_for_document(corpus, idx);
            rows.push((cn, names[idx].clone()));
            proof {
                assert(crate::handlers::corpus::listed_documents((idx + 1) as nat, range) == before.push(idx as int));
                assert(ns[idx as int] == names@[idx as int]@);
            }
        } else {
            proof {
                assert(crate::handlers::corpus::listed_documents((idx + 1) as nat, range) == before);
            }
        }
        idx = idx + 1;
    }
    Ok(rows)
}

/// The component listing: each component's name and language, or, for a corpus without
/// components, its own name and an empty language.
pub fn component_rows(corpus: &Corpus) -> (r: Vec<(String, String)>)
    ensures
        corpus.meta_model().components@.len() == 0 ==> r@.len() == 1 && r@[0].0@ == corpus.meta_model().name@
            && r@[0].1@ == Seq::<char>::empty(),
        corpus.meta_model().components@.len() > 0 ==> r@.len() == corpus.meta_model().components@.len()
            && forall|k: int| 0 <= k < r@.len() ==> (#[trigger] r@[k]).0@ == corpus.meta_model().components@[k].name@
                && r@[k].1@ == corpus.meta_model().components@[k].language@,
{
    let comps = corpus.components();
    let mut r: Vec<(String, String)> = Vec::new();
    if comps.len() == 0 {
        let empty: Vec<char> = Vec::new();
        r.push((corpus.name().to_owned(), string_from_chars(empty.as_slice())));
        return r;
    }
    let mut i: usize = 0;
    while i < comps.len()
        invariant
            0 <= i <= comps@.len(),
            comps@ == corpus.meta_model().components@,
            r@.len() == i,
            forall|k: int| 0 <= k < i ==> (#[trigger] r@[k]).0@ == comps@[k].name@ && r@[k].1@ == comps@[k].language@,
        decreases comps@.len() - i,
    {
        r.push((comps[i].name.clone(), comps[i].language.clone()));
        i = i + 1;
    }
    r
}

} // verus!
