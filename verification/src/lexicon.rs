//! Per-layer term dictionaries: each distinct term of a layer gets a dense id.
use vstd::prelude::*;
use crate::text::{string_views, find_name, to_owned_string};

verus! {

/// The terms of a layer, or none when the layer is absent.
pub open spec fn terms_or_empty(m: Map<Seq<char>, Seq<Seq<char>>>, layer: Seq<char>) -> Seq<Seq<char>> {
    if m.dom().contains(layer) { m[layer] } else { Seq::empty() }
}

/// The lexicon after term `value` of `layer` is added: the value gets an id unless it has one
/// or the layer already has `u32::MAX` terms.
pub open spec fn lexicon_step(m: Map<Seq<char>, Seq<Seq<char>>>, layer: Seq<char>, value: Seq<char>) -> Map<Seq<char>, Seq<Seq<char>>> {
    let terms = terms_or_empty(m, layer);
    if terms.len() >= u32::MAX {
        m
    } else if terms.contains(value) {
        m.insert(layer, terms)
    } else {
        m.insert(layer, terms.push(value))
    }
}

/// The lexicon after the terms of `layer` are added in order.
pub open spec fn lexicon_terms(m: Map<Seq<char>, Seq<Seq<char>>>, layer: Seq<char>, terms: Seq<Seq<char>>) -> Map<Seq<char>, Seq<Seq<char>>>
    decreases terms.len(),
{
    if terms.len() == 0 {
        m
    } else {
        lexicon_step(lexicon_terms(m, layer, terms.drop_last()), layer, terms.last())
    }
}

/// The lexicon after the terms of each of the layers `names` of `other` are added, layer by
/// layer in order.
pub open spec fn lexicon_merged(m: Map<Seq<char>, Seq<Seq<char>>>, names: Seq<Seq<char>>, other: Map<Seq<char>, Seq<Seq<char>>>)
    -> Map<Seq<char>, Seq<Seq<char>>>
    decreases names.len(),
{
    if names.len() == 0 {
        m
    } else {
        lexicon_terms(lexicon_merged(m, names.drop_last(), other), names.last(), other[names.last()])
    }
}

/// A term dictionary per layer; the id of a term is its index in the layer's term list.
pub struct InMemoryLexicon {
    names: Vec<String>,
    terms: Vec<Vec<String>>,
}

impl View for InMemoryLexicon {
    type V = Map<Seq<char>, Seq<Seq<char>>>;

    closed spec fn view(&self) -> Map<Seq<char>, Seq<Seq<char>>> {
        Map::new(
            |k: Seq<char>| string_views(self.names@).contains(k),
            |k: Seq<char>| string_views(self.terms@[string_views(self.names@).index_of(k)]@),
        )
    }
}

impl InMemoryLexicon {
    /// One term list per layer, no layer twice, no term twice within a layer.
    pub closed spec fn wf(&self) -> bool {
        &&& self.names@.len() == self.terms@.len()
        &&& string_views(self.names@).no_duplicates()
        &&& forall|i: int| 0 <= i < self.terms@.len() ==> string_views(#[trigger] self.terms@[i]@).no_duplicates()
            && self.terms@[i]@.len() <= u32::MAX
    }

    /// Every layer's term list is free of repeats.
    pub proof fn lemma_terms_distinct(&self, layer: Seq<char>)
        requires
            self.wf(),
            self@.dom().contains(layer),
        ensures
            self@[layer].no_duplicates(),
    {
        let j = string_views(self.names@).index_of(layer);
        assert(string_views(self.terms@[j]@).no_duplicates());
    }

    proof fn lemma_view_at(&self, i: int)
        requires
            self.wf(),
            0 <= i < self.names@.len(),
        ensures
            self@.dom().contains(self.names@[i]@),
            self@[self.names@[i]@] == string_views(self.terms@[i]@),
    {
        let k = self.names@[i]@;
        assert(string_views(self.names@)[i] == k);
        let j = string_views(self.names@).index_of(k);
        assert(string_views(self.names@)[j] == k);
    }

    pub fn new() -> (r: Self)
        ensures
            r.wf(),
            r@ == Map::<Seq<char>, Seq<Seq<char>>>::empty(),
    {
        let r = InMemoryLexicon { names: Vec::new(), terms: Vec::new() };
        assert(r@ =~= Map::<Seq<char>, Seq<Seq<char>>>::empty());
        r
    }

    fn layer_index(&self, name: &str) -> (r: Option<usize>)
        requires
            self.wf(),
        ensures
            r is None <==> !self@.dom().contains(name@),
            r matches Some(i) ==> i < self.names@.len() && self.names@[i as int]@ == name@
                && self@[name@] == string_views(self.terms@[i as int]@),
    {
        let r = find_name(&self.names, name);
        proof {
            if let Some(i) = r {
                self.lemma_view_at(i as int);
            }
        }
        r
    }

    /// The id of `term` in `layer`, adding the term (and the layer) when it is new.
    pub fn add_term(&mut self, layer: &str, term: &str) -> (id: u32)
        requires
            old(self).wf(),
            terms_or_empty(old(self)@, layer@).len() < u32::MAX,
        ensures
            final(self).wf(),
            terms_or_empty(old(self)@, layer@).contains(term@) ==> final(self)@ == old(self)@.insert(layer@, terms_or_empty(old(self)@, layer@)),
            !terms_or_empty(old(self)@, layer@).contains(term@) ==> final(self)@ == old(self)@.insert(layer@, terms_or_empty(old(self)@, layer@).push(term@)),
            id < final(self)@[layer@].len(),
            final(self)@[layer@][id as int] == term@,
            terms_or_empty(old(self)@, layer@).contains(term@) ==> id == terms_or_empty(old(self)@, layer@).index_of(term@),
            !terms_or_empty(old(self)@, layer@).contains(term@) ==> id == terms_or_empty(old(self)@, layer@).len(),
    {
        let t: usize = match self.layer_index(layer) {
            Some(i) => i,
            None => {
                self.names.push(to_owned_string(layer));
                self.terms.push(Vec::new());
                proof {
                    let n = old(self).names@.len() as int;
                    assert(string_views(self.names@) =~= string_views(old(self).names@).push(layer@));
                    assert(string_views(self.terms@[n]@) =~= Seq::<Seq<char>>::empty());
                }
                self.names.len() - 1
            },
        };
        let ghost mid = *self;
        proof {
            mid.lemma_view_at(t as int);
            assert forall|k: Seq<char>| #[trigger] string_views(mid.names@).contains(k) <==> (string_views(old(self).names@).contains(k) || k == layer@) by {
                if string_views(mid.names@).contains(k) && k != layer@ {
                    let j = choose|j: int| 0 <= j < string_views(mid.names@).len() && string_views(mid.names@)[j] == k;
                    assert(string_views(old(self).names@)[j] == k);
                }
                if string_views(old(self).names@).contains(k) {
                    let j = choose|j: int| 0 <= j < string_views(old(self).names@).len() && string_views(old(self).names@)[j] == k;
                    assert(string_views(mid.names@)[j] == k);
                }
                assert(string_views(mid.names@)[t as int] == layer@);
            }
            assert forall|k: Seq<char>| #[trigger] mid@.dom().contains(k) && k != layer@ implies mid@[k] == old(self)@[k] by {
                let j = string_views(mid.names@).index_of(k);
                mid.lemma_view_at(j);
                old(self).lemma_view_at(j);
            }
            assert(mid@[layer@] == terms_or_empty(old(self)@, layer@));
        }
        match find_name(&self.terms[t], term) {
            Some(i) => {
                proof {
                    assert(string_views(mid.terms@[t as int]@)[i as int] == term@);
                    assert(mid@ =~= old(self)@.insert(layer@, terms_or_empty(old(self)@, layer@)));
                    let ts = terms_or_empty(old(self)@, layer@);
                    assert(ts == string_views(mid.terms@[t as int]@));
                    assert(ts.contains(term@));
                    let j = ts.index_of(term@);
                    assert(ts[j] == term@);
                    assert(string_views(mid.terms@[t as int]@).no_duplicates());
                }
                i as u32
            },
            None => {
                let id = self.terms[t].len();
                self.terms[t].push(to_owned_string(term));
                proof {
                    assert(string_views(self.terms@[t as int]@) =~= string_views(mid.terms@[t as int]@).push(term@));
                    assert(string_views(self.names@) == string_views(mid.names@));
                    self.lemma_view_at(t as int);
                    assert forall|k: Seq<char>| #[trigger] self@.dom().contains(k) && k != layer@ implies self@[k] == mid@[k] by {
                        let j = string_views(self.names@).index_of(k);
                        self.lemma_view_at(j);
                        mid.lemma_view_at(j);
                    }
                    assert(self@ =~= old(self)@.insert(layer@, terms_or_empty(old(self)@, layer@).push(term@)));
                }
                id as u32
            },
        }
    }

    /// The id of `term` in `layer`.
    pub fn term_to_id(&self, layer: &str, term: &str) -> (r: Option<u32>)
        requires
            self.wf(),
        ensures
            r is Some <==> terms_or_empty(self@, layer@).contains(term@),
            r matches Some(id) ==> id < self@[layer@].len() && self@[layer@][id as int] == term@,
    {
        let t = match self.layer_index(layer) {
            Some(t) => t,
            None => return None,
        };
        match find_name(&self.terms[t], term) {
            Some(i) => {
                proof { assert(string_views(self.terms@[t as int]@)[i as int] == term@); }
                Some(i as u32)
            },
            None => None,
        }
    }

    /// The term with id `id` in `layer`.
    pub fn id_to_term(&self, layer: &str, id: u32) -> (r: Option<&str>)
        requires
            self.wf(),
        ensures
            r is Some <==> (self@.dom().contains(layer@) && id < self@[layer@].len()),
            r matches Some(s) ==> s@ == self@[layer@][id as int],
    {
        let t = match self.layer_index(layer) {
            Some(t) => t,
            None => return None,
        };
        if (id as usize) < self.terms[t].len() {
            Some(self.terms[t][id as usize].as_str())
        } else {
            None
        }
    }

    /// The layer names, in the order they were first used.
    pub closed spec fn layer_list(&self) -> Seq<Seq<char>> {
        string_views(self.names@)
    }

    /// Adds the terms of `other`, layer by layer in its order and term by term in id order.
    pub fn merge_from(&mut self, other: Self)
        requires
            old(self).wf(),
            other.wf(),
        ensures
            final(self).wf(),
            final(self)@ == lexicon_merged(old(self)@, other.layer_list(), other@),
    {
        let ghost names = other.layer_list();
        let mut i: usize = 0;
        proof { assert(names.subrange(0, 0) =~= Seq::<Seq<char>>::empty()); }
        while i < other.names.len()
            invariant
                0 <= i <= other.names@.len(),
                names == other.layer_list(),
                other.wf(),
                self.wf(),
                self@ == lexicon_merged(old(self)@, names.subrange(0, i as int), other@),
            decreases other.names@.len() - i,
        {
            let layer = &other.names[i];
            proof { other.lemma_view_at(i as int); }
            let ghost terms = string_views(other.terms@[i as int]@);
            let ghost base = self@;
            let mut j: usize = 0;
            proof { assert(terms.subrange(0, 0) =~= Seq::<Seq<char>>::empty()); }
            while j < other.terms[i].len()
                invariant
                    0 <= j <= other.terms@[i as int]@.len(),
                    i < other.terms@.len(),
                    terms == string_views(other.terms@[i as int]@),
                    self.wf(),
                    self@ == lexicon_terms(base, layer@, terms.subrange(0, j as int)),
                decreases other.terms@[i as int]@.len() - j,
            {
                proof {
                    assert(terms.subrange(0, j + 1).drop_last() =~= terms.subrange(0, j as int));
                    assert(terms.subrange(0, j + 1).last() == other.terms@[i as int]@[j as int]@);
                }
                if self.term_count(layer.as_str()) < 0xffff_ffffusize {
                    let _ = self.add_term(layer.as_str(), other.terms[i][j].as_str());
                }
                j = j + 1;
            }
            proof {
                assert(terms.subrange(0, j as int) =~= terms);
                assert(names.subrange(0, i + 1).drop_last() =~= names.subrange(0, i as int));
                assert(names.subrange(0, i + 1).last() == layer@);
                assert(names[i as int] == layer@);
            }
            i = i + 1;
        }
        proof { assert(names.subrange(0, i as int) =~= names); }
    }

    /// Number of distinct terms in `layer`.
    pub fn term_count(&self, layer: &str) -> (n: usize)
        requires
            self.wf(),
        ensures
            n == terms_or_empty(self@, layer@).len(),
    {
        match self.layer_index(layer) {
            Some(t) => self.terms[t].len(),
            None => 0,
        }
    }
}

impl Default for InMemoryLexicon {
    fn default() -> (r: Self)
        ensures
            r.wf(),
            r@ == Map::<Seq<char>, Seq<Seq<char>>>::empty(),
    {
        Self::new()
    }
}

} // verus!
