//! Lexicographic order on text, and sorting lists of strings by it.
use vstd::prelude::*;
use vstd::multiset::Multiset;

verus! {

/// `a` comes strictly before `b`, character by character.
pub open spec fn seq_lt(a: Seq<char>, b: Seq<char>) -> bool
    decreases a.len(),
{
    if a.len() == 0 {
        b.len() > 0
    } else if b.len() == 0 {
        false
    } else if a[0] == b[0] {
        seq_lt(a.drop_first(), b.drop_first())
    } else {
        a[0] < b[0]
    }
}

/// No text comes before itself.
pub proof fn lemma_lt_irreflexive(a: Seq<char>)
    ensures
        !seq_lt(a, a),
    decreases a.len(),
{
    if a.len() > 0 {
        lemma_lt_irreflexive(a.drop_first());
    }
}

/// Of two different texts, exactly one comes first.
pub proof fn lemma_lt_total(a: Seq<char>, b: Seq<char>)
    ensures
        a == b || seq_lt(a, b) || seq_lt(b, a),
        !(seq_lt(a, b) && seq_lt(b, a)),
    decreases a.len(),
{
    if a.len() > 0 && b.len() > 0 {
        lemma_lt_total(a.drop_first(), b.drop_first());
        if a[0] == b[0] && a.drop_first() == b.drop_first() {
            assert(a =~= seq![a[0]] + a.drop_first());
            assert(b =~= seq![b[0]] + b.drop_first());
        }
    } else if a.len() == 0 && b.len() == 0 {
        assert(a =~= b);
    }
}

/// The order is transitive.
pub proof fn lemma_lt_transitive(a: Seq<char>, b: Seq<char>, c: Seq<char>)
    requires
        seq_lt(a, b),
        seq_lt(b, c),
    ensures
        seq_lt(a, c),
    decreases a.len(),
{
    if a.len() > 0 && b.len() > 0 && c.len() > 0 {
        if a[0] == b[0] && b[0] == c[0] {
            lemma_lt_transitive(a.drop_first(), b.drop_first(), c.drop_first());
        }
    }
}

/// Whether `a` comes strictly before `b`.
pub fn chars_lt(a: &[char], b: &[char]) -> (r: bool)
    ensures
        r == seq_lt(a@, b@),
{
    let mut i: usize = 0;
    proof {
        assert(a@.subrange(0, a@.len() as int) =~= a@);
        assert(b@.subrange(0, b@.len() as int) =~= b@);
    }
    while i < a.len() && i < b.len() && a[i] == b[i]
        invariant
            0 <= i <= a@.len(),
            i <= b@.len(),
            seq_lt(a@, b@) == seq_lt(a@.subrange(i as int, a@.len() as int), b@.subrange(i as int, b@.len() as int)),
        decreases a@.len() - i,
    {
        proof {
            let sa = a@.subrange(i as int, a@.len() as int);
            let sb = b@.subrange(i as int, b@.len() as int);
            assert(sa.drop_first() =~= a@.subrange(i + 1, a@.len() as int));
            assert(sb.drop_first() =~= b@.subrange(i + 1, b@.len() as int));
            assert(sa[0] == a@[i as int] && sb[0] == b@[i as int]);
        }
        i = i + 1;
    }
    proof {
        assert(a@.subrange(0, a@.len() as int) =~= a@);
        assert(b@.subrange(0, b@.len() as int) =~= b@);
    }
    let ghost sa = a@.subrange(i as int, a@.len() as int);
    let ghost sb = b@.subrange(i as int, b@.len() as int);
    if i == a.len() {
        i < b.len()
    } else if i == b.len() {
        false
    } else {
        proof { assert(sa[0] == a@[i as int] && sb[0] == b@[i as int]); }
        a[i] < b[i]
    }
}

/// Whether `a` comes strictly before `b`.
pub fn str_lt(a: &str, b: &str) -> (r: bool)
    ensures
        r == seq_lt(a@, b@),
{
    let ca = crate::text::chars_of(a);
    let cb = crate::text::chars_of(b);
    chars_lt(ca.as_slice(), cb.as_slice())
}

/// The texts are in non-decreasing order.
pub open spec fn sorted_text(v: Seq<Seq<char>>) -> bool {
    forall|i: int, j: int| 0 <= i < j < v.len() ==> !seq_lt(v[j], v[i])
}

/// The views of a list of strings.
pub open spec fn str_views(v: Seq<String>) -> Seq<Seq<char>> {
    v.map_values(|s: String| s@)
}

/// The strings of `v` in non-decreasing order, equal ones kept in their order.
pub fn sort_strings(v: Vec<String>) -> (r: Vec<String>)
    ensures
        str_views(r@).to_multiset() == str_views(v@).to_multiset(),
        sorted_text(str_views(r@)),
        r@.len() == v@.len(),
{
    let mut r: Vec<String> = Vec::new();
    let mut rest = v;
    let ghost orig = str_views(rest@);
    let mut taken: usize = 0;
    proof {
        assert(str_views(r@) =~= Seq::<Seq<char>>::empty());
        assert(str_views(r@).len() == 0);
        str_views(r@).to_multiset_ensures();
        vstd::multiset::lemma_multiset_empty_len(str_views(r@).to_multiset());
        assert(str_views(r@).to_multiset() =~= Multiset::empty());
        assert(Multiset::<Seq<char>>::empty().add(orig.to_multiset()) =~= orig.to_multiset());
    }
    while rest.len() > 0
        invariant
            str_views(r@).to_multiset().add(str_views(rest@).to_multiset()) == orig.to_multiset(),
            sorted_text(str_views(r@)),
            r@.len() + rest@.len() == orig.len(),
        decreases rest@.len(),
    {
        let ghost rv = str_views(rest@);
        let x = rest.pop().unwrap();
        proof {
            assert(str_views(rest@) =~= rv.drop_last());
            assert(rv =~= rv.drop_last().push(x@));
            rv.drop_last().to_multiset_ensures();
        }
        let ghost before = str_views(r@);
        let mut pos: usize = r.len();
        while pos > 0 && str_lt(x.as_str(), r[pos - 1].as_str())
            invariant
                0 <= pos <= r@.len(),
                before == str_views(r@),
                forall|k: int| pos <= k < r@.len() ==> seq_lt(x@, r@[k]@),
            decreases pos,
        {
            pos = pos - 1;
        }
        let ghost bv = str_views(r@);
        r.insert(pos, x);
        proof {
            assert(str_views(r@) =~= bv.insert(pos as int, x@));
            bv.insert_ensures(pos as int, x@);
            assert(str_views(r@).to_multiset() =~= bv.to_multiset().insert(x@)) by {
                lemma_insert_multiset(bv, pos as int, x@);
            }
            assert forall|i: int, j: int| 0 <= i < j < str_views(r@).len() implies !seq_lt(str_views(r@)[j], str_views(r@)[i]) by {
                let s = str_views(r@);
                if j < pos {
                    assert(s[i] == bv[i] && s[j] == bv[j]);
                } else if j == pos {
                    assert(s[j] == x@);
                    if i < pos {
                        assert(s[i] == bv[i]);
                        if pos > 0 {
                            // x does not come before bv[pos - 1]
                            assert(!seq_lt(x@, bv[pos - 1]));
                            if i < pos - 1 {
                                if seq_lt(x@, bv[i]) {
                                    lemma_lt_total(bv[i], bv[pos - 1]);
                                    if seq_lt(bv[i], bv[pos - 1]) {
                                        lemma_lt_transitive(x@, bv[i], bv[pos - 1]);
                                    } else if bv[i] == bv[pos - 1] {
                                    }
                                }
                            }
                        }
                    }
                } else {
                    assert(s[j] == bv[j - 1]);
                    if i < pos {
                        assert(s[i] == bv[i]);
                    } else if i == pos {
                        assert(s[i] == x@);
                        assert(seq_lt(x@, bv[j - 1]));
                        lemma_lt_total(x@, bv[j - 1]);
                    } else {
                        assert(s[i] == bv[i - 1]);
                    }
                }
            }
        }
    }
    proof {
        assert(str_views(rest@) =~= Seq::<Seq<char>>::empty());
        assert(str_views(rest@).len() == 0);
        assert(str_views(rest@).to_multiset() =~= Multiset::empty());
        assert(str_views(r@).to_multiset().add(Multiset::empty()) =~= str_views(r@).to_multiset());
    }
    r
}

/// Inserting into a sequence adds one to the count of the inserted element.
proof fn lemma_insert_multiset(s: Seq<Seq<char>>, i: int, x: Seq<char>)
    requires
        0 <= i <= s.len(),
    ensures
        s.insert(i, x).to_multiset() == s.to_multiset().insert(x),
{
    let t = s.insert(i, x);
    assert(t =~= s.take(i) + seq![x] + s.skip(i));
    assert(s =~= s.take(i) + s.skip(i));
    vstd::seq_lib::lemma_multiset_commutative(s.take(i) + seq![x], s.skip(i));
    vstd::seq_lib::lemma_multiset_commutative(s.take(i), seq![x]);
    vstd::seq_lib::lemma_multiset_commutative(s.take(i), s.skip(i));
    assert(seq![x].to_multiset() =~= Multiset::singleton(x)) by {
        seq![x].to_multiset_ensures();
        assert(seq![x] =~= Seq::<Seq<char>>::empty().push(x));
        Seq::<Seq<char>>::empty().to_multiset_ensures();
    }
    assert(s.to_multiset().insert(x) =~= s.to_multiset().add(Multiset::singleton(x)));
}

} // verus!
