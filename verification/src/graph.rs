//! Directed graphs given as edge lists: paths, reachability, cycles.
use vstd::prelude::*;

verus! {

/// The edge list holds `a -> b`.
pub open spec fn has_edge(edges: Seq<(u32, u32)>, a: u32, b: u32) -> bool {
    exists|i: int| 0 <= i < edges.len() && edges[i] == (a, b)
}

/// Step `i` of `p` follows an edge.
pub open spec fn step_ok(edges: Seq<(u32, u32)>, p: Seq<u32>, i: int) -> bool {
    has_edge(edges, p[i], p[i + 1])
}

/// `p` is a nonempty walk along edges.
pub open spec fn is_path(edges: Seq<(u32, u32)>, p: Seq<u32>) -> bool {
    &&& p.len() >= 1
    &&& forall|i: int| 0 <= i < p.len() - 1 ==> #[trigger] step_ok(edges, p, i)
}

/// Some walk leads from `a` to `b` (every node reaches itself).
pub open spec fn reachable(edges: Seq<(u32, u32)>, a: u32, b: u32) -> bool {
    exists|p: Seq<u32>| #[trigger] is_path(edges, p) && p[0] == a && p.last() == b
}

/// Some walk of at least one edge returns to where it started.
pub open spec fn has_cycle(edges: Seq<(u32, u32)>) -> bool {
    exists|p: Seq<u32>| #[trigger] is_path(edges, p) && p.len() >= 2 && p[0] == p.last()
}

/// Every node of `seen` that starts an edge also has that edge's end in `seen`.
pub open spec fn closed_under(edges: Seq<(u32, u32)>, seen: Seq<u32>) -> bool {
    forall|i: int| 0 <= i < edges.len() && seen.contains(#[trigger] edges[i].0) ==> seen.contains(edges[i].1)
}

/// Extending a walk by an edge from its last node gives a walk.
pub proof fn lemma_path_push(edges: Seq<(u32, u32)>, p: Seq<u32>, b: u32)
    requires
        is_path(edges, p),
        has_edge(edges, p.last(), b),
    ensures
        is_path(edges, p.push(b)),
        p.push(b)[0] == p[0],
        p.push(b).last() == b,
{
    let q = p.push(b);
    assert forall|i: int| 0 <= i < q.len() - 1 implies #[trigger] step_ok(edges, q, i) by {
        if i < p.len() - 1 {
            assert(step_ok(edges, p, i));
        }
    }
}

/// The single-node walk.
pub proof fn lemma_path_single(edges: Seq<(u32, u32)>, a: u32)
    ensures
        is_path(edges, seq![a]),
        reachable(edges, a, a),
{
    assert(is_path(edges, seq![a]));
}

/// A set of nodes closed under the edges holds the end of every walk that starts in it.
pub proof fn lemma_closed_contains_path(edges: Seq<(u32, u32)>, seen: Seq<u32>, p: Seq<u32>)
    requires
        closed_under(edges, seen),
        is_path(edges, p),
        seen.contains(p[0]),
    ensures
        seen.contains(p.last()),
    decreases p.len(),
{
    if p.len() > 1 {
        let q = p.drop_last();
        assert forall|i: int| 0 <= i < q.len() - 1 implies #[trigger] step_ok(edges, q, i) by {
            assert(step_ok(edges, p, i));
        }
        lemma_closed_contains_path(edges, seen, q);
        assert(step_ok(edges, p, p.len() - 2));
        let k = choose|k: int| 0 <= k < edges.len() && edges[k] == (p[p.len() - 2], p[p.len() - 1]);
        assert(seen.contains(edges[k].0));
    }
}

/// A duplicate-free sequence whose elements all come from `cands` is no longer than `cands`.
pub proof fn lemma_distinct_within(seen: Seq<u32>, cands: Seq<u32>)
    requires
        seen.no_duplicates(),
        forall|k: int| 0 <= k < seen.len() ==> cands.contains(#[trigger] seen[k]),
    ensures
        seen.len() <= cands.len(),
{
    seen.unique_seq_to_set();
    cands.lemma_cardinality_of_set();
    assert(seen.to_set().subset_of(cands.to_set())) by {
        assert forall|x: u32| seen.to_set().contains(x) implies cands.to_set().contains(x) by {
            let k = choose|k: int| 0 <= k < seen.len() && seen[k] == x;
            assert(cands.contains(seen[k]));
        }
    }
    vstd::set_lib::lemma_len_subset(seen.to_set(), cands.to_set());
}

fn seq_contains(v: &Vec<u32>, x: u32) -> (r: bool)
    ensures
        r == v@.contains(x),
{
    let mut i: usize = 0;
    while i < v.len()
        invariant
            0 <= i <= v@.len(),
            forall|j: int| 0 <= j < i ==> v@[j] != x,
        decreases v@.len() - i,
    {
        if v[i] == x {
            return true;
        }
        i = i + 1;
    }
    false
}

/// Whether `target` can be reached from `start` along the edges.
pub fn reaches(edges: &Vec<(u32, u32)>, start: u32, target: u32) -> (r: bool)
    ensures
        r == reachable(edges@, start, target),
{
    let ghost e = edges@;
    let ghost cands = seq![start] + e.map_values(|x: (u32, u32)| x.1);
    let mut seen: Vec<u32> = Vec::new();
    seen.push(start);
    proof {
        lemma_path_single(e, start);
        assert(cands[0] == start);
    }
    loop
        invariant_except_break
            e == edges@,
            cands == seq![start] + e.map_values(|x: (u32, u32)| x.1),
            seen@.no_duplicates(),
            seen@.len() >= 1,
            seen@[0] == start,
            forall|k: int| 0 <= k < seen@.len() ==> cands.contains(#[trigger] seen@[k]),
            forall|k: int| 0 <= k < seen@.len() ==> reachable(e, start, #[trigger] seen@[k]),
        ensures
            e == edges@,
            seen@.len() >= 1,
            seen@[0] == start,
            closed_under(e, seen@),
            forall|k: int| 0 <= k < seen@.len() ==> reachable(e, start, #[trigger] seen@[k]),
        decreases cands.len() - seen@.len(),
    {
        let ghost before = seen@;
        let mut added = false;
        let mut i: usize = 0;
        while i < edges.len()
            invariant
                e == edges@,
                cands == seq![start] + e.map_values(|x: (u32, u32)| x.1),
                0 <= i <= e.len(),
                seen@.no_duplicates(),
                seen@.len() >= before.len(),
                seen@.len() >= 1,
                seen@[0] == start,
                added ==> seen@.len() > before.len(),
                !added ==> seen@ == before,
                forall|k: int| 0 <= k < seen@.len() ==> cands.contains(#[trigger] seen@[k]),
                forall|k: int| 0 <= k < seen@.len() ==> reachable(e, start, #[trigger] seen@[k]),
                !added ==> forall|j: int| 0 <= j < i && seen@.contains(#[trigger] e[j].0) ==> seen@.contains(e[j].1),
            decreases e.len() - i,
        {
            let (a, b) = edges[i];
            if seq_contains(&seen, a) && !seq_contains(&seen, b) {
                proof {
                    let k = choose|k: int| 0 <= k < seen@.len() && seen@[k] == a;
                    assert(reachable(e, start, seen@[k]));
                    let p = choose|p: Seq<u32>| #[trigger] is_path(e, p) && p[0] == start && p.last() == a;
                    assert(has_edge(e, a, b)) by { assert(e[i as int] == (a, b)); }
                    lemma_path_push(e, p, b);
                    assert(cands[i as int + 1] == b);
                }
                let ghost old_seen = seen@;
                seen.push(b);
                proof {
                    assert forall|k: int| 0 <= k < seen@.len() implies reachable(e, start, #[trigger] seen@[k]) by {
                        if k < old_seen.len() {
                            assert(seen@[k] == old_seen[k]);
                        } else {
                            let k2 = choose|k2: int| 0 <= k2 < old_seen.len() && old_seen[k2] == a;
                            let p = choose|p: Seq<u32>| #[trigger] is_path(e, p) && p[0] == start && p.last() == a;
                            lemma_path_push(e, p, b);
                        }
                    }
                    assert forall|k: int| 0 <= k < seen@.len() implies cands.contains(#[trigger] seen@[k]) by {
                        if k < old_seen.len() {
                            assert(seen@[k] == old_seen[k]);
                        } else {
                            assert(cands[i as int + 1] == b);
                        }
                    }
                }
                added = true;
            }
            i = i + 1;
        }
        proof {
            lemma_distinct_within(seen@, cands);
        }
        if !added {
            break;
        }
    }
    let r = seq_contains(&seen, target);
    proof {
        if reachable(e, start, target) {
            let p = choose|p: Seq<u32>| #[trigger] is_path(e, p) && p[0] == start && p.last() == target;
            assert(seen@.contains(p[0])) by { assert(seen@[0] == start); }
            lemma_closed_contains_path(e, seen@, p);
        }
        if r {
            let k = choose|k: int| 0 <= k < seen@.len() && seen@[k] == target;
            assert(reachable(e, start, seen@[k]));
        }
    }
    r
}

/// Joining a walk that ends where another starts gives a walk.
pub proof fn lemma_reach_trans(edges: Seq<(u32, u32)>, a: u32, b: u32, c: u32)
    requires
        reachable(edges, a, b),
        reachable(edges, b, c),
    ensures
        reachable(edges, a, c),
{
    let p = choose|p: Seq<u32>| #[trigger] is_path(edges, p) && p[0] == a && p.last() == b;
    let q = choose|q: Seq<u32>| #[trigger] is_path(edges, q) && q[0] == b && q.last() == c;
    let r = p + q.drop_first();
    assert forall|i: int| 0 <= i < r.len() - 1 implies #[trigger] step_ok(edges, r, i) by {
        if i < p.len() - 1 {
            assert(step_ok(edges, p, i));
        } else {
            let j = i - (p.len() - 1);
            assert(step_ok(edges, q, j));
            if j == 0 {
                assert(r[i] == p.last());
            }
        }
    }
    if q.len() == 1 {
        assert(r =~= p);
    }
    assert(is_path(edges, r) && r[0] == a && r.last() == c);
}

/// A walk in the graph with the extra edge `m -> f` either uses only old edges, or leads from
/// its start to `m` and from `f` to its end along old edges.
pub proof fn lemma_path_with_extra_edge(edges: Seq<(u32, u32)>, m: u32, f: u32, q: Seq<u32>)
    requires
        is_path(edges.push((m, f)), q),
    ensures
        is_path(edges, q) || (reachable(edges, q[0], m) && reachable(edges, f, q.last())),
    decreases q.len(),
{
    let e2 = edges.push((m, f));
    if q.len() == 1 {
        assert forall|i: int| 0 <= i < q.len() - 1 implies #[trigger] step_ok(edges, q, i) by {}
    } else {
        let q1 = q.drop_last();
        assert forall|i: int| 0 <= i < q1.len() - 1 implies #[trigger] step_ok(e2, q1, i) by {
            assert(step_ok(e2, q, i));
        }
        lemma_path_with_extra_edge(edges, m, f, q1);
        let w = q1.last();
        let v = q.last();
        assert(step_ok(e2, q, q.len() - 2));
        let k = choose|k: int| 0 <= k < e2.len() && e2[k] == (w, v);
        if k < edges.len() {
            assert(has_edge(edges, w, v)) by { assert(edges[k] == (w, v)); }
            if is_path(edges, q1) {
                lemma_path_push(edges, q1, v);
                assert(q1.push(v) =~= q);
            } else {
                let p = choose|p: Seq<u32>| #[trigger] is_path(edges, p) && p[0] == f && p.last() == w;
                lemma_path_push(edges, p, v);
            }
        } else {
            assert(w == m && v == f);
            lemma_path_single(edges, f);
            if is_path(edges, q1) {
                assert(reachable(edges, q1[0], w)) by { assert(is_path(edges, q1)); }
            }
        }
    }
}

/// Adding the edge `m -> f` to a graph without cycles keeps it without cycles when `f` does not
/// reach `m` and `m` differs from `f`.
pub proof fn lemma_add_edge_keeps_acyclic(edges: Seq<(u32, u32)>, m: u32, f: u32)
    requires
        !has_cycle(edges),
        m != f,
        !reachable(edges, f, m),
    ensures
        !has_cycle(edges.push((m, f))),
{
    if has_cycle(edges.push((m, f))) {
        let p = choose|p: Seq<u32>| #[trigger] is_path(edges.push((m, f)), p) && p.len() >= 2 && p[0] == p.last();
        lemma_path_with_extra_edge(edges, m, f, p);
        if is_path(edges, p) {
            assert(has_cycle(edges));
        } else {
            lemma_reach_trans(edges, f, p[0], m);
        }
    }
}

/// A graph whose edges all belong to a graph without cycles has no cycle either.
pub proof fn lemma_subgraph_no_cycle(big: Seq<(u32, u32)>, small: Seq<(u32, u32)>)
    requires
        !has_cycle(big),
        forall|k: int| 0 <= k < small.len() ==> has_edge(big, #[trigger] small[k].0, small[k].1),
    ensures
        !has_cycle(small),
{
    if has_cycle(small) {
        let p = choose|p: Seq<u32>| #[trigger] is_path(small, p) && p.len() >= 2 && p[0] == p.last();
        assert forall|i: int| 0 <= i < p.len() - 1 implies #[trigger] step_ok(big, p, i) by {
            assert(step_ok(small, p, i));
            let k = choose|k: int| 0 <= k < small.len() && small[k] == (p[i], p[i + 1]);
            assert(has_edge(big, small[k].0, small[k].1));
        }
        assert(is_path(big, p));
    }
}

} // verus!
