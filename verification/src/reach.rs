//! Walks, reachability and shortest-path distance over any [`GraphOps`]
//! representation, stated purely in terms of its `spec_edge` relation.

use vstd::prelude::*;

use crate::graph::GraphOps;

verus! {

/// `p` is a walk in `g`: it is non-empty and consecutive elements are joined
/// by directed edges.
pub open spec fn is_path<G: GraphOps>(g: &G, p: Seq<usize>) -> bool {
    &&& p.len() >= 1
    &&& forall|k: int|
        0 <= k < p.len() - 1 ==> g.spec_edge((#[trigger] p[k]) as int, p[k + 1] as int)
}

/// `v` can be reached from `s` by a walk of at most `k` edges.
pub open spec fn reaches_within<G: GraphOps>(g: &G, s: usize, v: usize, k: nat) -> bool {
    exists|p: Seq<usize>|
        is_path(g, p) && p.len() <= k + 1 && p.first() == s && p.last() == v
}

/// `v` can be reached from `s`; every vertex reaches itself by the trivial
/// walk, whether or not it is in range.
pub open spec fn reaches<G: GraphOps>(g: &G, s: usize, v: usize) -> bool {
    exists|k: nat| reaches_within(g, s, v, k)
}

/// The number of edges on a shortest walk from `s` to `v`. Its meaning is
/// published by [`lemma_dist_properties`]: it is attained by some walk, and no
/// shorter walk exists.
pub closed spec fn dist<G: GraphOps>(g: &G, s: usize, v: usize) -> nat
    recommends
        reaches(g, s, v),
{
    choose|k: nat|
        reaches_within(g, s, v, k) && !(exists|k2: nat| k2 < k && reaches_within(g, s, v, k2))
}

/// The trivial walk: `s` reaches itself within zero edges.
pub proof fn lemma_reaches_self<G: GraphOps>(g: &G, s: usize)
    ensures
        reaches_within(g, s, s, 0),
        reaches(g, s, s),
{
    let p = seq![s];
    assert(is_path(g, p));
    assert(p.first() == s && p.last() == s);
    assert(reaches_within(g, s, s, 0));
}

/// Extending a walk by one edge.
pub proof fn lemma_step_within<G: GraphOps>(g: &G, s: usize, u: usize, w: usize, k: nat)
    requires
        reaches_within(g, s, u, k),
        g.spec_edge(u as int, w as int),
    ensures
        reaches_within(g, s, w, k + 1),
{
    let p = choose|p: Seq<usize>|
        is_path(g, p) && p.len() <= k + 1 && p.first() == s && p.last() == u;
    let q = p.push(w);
    assert forall|j: int| 0 <= j < q.len() - 1 implies g.spec_edge(
        (#[trigger] q[j]) as int,
        q[j + 1] as int,
    ) by {
        if j < p.len() - 1 {
            assert(q[j] == p[j] && q[j + 1] == p[j + 1]);
            assert(g.spec_edge((p[j]) as int, p[j + 1] as int));
        } else {
            assert(q[j] == p.last() && q[j + 1] == w);
        }
    }
    assert(is_path(g, q));
    assert(q.first() == s && q.last() == w && q.len() <= k + 2);
}

proof fn lemma_minimum_exists<G: GraphOps>(g: &G, s: usize, v: usize, k: nat)
    requires
        reaches_within(g, s, v, k),
    ensures
        exists|m: nat|
            reaches_within(g, s, v, m) && !(exists|k2: nat| k2 < m && reaches_within(g, s, v, k2)),
    decreases k,
{
    if exists|k2: nat| k2 < k && reaches_within(g, s, v, k2) {
        let k2 = choose|k2: nat| k2 < k && reaches_within(g, s, v, k2);
        lemma_minimum_exists(g, s, v, k2);
    } else {
        assert(reaches_within(g, s, v, k) && !(exists|k2: nat|
            k2 < k && reaches_within(g, s, v, k2)));
    }
}

/// `dist` names a shortest walk length: it is attained, and no shorter walk
/// exists.
pub proof fn lemma_dist_properties<G: GraphOps>(g: &G, s: usize, v: usize)
    requires
        reaches(g, s, v),
    ensures
        reaches_within(g, s, v, dist(g, s, v)),
        forall|k: nat| reaches_within(g, s, v, k) ==> dist(g, s, v) <= k,
{
    let k0 = choose|k: nat| reaches_within(g, s, v, k);
    lemma_minimum_exists(g, s, v, k0);
    let d = dist(g, s, v);
    assert(reaches_within(g, s, v, d) && !(exists|k2: nat| k2 < d && reaches_within(g, s, v, k2)));
}

/// A vertex is at distance zero from itself.
pub proof fn lemma_dist_self<G: GraphOps>(g: &G, s: usize)
    ensures
        reaches(g, s, s),
        dist(g, s, s) == 0,
{
    lemma_reaches_self(g, s);
    lemma_dist_properties(g, s, s);
}

/// Following one edge raises the distance by at most one.
pub proof fn lemma_dist_step<G: GraphOps>(g: &G, s: usize, u: usize, w: usize)
    requires
        reaches(g, s, u),
        g.spec_edge(u as int, w as int),
    ensures
        reaches(g, s, w),
        dist(g, s, w) <= dist(g, s, u) + 1,
{
    lemma_dist_properties(g, s, u);
    lemma_step_within(g, s, u, w, dist(g, s, u));
    lemma_dist_properties(g, s, w);
}

/// Only the start vertex itself is at distance zero.
pub proof fn lemma_dist_zero<G: GraphOps>(g: &G, s: usize, v: usize)
    requires
        reaches(g, s, v),
        dist(g, s, v) == 0,
    ensures
        v == s,
{
    lemma_dist_properties(g, s, v);
    assert(reaches_within(g, s, v, 0));
    let p = choose|p: Seq<usize>|
        is_path(g, p) && p.len() <= 0 + 1 && p.first() == s && p.last() == v;
    assert(p.len() == 1);
    assert(p.first() == p.last());
}

/// A vertex at positive distance has a predecessor one step closer to `s`.
pub proof fn lemma_dist_pred<G: GraphOps>(g: &G, s: usize, v: usize)
    requires
        reaches(g, s, v),
        dist(g, s, v) > 0,
    ensures
        exists|u: usize|
            reaches(g, s, u) && dist(g, s, u) == dist(g, s, v) - 1
                && g.spec_edge(u as int, v as int),
{
    let d = dist(g, s, v);
    lemma_dist_properties(g, s, v);
    let p = choose|p: Seq<usize>|
        is_path(g, p) && p.len() <= d + 1 && p.first() == s && p.last() == v;
    if p.len() == 1 {
        assert(v == s);
        lemma_reaches_self(g, s);
        assert(dist(g, s, v) <= 0);
        assert(false);
    }
    let u = p[p.len() - 2];
    let q = p.drop_last();
    assert forall|j: int| 0 <= j < q.len() - 1 implies g.spec_edge(
        (#[trigger] q[j]) as int,
        q[j + 1] as int,
    ) by {
        assert(q[j] == p[j] && q[j + 1] == p[j + 1]);
        assert(g.spec_edge((p[j]) as int, p[j + 1] as int));
    }
    assert(is_path(g, q));
    assert(q.last() == u && q.first() == s);
    assert(q.len() <= d);
    assert(reaches_within(g, s, u, (d - 1) as nat));
    assert(reaches(g, s, u));
    lemma_dist_properties(g, s, u);
    assert(dist(g, s, u) <= d - 1);
    assert(g.spec_edge((p[p.len() - 2]) as int, p[p.len() - 1] as int));
    assert(g.spec_edge(u as int, v as int));
    if dist(g, s, u) < d - 1 {
        lemma_step_within(g, s, u, v, dist(g, s, u));
        assert(reaches_within(g, s, v, dist(g, s, u) + 1));
        assert(dist(g, s, v) <= dist(g, s, u) + 1);
        assert(false);
    }
    assert(reaches(g, s, u) && dist(g, s, u) == dist(g, s, v) - 1 && g.spec_edge(
        u as int,
        v as int,
    ));
}

/// From a start vertex that is out of range only the start itself is
/// reachable: no edge can leave it.
pub proof fn lemma_out_of_range_start<G: GraphOps>(g: &G, s: usize, v: usize)
    requires
        g.inv(),
        s >= g.spec_vertex_count(),
        reaches(g, s, v),
    ensures
        v == s,
{
    let k = choose|k: nat| reaches_within(g, s, v, k);
    let p = choose|p: Seq<usize>|
        is_path(g, p) && p.len() <= k + 1 && p.first() == s && p.last() == v;
    if p.len() >= 2 {
        assert(g.spec_edge((p[0]) as int, p[1] as int));
        g.lemma_edge_in_range(p[0] as int, p[1] as int);
        assert(false);
    }
}

} // verus!
