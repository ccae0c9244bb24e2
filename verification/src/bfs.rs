//! Breadth-first traversal over any [`GraphOps`] representation.
//!
//! The traversal is written once, against the neighbor-iteration contract
//! alone, and the blanket implementation gives it to every conforming graph.

use vstd::prelude::*;
use vstd::set_lib::lemma_int_range;
use vstd::set_lib::lemma_len_subset;
use vstd::set_lib::set_int_range;

use crate::graph::GraphOps;
use crate::reach::dist;
use crate::reach::lemma_dist_pred;
use crate::reach::lemma_dist_properties;
use crate::reach::lemma_dist_self;
use crate::reach::lemma_dist_step;
use crate::reach::lemma_dist_zero;
use crate::reach::lemma_out_of_range_start;
use crate::reach::lemma_reaches_self;
use crate::reach::is_path;
use crate::reach::reaches;
use crate::reach::reaches_within;

verus! {

/// The visited sequence is ordered by breadth-first layer: distances from the
/// start are non-decreasing across it.
pub open spec fn sorted_by_dist<G: GraphOps>(g: &G, start: usize, order: Seq<usize>) -> bool {
    forall|i: int, j: int|
        #![trigger order[i], order[j]]
        0 <= i <= j < order.len() ==> dist(g, start, order[i]) <= dist(g, start, order[j])
}

/// Every recorded vertex identifier is in range.
spec fn all_in_range(order: Seq<usize>, n: nat) -> bool {
    forall|k: int| 0 <= k < order.len() ==> (#[trigger] order[k]) < n
}

/// The discovered flags agree with membership in the visited sequence.
spec fn disc_matches(disc: Seq<bool>, order: Seq<usize>) -> bool {
    forall|v: int| 0 <= v < disc.len() ==> ((#[trigger] disc[v]) <==> order.contains(v as usize))
}

/// Every recorded vertex is reachable from the start.
spec fn all_reached<G: GraphOps>(g: &G, start: usize, order: Seq<usize>) -> bool {
    forall|k: int| 0 <= k < order.len() ==> reaches(g, start, #[trigger] order[k])
}

/// Every neighbor of a processed vertex (one before index `head`) has been
/// discovered.
spec fn processed_closed<G: GraphOps>(
    g: &G,
    order: Seq<usize>,
    head: int,
    disc: Seq<bool>,
) -> bool {
    forall|k: int, w: int|
        0 <= k < head && 0 <= w < disc.len() && #[trigger] g.spec_edge(order[k] as int, w)
            ==> disc[w]
}

/// Neighbors of `u` below `bound` have all been discovered.
spec fn neighbors_done<G: GraphOps>(g: &G, u: usize, disc: Seq<bool>, bound: int) -> bool {
    forall|z: int|
        0 <= z < bound && z < disc.len() && #[trigger] g.spec_edge(u as int, z) ==> disc[z]
}

/// Measure for enumerating one vertex's neighbors in ascending order.
spec fn neigh_measure(cur: Option<usize>, n: nat) -> int {
    match cur {
        Some(w) => n - w,
        None => 0,
    }
}

/// A duplicate-free sequence of identifiers below `n` has at most `n` entries.
proof fn lemma_bounded_distinct_len(s: Seq<usize>, n: nat)
    requires
        s.no_duplicates(),
        forall|k: int| 0 <= k < s.len() ==> (#[trigger] s[k]) < n,
    ensures
        s.len() <= n,
{
    let f = |u: usize| u as int;
    let si = s.map_values(f);
    assert(si.no_duplicates()) by {
        s.lemma_no_duplicates_injective(f);
    }
    si.unique_seq_to_set();
    assert(si.to_set().subset_of(set_int_range(0, n as int))) by {
        assert forall|x: int| si.to_set().contains(x) implies set_int_range(0, n as int).contains(
            x,
        ) by {
            let k = choose|k: int| 0 <= k < si.len() && si[k] == x;
            assert(s[k] < n);
        }
    }
    lemma_int_range(0, n as int);
    lemma_len_subset(si.to_set(), set_int_range(0, n as int));
}

/// While the head vertex is still unprocessed, every vertex strictly closer
/// to the start than the head has already been discovered.
proof fn lemma_level_complete<G: GraphOps>(
    g: &G,
    start: usize,
    order: Seq<usize>,
    head: int,
    disc: Seq<bool>,
    n: nat,
    v: usize,
)
    requires
        g.inv(),
        n == g.spec_vertex_count(),
        start < n,
        0 <= head < order.len(),
        order.len() >= 1,
        order[0] == start,
        disc.len() == n,
        disc_matches(disc, order),
        processed_closed(g, order, head, disc),
        sorted_by_dist(g, start, order),
        reaches(g, start, v),
        dist(g, start, v) < dist(g, start, order[head]),
    ensures
        order.contains(v),
    decreases dist(g, start, v),
{
    if dist(g, start, v) == 0 {
        lemma_dist_zero(g, start, v);
        assert(order[0] == v);
    } else {
        lemma_dist_pred(g, start, v);
        let u = choose|u: usize|
            reaches(g, start, u) && dist(g, start, u) == dist(g, start, v) - 1 && g.spec_edge(
                u as int,
                v as int,
            );
        lemma_level_complete(g, start, order, head, disc, n, u);
        let k = choose|k: int| 0 <= k < order.len() && order[k] == u;
        if k >= head {
            assert(dist(g, start, order[head]) <= dist(g, start, order[k]));
            assert(false);
        }
        g.lemma_edge_in_range(u as int, v as int);
        assert(disc[v as int]);
    }
}

/// An edge found from the head vertex to an undiscovered vertex leads to the
/// next breadth-first layer: the new vertex is exactly one step farther.
proof fn lemma_fresh_neighbor_dist<G: GraphOps>(
    g: &G,
    start: usize,
    order: Seq<usize>,
    head: int,
    disc: Seq<bool>,
    n: nat,
    u: usize,
    w: usize,
)
    requires
        g.inv(),
        n == g.spec_vertex_count(),
        start < n,
        0 <= head < order.len(),
        order[0] == start,
        disc.len() == n,
        disc_matches(disc, order),
        processed_closed(g, order, head, disc),
        sorted_by_dist(g, start, order),
        all_reached(g, start, order),
        u == order[head],
        g.spec_edge(u as int, w as int),
        w < n,
        !disc[w as int],
    ensures
        reaches(g, start, w),
        dist(g, start, w) == dist(g, start, u) + 1,
{
    assert(reaches(g, start, u));
    lemma_dist_step(g, start, u, w);
    if dist(g, start, w) <= dist(g, start, u) {
        if dist(g, start, w) == 0 {
            lemma_dist_zero(g, start, w);
            assert(order.contains(start));
            assert(disc[w as int]);
            assert(false);
        } else {
            lemma_dist_pred(g, start, w);
            let p = choose|p: usize|
                reaches(g, start, p) && dist(g, start, p) == dist(g, start, w) - 1 && g.spec_edge(
                    p as int,
                    w as int,
                );
            lemma_level_complete(g, start, order, head, disc, n, p);
            let k = choose|k: int| 0 <= k < order.len() && order[k] == p;
            if k >= head {
                assert(dist(g, start, order[head]) <= dist(g, start, order[k]));
                assert(false);
            }
            assert(disc[w as int]);
            assert(false);
        }
    }
}

/// Every element of a walk whose first vertex was visited is visited, once
/// every visited vertex has been processed.
proof fn lemma_path_discovered<G: GraphOps>(
    g: &G,
    order: Seq<usize>,
    disc: Seq<bool>,
    n: nat,
    p: Seq<usize>,
)
    requires
        g.inv(),
        n == g.spec_vertex_count(),
        disc.len() == n,
        disc_matches(disc, order),
        processed_closed(g, order, order.len() as int, disc),
        is_path(g, p),
        order.contains(p.first()),
    ensures
        order.contains(p.last()),
    decreases p.len(),
{
    if p.len() == 1 {
        assert(p.first() == p.last());
    } else {
        let q = p.drop_last();
        assert forall|j: int| 0 <= j < q.len() - 1 implies g.spec_edge(
            (#[trigger] q[j]) as int,
            q[j + 1] as int,
        ) by {
            assert(q[j] == p[j] && q[j + 1] == p[j + 1]);
            assert(g.spec_edge((p[j]) as int, p[j + 1] as int));
        }
        assert(is_path(g, q));
        assert(q.first() == p.first());
        lemma_path_discovered(g, order, disc, n, q);
        let u = q.last();
        assert(g.spec_edge((p[p.len() - 2]) as int, p[p.len() - 1] as int));
        assert(u == p[p.len() - 2]);
        g.lemma_edge_in_range(u as int, p.last() as int);
        let k = choose|k: int| 0 <= k < order.len() && order[k] == u;
        assert(g.spec_edge(order[k] as int, p.last() as int));
        assert(disc[p.last() as int]);
    }
}

/// Once every visited vertex has had all its neighbors discovered, every
/// vertex reachable from the start has been visited.
proof fn lemma_bfs_complete<G: GraphOps>(
    g: &G,
    start: usize,
    order: Seq<usize>,
    disc: Seq<bool>,
    n: nat,
    v: usize,
)
    requires
        g.inv(),
        n == g.spec_vertex_count(),
        order.len() >= 1,
        order[0] == start,
        disc.len() == n,
        disc_matches(disc, order),
        processed_closed(g, order, order.len() as int, disc),
        reaches(g, start, v),
    ensures
        order.contains(v),
{
    let k = choose|k: nat| reaches_within(g, start, v, k);
    let p = choose|p: Seq<usize>|
        is_path(g, p) && p.len() <= k + 1 && p.first() == start && p.last() == v;
    assert(order.contains(start));
    lemma_path_discovered(g, order, disc, n, p);
}

/// Breadth-first traversal, available to every graph representation that
/// implements the neighbor-iteration contract.
pub trait BFS: GraphOps {
    /// Visits every vertex reachable from `start`, each exactly once, in
    /// breadth-first order with ties broken by ascending identifier, and
    /// returns the identifiers in visit order.
    ///
    /// The start vertex is always reported first, even when it is out of
    /// range; an out-of-range start has no outgoing edges, so it is then the
    /// only vertex visited.
    fn bfs_traverse(&self, start: usize) -> (order: Vec<usize>)
        requires
            self.inv(),
        ensures
            order@.len() >= 1,
            order@[0] == start,
            order@.no_duplicates(),
            forall|v: usize| #[trigger] order@.contains(v) <==> reaches(self, start, v),
            sorted_by_dist(self, start, order@),
    {
        let n = self.vertex_count();
        let mut order: Vec<usize> = Vec::new();
        order.push(start);
        proof {
            lemma_reaches_self(self, start);
            assert(order@[0] == start);
        }
        if start >= n {
            proof {
                assert forall|v: usize| #[trigger]
                    order@.contains(v) <==> reaches(self, start, v) by {
                    if order@.contains(v) {
                        let k = choose|k: int| 0 <= k < order@.len() && order@[k] == v;
                        assert(k == 0);
                    }
                    if reaches(self, start, v) {
                        lemma_out_of_range_start(self, start, v);
                        assert(order@.contains(start));
                    }
                }
            }
            return order;
        }
        let mut discovered: Vec<bool> = Vec::new();
        let mut t: usize = 0;
        while t < n
            invariant
                t <= n,
                discovered@.len() == t,
                forall|k: int| 0 <= k < t ==> !(#[trigger] discovered@[k]),
            decreases n - t,
        {
            discovered.push(false);
            t = t + 1;
        }
        discovered[start] = true;
        proof {
            lemma_dist_self(self, start);
            assert forall|v: int| 0 <= v < discovered@.len() implies ((#[trigger] discovered@[v])
                <==> order@.contains(v as usize)) by {
                if v == start {
                    assert(order@[0] == start);
                    assert(order@.contains(start));
                } else {
                    if order@.contains(v as usize) {
                        let k = choose|k: int| 0 <= k < order@.len() && order@[k] == v as usize;
                        assert(k == 0);
                        assert(false);
                    }
                }
            }
        }
        let mut head: usize = 0;
        while head < order.len()
            invariant
                self.inv(),
                n == self.spec_vertex_count(),
                start < n,
                discovered@.len() == n,
                head <= order@.len(),
                order@.len() <= n,
                order@.len() >= 1,
                order@[0] == start,
                order@.no_duplicates(),
                all_in_range(order@, n as nat),
                disc_matches(discovered@, order@),
                all_reached(self, start, order@),
                processed_closed(self, order@, head as int, discovered@),
                sorted_by_dist(self, start, order@),
                head < order@.len() ==> dist(self, start, order@[order@.len() - 1]) <= dist(
                    self,
                    start,
                    order@[head as int],
                ) + 1,
            decreases n - head,
        {
            let u = order[head];
            let ghost du = dist(self, start, u);
            proof {
                assert(reaches(self, start, u));
            }
            let mut cur = self.first_neighbor(u);
            proof {
                if cur is Some {
                    self.lemma_edge_in_range(u as int, cur->0 as int);
                }
            }
            while cur.is_some()
                invariant
                    self.inv(),
                    n == self.spec_vertex_count(),
                    start < n,
                    discovered@.len() == n,
                    head < order@.len(),
                    order@.len() <= n,
                    order@.len() >= 1,
                    order@[0] == start,
                    u == order@[head as int],
                    du == dist(self, start, u),
                    order@.no_duplicates(),
                    all_in_range(order@, n as nat),
                    disc_matches(discovered@, order@),
                    all_reached(self, start, order@),
                    processed_closed(self, order@, head as int, discovered@),
                    sorted_by_dist(self, start, order@),
                    dist(self, start, order@[order@.len() - 1]) <= du + 1,
                    match cur {
                        Some(w) => w < n && self.spec_edge(u as int, w as int) && neighbors_done(
                            self,
                            u,
                            discovered@,
                            w as int,
                        ),
                        None => neighbors_done(self, u, discovered@, n as int),
                    },
                decreases neigh_measure(cur, n as nat),
            {
                let w = cur.unwrap();
                if !discovered[w] {
                    proof {
                        lemma_fresh_neighbor_dist(
                            self,
                            start,
                            order@,
                            head as int,
                            discovered@,
                            n as nat,
                            u,
                            w,
                        );
                        assert(!order@.contains(w));
                    }
                    let ghost prev = order@;
                    let ghost prev_disc = discovered@;
                    discovered[w] = true;
                    order.push(w);
                    proof {
                        assert(order@ == prev.push(w));
                        assert(order@.no_duplicates()) by {
                            assert forall|i: int, j: int|
                                0 <= i < order@.len() && 0 <= j < order@.len() && i != j implies
                                order@[i] != order@[j] by {
                                if i < prev.len() && j < prev.len() {
                                } else if j == prev.len() {
                                    assert(order@[i] == prev[i]);
                                    if prev[i] == w {
                                        assert(prev.contains(w));
                                    }
                                } else {
                                    assert(order@[j] == prev[j]);
                                    if prev[j] == w {
                                        assert(prev.contains(w));
                                    }
                                }
                            }
                        }
                        assert(disc_matches(discovered@, order@)) by {
                            assert forall|v: int| 0 <= v < discovered@.len() implies ((
                            #[trigger] discovered@[v]) <==> order@.contains(v as usize)) by {
                                if v == w {
                                    assert(order@[prev.len() as int] == w);
                                    assert(order@.contains(w));
                                } else {
                                    if prev.contains(v as usize) {
                                        let k = choose|k: int|
                                            0 <= k < prev.len() && prev[k] == v as usize;
                                        assert(order@[k] == v as usize);
                                        assert(order@.contains(v as usize));
                                    }
                                    if order@.contains(v as usize) {
                                        let k = choose|k: int|
                                            0 <= k < order@.len() && order@[k] == v as usize;
                                        assert(k < prev.len());
                                        assert(prev.contains(v as usize));
                                    }
                                    assert(prev_disc[v] <==> prev.contains(v as usize));
                                }
                            }
                        }
                        assert(sorted_by_dist(self, start, order@)) by {
                            assert forall|i: int, j: int|
                                #![trigger order@[i], order@[j]]
                                0 <= i <= j < order@.len() implies dist(self, start, order@[i])
                                <= dist(self, start, order@[j]) by {
                                if j < prev.len() {
                                    assert(order@[i] == prev[i] && order@[j] == prev[j]);
                                } else {
                                    assert(order@[j] == w);
                                    assert(dist(self, start, w) == du + 1);
                                    if i < prev.len() {
                                        assert(order@[i] == prev[i]);
                                        assert(dist(self, start, prev[i]) <= dist(
                                            self,
                                            start,
                                            prev[prev.len() - 1],
                                        ));
                                    }
                                }
                            }
                        }
                        assert(order@.len() <= n) by {
                            lemma_bounded_distinct_len(order@, n as nat);
                        }
                        assert(processed_closed(self, order@, head as int, discovered@)) by {
                            assert forall|k: int, z: int|
                                0 <= k < head && 0 <= z < discovered@.len() && #[trigger]
                                self.spec_edge(order@[k] as int, z) implies discovered@[z] by {
                                assert(order@[k] == prev[k]);
                                assert(prev_disc[z]);
                            }
                        }
                    }
                }
                cur = self.next_neighbor(u, w);
                proof {
                    if cur is Some {
                        self.lemma_edge_in_range(u as int, cur->0 as int);
                        let w2 = cur->0;
                        assert forall|z: int|
                            0 <= z < w2 && z < discovered@.len() && #[trigger] self.spec_edge(
                                u as int,
                                z,
                            ) implies discovered@[z] by {
                            if z < w {
                            } else if z == w {
                            } else {
                                assert(!self.spec_edge(u as int, z));
                            }
                        }
                    } else {
                        assert forall|z: int|
                            0 <= z < n && z < discovered@.len() && #[trigger] self.spec_edge(
                                u as int,
                                z,
                            ) implies discovered@[z] by {
                            if z < w {
                            } else if z == w {
                            } else {
                                assert(!self.spec_edge(u as int, z));
                            }
                        }
                    }
                }
            }
            head = head + 1;
            proof {
                assert(processed_closed(self, order@, head as int, discovered@)) by {
                    assert forall|k: int, z: int|
                        0 <= k < head && 0 <= z < discovered@.len() && #[trigger] self.spec_edge(
                            order@[k] as int,
                            z,
                        ) implies discovered@[z] by {
                        if k == head - 1 {
                            assert(order@[k] == u);
                            assert(neighbors_done(self, u, discovered@, n as int));
                        }
                    }
                }
                if head < order.len() {
                    assert(dist(self, start, order@[head - 1]) <= dist(
                        self,
                        start,
                        order@[head as int],
                    ));
                }
            }
        }
        proof {
            assert forall|v: usize| #[trigger] order@.contains(v) <==> reaches(self, start, v) by {
                if order@.contains(v) {
                    let k = choose|k: int| 0 <= k < order@.len() && order@[k] == v;
                    assert(reaches(self, start, order@[k]));
                }
                if reaches(self, start, v) {
                    lemma_bfs_complete(self, start, order@, discovered@, n as nat, v);
                }
            }
        }
        order
    }
}

/// Every graph representation with the neighbor-iteration contract gains the
/// traversal through its default implementation.
impl<G: GraphOps> BFS for G {
}

} // verus!
