//! Dense adjacency-matrix graph store and the neighbor-iteration contract.
//!
//! Vertex identifiers are dense zero-based indices into the vertex table.
//! The adjacency matrix is always square, with side length equal to the
//! vertex count; a cell holds `Weight::Infinity` when no edge is present.

use vstd::prelude::*;

verus! {

/// An edge weight: either no edge (`Infinity`) or a concrete magnitude.
#[derive(Debug, Clone, Copy, PartialEq, Eq, Structural)]
pub enum Weight {
    Infinity,
    Value(i32),
}

/// The neighbor-iteration capability: any graph representation that can
/// report a vertex's outgoing neighbors in ascending identifier order.
///
/// `spec_edge(x, y)` is the representation's own statement of which directed
/// edges exist; the two executable queries are specified against it, so a
/// traversal algorithm written over this trait never looks at the storage.
pub trait GraphOps: Sized {
    /// Well-formedness of the representation; the executable queries assume it.
    spec fn inv(&self) -> bool;

    /// How many vertices the graph holds.
    spec fn spec_vertex_count(&self) -> nat;

    /// Whether a directed edge from `x` to `y` exists.
    spec fn spec_edge(&self, x: int, y: int) -> bool;

    /// Every edge connects vertices that are in range.
    proof fn lemma_edge_in_range(&self, x: int, y: int)
        requires
            self.inv(),
        ensures
            self.spec_edge(x, y) ==> 0 <= x < self.spec_vertex_count()
                && 0 <= y < self.spec_vertex_count(),
    ;

    fn vertex_count(&self) -> (n: usize)
        requires
            self.inv(),
        ensures
            n == self.spec_vertex_count(),
    ;

    /// The lowest-indexed destination with an edge from `x`, if any.
    fn first_neighbor(&self, x: usize) -> (r: Option<usize>)
        requires
            self.inv(),
        ensures
            match r {
                Some(y) => self.spec_edge(x as int, y as int)
                    && forall|z: int| 0 <= z < y ==> !self.spec_edge(x as int, z),
                None => forall|z: int| !self.spec_edge(x as int, z),
            },
    ;

    /// The lowest-indexed destination strictly greater than `y` with an edge
    /// from `x`, if any.
    fn next_neighbor(&self, x: usize, y: usize) -> (r: Option<usize>)
        requires
            self.inv(),
        ensures
            match r {
                Some(w) => y < w && self.spec_edge(x as int, w as int)
                    && forall|z: int| y < z < w ==> !self.spec_edge(x as int, z),
                None => forall|z: int| z > y ==> !self.spec_edge(x as int, z),
            },
    ;
}

/// Adjacency-matrix graph: `vertex[i]` is the payload of vertex `i`, and
/// `edge[i][j]` is the weight of the directed edge from `i` to `j`.
#[derive(Debug, Clone)]
pub struct MGraph<T> {
    pub vertex: Vec<T>,
    pub edge: Vec<Vec<Weight>>,
}

impl<T> MGraph<T> {
    /// The matrix is square with side length equal to the vertex count.
    pub open spec fn wf(self) -> bool {
        &&& self.edge.len() == self.vertex.len()
        &&& forall|i: int|
            0 <= i < self.edge.len() ==> (#[trigger] self.edge[i])@.len() == self.vertex.len()
    }

    /// A directed edge from `x` to `y` is a matrix cell holding a `Value`.
    pub open spec fn has_edge(self, x: int, y: int) -> bool {
        &&& 0 <= x < self.edge.len()
        &&& 0 <= y < self.edge[x]@.len()
        &&& self.edge[x]@[y] is Value
    }

    /// Every matrix cell still holds `Infinity`: no edge has been set.
    pub open spec fn all_no_edge(self) -> bool {
        forall|x: int, y: int| !self.has_edge(x, y)
    }

    pub fn new() -> (g: Self)
        ensures
            g.wf(),
            g.vertex@.len() == 0,
            g.edge@.len() == 0,
            g.all_no_edge(),
    {
        Self { vertex: Vec::new(), edge: Vec::new() }
    }

    /// Appends a payload, grows the matrix by one `Infinity`-filled row and
    /// column, and returns the new vertex's identifier (the previous count).
    pub fn add_node(&mut self, data: T) -> (id: usize)
        requires
            old(self).wf(),
            old(self).vertex@.len() < usize::MAX,
        ensures
            final(self).wf(),
            id == old(self).vertex@.len(),
            final(self).vertex@ == old(self).vertex@.push(data),
            final(self).edge@.len() == old(self).edge@.len() + 1,
            forall|i: int|
                0 <= i < old(self).edge@.len() ==> (#[trigger] final(self).edge[i])@
                    == old(self).edge[i]@.push(Weight::Infinity),
            forall|j: int| 0 <= j <= id ==> final(self).edge[id as int]@[j] is Infinity,
            forall|x: int, y: int|
                #[trigger] final(self).has_edge(x, y) <==> old(self).has_edge(x, y),
            old(self).all_no_edge() ==> final(self).all_no_edge(),
    {
        let id = self.vertex.len();
        self.vertex.push(data);
        let mut i: usize = 0;
        while i < self.edge.len()
            invariant
                i <= self.edge@.len(),
                self.vertex@ == old(self).vertex@.push(data),
                id == old(self).vertex@.len(),
                self.edge@.len() == old(self).edge@.len(),
                forall|k: int|
                    0 <= k < i ==> (#[trigger] self.edge[k])@
                        == old(self).edge[k]@.push(Weight::Infinity),
                forall|k: int| i <= k < self.edge@.len() ==> self.edge[k] == old(self).edge[k],
            decreases self.edge@.len() - i,
        {
            self.edge[i].push(Weight::Infinity);
            i = i + 1;
        }
        let mut row: Vec<Weight> = Vec::new();
        let mut j: usize = 0;
        while j < id + 1
            invariant
                row@.len() == j,
                j <= id + 1,
                id < usize::MAX,
                forall|k: int| 0 <= k < j ==> row@[k] is Infinity,
            decreases id + 1 - j,
        {
            row.push(Weight::Infinity);
            j = j + 1;
        }
        self.edge.push(row);
        proof {
            assert forall|x: int, y: int| #[trigger]
                self.has_edge(x, y) <==> old(self).has_edge(x, y) by {
                if 0 <= x < old(self).edge@.len() {
                    assert(self.edge[x]@ == old(self).edge[x]@.push(Weight::Infinity));
                }
            }
        }
        id
    }

    /// Sets the matrix cell `(start, end)` to `Value(weight)`. If either
    /// endpoint is out of range, the graph is left unchanged.
    pub fn add_edge(&mut self, start: usize, end: usize, weight: i32)
        requires
            old(self).wf(),
        ensures
            final(self).wf(),
            final(self).vertex@ == old(self).vertex@,
            start < old(self).vertex@.len() && end < old(self).vertex@.len() ==> {
                &&& final(self).edge[start as int]@
                    == old(self).edge[start as int]@.update(end as int, Weight::Value(weight))
                &&& forall|i: int|
                    0 <= i < old(self).edge@.len() && i != start
                        ==> final(self).edge[i] == old(self).edge[i]
            },
            !(start < old(self).vertex@.len() && end < old(self).vertex@.len())
                ==> *final(self) == *old(self),
            forall|x: int, y: int|
                #[trigger] final(self).has_edge(x, y)
                    <==> (old(self).has_edge(x, y)
                        || (x == start && y == end && start < old(self).vertex@.len()
                            && end < old(self).vertex@.len())),
    {
        if start < self.vertex.len() && end < self.vertex.len() {
            self.edge[start][end] = Weight::Value(weight);
        }
    }

    /// Returns the payload of vertex `id`, or `None` when `id` is out of range.
    pub fn get_data(&self, id: usize) -> (r: Option<&T>)
        ensures
            match r {
                Some(d) => id < self.vertex@.len() && *d == self.vertex@[id as int],
                None => id >= self.vertex@.len(),
            },
    {
        if id < self.vertex.len() {
            Some(&self.vertex[id])
        } else {
            None
        }
    }
}

impl<T> GraphOps for MGraph<T> {
    open spec fn inv(&self) -> bool {
        self.wf()
    }

    open spec fn spec_vertex_count(&self) -> nat {
        self.vertex@.len()
    }

    open spec fn spec_edge(&self, x: int, y: int) -> bool {
        self.has_edge(x, y)
    }

    proof fn lemma_edge_in_range(&self, x: int, y: int) {
    }

    fn vertex_count(&self) -> (n: usize) {
        self.vertex.len()
    }

    fn first_neighbor(&self, x: usize) -> (r: Option<usize>) {
        if x < self.edge.len() {
            let row = &self.edge[x];
            let mut j: usize = 0;
            while j < row.len()
                invariant
                    row == self.edge[x as int],
                    x < self.edge@.len(),
                    j <= row@.len(),
                    forall|z: int| 0 <= z < j ==> !self.spec_edge(x as int, z),
                decreases row@.len() - j,
            {
                if let Weight::Value(_) = row[j] {
                    return Some(j);
                }
                j = j + 1;
            }
        }
        None
    }

    fn next_neighbor(&self, x: usize, y: usize) -> (r: Option<usize>) {
        if x < self.edge.len() {
            let row = &self.edge[x];
            if y < row.len() {
                let mut j: usize = y + 1;
                while j < row.len()
                    invariant
                        row == self.edge[x as int],
                        x < self.edge@.len(),
                        y < j <= row@.len(),
                        forall|z: int| y < z < j ==> !self.spec_edge(x as int, z),
                    decreases row@.len() - j,
                {
                    if let Weight::Value(_) = row[j] {
                        return Some(j);
                    }
                    j = j + 1;
                }
            }
        }
        None
    }
}

} // verus!
