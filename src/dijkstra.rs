use vstd::prelude::*;

verus! {

/// A graph vertex with a stable integer identity.
pub trait Vertex {
    spec fn spec_id(&self) -> usize;

    fn get_id(&self) -> (r: usize)
        ensures
            r == self.spec_id(),
    ;
}

/// A graph given by its vertices and each vertex's neighbours.
///
/// A walk from `from` is a sequence of traversable vertices, each adjacent to
/// the one before it, the first adjacent to `from`; `from` itself is not
/// part of the walk.
pub trait Pathfind<Node>: Sized {
    /// The graph's internal consistency.
    spec fn graph_wf(&self) -> bool;

    /// `v` is one of the graph's vertices, traversable or not.
    spec fn is_vertex(&self, v: Node) -> bool;

    /// A walk may pass through `v`.
    spec fn traversable(&self, v: Node) -> bool;

    /// `a` and `b` are neighbours.
    spec fn adjacent(&self, a: Node, b: Node) -> bool;

    /// The traversable vertices, each once, in the graph's own order.
    spec fn vertex_seq(&self) -> Seq<Node>;

    /// The traversable neighbours of `v`, each once, in the graph's own order.
    spec fn neighbour_seq(&self, v: Node) -> Seq<Node>;

    fn get_all_verticies(&self) -> (r: Vec<Node>)
        requires
            self.graph_wf(),
        ensures
            r@ == self.vertex_seq(),
            r@.no_duplicates(),
            forall|v: Node| r@.contains(v) <==> self.is_vertex(v) && self.traversable(v),
    ;

    fn get_neighbours(&self, vertex: &Node) -> (r: Vec<Node>)
        requires
            self.graph_wf(),
            self.is_vertex(*vertex),
        ensures
            r@ == self.neighbour_seq(*vertex),
            r@.no_duplicates(),
            forall|w: Node|
                r@.contains(w) <==> self.is_vertex(w) && self.adjacent(*vertex, w)
                    && self.traversable(w),
    ;
}

/// `p` is a walk from `from` in `g`.
pub open spec fn is_walk<Node, G: Pathfind<Node>>(g: &G, from: Node, p: Seq<Node>) -> bool {
    forall|i: int|
        0 <= i < p.len() ==> {
            &&& g.is_vertex(#[trigger] p[i])
            &&& g.traversable(p[i])
            &&& g.adjacent(if i == 0 { from } else { p[i - 1] }, p[i])
        }
}

/// `p` is a non-empty walk from `start` that ends at `end`.
pub open spec fn is_path<Node, G: Pathfind<Node>>(g: &G, start: Node, end: Node, p: Seq<Node>) -> bool {
    p.len() > 0 && p.last() == end && is_walk(g, start, p)
}

/// Some walk leads from `start` to `end`.
pub open spec fn reachable<Node, G: Pathfind<Node>>(g: &G, start: Node, end: Node) -> bool {
    exists|p: Seq<Node>| is_path(g, start, end, p)
}

} // verus!
